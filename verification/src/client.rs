//! The client's verified core: the manager address it talks to.  The calls
//! themselves happen outside the library.
use vstd::prelude::*;

verus! {

/// A client of the manager.
pub struct Client {
    manager_addr: Vec<u8>,
}

impl Client {
    /// The manager's address.
    pub closed spec fn manager_addr_view(self) -> Seq<u8> {
        self.manager_addr@
    }

    /// A client that talks to the given manager address.
    pub fn new(manager_addr: Vec<u8>) -> (r: Self)
        ensures
            r.manager_addr_view() == manager_addr@,
    {
        Client { manager_addr }
    }

    /// The manager's address.
    pub fn manager_addr(&self) -> (r: &Vec<u8>)
        ensures
            r@ == self.manager_addr_view(),
    {
        &self.manager_addr
    }
}

} // verus!
