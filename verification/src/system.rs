//! System initialization: builds and validates the deployment
//! configuration.  Reading and writing configuration files happens outside
//! the library.
use vstd::prelude::*;

use crate::types::{AdsMode, SystemConfig};

verus! {

/// Builds the system configuration.  Fails exactly when the number of
/// storage-node addresses does not match, or when client addresses are given
/// but their number does not match.
pub fn initialize(
    num_clients: usize,
    num_storagers: usize,
    ads_mode: AdsMode,
    manager_addr: Vec<u8>,
    storager_addrs: Vec<Vec<u8>>,
    client_addrs: Vec<Vec<u8>>,
) -> (r: Result<SystemConfig, Vec<u8>>)
    ensures
        r is Ok <==> (storager_addrs@.len() == num_storagers && (client_addrs@.len() == 0
            || client_addrs@.len() == num_clients)),
        r is Ok ==> {
            &&& r->Ok_0.num_clients == num_clients
            &&& r->Ok_0.num_storagers == num_storagers
            &&& r->Ok_0.ads_mode == ads_mode
            &&& r->Ok_0.manager_addr@ == manager_addr@
            &&& r->Ok_0.storager_addrs == storager_addrs
            &&& r->Ok_0.client_addrs == client_addrs
        },
{
    if storager_addrs.len() != num_storagers {
        return Err(config_error_text());
    }
    if client_addrs.len() != 0 && client_addrs.len() != num_clients {
        return Err(config_error_text());
    }
    Ok(
        SystemConfig {
            num_clients,
            num_storagers,
            ads_mode,
            manager_addr,
            storager_addrs,
            client_addrs,
        },
    )
}

/// The message of a configuration mismatch: "address count mismatch".
fn config_error_text() -> (r: Vec<u8>)
{
    let mut out: Vec<u8> = Vec::new();
    out.push(97);
    out.push(100);
    out.push(100);
    out.push(114);
    out.push(101);
    out.push(115);
    out.push(115);
    out.push(32);
    out.push(99);
    out.push(111);
    out.push(117);
    out.push(110);
    out.push(116);
    out.push(32);
    out.push(109);
    out.push(105);
    out.push(115);
    out.push(109);
    out.push(97);
    out.push(116);
    out.push(99);
    out.push(104);
    out
}

} // verus!
