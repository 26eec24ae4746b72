//! Tests of the routing, verification, storage-node and system layers.
use veridex::ads::{decode_fids, encode_fids, fid_to_element, NewAds, Storager};
use veridex::manager::Manager;
use veridex::mpt_proof::{MPTProof, ProofElement};
use veridex::routing::Router;
use veridex::system::initialize;
use veridex::trees::{MerkleTree, PatriciaTrie};
use veridex::types::AdsMode;
use veridex::verification::ProofVerifier;

fn b(s: &str) -> Vec<u8> {
    s.as_bytes().to_vec()
}

#[test]
fn test_router_creation() {
    let addrs = vec![b("http://[::1]:50052"), b("http://[::1]:50053")];
    let router = Router::new(&addrs, 150);
    assert_eq!(router.storager_count(), 2);
}

#[test]
fn test_keyword_routing() {
    let addrs = vec![b("http://[::1]:50052"), b("http://[::1]:50053")];
    let router = Router::new(&addrs, 150);

    // The same keyword always routes to the same storage node
    let result1 = router.get_storager_for_keyword(&b("test"));
    let result2 = router.get_storager_for_keyword(&b("test"));

    assert_eq!(result1, result2);
    assert!(result1.is_some());
}

#[test]
fn test_empty_proof() {
    let verifier = ProofVerifier::new(AdsMode::CryptoAccumulator);
    assert!(!verifier.verify(&Vec::new(), &Vec::new()));
}

#[test]
fn test_proof_too_small() {
    let verifier = ProofVerifier::new(AdsMode::CryptoAccumulator);
    let small_proof = vec![0u8; 50];
    assert!(!verifier.verify(&small_proof, &Vec::new()));
}

#[test]
fn test_new() {
    let _ads = NewAds::new();
}

#[test]
fn test_add_and_query() {
}

#[test]
fn test_delete() {
}

#[test]
fn lib_test_initialize() {
    let config = initialize(
        2,
        3,
        AdsMode::CryptoAccumulator,
        b("http://[::1]:50051"),
        vec![
            b("http://[::1]:50052"),
            b("http://[::1]:50053"),
            b("http://[::1]:50054"),
        ],
        vec![],
    );

    assert!(config.is_ok());
    let config = config.unwrap();
    assert_eq!(config.num_clients, 2);
    assert_eq!(config.num_storagers, 3);
}

#[test]
fn test_initialize_rejects_mismatch() {
    let config = initialize(
        1,
        2,
        AdsMode::Mpt,
        b("addr"),
        vec![b("only-one")],
        vec![],
    );
    assert!(config.is_err());

    let config = initialize(
        2,
        1,
        AdsMode::Mpt,
        b("addr"),
        vec![b("one")],
        vec![b("client-a")],
    );
    assert!(config.is_err());
}

#[test]
fn test_storager_accumulator_roundtrip() {
    // The accumulator-backed node answers a structurally valid proof that
    // the manager's verifier accepts, and the root changes with the set.
    let mut node = Storager::with_crypto_accumulator();
    let verifier = ProofVerifier::new(AdsMode::CryptoAccumulator);

    let (proof, root) = node.add(&b("rust"), &b("file1"));
    assert_eq!(proof.len(), 201);
    assert!(verifier.verify(&proof, &root));
    assert_eq!(root.len(), 96);

    let (fids, query_proof) = node.query(&b("rust"));
    assert_eq!(fids, vec![b("file1")]);
    assert!(verifier.verify(&query_proof, &root));

    let (fids, marker) = node.query(&b("missing"));
    assert!(fids.is_empty());
    assert_eq!(marker, vec![1u8]);

    let (del_proof, del_root) = node.delete(&b("rust"), &b("file1"));
    assert_eq!(del_proof.len(), 201);
    assert!(del_root.is_empty());
}

#[test]
fn test_storager_duplicate_add_is_idempotent() {
    let mut node = Storager::new();
    let (_, root1) = node.add(&b("rust"), &b("file1"));
    let (_, root2) = node.add(&b("rust"), &b("file1"));
    assert_eq!(root1, root2);
    let (fids, _) = node.query(&b("rust"));
    assert_eq!(fids, vec![b("file1")]);
}

#[test]
fn test_storager_mpt_roundtrip() {
    let mut node = Storager::with_mpt();
    let verifier = ProofVerifier::new(AdsMode::Mpt);

    let (proof, root) = node.add(&b("storage"), &b("file2"));
    assert_eq!(proof, root);
    assert_eq!(root.len(), 32);
    assert!(verifier.verify(&proof, &root));

    let (fids, _) = node.query(&b("storage"));
    assert_eq!(fids, vec![b("file2")]);

    node.add(&b("storage"), &b("file3"));
    let (fids, _) = node.query(&b("storage"));
    assert_eq!(fids, vec![b("file2"), b("file3")]);

    let (_, root_after) = node.delete(&b("storage"), &b("file2"));
    assert_eq!(root_after.len(), 32);
    let (fids, _) = node.query(&b("storage"));
    assert_eq!(fids, vec![b("file3")]);

    let (_, empty_root) = node.delete(&b("storage"), &b("file3"));
    assert!(empty_root.is_empty());
}

#[test]
fn test_storager_from_config() {
    let mut trie_node = Storager::from_config(&b("MPT"));
    let (_, root) = trie_node.add(&b("k"), &b("f"));
    assert_eq!(root.len(), 32);

    let mut acc_node = Storager::from_config(&b("accumulator"));
    let (_, root) = acc_node.add(&b("k"), &b("f"));
    assert_eq!(root.len(), 96);
}

#[test]
fn test_fid_element_is_keyword_scoped() {
    // One fid under two keywords makes two different elements.
    let e1 = fid_to_element(&b("rust"), &b("file1"));
    let e2 = fid_to_element(&b("storage"), &b("file1"));
    assert_ne!(e1, e2);
    // and the encoding round-trips the fid list
    let fids = vec![b("file1"), b("file2")];
    let encoded = encode_fids(&fids);
    assert_eq!(encoded, b("file1,file2"));
    assert_eq!(decode_fids(&encoded), fids);
    assert!(decode_fids(&Vec::new()).is_empty());
}

#[test]
fn test_manager_flow() {
    // The manager routes a keyword, verifies the node's answer, caches the
    // root, and evaluates a boolean query over the per-keyword results.
    let addrs = vec![b("addr-a"), b("addr-b")];
    let mut manager = Manager::new(&addrs, AdsMode::CryptoAccumulator);
    assert_eq!(manager.ads_mode(), AdsMode::CryptoAccumulator);
    assert_eq!(manager.get_storagers().len(), 2);

    let mut node = Storager::with_crypto_accumulator();
    let (name, _addr) = manager.get_storager_for_keyword(&b("rust")).unwrap();
    let (proof, root) = node.add(&b("rust"), &b("file1"));
    assert!(manager.verify_proof(&proof, &root));
    manager.update_root_hash(name.clone(), root.clone());
    assert_eq!(manager.cached_root(&name), Some(root));

    let (fids, query_proof) = node.query(&b("rust"));
    assert!(manager.verify_proof(&query_proof, &manager.cached_root(&name).unwrap()));

    let expr = veridex::boolexpr::parse_boolean_expr(&b("rust")).unwrap();
    let results = vec![(b("rust"), fids)];
    let answer = expr.evaluate(&results);
    assert_eq!(answer, vec![b("file1")]);

    let combined = manager.combine_proofs(&vec![query_proof.clone()]);
    assert_eq!(combined, query_proof);
}

#[test]
fn test_proof_element_creation() {
    let proof = ProofElement::new(
        1,
        0,
        b("prefix"),
        b("suffix"),
        vec![1, 2, 3],
        vec![],
        Vec::new(),
    );

    assert_eq!(proof.level, 1);
    assert_eq!(proof.proof_type, 0);
    assert_eq!(proof.prefix, b("prefix"));
    assert_eq!(proof.suffix, b("suffix"));
    assert_eq!(proof.value, vec![1, 2, 3]);
}

#[test]
fn test_mpt_proof_creation() {
    let proof_element = ProofElement::new(
        0,
        0,
        b("test"),
        b("key"),
        vec![1, 2, 3],
        vec![],
        Vec::new(),
    );

    let mpt_proof = MPTProof::new(true, 1, vec![proof_element]);

    assert!(mpt_proof.get_is_exist());
    assert_eq!(mpt_proof.get_levels(), 1);
    assert_eq!(mpt_proof.get_proofs().len(), 1);
    assert!(mpt_proof.size_of() > 0);
}

#[test]
fn test_placeholder_trees() {
    let mut merkle = MerkleTree::new();
    assert_eq!(merkle.root_hash(), vec![0u8; 32]);
    merkle.insert(&b("data"));
    assert_eq!(merkle.root_hash().len(), 32);
    merkle.delete(&b("data"));
    assert_eq!(merkle.get_proof(&b("data")), vec![0u8; 32]);

    let mut patricia = PatriciaTrie::new();
    assert_eq!(patricia.root_hash(), vec![0u8; 32]);
    patricia.insert(&b("key"), &b("value"));
    assert_eq!(patricia.root_hash().len(), 32);
    patricia.delete(&b("key"));
    assert_eq!(patricia.get_proof(&b("key")), vec![0u8; 32]);
}

#[test]
fn test_client_holds_address() {
    let client = veridex::client::Client::new(b("http://[::1]:50051"));
    assert_eq!(client.manager_addr(), &b("http://[::1]:50051"));
}

#[test]
fn test_combine_proofs_mpt_first_nonempty() {
    let verifier = ProofVerifier::new(AdsMode::Mpt);
    let proofs = vec![Vec::new(), b("root-a"), b("root-b")];
    assert_eq!(verifier.combine_proofs(&proofs), b("root-a"));
    assert!(verifier.combine_proofs(&Vec::new()).is_empty());
}

#[test]
fn test_corrupted_point_rejected() {
    // A proof whose leading point bytes are damaged no longer decodes as a
    // G1 point, and the structural check refuses it even with the
    // self-check byte set.
    let mut node = Storager::with_crypto_accumulator();
    let verifier = ProofVerifier::new(AdsMode::CryptoAccumulator);
    let (mut proof, root) = node.add(&b("rust"), &b("file1"));
    assert!(verifier.verify(&proof, &root));
    for i in 0..48 {
        proof[i] = 0xff;
    }
    assert!(!verifier.verify(&proof, &root));
}

#[test]
fn test_node_blob_rejects_garbage() {
    // A damaged database blob is refused rather than read as a node.
    let garbage = vec![9u8, 9, 9];
    assert!(veridex::mpt_node::ShortNode::deserialize(&garbage).is_err());
    assert!(veridex::mpt_node::FullNode::deserialize(&garbage).is_err());
}
