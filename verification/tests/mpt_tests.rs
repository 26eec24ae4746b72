//! Tests of the Merkle-Patricia trie, its nodes and its utilities.
use veridex::mpt::{MPT, MPTMetadata};
use veridex::mpt_db::MemoryDatabase;
use veridex::mpt_node::{FullNode, NodeCache, ShortNode};
use veridex::mpt_utils::{
    byte_to_hex_index, char_to_hex_index, common_prefix, common_prefix_len, hex_path_to_bytes,
    hex_path_to_key, key_to_hex_path, KVPair,
};

fn b(s: &str) -> Vec<u8> {
    s.as_bytes().to_vec()
}

fn text(v: &[u8]) -> String {
    String::from_utf8_lossy(v).to_string()
}

#[test]
fn test_basic_operations() {
    // The module's smoke test: an empty trie has the all-zero root.
    let mpt = MPT::new(None);
    assert_eq!(mpt.get_root_hash(), vec![0u8; 32]);
}

#[test]
fn test_kvpair() {
    let mut kv = KVPair::new(b("key1"), b("value1"));
    assert_eq!(kv.get_key(), &b("key1"));
    assert_eq!(kv.get_value(), &b("value1"));

    assert!(kv.add_value(&b("value2")));
    assert_eq!(kv.get_value(), &b("value1,value2"));

    assert!(kv.del_value(&b("value1")));
    assert_eq!(kv.get_value(), &b("value2"));
}

#[test]
fn test_byte_to_hex_index() {
    assert_eq!(byte_to_hex_index(0), 0);
    assert_eq!(byte_to_hex_index(15), 15);
    assert_eq!(byte_to_hex_index(16), 0);
    assert_eq!(byte_to_hex_index(255), 15);

    assert_eq!(char_to_hex_index(b'0'), Some(0));
    assert_eq!(char_to_hex_index(b'9'), Some(9));
    assert_eq!(char_to_hex_index(b'a'), Some(10));
    assert_eq!(char_to_hex_index(b'f'), Some(15));
    assert_eq!(char_to_hex_index(b'A'), Some(10));
    assert_eq!(char_to_hex_index(b'F'), Some(15));
    assert_eq!(char_to_hex_index(b'g'), None);
}

#[test]
fn test_key_conversion() {
    let path = key_to_hex_path(&b("ab"));
    assert_eq!(path, vec![6, 1, 6, 2]); // 'a'=0x61 -> [6,1], 'b'=0x62 -> [6,2]

    let key = hex_path_to_key(&vec![6, 1, 6, 2]);
    assert_eq!(key, b("ab"));

    let bytes = hex_path_to_bytes(&vec![6, 1, 6, 2]);
    assert_eq!(bytes, vec![0x61, 0x62]);
}

#[test]
fn test_common_prefix() {
    assert_eq!(common_prefix(&b("hello"), &b("help")), b("hel"));
    assert_eq!(common_prefix(&b("abc"), &b("def")), Vec::<u8>::new());
    assert_eq!(common_prefix(&b("same"), &b("same")), b("same"));
    assert_eq!(common_prefix(&Vec::new(), &b("anything")), Vec::<u8>::new());
}

#[test]
fn test_common_prefix_len() {
    let vec1: Vec<u8> = vec![1, 2, 3, 4, 5];
    let vec2: Vec<u8> = vec![1, 2, 3, 9, 10];
    assert_eq!(common_prefix_len(&vec1, &vec2), 3);

    let vec3: Vec<u8> = vec![1, 2];
    let vec4: Vec<u8> = vec![3, 4];
    assert_eq!(common_prefix_len(&vec3, &vec4), 0);

    let vec5: Vec<u8> = vec![1, 2, 3];
    let vec6: Vec<u8> = vec![1, 2, 3, 4];
    assert_eq!(common_prefix_len(&vec5, &vec6), 3);
}

#[test]
fn test_short_node_creation() {
    let mut db = MemoryDatabase::new();
    let mut cache = Some(NodeCache::new(100, 100));

    let node = ShortNode::new(
        b("prefix"),
        true,
        b("suffix"),
        None,
        Some(b("value")),
        &mut db,
        &mut cache,
    )
    .unwrap();

    assert_eq!(node.prefix, b("prefix"));
    assert_eq!(node.suffix, b("suffix"));
    assert!(node.is_leaf);
    assert_eq!(node.value, Some(b("value")));
}

#[test]
fn test_full_node_creation() {
    let mut db = MemoryDatabase::new();
    let mut cache = Some(NodeCache::new(100, 100));

    let mut children: Vec<Option<Box<ShortNode>>> = Vec::new();
    for _ in 0..16 {
        children.push(None);
    }
    let node = FullNode::new(children, Some(b("branch_value")), &mut db, &mut cache).unwrap();

    assert_eq!(node.value, Some(b("branch_value")));
}

#[test]
fn test_node_serialization() {
    let mut short_node = ShortNode::empty();
    short_node.prefix = b("test");
    short_node.is_leaf = true;
    short_node.suffix = b("key");
    short_node.value = Some(b("test_value"));

    let serialized = short_node.serialize().unwrap();
    let deserialized = ShortNode::deserialize(&serialized).unwrap();

    assert_eq!(deserialized.prefix, b("test"));
    assert_eq!(deserialized.suffix, b("key"));
    assert!(deserialized.is_leaf);
    assert_eq!(deserialized.value, Some(b("test_value")));
}

#[test]
fn test_mpt_basic_insert_and_query() {
    let mut db = MemoryDatabase::new();
    let mut mpt = MPT::new(None);

    let kv1 = KVPair::new(b("name"), b("Alice"));
    assert!(mpt.insert(kv1, &mut db, true, false).is_ok());

    let kv2 = KVPair::new(b("age"), b("25"));
    assert!(mpt.insert(kv2, &mut db, true, false).is_ok());

    let (value, _proof) = mpt.query_by_key(&b("name"), &mut db).unwrap();
    assert_eq!(value, b("Alice"));

    let (value, _proof) = mpt.query_by_key(&b("age"), &mut db).unwrap();
    assert_eq!(value, b("25"));

    let (value, proof) = mpt.query_by_key(&b("name"), &mut db).unwrap();
    assert!(mpt.verify_query_result(&value, &proof));
}

#[test]
fn test_mpt_update_and_delete() {
    let mut db = MemoryDatabase::new();
    let mut mpt = MPT::new(None);

    let kv = KVPair::new(b("key1"), b("value1"));
    mpt.insert(kv, &mut db, true, false).unwrap();

    let kv = KVPair::new(b("key1"), b("value2"));
    let (old_value, _) = mpt.insert(kv, &mut db, true, false).unwrap();
    assert_eq!(old_value, b("value1"));

    let (value, _) = mpt.query_by_key(&b("key1"), &mut db).unwrap();
    assert_eq!(value, b("value2"));

    let deleted = mpt.delete(&b("key1"), &mut db).unwrap();
    assert_eq!(deleted, Some(b("value2")));

    let (value, _) = mpt.query_by_key(&b("key1"), &mut db).unwrap();
    assert_eq!(value, Vec::<u8>::new());
}

#[test]
fn test_mpt_multiple_keys() {
    let mut db = MemoryDatabase::new();
    let mut mpt = MPT::new(None);

    let keys = vec![
        ("apple", "red"),
        ("banana", "yellow"),
        ("cherry", "red"),
        ("date", "brown"),
        ("elderberry", "purple"),
    ];

    for (key, value) in &keys {
        let kv = KVPair::new(b(key), b(value));
        mpt.insert(kv, &mut db, true, false).unwrap();
    }

    for (key, expected_value) in &keys {
        let (value, proof) = mpt.query_by_key(&b(key), &mut db).unwrap();
        assert_eq!(value, b(expected_value));
        assert!(mpt.verify_query_result(&value, &proof));
    }
}

#[test]
fn test_mpt_persist_and_restore() {
    let mut db = MemoryDatabase::new();

    let mut mpt1 = MPT::new(None);
    mpt1.insert(KVPair::new(b("test1"), b("data1")), &mut db, true, false)
        .unwrap();
    mpt1.insert(KVPair::new(b("test2"), b("data2")), &mut db, true, false)
        .unwrap();

    mpt1.batch_fix(&mut db).unwrap();
    let root_hash = mpt1.get_root_hash();

    mpt1.persist_to_db(&mut db).unwrap();

    let mut mpt2 = MPT::restore_from_db(&mut db, None).unwrap();
    let restored_root_hash = mpt2.get_root_hash();
    assert_eq!(root_hash, restored_root_hash);

    let (value1, _) = mpt2.query_by_key(&b("test1"), &mut db).unwrap();
    assert_eq!(value1, b("data1"));

    let (value2, _) = mpt2.query_by_key(&b("test2"), &mut db).unwrap();
    assert_eq!(value2, b("data2"));
}

#[test]
fn test_mpt_proof_verification() {
    let mut db = MemoryDatabase::new();
    let mut mpt = MPT::new(None);

    for i in 0..10 {
        let key = format!("key{}", i).into_bytes();
        let value = format!("value{}", i).into_bytes();
        mpt.insert(KVPair::new(key, value), &mut db, true, false)
            .unwrap();
    }

    for i in 0..10 {
        let key = format!("key{}", i).into_bytes();
        let expected_value = format!("value{}", i).into_bytes();

        let (value, proof) = mpt.query_by_key(&key, &mut db).unwrap();
        assert_eq!(value, expected_value);
        assert!(mpt.verify_query_result(&value, &proof));
    }

    let (value, _proof) = mpt.query_by_key(&b("nonexistent"), &mut db).unwrap();
    assert_eq!(value, Vec::<u8>::new());
}

#[test]
fn test_mpt_concurrent_operations() {
    // With an owned tree the operations are serial; the interleaving of
    // many inserts against one database still has to stay consistent.
    let mut db = MemoryDatabase::new();
    let mut mpt = MPT::new(None);

    for i in 0..20 {
        let key = format!("concurrent{}", i).into_bytes();
        let value = format!("data{}", i).into_bytes();
        mpt.insert(KVPair::new(key, value), &mut db, true, false)
            .unwrap();
    }

    for i in 0..20 {
        let key = format!("concurrent{}", i).into_bytes();
        let expected = format!("data{}", i).into_bytes();
        let (value, _) = mpt.query_by_key(&key, &mut db).unwrap();
        assert_eq!(value, expected);
    }
}

#[test]
fn test_mpt_secondary_index() {
    let mut db = MemoryDatabase::new();
    let mut mpt = MPT::new(None);

    let kv1 = KVPair::new(b("color:red"), b("apple"));
    mpt.insert(kv1, &mut db, false, false).unwrap();

    let kv2 = KVPair::new(b("color:red"), b("cherry"));
    mpt.insert(kv2, &mut db, false, false).unwrap();

    let (value, _) = mpt.query_by_key(&b("color:red"), &mut db).unwrap();
    assert!(text(&value).contains("apple"));
    assert!(text(&value).contains("cherry"));

    let kv3 = KVPair::new(b("color:red"), b("apple"));
    mpt.insert(kv3, &mut db, false, true).unwrap();

    let (value, _) = mpt.query_by_key(&b("color:red"), &mut db).unwrap();
    assert!(text(&value).contains("cherry"));
    assert!(!text(&value).contains("apple"));
}

#[test]
fn test_mpt_restart_scenario() {
    // Ten distinct keys survive a persist and restore with the same root
    // and verifying proofs.
    let mut db = MemoryDatabase::new();
    let mut mpt = MPT::new(None);
    for i in 0..10 {
        let key = format!("restart-key-{}", i).into_bytes();
        let value = format!("restart-value-{}", i).into_bytes();
        mpt.insert(KVPair::new(key, value), &mut db, true, false)
            .unwrap();
    }
    mpt.batch_fix(&mut db).unwrap();
    mpt.persist_to_db(&mut db).unwrap();
    let root = mpt.get_root_hash();

    let mut restored = MPT::restore_from_db(&mut db, None).unwrap();
    assert_eq!(restored.get_root_hash(), root);
    for i in 0..10 {
        let key = format!("restart-key-{}", i).into_bytes();
        let expected = format!("restart-value-{}", i).into_bytes();
        let (value, proof) = restored.query_by_key(&key, &mut db).unwrap();
        assert_eq!(value, expected);
        assert!(restored.verify_query_result(&value, &proof));
    }
}

#[test]
fn test_mpt_deferred_delete_order_free() {
    // For one (key, value) pair, a delete that arrives before its add is
    // deferred and cancelled by the add: both arrival orders end with the
    // same root and the same posting list.
    let key = b("topic:db");

    let mut db1 = MemoryDatabase::new();
    let mut m1 = MPT::new(None);
    m1.insert(KVPair::new(key.clone(), b("doc1")), &mut db1, false, false)
        .unwrap();
    m1.insert(KVPair::new(key.clone(), b("doc2")), &mut db1, false, true)
        .unwrap();
    m1.insert(KVPair::new(key.clone(), b("doc2")), &mut db1, false, false)
        .unwrap();

    let mut db2 = MemoryDatabase::new();
    let mut m2 = MPT::new(None);
    m2.insert(KVPair::new(key.clone(), b("doc1")), &mut db2, false, false)
        .unwrap();
    m2.insert(KVPair::new(key.clone(), b("doc2")), &mut db2, false, false)
        .unwrap();
    m2.insert(KVPair::new(key.clone(), b("doc2")), &mut db2, false, true)
        .unwrap();

    let (v1, _) = m1.query_by_key(&key, &mut db1).unwrap();
    let (v2, _) = m2.query_by_key(&key, &mut db2).unwrap();
    assert_eq!(v1, v2);
    assert_eq!(m1.get_root_hash(), m2.get_root_hash());
}

#[test]
fn test_mpt_metadata() {
    let meta = MPTMetadata::new(vec![7u8; 32]);
    assert_eq!(meta.root_hash, vec![7u8; 32]);
    assert_eq!(meta.version, 1);

    let mut db = MemoryDatabase::new();
    let mut mpt = MPT::new(None);
    mpt.insert(KVPair::new(b("k"), b("v")), &mut db, true, false)
        .unwrap();
    let blob = mpt.serialize_metadata().unwrap();
    let parsed = MPT::deserialize_metadata(&blob).unwrap();
    assert_eq!(parsed.root_hash, mpt.get_root_hash());
    assert_eq!(parsed.version, 1);
}

#[test]
fn test_mpt_with_cache() {
    let mut db = MemoryDatabase::new();
    let cache = NodeCache::new(4, 4);
    let mut mpt = MPT::new(Some(cache));
    for i in 0..8 {
        let key = format!("cached{}", i).into_bytes();
        let value = format!("v{}", i).into_bytes();
        mpt.insert(KVPair::new(key, value), &mut db, true, false)
            .unwrap();
    }
    mpt.batch_fix(&mut db).unwrap();
    mpt.purge_cache(&mut db).unwrap();
    for i in 0..8 {
        let key = format!("cached{}", i).into_bytes();
        let expected = format!("v{}", i).into_bytes();
        let (value, _) = mpt.query_by_key(&key, &mut db).unwrap();
        assert_eq!(value, expected);
    }
}

#[test]
fn test_metadata_layout() {
    // The serialized metadata is the root hash, a little-endian version of
    // one, and an eight-byte timestamp field.
    let mpt = MPT::new(None);
    let bytes = mpt.serialize_metadata().unwrap();
    assert_eq!(bytes.len(), 44);
    assert_eq!(&bytes[0..32], mpt.get_root_hash().as_slice());
    assert_eq!(&bytes[32..36], &[1u8, 0, 0, 0]);
    assert_eq!(&bytes[36..44], &[0u8; 8]);
    let meta = MPT::deserialize_metadata(&bytes).unwrap();
    assert_eq!(meta.root_hash, mpt.get_root_hash());
    assert_eq!(meta.version, 1);
    assert_eq!(meta.timestamp, 0);
}
