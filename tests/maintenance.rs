use casper_db_utils::bytes::decode_hex;
use casper_db_utils::codec::{decode_body, decode_header, decode_meta, decode_trie_node};
use casper_db_utils::store::{check, check_all, unsparsify, Error, Store, TableId};
use casper_db_utils::trie_gc::{compact_trie, compact_trie_in_place};

fn node_key(n: u8) -> Vec<u8> {
    vec![n; 32]
}

fn leaf(payload: &[u8]) -> Vec<u8> {
    let mut v = vec![0u8];
    v.extend_from_slice(payload);
    v
}

fn extension(path: &[u8], child: &[u8]) -> Vec<u8> {
    let mut v = vec![1u8, path.len() as u8];
    v.extend_from_slice(path);
    v.extend_from_slice(child);
    v
}

fn branch(children: &[Vec<u8>]) -> Vec<u8> {
    let mut v = vec![2u8];
    for c in children {
        v.extend_from_slice(c);
    }
    v
}

fn header_with_root(root: &[u8]) -> Vec<u8> {
    let mut v = vec![0x11; 32];
    v.extend_from_slice(root);
    v
}

/// Roots 1 and 2 share leaf 10; 3 and 20 are unreachable.
fn trie_store() -> Store {
    let mut s = Store::new();
    s.block_header.put(vec![0xA1; 32], header_with_root(&node_key(1)));
    s.block_header.put(vec![0xA2; 32], header_with_root(&node_key(2)));
    s.block_body.put(vec![0x11; 32], Vec::new());
    s.trie.put(node_key(1), branch(&[node_key(10), node_key(11)]));
    s.trie.put(node_key(2), extension(&[4, 5], &node_key(10)));
    s.trie.put(node_key(10), leaf(b"shared"));
    s.trie.put(node_key(11), extension(&[], &node_key(12)));
    s.trie.put(node_key(12), leaf(b"deep"));
    s.trie.put(node_key(3), branch(&[node_key(10)]));
    s.trie.put(node_key(20), leaf(b"stale"));
    s
}

fn trie_keys(s: &Store) -> Vec<Vec<u8>> {
    let mut keys: Vec<Vec<u8>> = (0..s.trie.len()).map(|i| s.trie.key_at(i).clone()).collect();
    keys.sort();
    keys
}

fn all_records(s: &Store) -> Vec<(TableId, Vec<u8>, Vec<u8>)> {
    let mut out = Vec::new();
    for t in [TableId::BlockHeader, TableId::BlockBody, TableId::DeployMetadata, TableId::Trie] {
        let tab = s.table(t);
        for i in 0..tab.len() {
            out.push((t, tab.key_at(i).clone(), tab.value_at(i).clone()));
        }
    }
    out.sort_by(|a, b| (a.0 as u8, &a.1).cmp(&(b.0 as u8, &b.1)));
    out
}

#[test]
fn compact_trie_keeps_exactly_reachable_nodes() {
    let s = trie_store();
    let c = compact_trie(&s).expect("sound store");
    let mut expected = vec![node_key(1), node_key(2), node_key(10), node_key(11), node_key(12)];
    expected.sort();
    assert_eq!(trie_keys(&c), expected);
    for k in &expected {
        assert_eq!(c.trie.get(k), s.trie.get(k));
    }
    assert_eq!(c.block_header.len(), 2);
    assert_eq!(c.block_body.len(), 1);
}

#[test]
fn compact_trie_is_idempotent() {
    let s = trie_store();
    let once = compact_trie(&s).expect("sound store");
    let twice = compact_trie(&once).expect("collected store is sound");
    assert_eq!(all_records(&once), all_records(&twice));
}

#[test]
fn compact_trie_with_no_headers_empties_trie() {
    let mut s = trie_store();
    s.block_header.delete(&vec![0xA1; 32]);
    s.block_header.delete(&vec![0xA2; 32]);
    let c = compact_trie(&s).expect("no roots");
    assert_eq!(c.trie.len(), 0);
}

#[test]
fn compact_trie_dangling_child_leaves_store_intact() {
    let mut s = trie_store();
    s.trie.delete(&node_key(12));
    let before = all_records(&s);
    match compact_trie_in_place(&mut s) {
        Err(Error::DanglingReference(TableId::Trie, k)) => assert_eq!(k, node_key(12)),
        other => panic!("unexpected {:?}", other),
    }
    assert_eq!(all_records(&s), before);
    assert!(check_all(&s).is_empty());
}

#[test]
fn compact_trie_missing_root_is_dangling() {
    let mut s = trie_store();
    s.trie.delete(&node_key(2));
    match compact_trie(&s) {
        Err(Error::DanglingReference(TableId::Trie, k)) => assert_eq!(k, node_key(2)),
        other => panic!("unexpected {:?}", other),
    }
}

#[test]
fn compact_trie_corrupt_reachable_node() {
    let mut s = trie_store();
    s.trie.put(node_key(11), vec![9, 9, 9]);
    match compact_trie(&s) {
        Err(Error::Corruption(TableId::Trie, k)) => assert_eq!(k, node_key(11)),
        other => panic!("unexpected {:?}", other),
    }
}

#[test]
fn compact_trie_drops_corrupt_unreachable_node() {
    let mut s = trie_store();
    s.trie.put(node_key(20), vec![9, 9, 9]);
    let c = compact_trie(&s).expect("corrupt node is unreachable");
    assert!(c.trie.get(&node_key(20)).is_none());
    assert_eq!(c.trie.len(), 5);
}

#[test]
fn compact_trie_corrupt_header() {
    let mut s = trie_store();
    s.block_header.put(vec![0xA3; 32], vec![1; 10]);
    match compact_trie(&s) {
        Err(Error::Corruption(TableId::BlockHeader, k)) => assert_eq!(k, vec![0xA3; 32]),
        other => panic!("unexpected {:?}", other),
    }
}

#[test]
fn compact_trie_in_place_replaces_store() {
    let mut s = trie_store();
    assert!(compact_trie_in_place(&mut s).is_ok());
    assert_eq!(s.trie.len(), 5);
    assert!(s.trie.get(&node_key(3)).is_none());
}

#[test]
fn unsparsify_preserves_every_record() {
    let s = trie_store();
    let u = unsparsify(&s);
    assert_eq!(all_records(&u), all_records(&s));
    let again = unsparsify(&u);
    assert_eq!(all_records(&again), all_records(&u));
}

#[test]
fn check_reports_exactly_the_corrupt_records() {
    let mut s = trie_store();
    s.block_body.put(vec![0x21; 32], vec![1; 33]);
    s.block_body.put(vec![0x22; 32], vec![1; 5]);
    s.block_body.put(vec![0x23; 32], vec![1; 64]);
    let r = check_all(&s);
    let mut found: Vec<(TableId, Vec<u8>)> = r.into_iter().map(|c| (c.table, c.key)).collect();
    found.sort_by(|a, b| a.1.cmp(&b.1));
    assert_eq!(
        found,
        vec![(TableId::BlockBody, vec![0x21; 32]), (TableId::BlockBody, vec![0x22; 32])]
    );
}

#[test]
fn check_only_selected_tables() {
    let mut s = trie_store();
    s.block_body.put(vec![0x21; 32], vec![1; 33]);
    s.trie.put(node_key(40), vec![7]);
    let r = check(&s, &vec![TableId::Trie]);
    assert_eq!(r.len(), 1);
    assert_eq!(r[0].table, TableId::Trie);
    assert_eq!(r[0].key, node_key(40));
    assert!(check(&s, &vec![]).is_empty());
}

#[test]
fn check_clean_store_is_empty() {
    assert!(check_all(&trie_store()).is_empty());
}

#[test]
fn check_flags_empty_deploy_metadata() {
    let mut s = Store::new();
    s.deploy_metadata.put(vec![0xD0; 32], Vec::new());
    let mut good = vec![0xB0; 32];
    good.extend_from_slice(&[0, 2, 8, 9]);
    s.deploy_metadata.put(vec![0xD1; 32], good);
    let r = check_all(&s);
    assert_eq!(r.len(), 1);
    assert_eq!(r[0].table, TableId::DeployMetadata);
    assert_eq!(r[0].key, vec![0xD0; 32]);
}

#[test]
fn decode_header_fields() {
    let mut v: Vec<u8> = (0..64).collect();
    v.push(200);
    let (body, root) = decode_header(&v).unwrap();
    assert_eq!(body, (0..32).collect::<Vec<u8>>());
    assert_eq!(root, (32..64).collect::<Vec<u8>>());
    assert!(decode_header(&v[..63]).is_none());
}

#[test]
fn decode_body_digests() {
    let mut v = vec![1u8; 32];
    v.extend_from_slice(&[2u8; 32]);
    assert_eq!(decode_body(&v).unwrap(), vec![vec![1u8; 32], vec![2u8; 32]]);
    assert_eq!(decode_body(&[]).unwrap(), Vec::<Vec<u8>>::new());
    assert!(decode_body(&v[..40]).is_none());
}

#[test]
fn decode_meta_entries() {
    let mut v = vec![5u8; 32];
    v.extend_from_slice(&[0, 3, 7, 8, 9]);
    v.extend_from_slice(&[6u8; 32]);
    v.extend_from_slice(&[1, 0]);
    v.extend_from_slice(&[4u8; 256]);
    let es = decode_meta(&v).unwrap();
    assert_eq!(es.len(), 2);
    assert_eq!(es[0], (vec![5u8; 32], vec![7, 8, 9]));
    assert_eq!(es[1], (vec![6u8; 32], vec![4u8; 256]));
    assert!(decode_meta(&v[..v.len() - 1]).is_none());
    assert!(decode_meta(&v[..20]).is_none());
}

#[test]
fn decode_trie_node_variants() {
    assert_eq!(decode_trie_node(&leaf(b"x")).unwrap(), Vec::<Vec<u8>>::new());
    assert_eq!(
        decode_trie_node(&extension(&[1, 2, 3], &node_key(9))).unwrap(),
        vec![node_key(9)]
    );
    assert_eq!(
        decode_trie_node(&branch(&[node_key(1), node_key(2)])).unwrap(),
        vec![node_key(1), node_key(2)]
    );
    let seventeen: Vec<Vec<u8>> = (0..17).map(node_key).collect();
    assert!(decode_trie_node(&branch(&seventeen)).is_none());
    assert!(decode_trie_node(&branch(&[])).is_none());
    assert!(decode_trie_node(&[]).is_none());
    assert!(decode_trie_node(&[3, 0]).is_none());
    assert!(decode_trie_node(&extension(&[1], &[0u8; 31])).is_none());
}

#[test]
fn decode_hex_text() {
    assert_eq!(decode_hex(b"00ff1Aa0").unwrap(), vec![0x00, 0xff, 0x1a, 0xa0]);
    assert_eq!(decode_hex(b"").unwrap(), Vec::<u8>::new());
    assert!(decode_hex(b"abc").is_none());
    assert!(decode_hex(b"zz").is_none());
}
