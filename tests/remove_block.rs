use casper_db_utils::codec::decode_meta;
use casper_db_utils::remove_block::remove_block;
use casper_db_utils::store::{Error, Store, TableId};

fn digest(tag: u8, n: u8) -> Vec<u8> {
    let mut d = vec![tag; 31];
    d.push(n);
    d
}

fn block_hash(n: u8) -> Vec<u8> {
    digest(0xB0, n)
}

fn body_hash(n: u8) -> Vec<u8> {
    digest(0xBD, n)
}

fn deploy_hash(n: u8) -> Vec<u8> {
    digest(0xD0, n)
}

fn header_record(body: &[u8], state_root: &[u8]) -> Vec<u8> {
    let mut v = body.to_vec();
    v.extend_from_slice(state_root);
    v.extend_from_slice(b"height and other header fields");
    v
}

fn body_record(deploys: &[Vec<u8>]) -> Vec<u8> {
    deploys.concat()
}

fn meta_record(entries: &[(Vec<u8>, Vec<u8>)]) -> Vec<u8> {
    let mut v = Vec::new();
    for (block, result) in entries {
        v.extend_from_slice(block);
        v.push((result.len() / 256) as u8);
        v.push((result.len() % 256) as u8);
        v.extend_from_slice(result);
    }
    v
}

fn meta_blocks(store: &Store, deploy: &[u8]) -> Vec<Vec<u8>> {
    let raw = store.deploy_metadata.get(deploy).expect("metadata record");
    decode_meta(raw)
        .expect("decodable metadata")
        .into_iter()
        .map(|(b, _)| b)
        .collect()
}

/// Two blocks B0 (deploys D0, D1) and B1 (deploys D1, D2).
fn two_block_store() -> Store {
    let mut store = Store::new();
    let bodies = [vec![deploy_hash(0), deploy_hash(1)], vec![deploy_hash(1), deploy_hash(2)]];
    for i in 0..2u8 {
        store.block_header.put(
            block_hash(i),
            header_record(&body_hash(i), &digest(0x57, i)),
        );
        store
            .block_body
            .put(body_hash(i), body_record(&bodies[i as usize]));
    }
    let result = |b: u8, d: u8| vec![b, d, 0xEE];
    store.deploy_metadata.put(
        deploy_hash(0),
        meta_record(&[(block_hash(0), result(0, 0))]),
    );
    store.deploy_metadata.put(
        deploy_hash(1),
        meta_record(&[(block_hash(0), result(0, 1)), (block_hash(1), result(1, 1))]),
    );
    store.deploy_metadata.put(
        deploy_hash(2),
        meta_record(&[(block_hash(1), result(1, 2))]),
    );
    store
}

fn snapshot(store: &Store) -> Vec<(TableId, Vec<u8>, Vec<u8>)> {
    let mut out = Vec::new();
    for t in [TableId::BlockHeader, TableId::BlockBody, TableId::DeployMetadata, TableId::Trie] {
        let tab = store.table(t);
        for i in 0..tab.len() {
            out.push((t, tab.key_at(i).clone(), tab.value_at(i).clone()));
        }
    }
    out
}

#[test]
fn try1() {
    let mut store = two_block_store();
    let body1_before = store.block_body.get(&body_hash(1)).cloned();

    assert!(remove_block(&mut store, &block_hash(0)).is_ok());

    assert!(store.block_header.get(&block_hash(0)).is_none());
    assert!(store.block_header.get(&block_hash(1)).is_some());
    assert!(store.block_body.get(&body_hash(0)).is_none());
    assert!(store.block_body.get(&body_hash(1)).is_some());
    assert_eq!(store.block_body.get(&body_hash(1)).cloned(), body1_before);
    assert!(store.deploy_metadata.get(&deploy_hash(0)).is_none());

    let blocks = meta_blocks(&store, &deploy_hash(1));
    assert!(!blocks.contains(&block_hash(0)));
    assert!(blocks.contains(&block_hash(1)));

    let blocks = meta_blocks(&store, &deploy_hash(2));
    assert!(!blocks.contains(&block_hash(0)));
    assert!(blocks.contains(&block_hash(1)));
}

#[test]
fn remove_block_keeps_other_entries_exact() {
    let mut store = two_block_store();
    let d2_before = store.deploy_metadata.get(&deploy_hash(2)).cloned();
    assert!(remove_block(&mut store, &block_hash(0)).is_ok());
    assert_eq!(
        store.deploy_metadata.get(&deploy_hash(1)).cloned(),
        Some(meta_record(&[(block_hash(1), vec![1, 1, 0xEE])]))
    );
    assert_eq!(store.deploy_metadata.get(&deploy_hash(2)).cloned(), d2_before);
    assert_eq!(store.block_header.len(), 1);
    assert_eq!(store.block_body.len(), 1);
    assert_eq!(store.deploy_metadata.len(), 2);
}

#[test]
fn remove_block_not_found_changes_nothing() {
    let mut store = two_block_store();
    let before = snapshot(&store);
    match remove_block(&mut store, &block_hash(9)) {
        Err(Error::NotFound(k)) => assert_eq!(k, block_hash(9)),
        other => panic!("unexpected {:?}", other),
    }
    assert_eq!(snapshot(&store), before);
}

#[test]
fn remove_block_missing_body_is_refused() {
    let mut store = two_block_store();
    store.block_body.delete(&body_hash(0));
    let before = snapshot(&store);
    match remove_block(&mut store, &block_hash(0)) {
        Err(Error::DanglingReference(TableId::BlockBody, k)) => assert_eq!(k, body_hash(0)),
        other => panic!("unexpected {:?}", other),
    }
    assert_eq!(snapshot(&store), before);
}

#[test]
fn remove_block_corrupt_header() {
    let mut store = two_block_store();
    store.block_header.put(block_hash(0), vec![1, 2, 3]);
    let before = snapshot(&store);
    match remove_block(&mut store, &block_hash(0)) {
        Err(Error::Corruption(TableId::BlockHeader, k)) => assert_eq!(k, block_hash(0)),
        other => panic!("unexpected {:?}", other),
    }
    assert_eq!(snapshot(&store), before);
}

#[test]
fn remove_block_corrupt_body() {
    let mut store = two_block_store();
    store.block_body.put(body_hash(0), vec![7; 33]);
    let before = snapshot(&store);
    match remove_block(&mut store, &block_hash(0)) {
        Err(Error::Corruption(TableId::BlockBody, k)) => assert_eq!(k, body_hash(0)),
        other => panic!("unexpected {:?}", other),
    }
    assert_eq!(snapshot(&store), before);
}

#[test]
fn remove_block_corrupt_metadata_rolls_back() {
    let mut store = two_block_store();
    store.deploy_metadata.put(deploy_hash(1), vec![0xAA; 10]);
    let before = snapshot(&store);
    match remove_block(&mut store, &block_hash(0)) {
        Err(Error::Corruption(TableId::DeployMetadata, k)) => assert_eq!(k, deploy_hash(1)),
        other => panic!("unexpected {:?}", other),
    }
    assert_eq!(snapshot(&store), before);
}

#[test]
fn remove_block_skips_deploy_without_metadata() {
    let mut store = two_block_store();
    store.deploy_metadata.delete(&deploy_hash(0));
    assert!(remove_block(&mut store, &block_hash(0)).is_ok());
    assert!(store.deploy_metadata.get(&deploy_hash(0)).is_none());
    assert_eq!(meta_blocks(&store, &deploy_hash(1)), vec![block_hash(1)]);
    assert!(store.block_header.get(&block_hash(0)).is_none());
}

#[test]
fn remove_block_twice_reports_not_found() {
    let mut store = two_block_store();
    assert!(remove_block(&mut store, &block_hash(1)).is_ok());
    assert!(matches!(
        remove_block(&mut store, &block_hash(1)),
        Err(Error::NotFound(_))
    ));
    assert!(store.deploy_metadata.get(&deploy_hash(2)).is_none());
    assert_eq!(meta_blocks(&store, &deploy_hash(1)), vec![block_hash(0)]);
}
