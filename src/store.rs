//! The store: four named tables, the integrity scan, the physical
//! repacking and the replace-on-success primitive.
use vstd::prelude::*;

use crate::codec::{body_deploys, decode_body, decode_header, decode_meta, decode_trie_node, header_fields, meta_entries, trie_children};
use crate::table::{has_key, lemma_map_of_at, Entries, Table};

verus! {

/// The named tables of a store.
#[derive(PartialEq, Eq, Structural, Clone, Copy, Debug)]
pub enum TableId {
    BlockHeader,
    BlockBody,
    DeployMetadata,
    Trie,
}

/// Failures of the maintenance operations.
#[derive(Debug)]
pub enum Error {
    /// The record under this key of this table does not decode.
    Corruption(TableId, Vec<u8>),
    /// A digest stored elsewhere has no record under it in this table.
    DanglingReference(TableId, Vec<u8>),
    /// The block hash is not a key of the header table.
    NotFound(Vec<u8>),
}

/// One entry of an integrity report.
#[derive(Debug)]
pub struct Corruption {
    pub table: TableId,
    pub key: Vec<u8>,
}

/// Whether `v` decodes as a record of table `t`.
pub open spec fn record_valid(t: TableId, v: Seq<u8>) -> bool {
    match t {
        TableId::BlockHeader => header_fields(v) is Some,
        TableId::BlockBody => body_deploys(v) is Some,
        TableId::DeployMetadata => meta_entries(v) matches Some(es) && es.len() > 0,
        TableId::Trie => trie_children(v) is Some,
    }
}

/// Decides `record_valid`.
pub fn record_is_valid(t: TableId, v: &[u8]) -> (r: bool)
    ensures
        r == record_valid(t, v@),
{
    match t {
        TableId::BlockHeader => decode_header(v).is_some(),
        TableId::BlockBody => decode_body(v).is_some(),
        TableId::DeployMetadata => match decode_meta(v) {
            Some(es) => es.len() > 0,
            None => false,
        },
        TableId::Trie => decode_trie_node(v).is_some(),
    }
}

/// Total number of key and value bytes of a table's records.
pub open spec fn footprint(s: Entries) -> nat
    decreases s.len(),
{
    if s.len() == 0 {
        0
    } else {
        footprint(s.drop_last()) + s.last().0.len() + s.last().1.len()
    }
}

/// The logical content of a store.
pub struct StoreView {
    pub block_header: Map<Seq<u8>, Seq<u8>>,
    pub block_body: Map<Seq<u8>, Seq<u8>>,
    pub deploy_metadata: Map<Seq<u8>, Seq<u8>>,
    pub trie: Map<Seq<u8>, Seq<u8>>,
}

/// A store held in memory.
#[derive(Debug)]
pub struct Store {
    pub block_header: Table,
    pub block_body: Table,
    pub deploy_metadata: Table,
    pub trie: Table,
}

impl View for Store {
    type V = StoreView;

    open spec fn view(&self) -> StoreView {
        StoreView {
            block_header: self.block_header@,
            block_body: self.block_body@,
            deploy_metadata: self.deploy_metadata@,
            trie: self.trie@,
        }
    }
}

impl StoreView {
    pub open spec fn table(self, t: TableId) -> Map<Seq<u8>, Seq<u8>> {
        match t {
            TableId::BlockHeader => self.block_header,
            TableId::BlockBody => self.block_body,
            TableId::DeployMetadata => self.deploy_metadata,
            TableId::Trie => self.trie,
        }
    }
}

impl Store {
    pub open spec fn wf(&self) -> bool {
        &&& self.block_header.wf()
        &&& self.block_body.wf()
        &&& self.deploy_metadata.wf()
        &&& self.trie.wf()
    }

    pub open spec fn table_spec(&self, t: TableId) -> Table {
        match t {
            TableId::BlockHeader => self.block_header,
            TableId::BlockBody => self.block_body,
            TableId::DeployMetadata => self.deploy_metadata,
            TableId::Trie => self.trie,
        }
    }

    /// A store with four empty tables.
    pub fn new() -> (s: Store)
        ensures
            s.wf(),
            s@.block_header == Map::<Seq<u8>, Seq<u8>>::empty(),
            s@.block_body == Map::<Seq<u8>, Seq<u8>>::empty(),
            s@.deploy_metadata == Map::<Seq<u8>, Seq<u8>>::empty(),
            s@.trie == Map::<Seq<u8>, Seq<u8>>::empty(),
    {
        Store {
            block_header: Table::new(),
            block_body: Table::new(),
            deploy_metadata: Table::new(),
            trie: Table::new(),
        }
    }

    /// The table named `t`.
    pub fn table(&self, t: TableId) -> (r: &Table)
        ensures
            r == self.table_spec(t),
    {
        match t {
            TableId::BlockHeader => &self.block_header,
            TableId::BlockBody => &self.block_body,
            TableId::DeployMetadata => &self.deploy_metadata,
            TableId::Trie => &self.trie,
        }
    }
}

/// The report holds the record under `k` of table `t`.
pub open spec fn reported(r: Seq<Corruption>, t: TableId, k: Seq<u8>) -> bool {
    exists|i: int| 0 <= i < r.len() && (#[trigger] r[i]).table == t && r[i].key@ == k
}

/// Scans the selected tables and lists every record that does not decode.
/// The scan never stops early: the report names exactly the corrupt records.
pub fn check(store: &Store, tables: &Vec<TableId>) -> (r: Vec<Corruption>)
    requires
        store.wf(),
    ensures
        forall|i: int|
            0 <= i < r@.len() ==> tables@.contains((#[trigger] r@[i]).table) && store@.table(
                r@[i].table,
            ).contains_key(r@[i].key@) && !record_valid(
                r@[i].table,
                store@.table(r@[i].table)[r@[i].key@],
            ),
        forall|t: TableId, k: Seq<u8>|
            tables@.contains(t) && #[trigger] store@.table(t).contains_key(k) && !record_valid(
                t,
                store@.table(t)[k],
            ) ==> reported(r@, t, k),
{
    let mut r: Vec<Corruption> = Vec::new();
    let mut ti: usize = 0;
    while ti < tables.len()
        invariant
            store.wf(),
            0 <= ti <= tables@.len(),
            forall|i: int|
                0 <= i < r@.len() ==> tables@.contains((#[trigger] r@[i]).table) && store@.table(
                    r@[i].table,
                ).contains_key(r@[i].key@) && !record_valid(
                    r@[i].table,
                    store@.table(r@[i].table)[r@[i].key@],
                ),
            forall|a: int, j: int|
                0 <= a < ti && 0 <= j < store.table_spec(tables@[a]).entries().len() && !record_valid(
                    tables@[a],
                    #[trigger] store.table_spec(tables@[a]).entries()[j].1,
                ) ==> reported(r@, tables@[a], store.table_spec(tables@[a]).entries()[j].0),
        decreases tables@.len() - ti,
    {
        let t = tables[ti];
        let tab = store.table(t);
        let mut j: usize = 0;
        while j < tab.len()
            invariant
                store.wf(),
                0 <= ti < tables@.len(),
                t == tables@[ti as int],
                tab == store.table_spec(t),
                0 <= j <= tab.entries().len(),
                forall|i: int|
                    0 <= i < r@.len() ==> tables@.contains((#[trigger] r@[i]).table)
                        && store@.table(r@[i].table).contains_key(r@[i].key@) && !record_valid(
                        r@[i].table,
                        store@.table(r@[i].table)[r@[i].key@],
                    ),
                forall|a: int, jj: int|
                    0 <= a < ti && 0 <= jj < store.table_spec(tables@[a]).entries().len()
                        && !record_valid(
                        tables@[a],
                        #[trigger] store.table_spec(tables@[a]).entries()[jj].1,
                    ) ==> reported(r@, tables@[a], store.table_spec(tables@[a]).entries()[jj].0),
                forall|jj: int|
                    0 <= jj < j && !record_valid(t, #[trigger] tab.entries()[jj].1) ==> reported(
                        r@,
                        t,
                        tab.entries()[jj].0,
                    ),
            decreases tab.entries().len() - j,
        {
            let v = tab.value_at(j);
            if !record_is_valid(t, v.as_slice()) {
                let key = crate::bytes::copy_bytes(tab.key_at(j).as_slice());
                proof {
                    lemma_map_of_at(tab.entries(), j as int);
                    assert(tables@[ti as int] == t);
                }
                let ghost r0 = r@;
                r.push(Corruption { table: t, key });
                proof {
                    assert(r@[r0.len() as int].table == t);
                    assert forall|i: int| 0 <= i < r0.len() implies r@[i] == r0[i] by {}
                    assert(reported(r@, t, tab.entries()[j as int].0));
                    assert forall|a: int, jj: int|
                        0 <= a < ti && 0 <= jj < store.table_spec(tables@[a]).entries().len()
                            && !record_valid(
                            tables@[a],
                            #[trigger] store.table_spec(tables@[a]).entries()[jj].1,
                        ) implies reported(r@, tables@[a], store.table_spec(tables@[a]).entries()[jj].0) by {
                        assert(reported(r0, tables@[a], store.table_spec(tables@[a]).entries()[jj].0));
                        let i = choose|i: int| 0 <= i < r0.len() && (#[trigger] r0[i]).table == tables@[a] && r0[i].key@ == store.table_spec(tables@[a]).entries()[jj].0;
                        assert(r@[i] == r0[i]);
                    }
                    assert forall|jj: int|
                        0 <= jj < j && !record_valid(t, #[trigger] tab.entries()[jj].1) implies reported(
                            r@,
                            t,
                            tab.entries()[jj].0,
                        ) by {
                        assert(reported(r0, t, tab.entries()[jj].0));
                        let i = choose|i: int| 0 <= i < r0.len() && (#[trigger] r0[i]).table == t && r0[i].key@ == tab.entries()[jj].0;
                        assert(r@[i] == r0[i]);
                    }
                }
            }
            j = j + 1;
        }
        ti = ti + 1;
    }
    proof {
        assert forall|t: TableId, k: Seq<u8>|
            tables@.contains(t) && #[trigger] store@.table(t).contains_key(k) && !record_valid(
                t,
                store@.table(t)[k],
            ) implies reported(r@, t, k) by {
            let a = choose|a: int| 0 <= a < tables@.len() && tables@[a] == t;
            let tab = store.table_spec(t);
            assert(has_key(tab.entries(), k));
            let j = choose|j: int| 0 <= j < tab.entries().len() && (#[trigger] tab.entries()[j]).0 == k;
            lemma_map_of_at(tab.entries(), j);
            assert(!record_valid(tables@[a], store.table_spec(tables@[a]).entries()[j].1));
        }
    }
    r
}

/// Checks every table of the store.
pub fn check_all(store: &Store) -> (r: Vec<Corruption>)
    requires
        store.wf(),
    ensures
        forall|i: int|
            0 <= i < r@.len() ==> store@.table((#[trigger] r@[i]).table).contains_key(r@[i].key@)
                && !record_valid(r@[i].table, store@.table(r@[i].table)[r@[i].key@]),
        forall|t: TableId, k: Seq<u8>|
            #[trigger] store@.table(t).contains_key(k) && !record_valid(t, store@.table(t)[k])
                ==> reported(r@, t, k),
{
    let tables = vec![TableId::BlockHeader, TableId::BlockBody, TableId::DeployMetadata, TableId::Trie];
    proof {
        assert forall|t: TableId| tables@.contains(t) by {
            match t {
                TableId::BlockHeader => assert(tables@[0] == t),
                TableId::BlockBody => assert(tables@[1] == t),
                TableId::DeployMetadata => assert(tables@[2] == t),
                TableId::Trie => assert(tables@[3] == t),
            }
        }
    }
    check(store, &tables)
}

/// The logical content after repacking: unchanged.
pub open spec fn repacked(s: StoreView) -> StoreView {
    s
}

/// Repacking is a fixed point: repacking a repacked store changes no table.
pub proof fn lemma_repacked_idempotent(s: StoreView)
    ensures
        repacked(repacked(s)) == repacked(s),
        repacked(s) == s,
{
}

/// Copies every table record by record, in scan order, into a fresh store.
/// The copy holds exactly the same keys and values and no more bytes.
pub fn unsparsify(store: &Store) -> (r: Store)
    requires
        store.wf(),
    ensures
        r.wf(),
        r@ == repacked(store@),
        r@ == store@,
        forall|t: TableId| footprint(#[trigger] r.table_spec(t).entries()) <= footprint(store.table_spec(t).entries()),
{
    let r = Store {
        block_header: store.block_header.copy(),
        block_body: store.block_body.copy(),
        deploy_metadata: store.deploy_metadata.copy(),
        trie: store.trie.copy(),
    };
    r
}

/// Puts a rebuilt store in place of the original only when the build
/// succeeded; on failure the original is left exactly as it was.
pub fn replace_on_success(store: &mut Store, built: Result<Store, Error>) -> (r: Result<(), Error>)
    ensures
        built is Ok ==> r is Ok && *final(store) == built->Ok_0,
        built is Err ==> r == Err::<(), Error>(built->Err_0) && *final(store) == *old(store),
{
    match built {
        Ok(s) => {
            *store = s;
            Ok(())
        },
        Err(e) => Err(e),
    }
}

/// Unsparsify as one build-then-replace step: the store ends holding the same
/// logical content.
pub fn unsparsify_in_place(store: &mut Store)
    requires
        old(store).wf(),
    ensures
        final(store).wf(),
        final(store)@ == old(store)@,
{
    let built = unsparsify(store);
    let _ = replace_on_success(store, Ok(built));
}

} // verus!
