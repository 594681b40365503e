//! Cascading removal of one block: its header, its body, and its entry in
//! the metadata of each of its deploys.
use vstd::prelude::*;

use crate::bytes::copy_bytes;
use crate::codec::{body_deploys, decode_body, decode_header, decode_meta, entries_encodable, entries_view, header_fields, meta_bytes, meta_entries, meta_entry_bytes, digests_view};
use crate::store::{Error, Store, StoreView, TableId};

verus! {

/// Deploy metadata entries with those of block `h` left out.
pub open spec fn without_block(es: Seq<(Seq<u8>, Seq<u8>)>, h: Seq<u8>) -> Seq<(Seq<u8>, Seq<u8>)>
    decreases es.len(),
{
    if es.len() == 0 {
        es
    } else {
        let r = without_block(es.drop_last(), h);
        if es.last().0 == h {
            r
        } else {
            r.push(es.last())
        }
    }
}

/// The metadata record of a deploy once block `h` is removed from it.
pub open spec fn pruned_meta(v: Seq<u8>, h: Seq<u8>) -> Seq<(Seq<u8>, Seq<u8>)> {
    without_block(meta_entries(v)->Some_0, h)
}

/// The deploy metadata table once block `h`, whose body lists `ds`, is removed:
/// each listed deploy loses the entry of `h`, and a record left empty is deleted.
pub open spec fn meta_after(m: Map<Seq<u8>, Seq<u8>>, h: Seq<u8>, ds: Seq<Seq<u8>>) -> Map<Seq<u8>, Seq<u8>> {
    Map::new(
        |d: Seq<u8>| m.contains_key(d) && !(ds.contains(d) && pruned_meta(m[d], h).len() == 0),
        |d: Seq<u8>|
            if ds.contains(d) {
                meta_bytes(pruned_meta(m[d], h))
            } else {
                m[d]
            },
    )
}

/// Body hash named by the header of block `h`.
pub open spec fn body_hash_of(s: StoreView, h: Seq<u8>) -> Seq<u8> {
    header_fields(s.block_header[h])->Some_0.0
}

/// Deploy hashes listed by the body of block `h`.
pub open spec fn deploys_of(s: StoreView, h: Seq<u8>) -> Seq<Seq<u8>> {
    body_deploys(s.block_body[body_hash_of(s, h)])->Some_0
}

/// Block `h` is stored and its header decodes.
pub open spec fn header_ok(s: StoreView, h: Seq<u8>) -> bool {
    s.block_header.contains_key(h) && header_fields(s.block_header[h]) is Some
}

/// Further, its body is stored and decodes.
pub open spec fn body_ok(s: StoreView, h: Seq<u8>) -> bool {
    header_ok(s, h) && s.block_body.contains_key(body_hash_of(s, h)) && body_deploys(
        s.block_body[body_hash_of(s, h)],
    ) is Some
}

/// Further, the stored metadata of every deploy of its body decodes.
pub open spec fn removable(s: StoreView, h: Seq<u8>) -> bool {
    body_ok(s, h) && forall|d: Seq<u8>|
        #[trigger] deploys_of(s, h).contains(d) && s.deploy_metadata.contains_key(d) ==> meta_entries(
            s.deploy_metadata[d],
        ) is Some
}

/// The store once block `h` is removed.
pub open spec fn removed(s: StoreView, h: Seq<u8>) -> StoreView {
    StoreView {
        block_header: s.block_header.remove(h),
        block_body: s.block_body.remove(body_hash_of(s, h)),
        deploy_metadata: meta_after(s.deploy_metadata, h, deploys_of(s, h)),
        trie: s.trie,
    }
}

/// Appends `b` to `out`.
fn append_bytes(out: &mut Vec<u8>, b: &[u8])
    ensures
        final(out)@ == old(out)@ + b@,
{
    let ghost start = out@;
    let mut i: usize = 0;
    while i < b.len()
        invariant
            i <= b@.len(),
            out@ == start + b@.subrange(0, i as int),
        decreases b@.len() - i,
    {
        out.push(b[i]);
        i = i + 1;
        assert(out@ =~= start + b@.subrange(0, i as int));
    }
    assert(b@.subrange(0, b@.len() as int) =~= b@);
}

/// Encodes the entries other than those of block `h`, and counts them.
fn prune_entries(es: &Vec<(Vec<u8>, Vec<u8>)>, h: &[u8]) -> (r: (Vec<u8>, usize))
    requires
        entries_encodable(entries_view(es@)),
    ensures
        r.0@ == meta_bytes(without_block(entries_view(es@), h@)),
        r.1 == without_block(entries_view(es@), h@).len(),
{
    let ghost all = entries_view(es@);
    let mut out: Vec<u8> = Vec::new();
    let mut cnt: usize = 0;
    let mut i: usize = 0;
    assert(all.take(0) =~= Seq::<(Seq<u8>, Seq<u8>)>::empty());
    while i < es.len()
        invariant
            all == entries_view(es@),
            entries_encodable(all),
            i <= es@.len(),
            cnt <= i,
            out@ == meta_bytes(without_block(all.take(i as int), h@)),
            cnt == without_block(all.take(i as int), h@).len(),
        decreases es@.len() - i,
    {
        let e = &es[i];
        let ghost w = without_block(all.take(i as int), h@);
        proof {
            assert(all.take(i + 1).drop_last() =~= all.take(i as int));
            assert(all.take(i + 1).last() == all[i as int]);
            assert(all[i as int] == (e.0@, e.1@));
        }
        if !crate::bytes::bytes_eq(e.0.as_slice(), h) {
            let n = e.1.len();
            proof {
                assert(all[i as int].1.len() < 65536);
                assert(w.push(all[i as int]).drop_last() =~= w);
            }
            append_bytes(&mut out, e.0.as_slice());
            out.push((n / 256) as u8);
            out.push((n % 256) as u8);
            append_bytes(&mut out, e.1.as_slice());
            proof {
                assert(out@ =~= meta_bytes(w) + meta_entry_bytes(all[i as int]));
            }
            cnt = cnt + 1;
        }
        i = i + 1;
    }
    assert(all.take(es@.len() as int) =~= all);
    (out, cnt)
}

} // verus!

verus! {

/// A planned metadata change, computed from the record as stored: the deploy
/// keeps the entries of other blocks, or its record goes when none are left.
pub open spec fn update_ok(m: Map<Seq<u8>, Seq<u8>>, h: Seq<u8>, u: (Vec<u8>, Option<Vec<u8>>)) -> bool {
    &&& m.contains_key(u.0@)
    &&& meta_entries(m[u.0@]) is Some
    &&& (u.1 is None <==> pruned_meta(m[u.0@], h).len() == 0)
    &&& (u.1 matches Some(v) ==> v@ == meta_bytes(pruned_meta(m[u.0@], h)))
}

/// The deploys named by the first `p` planned changes.
pub open spec fn planned(plan: Seq<(Vec<u8>, Option<Vec<u8>>)>, p: int) -> Set<Seq<u8>> {
    Set::new(|d: Seq<u8>| exists|pp: int| 0 <= pp < p && (#[trigger] plan[pp]).0@ == d)
}

/// The metadata table once the first `p` planned changes are applied.
pub open spec fn applied(
    m: Map<Seq<u8>, Seq<u8>>,
    h: Seq<u8>,
    plan: Seq<(Vec<u8>, Option<Vec<u8>>)>,
    p: int,
) -> Map<Seq<u8>, Seq<u8>> {
    Map::new(
        |d: Seq<u8>| m.contains_key(d) && !(planned(plan, p).contains(d) && pruned_meta(m[d], h).len() == 0),
        |d: Seq<u8>|
            if planned(plan, p).contains(d) {
                meta_bytes(pruned_meta(m[d], h))
            } else {
                m[d]
            },
    )
}

/// Removes block `block_hash` with its body and its entries in the metadata
/// of its deploys, all at once or not at all.
///
/// Fails, leaving the store untouched, when the block is not stored
/// (`NotFound`), when its header or body does not decode (`Corruption`), when
/// its body is missing (`DanglingReference`: the whole removal is refused), or
/// when the stored metadata of one of its deploys does not decode
/// (`Corruption`). A deploy of the body with no metadata record is passed over.
pub fn remove_block(store: &mut Store, block_hash: &[u8]) -> (r: Result<(), Error>)
    requires
        old(store).wf(),
    ensures
        final(store).wf(),
        r is Ok <==> removable(old(store)@, block_hash@),
        r is Ok ==> final(store)@ == removed(old(store)@, block_hash@),
        r is Err ==> *final(store) == *old(store),
        !old(store)@.block_header.contains_key(block_hash@) ==> (r matches Err(Error::NotFound(k))
            && k@ == block_hash@),
        old(store)@.block_header.contains_key(block_hash@) && !header_ok(old(store)@, block_hash@)
            ==> (r matches Err(Error::Corruption(t, k)) && t == TableId::BlockHeader && k@
            == block_hash@),
        header_ok(old(store)@, block_hash@) && !old(store)@.block_body.contains_key(
            body_hash_of(old(store)@, block_hash@),
        ) ==> (r matches Err(Error::DanglingReference(t, k)) && t == TableId::BlockBody && k@
            == body_hash_of(old(store)@, block_hash@)),
        header_ok(old(store)@, block_hash@) && old(store)@.block_body.contains_key(
            body_hash_of(old(store)@, block_hash@),
        ) && !body_ok(old(store)@, block_hash@) ==> (r matches Err(Error::Corruption(t, k)) && t
            == TableId::BlockBody && k@ == body_hash_of(old(store)@, block_hash@)),
        body_ok(old(store)@, block_hash@) && !removable(old(store)@, block_hash@) ==> (r matches Err(
            Error::Corruption(t, k),
        ) && t == TableId::DeployMetadata && deploys_of(old(store)@, block_hash@).contains(k@)
            && old(store)@.deploy_metadata.contains_key(k@) && meta_entries(
            old(store)@.deploy_metadata[k@],
        ) is None),
{
    let ghost s0 = store@;
    let ghost hh = block_hash@;
    let body_hash = match store.block_header.get(block_hash) {
        None => {
            return Err(Error::NotFound(copy_bytes(block_hash)));
        },
        Some(hv) => match decode_header(hv.as_slice()) {
            None => {
                return Err(Error::Corruption(TableId::BlockHeader, copy_bytes(block_hash)));
            },
            Some((b, _)) => b,
        },
    };
    let ds = match store.block_body.get(body_hash.as_slice()) {
        None => {
            return Err(Error::DanglingReference(TableId::BlockBody, body_hash));
        },
        Some(bv) => match decode_body(bv.as_slice()) {
            None => {
                return Err(Error::Corruption(TableId::BlockBody, body_hash));
            },
            Some(ds) => ds,
        },
    };
    let ghost dsv = digests_view(ds@);
    let ghost m0 = s0.deploy_metadata;
    assert(dsv == deploys_of(s0, hh));
    let mut plan: Vec<(Vec<u8>, Option<Vec<u8>>)> = Vec::new();
    let mut q: usize = 0;
    while q < ds.len()
        invariant
            store.wf(),
            s0 == store@,
            m0 == s0.deploy_metadata,
            hh == block_hash@,
            dsv == digests_view(ds@),
            dsv == deploys_of(s0, hh),
            body_ok(s0, hh),
            q <= ds@.len(),
            forall|pp: int|
                0 <= pp < plan@.len() ==> dsv.contains((#[trigger] plan@[pp]).0@) && update_ok(
                    m0,
                    hh,
                    plan@[pp],
                ),
            forall|qq: int|
                0 <= qq < q && m0.contains_key(#[trigger] dsv[qq]) ==> meta_entries(m0[dsv[qq]]) is Some
                    && planned(plan@, plan@.len() as int).contains(dsv[qq]),
        decreases ds@.len() - q,
    {
        let d = &ds[q];
        proof {
            assert(dsv[q as int] == d@);
        }
        match store.deploy_metadata.get(d.as_slice()) {
            None => {},
            Some(v) => match decode_meta(v.as_slice()) {
                None => {
                    proof {
                        assert(dsv.contains(d@));
                        assert(!removable(s0, hh));
                    }
                    return Err(Error::Corruption(TableId::DeployMetadata, copy_bytes(d.as_slice())));
                },
                Some(es) => {
                    let (bytes, cnt) = prune_entries(&es, block_hash);
                    let value = if cnt == 0 {
                        None
                    } else {
                        Some(bytes)
                    };
                    let ghost p0 = plan@;
                    plan.push((copy_bytes(d.as_slice()), value));
                    proof {
                        assert(plan@[p0.len() as int].0@ == d@);
                        assert(dsv.contains(d@));
                        assert forall|pp: int| 0 <= pp < p0.len() implies plan@[pp] == p0[pp] by {}
                        assert forall|qq: int|
                            0 <= qq < q + 1 && m0.contains_key(#[trigger] dsv[qq]) implies meta_entries(
                                m0[dsv[qq]],
                            ) is Some && planned(plan@, plan@.len() as int).contains(dsv[qq]) by {
                            if qq < q {
                                assert(planned(p0, p0.len() as int).contains(dsv[qq]));
                                let pp = choose|pp: int| 0 <= pp < p0.len() && (#[trigger] p0[pp]).0@ == dsv[qq];
                                assert(plan@[pp] == p0[pp]);
                            } else {
                                assert(plan@[p0.len() as int].0@ == dsv[qq]);
                            }
                        }
                    }
                },
            },
        }
        q = q + 1;
    }
    proof {
        assert forall|d: Seq<u8>| #[trigger] deploys_of(s0, hh).contains(d) && m0.contains_key(d) implies meta_entries(m0[d]) is Some by {
            let qq = choose|qq: int| 0 <= qq < dsv.len() && dsv[qq] == d;
        }
        assert(removable(s0, hh));
        assert(applied(m0, hh, plan@, 0) =~= m0);
    }
    let mut p: usize = 0;
    while p < plan.len()
        invariant
            store.wf(),
            store.block_header@ == s0.block_header,
            store.block_body@ == s0.block_body,
            store.trie@ == s0.trie,
            m0 == s0.deploy_metadata,
            p <= plan@.len(),
            forall|pp: int| 0 <= pp < plan@.len() ==> update_ok(m0, hh, #[trigger] plan@[pp]),
            store.deploy_metadata@ == applied(m0, hh, plan@, p as int),
        decreases plan@.len() - p,
    {
        let ghost cur = store.deploy_metadata@;
        let ghost u = plan@[p as int];
        let ghost d = u.0@;
        proof {
            assert(update_ok(m0, hh, u));
            assert(planned(plan@, p + 1) =~= planned(plan@, p as int).insert(d));
        }
        match &plan[p].1 {
            None => {
                store.deploy_metadata.delete(plan[p].0.as_slice());
                proof {
                    assert(store.deploy_metadata@ =~= applied(m0, hh, plan@, p + 1));
                }
            },
            Some(v) => {
                store.deploy_metadata.put(copy_bytes(plan[p].0.as_slice()), copy_bytes(v.as_slice()));
                proof {
                    assert(store.deploy_metadata@ =~= applied(m0, hh, plan@, p + 1));
                }
            },
        }
        p = p + 1;
    }
    store.block_body.delete(body_hash.as_slice());
    store.block_header.delete(block_hash);
    proof {
        assert forall|d: Seq<u8>| m0.contains_key(d) implies (planned(plan@, plan@.len() as int).contains(d)
            <==> dsv.contains(d)) by {
            if dsv.contains(d) {
                let qq = choose|qq: int| 0 <= qq < dsv.len() && dsv[qq] == d;
            }
            if planned(plan@, plan@.len() as int).contains(d) {
                let pp = choose|pp: int| 0 <= pp < plan@.len() && (#[trigger] plan@[pp]).0@ == d;
            }
        }
        assert(store.deploy_metadata@ =~= meta_after(m0, hh, dsv));
        assert(store@ == removed(s0, hh));
    }
    Ok(())
}

} // verus!
