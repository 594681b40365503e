//! Byte layouts of the records held in each table.
//!
//! - block header: `body_hash (32) ++ state_root_hash (32) ++ rest`;
//! - block body: the deploy hashes, 32 bytes each, one after another;
//! - deploy metadata: entries `block_hash (32) ++ len (2, big-endian) ++ result (len)`;
//! - trie node: a tag byte, then for a leaf any payload, for an extension
//!   `path_len (1) ++ path ++ child (32)`, for a branch 1 to 16 child digests.
use vstd::prelude::*;

use crate::bytes::copy_range;

verus! {

/// The consecutive 32-byte pieces of `b`.
pub open spec fn chunks(b: Seq<u8>) -> Seq<Seq<u8>> {
    Seq::new(b.len() / 32, |i: int| b.subrange(32 * i, 32 * i + 32))
}

/// Body hash and state root hash of a header record.
pub open spec fn header_fields(v: Seq<u8>) -> Option<(Seq<u8>, Seq<u8>)> {
    if v.len() >= 64 {
        Some((v.subrange(0, 32), v.subrange(32, 64)))
    } else {
        None
    }
}

/// The deploy hashes of a body record.
pub open spec fn body_deploys(v: Seq<u8>) -> Option<Seq<Seq<u8>>> {
    if v.len() % 32 == 0 {
        Some(chunks(v))
    } else {
        None
    }
}

/// The entries (block hash, execution result) of a deploy metadata record.
pub open spec fn meta_entries(b: Seq<u8>) -> Option<Seq<(Seq<u8>, Seq<u8>)>>
    decreases b.len(),
{
    if b.len() == 0 {
        Some(Seq::empty())
    } else if b.len() < 34 {
        None
    } else {
        let n = b[32] as int * 256 + b[33] as int;
        if 34 + n > b.len() {
            None
        } else {
            match meta_entries(b.subrange(34 + n, b.len() as int)) {
                Some(rest) => Some(seq![(b.subrange(0, 32), b.subrange(34, 34 + n))] + rest),
                None => None,
            }
        }
    }
}

/// Encoding of one deploy metadata entry.
pub open spec fn meta_entry_bytes(e: (Seq<u8>, Seq<u8>)) -> Seq<u8> {
    e.0 + seq![(e.1.len() / 256) as u8, (e.1.len() % 256) as u8] + e.1
}

/// Encoding of a sequence of deploy metadata entries.
pub open spec fn meta_bytes(es: Seq<(Seq<u8>, Seq<u8>)>) -> Seq<u8>
    decreases es.len(),
{
    if es.len() == 0 {
        Seq::empty()
    } else {
        meta_bytes(es.drop_last()) + meta_entry_bytes(es.last())
    }
}

/// The child digests of a trie node, or `None` where the record is not a node.
pub open spec fn trie_children(v: Seq<u8>) -> Option<Seq<Seq<u8>>> {
    if v.len() == 0 {
        None
    } else if v[0] == 0 {
        Some(Seq::empty())
    } else if v[0] == 1 {
        if v.len() >= 2 && v.len() == 2 + v[1] as int + 32 {
            Some(seq![v.subrange(2 + v[1] as int, v.len() as int)])
        } else {
            None
        }
    } else if v[0] == 2 {
        let n = v.len() - 1;
        if n % 32 == 0 && 1 <= n / 32 <= 16 {
            Some(chunks(v.subrange(1, v.len() as int)))
        } else {
            None
        }
    } else {
        None
    }
}

pub open spec fn digests_view(v: Seq<Vec<u8>>) -> Seq<Seq<u8>> {
    v.map_values(|d: Vec<u8>| d@)
}

pub open spec fn entries_view(v: Seq<(Vec<u8>, Vec<u8>)>) -> Seq<(Seq<u8>, Seq<u8>)> {
    v.map_values(|e: (Vec<u8>, Vec<u8>)| (e.0@, e.1@))
}

/// Every entry's result fits the two-byte length field.
pub open spec fn entries_encodable(es: Seq<(Seq<u8>, Seq<u8>)>) -> bool {
    forall|i: int| 0 <= i < es.len() ==> (#[trigger] es[i]).1.len() < 65536
}

/// Splits `b[start..]` into 32-byte digests.
pub fn split_digests(b: &[u8], start: usize) -> (r: Vec<Vec<u8>>)
    requires
        start <= b@.len(),
        (b@.len() - start) % 32 == 0,
    ensures
        digests_view(r@) == chunks(b@.subrange(start as int, b@.len() as int)),
{
    let ghost tail = b@.subrange(start as int, b@.len() as int);
    let mut r: Vec<Vec<u8>> = Vec::new();
    let mut off: usize = start;
    while off < b.len()
        invariant
            start <= off <= b@.len(),
            (off - start) % 32 == 0,
            (b@.len() - start) % 32 == 0,
            tail == b@.subrange(start as int, b@.len() as int),
            r@.len() == (off - start) / 32,
            forall|i: int|
                0 <= i < r@.len() ==> (#[trigger] r@[i])@ == tail.subrange(32 * i, 32 * i + 32),
        decreases b@.len() - off,
    {
        let d = copy_range(b, off, off + 32);
        proof {
            let i = r@.len() as int;
            assert(32 * i == off - start);
            assert(d@ =~= tail.subrange(32 * i, 32 * i + 32));
        }
        r.push(d);
        off = off + 32;
    }
    assert(digests_view(r@) =~= chunks(tail));
    r
}

/// Reads the body hash and state root hash of a header record.
pub fn decode_header(v: &[u8]) -> (r: Option<(Vec<u8>, Vec<u8>)>)
    ensures
        r is None <==> header_fields(v@) is None,
        r matches Some(p) ==> header_fields(v@) == Some((p.0@, p.1@)),
{
    if v.len() >= 64 {
        Some((copy_range(v, 0, 32), copy_range(v, 32, 64)))
    } else {
        None
    }
}

/// Reads the deploy hashes of a body record.
pub fn decode_body(v: &[u8]) -> (r: Option<Vec<Vec<u8>>>)
    ensures
        r is None <==> body_deploys(v@) is None,
        r matches Some(ds) ==> body_deploys(v@) == Some(digests_view(ds@)),
{
    if v.len() % 32 == 0 {
        let ds = split_digests(v, 0);
        assert(v@.subrange(0, v@.len() as int) =~= v@);
        Some(ds)
    } else {
        None
    }
}

/// Reads the child digests of a trie node.
pub fn decode_trie_node(v: &[u8]) -> (r: Option<Vec<Vec<u8>>>)
    ensures
        r is None <==> trie_children(v@) is None,
        r matches Some(cs) ==> trie_children(v@) == Some(digests_view(cs@)),
{
    if v.len() == 0 {
        None
    } else if v[0] == 0 {
        let cs: Vec<Vec<u8>> = Vec::new();
        assert(digests_view(cs@) =~= Seq::<Seq<u8>>::empty());
        Some(cs)
    } else if v[0] == 1 {
        if v.len() >= 2 && v.len() == 2 + v[1] as usize + 32 {
            let c = copy_range(v, 2 + v[1] as usize, v.len());
            let mut cs: Vec<Vec<u8>> = Vec::new();
            cs.push(c);
            assert(digests_view(cs@) =~= seq![c@]);
            Some(cs)
        } else {
            None
        }
    } else if v[0] == 2 {
        let n = v.len() - 1;
        if n % 32 == 0 && 1 <= n / 32 && n / 32 <= 16 {
            Some(split_digests(v, 1))
        } else {
            None
        }
    } else {
        None
    }
}

pub open spec fn prepend(
    p: Seq<(Seq<u8>, Seq<u8>)>,
    o: Option<Seq<(Seq<u8>, Seq<u8>)>>,
) -> Option<Seq<(Seq<u8>, Seq<u8>)>> {
    match o {
        Some(r) => Some(p + r),
        None => None,
    }
}

/// Reads the entries of a deploy metadata record.
pub fn decode_meta(b: &[u8]) -> (r: Option<Vec<(Vec<u8>, Vec<u8>)>>)
    ensures
        r is None <==> meta_entries(b@) is None,
        r matches Some(es) ==> meta_entries(b@) == Some(entries_view(es@)) && entries_encodable(
            entries_view(es@),
        ),
{
    let mut out: Vec<(Vec<u8>, Vec<u8>)> = Vec::new();
    let mut off: usize = 0;
    assert(b@.subrange(0, b@.len() as int) =~= b@);
    while off < b.len()
        invariant
            off <= b@.len(),
            meta_entries(b@) == prepend(
                entries_view(out@),
                meta_entries(b@.subrange(off as int, b@.len() as int)),
            ),
            entries_encodable(entries_view(out@)),
        decreases b@.len() - off,
    {
        let ghost rest = b@.subrange(off as int, b@.len() as int);
        if b.len() - off < 34 {
            return None;
        }
        let n = b[off + 32] as usize * 256 + b[off + 33] as usize;
        if n > b.len() - off - 34 {
            return None;
        }
        let block = copy_range(b, off, off + 32);
        let result = copy_range(b, off + 34, off + 34 + n);
        let ghost prev = entries_view(out@);
        proof {
            assert(rest[32] == b@[off + 32] && rest[33] == b@[off + 33]);
            assert(block@ =~= rest.subrange(0, 32));
            assert(result@ =~= rest.subrange(34, 34 + n as int));
            assert(rest.subrange(34 + n as int, rest.len() as int) =~= b@.subrange(
                off + 34 + n,
                b@.len() as int,
            ));
        }
        out.push((block, result));
        proof {
            let e = (block@, result@);
            assert(entries_view(out@) =~= prev.push(e));
            let tail = meta_entries(b@.subrange(off + 34 + n, b@.len() as int));
            match tail {
                Some(t) => {
                    assert(prev + (seq![e] + t) =~= prev.push(e) + t);
                },
                None => {},
            }
        }
        off = off + 34 + n;
    }
    assert(b@.subrange(off as int, b@.len() as int) =~= Seq::<u8>::empty());
    assert(entries_view(out@) + Seq::<(Seq<u8>, Seq<u8>)>::empty() =~= entries_view(out@));
    Some(out)
}

} // verus!
