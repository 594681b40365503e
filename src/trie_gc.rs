//! Trie garbage collection: keep exactly the trie nodes reachable from the
//! state roots of the stored block headers.
use vstd::prelude::*;

use crate::bytes::copy_bytes;
use crate::codec::{decode_header, decode_trie_node, digests_view, header_fields, trie_children};
use crate::store::{replace_on_success, Error, Store, StoreView, TableId};
use crate::table::{has_key, lemma_map_of_at, Table};

verus! {

/// `c` is one of the children of the node stored under `p`.
pub open spec fn child_of(t: Map<Seq<u8>, Seq<u8>>, p: Seq<u8>, c: Seq<u8>) -> bool {
    t.contains_key(p) && (trie_children(t[p]) matches Some(cs) && cs.contains(c))
}

/// The state root hashes of the stored headers.
pub open spec fn roots_of(h: Map<Seq<u8>, Seq<u8>>) -> Set<Seq<u8>> {
    Set::new(
        |r: Seq<u8>|
            exists|k: Seq<u8>|
                #[trigger] h.contains_key(k) && (header_fields(h[k]) matches Some(f) && f.1 == r),
    )
}

/// `path` starts at a root and follows child links.
pub open spec fn is_path(t: Map<Seq<u8>, Seq<u8>>, roots: Set<Seq<u8>>, path: Seq<Seq<u8>>) -> bool {
    &&& path.len() > 0
    &&& roots.contains(path[0])
    &&& forall|i: int| 0 <= i < path.len() - 1 ==> #[trigger] child_of(t, path[i], path[i + 1])
}

/// `d` is reached from `roots` along child links.
pub open spec fn reachable(t: Map<Seq<u8>, Seq<u8>>, roots: Set<Seq<u8>>, d: Seq<u8>) -> bool {
    exists|path: Seq<Seq<u8>>| #[trigger] is_path(t, roots, path) && path.last() == d
}

/// The digests reachable from the state roots of a store.
pub open spec fn live_nodes(s: StoreView) -> Set<Seq<u8>> {
    Set::new(|d: Seq<u8>| reachable(s.trie, roots_of(s.block_header), d))
}

/// Every header decodes, and every reachable digest names a stored node that decodes.
pub open spec fn gc_sound(s: StoreView) -> bool {
    &&& forall|k: Seq<u8>| #[trigger]
        s.block_header.contains_key(k) ==> header_fields(s.block_header[k]) is Some
    &&& forall|d: Seq<u8>|
        #[trigger] live_nodes(s).contains(d) ==> s.trie.contains_key(d) && trie_children(
            s.trie[d],
        ) is Some
}

/// The store after trie garbage collection: only the trie is filtered.
pub open spec fn compacted(s: StoreView) -> StoreView {
    StoreView { trie: s.trie.restrict(live_nodes(s)), ..s }
}

/// A root is reachable.
pub proof fn lemma_root_reachable(t: Map<Seq<u8>, Seq<u8>>, roots: Set<Seq<u8>>, r: Seq<u8>)
    requires
        roots.contains(r),
    ensures
        reachable(t, roots, r),
{
    let path = seq![r];
    assert(is_path(t, roots, path));
}

/// A child of a reachable node is reachable.
pub proof fn lemma_child_reachable(
    t: Map<Seq<u8>, Seq<u8>>,
    roots: Set<Seq<u8>>,
    p: Seq<u8>,
    c: Seq<u8>,
)
    requires
        reachable(t, roots, p),
        child_of(t, p, c),
    ensures
        reachable(t, roots, c),
{
    let path = choose|path: Seq<Seq<u8>>| #[trigger] is_path(t, roots, path) && path.last() == p;
    let q = path.push(c);
    assert forall|i: int| 0 <= i < q.len() - 1 implies #[trigger] child_of(t, q[i], q[i + 1]) by {
        if i < path.len() - 1 {
            assert(q[i] == path[i] && q[i + 1] == path[i + 1]);
            assert(child_of(t, path[i], path[i + 1]));
        }
    }
    assert(is_path(t, roots, q));
}

/// Every node on a path is reachable.
proof fn lemma_path_prefix(t: Map<Seq<u8>, Seq<u8>>, roots: Set<Seq<u8>>, path: Seq<Seq<u8>>, i: int)
    requires
        is_path(t, roots, path),
        0 <= i < path.len(),
    ensures
        reachable(t, roots, path[i]),
{
    let q = path.subrange(0, i + 1);
    assert forall|j: int| 0 <= j < q.len() - 1 implies #[trigger] child_of(t, q[j], q[j + 1]) by {
        assert(q[j] == path[j] && q[j + 1] == path[j + 1]);
        assert(child_of(t, path[j], path[j + 1]));
    }
    assert(is_path(t, roots, q));
}

/// A set that holds the roots and is closed under child links holds every node of a path.
proof fn lemma_closed_holds_path(
    t: Map<Seq<u8>, Seq<u8>>,
    roots: Set<Seq<u8>>,
    s: Set<Seq<u8>>,
    path: Seq<Seq<u8>>,
    i: int,
)
    requires
        forall|r: Seq<u8>| #[trigger] roots.contains(r) ==> s.contains(r),
        forall|p: Seq<u8>, c: Seq<u8>| s.contains(p) && #[trigger] child_of(t, p, c) ==> s.contains(c),
        is_path(t, roots, path),
        0 <= i < path.len(),
    ensures
        s.contains(path[i]),
    decreases i,
{
    if i > 0 {
        lemma_closed_holds_path(t, roots, s, path, i - 1);
        assert(child_of(t, path[i - 1], path[(i - 1) + 1]));
        assert((i - 1) + 1 == i);
    }
}

/// A set that holds the roots and is closed under child links holds every reachable digest.
pub proof fn lemma_closed_holds_reachable(
    t: Map<Seq<u8>, Seq<u8>>,
    roots: Set<Seq<u8>>,
    s: Set<Seq<u8>>,
    d: Seq<u8>,
)
    requires
        forall|r: Seq<u8>| #[trigger] roots.contains(r) ==> s.contains(r),
        forall|p: Seq<u8>, c: Seq<u8>| s.contains(p) && #[trigger] child_of(t, p, c) ==> s.contains(c),
        reachable(t, roots, d),
    ensures
        s.contains(d),
{
    let path = choose|path: Seq<Seq<u8>>| #[trigger] is_path(t, roots, path) && path.last() == d;
    lemma_closed_holds_path(t, roots, s, path, path.len() - 1);
}

/// Restricting the trie to its live nodes changes no digest's reachability.
proof fn lemma_restrict_reachable(s: StoreView, d: Seq<u8>)
    ensures
        reachable(s.trie, roots_of(s.block_header), d) == reachable(
            s.trie.restrict(live_nodes(s)),
            roots_of(s.block_header),
            d,
        ),
{
    let t = s.trie;
    let t2 = s.trie.restrict(live_nodes(s));
    let r = roots_of(s.block_header);
    if reachable(t, r, d) {
        let path = choose|path: Seq<Seq<u8>>| #[trigger] is_path(t, r, path) && path.last() == d;
        assert forall|i: int| 0 <= i < path.len() - 1 implies #[trigger] child_of(
            t2,
            path[i],
            path[i + 1],
        ) by {
            lemma_path_prefix(t, r, path, i);
            assert(live_nodes(s).contains(path[i]));
            assert(child_of(t, path[i], path[i + 1]));
        }
        assert(is_path(t2, r, path));
    }
    if reachable(t2, r, d) {
        let path = choose|path: Seq<Seq<u8>>| #[trigger] is_path(t2, r, path) && path.last() == d;
        assert forall|i: int| 0 <= i < path.len() - 1 implies #[trigger] child_of(
            t,
            path[i],
            path[i + 1],
        ) by {
            assert(child_of(t2, path[i], path[i + 1]));
        }
        assert(is_path(t, r, path));
    }
}

/// Garbage collection is a fixed point: collecting a collected store keeps
/// every node, and the collected store is again sound.
pub proof fn lemma_compacted_idempotent(s: StoreView)
    requires
        gc_sound(s),
    ensures
        gc_sound(compacted(s)),
        compacted(compacted(s)) == compacted(s),
{
    let c = compacted(s);
    assert forall|d: Seq<u8>| live_nodes(c).contains(d) <==> live_nodes(s).contains(d) by {
        lemma_restrict_reachable(s, d);
    }
    assert(live_nodes(c) =~= live_nodes(s));
    assert(c.trie.restrict(live_nodes(c)) =~= c.trie);
}

/// Number of unmarked positions.
pub open spec fn unvisited(s: Seq<bool>) -> nat
    decreases s.len(),
{
    if s.len() == 0 {
        0
    } else {
        unvisited(s.drop_last()) + if s.last() {
            0nat
        } else {
            1nat
        }
    }
}

proof fn lemma_unvisited_mark(s: Seq<bool>, i: int)
    requires
        0 <= i < s.len(),
        !s[i],
    ensures
        unvisited(s.update(i, true)) + 1 == unvisited(s),
    decreases s.len(),
{
    if i == s.len() - 1 {
        assert(s.update(i, true).drop_last() =~= s.drop_last());
    } else {
        lemma_unvisited_mark(s.drop_last(), i);
        assert(s.update(i, true).drop_last() =~= s.drop_last().update(i, true));
    }
}

/// The keys of the marked records.
pub open spec fn marked_keys(t: Table, visited: Seq<bool>) -> Set<Seq<u8>> {
    Set::new(
        |k: Seq<u8>|
            exists|j: int|
                0 <= j < visited.len() && visited[j] && (#[trigger] t.entries()[j]).0 == k,
    )
}

/// Every header record decodes.
pub open spec fn headers_decode(h: Map<Seq<u8>, Seq<u8>>) -> bool {
    forall|k: Seq<u8>| #[trigger] h.contains_key(k) ==> header_fields(h[k]) is Some
}

/// `roots` lists exactly the state roots of the headers.
pub open spec fn lists_roots(h: Map<Seq<u8>, Seq<u8>>, roots: Seq<Vec<u8>>) -> bool {
    forall|x: Seq<u8>|
        roots_of(h).contains(x) <==> exists|m: int| 0 <= m < roots.len() && (#[trigger] roots[m])@ == x
}

/// Collects the state root hashes of every header.
fn collect_roots(headers: &Table) -> (r: Result<Vec<Vec<u8>>, Error>)
    requires
        headers.wf(),
    ensures
        r matches Ok(roots) ==> headers_decode(headers@) && lists_roots(headers@, roots@),
        r matches Err(e) ==> (e matches Error::Corruption(t, k) && t == TableId::BlockHeader
            && headers@.contains_key(k@) && header_fields(headers@[k@]) is None),
{
    let mut roots: Vec<Vec<u8>> = Vec::new();
    let mut i: usize = 0;
    while i < headers.len()
        invariant
            headers.wf(),
            0 <= i <= headers.entries().len(),
            forall|j: int|
                0 <= j < i ==> header_fields(#[trigger] headers.entries()[j].1) is Some,
            forall|m: int|
                0 <= m < roots@.len() ==> roots_of(headers@).contains((#[trigger] roots@[m])@),
            forall|j: int|
                0 <= j < i ==> exists|m: int|
                    0 <= m < roots@.len() && (#[trigger] roots@[m])@ == header_fields(
                        #[trigger] headers.entries()[j].1,
                    )->Some_0.1,
        decreases headers.entries().len() - i,
    {
        proof {
            lemma_map_of_at(headers.entries(), i as int);
        }
        match decode_header(headers.value_at(i).as_slice()) {
            Some((_, root)) => {
                let ghost r0 = roots@;
                proof {
                    let k = headers.entries()[i as int].0;
                    assert(headers@.contains_key(k));
                    assert(roots_of(headers@).contains(root@));
                }
                roots.push(root);
                proof {
                    assert(roots@[r0.len() as int] == root);
                    assert forall|m: int| 0 <= m < r0.len() implies roots@[m] == r0[m] by {}
                    assert forall|j: int| 0 <= j < i + 1 implies exists|m: int|
                        0 <= m < roots@.len() && (#[trigger] roots@[m])@ == header_fields(
                            #[trigger] headers.entries()[j].1,
                        )->Some_0.1 by {
                        if j < i {
                            let m = choose|m: int|
                                0 <= m < r0.len() && (#[trigger] r0[m])@ == header_fields(
                                    headers.entries()[j].1,
                                )->Some_0.1;
                            assert(roots@[m] == r0[m]);
                        } else {
                            assert(roots@[r0.len() as int]@ == root@);
                        }
                    }
                }
            },
            None => {
                let key = copy_bytes(headers.key_at(i).as_slice());
                return Err(Error::Corruption(TableId::BlockHeader, key));
            },
        }
        i = i + 1;
    }
    proof {
        assert forall|k: Seq<u8>| #[trigger] headers@.contains_key(k) implies header_fields(
            headers@[k],
        ) is Some by {
            assert(has_key(headers.entries(), k));
            let j = choose|j: int|
                0 <= j < headers.entries().len() && (#[trigger] headers.entries()[j]).0 == k;
            lemma_map_of_at(headers.entries(), j);
        }
        assert forall|x: Seq<u8>| roots_of(headers@).contains(x) implies exists|m: int|
            0 <= m < roots@.len() && (#[trigger] roots@[m])@ == x by {
            let k = choose|k: Seq<u8>|
                #[trigger] headers@.contains_key(k) && (header_fields(headers@[k]) matches Some(
                    f,
                ) && f.1 == x);
            assert(has_key(headers.entries(), k));
            let j = choose|j: int|
                0 <= j < headers.entries().len() && (#[trigger] headers.entries()[j]).0 == k;
            lemma_map_of_at(headers.entries(), j);
            assert(header_fields(headers.entries()[j].1)->Some_0.1 == x);
        }
        assert forall|x: Seq<u8>| (exists|m: int| 0 <= m < roots@.len() && (#[trigger] roots@[m])@ == x)
            implies roots_of(headers@).contains(x) by {
            let m = choose|m: int| 0 <= m < roots@.len() && (#[trigger] roots@[m])@ == x;
            assert(roots_of(headers@).contains(roots@[m]@));
        }
        assert(headers_decode(headers@));
        assert(lists_roots(headers@, roots@));
    }
    Ok(roots)
}

} // verus!

verus! {

/// Marking more records keeps every marked key.
proof fn lemma_marked_grows(t: Table, v1: Seq<bool>, v2: Seq<bool>)
    requires
        v1.len() == v2.len(),
        forall|j: int| 0 <= j < v1.len() && v1[j] ==> v2[j],
    ensures
        forall|k: Seq<u8>| marked_keys(t, v1).contains(k) ==> #[trigger] marked_keys(t, v2).contains(k),
{
    assert forall|k: Seq<u8>| marked_keys(t, v1).contains(k) implies #[trigger] marked_keys(
        t,
        v2,
    ).contains(k) by {
        let j = choose|j: int| 0 <= j < v1.len() && v1[j] && (#[trigger] t.entries()[j]).0 == k;
        assert(v2[j]);
    }
}

/// Every child listed by the record at `j` is a marked key.
pub open spec fn children_marked(t: Table, visited: Seq<bool>, j: int) -> bool {
    trie_children(t.entries()[j].1) matches Some(cs) && forall|c: Seq<u8>|
        #[trigger] cs.contains(c) ==> marked_keys(t, visited).contains(c)
}

/// Marks the trie records reachable from `roots`, failing on a reachable
/// digest with no record or a reachable record that does not decode.
fn mark_live(trie: &Table, roots: &Vec<Vec<u8>>, Ghost(rs): Ghost<Set<Seq<u8>>>) -> (r: Result<
    Vec<bool>,
    Error,
>)
    requires
        trie.wf(),
        forall|x: Seq<u8>|
            rs.contains(x) <==> exists|m: int| 0 <= m < roots@.len() && (#[trigger] roots@[m])@ == x,
    ensures
        r matches Ok(vis) ==> vis@.len() == trie.entries().len() && marked_keys(*trie, vis@) == Set::new(
            |d: Seq<u8>| reachable(trie@, rs, d),
        ) && (forall|j: int|
            0 <= j < vis@.len() && vis@[j] ==> trie_children(#[trigger] trie.entries()[j].1) is Some),
        r matches Err(e) ==> match e {
            Error::Corruption(t, k) => t == TableId::Trie && reachable(trie@, rs, k@)
                && trie@.contains_key(k@) && trie_children(trie@[k@]) is None,
            Error::DanglingReference(t, k) => t == TableId::Trie && reachable(trie@, rs, k@)
                && !trie@.contains_key(k@),
            Error::NotFound(_) => false,
        },
{
    let ghost g = trie@;
    let ghost e = trie.entries();
    let n = trie.len();
    let mut visited: Vec<bool> = Vec::with_capacity(n);
    while visited.len() < n
        invariant
            visited@.len() <= n,
            forall|j: int| 0 <= j < visited@.len() ==> !visited@[j],
        decreases n - visited@.len(),
    {
        visited.push(false);
    }
    let mut work: Vec<usize> = Vec::new();
    let ghost mut done: Seq<bool> = Seq::new(n as nat, |j: int| false);
    let mut m: usize = 0;
    while m < roots.len()
        invariant
            trie.wf(),
            g == trie@,
            e == trie.entries(),
            n == e.len(),
            visited@.len() == n,
            done.len() == n,
            forall|x: Seq<u8>|
                rs.contains(x) <==> exists|mm: int|
                    0 <= mm < roots@.len() && (#[trigger] roots@[mm])@ == x,
            forall|j: int| 0 <= j < n ==> !done[j],
            forall|w: int| 0 <= w < work@.len() ==> #[trigger] work@[w] < n && visited@[work@[w] as int],
            forall|j: int| 0 <= j < n && #[trigger] visited@[j] ==> reachable(g, rs, e[j].0),
            forall|j: int|
                0 <= j < n && #[trigger] visited@[j] ==> done[j] || work@.contains(j as usize),
            forall|mm: int| 0 <= mm < m ==> marked_keys(*trie, visited@).contains(#[trigger] roots@[mm]@),
            m <= roots@.len(),
        decreases roots@.len() - m,
    {
        let root = &roots[m];
        proof {
            assert(rs.contains(roots@[m as int]@));
            lemma_root_reachable(g, rs, root@);
        }
        match trie.find(root.as_slice()) {
            None => {
                return Err(Error::DanglingReference(TableId::Trie, copy_bytes(root.as_slice())));
            },
            Some(j) => {
                if !visited[j] {
                    let ghost v0 = visited@;
                    let ghost w0 = work@;
                    visited.set(j, true);
                    work.push(j);
                    proof {
                        lemma_marked_grows(*trie, v0, visited@);
                        assert forall|w: int| 0 <= w < work@.len() implies #[trigger] work@[w] < n
                            && visited@[work@[w] as int] by {
                            if w < w0.len() {
                                assert(work@[w] == w0[w]);
                            }
                        }
                        assert forall|jj: int|
                            0 <= jj < n && #[trigger] visited@[jj] implies done[jj] || work@.contains(
                                jj as usize,
                            ) by {
                            if jj == j {
                                assert(work@[w0.len() as int] == j);
                            } else {
                                assert(v0[jj]);
                                if !done[jj] {
                                    let w = choose|w: int| 0 <= w < w0.len() && w0[w] == jj as usize;
                                    assert(work@[w] == w0[w]);
                                }
                            }
                        }
                    }
                }
                proof {
                    assert(visited@[j as int] && e[j as int].0 == root@);
                    assert(marked_keys(*trie, visited@).contains(root@));
                }
            },
        }
        m = m + 1;
    }
    while work.len() > 0
        invariant
            trie.wf(),
            g == trie@,
            e == trie.entries(),
            n == e.len(),
            visited@.len() == n,
            done.len() == n,
            forall|w: int| 0 <= w < work@.len() ==> #[trigger] work@[w] < n && visited@[work@[w] as int],
            forall|j: int| 0 <= j < n && #[trigger] visited@[j] ==> reachable(g, rs, e[j].0),
            forall|j: int|
                0 <= j < n && #[trigger] visited@[j] ==> done[j] || work@.contains(j as usize),
            forall|j: int|
                0 <= j < n && #[trigger] done[j] ==> visited@[j] && children_marked(*trie, visited@, j),
            forall|x: Seq<u8>| rs.contains(x) ==> #[trigger] marked_keys(*trie, visited@).contains(x),
        decreases unvisited(visited@), work@.len(),
    {
        let ghost u0 = unvisited(visited@);
        let ghost wl0 = work@.len();
        let ghost wk = work@;
        let i = work.pop().unwrap();
        proof {
            lemma_map_of_at(e, i as int);
            assert(work@ =~= wk.drop_last());
            assert forall|j: int|
                0 <= j < n && #[trigger] visited@[j] implies done[j] || work@.contains(j as usize)
                || j == i by {
                if !done[j] {
                    let w = choose|w: int| 0 <= w < wk.len() && wk[w] == j as usize;
                    if w < wk.len() - 1 {
                        assert(work@[w] == wk[w]);
                    }
                }
            }
        }
        let cs = match decode_trie_node(trie.value_at(i).as_slice()) {
            Some(cs) => cs,
            None => {
                return Err(Error::Corruption(TableId::Trie, copy_bytes(trie.key_at(i).as_slice())));
            },
        };
        let ghost p = e[i as int].0;
        let mut ci: usize = 0;
        while ci < cs.len()
            invariant
                trie.wf(),
                g == trie@,
                e == trie.entries(),
                n == e.len(),
                i < n,
                p == e[i as int].0,
                g.contains_key(p),
                g[p] == e[i as int].1,
                trie_children(e[i as int].1) == Some(digests_view(cs@)),
                reachable(g, rs, p),
                visited@.len() == n,
                done.len() == n,
                ci <= cs@.len(),
                unvisited(visited@) <= u0,
                unvisited(visited@) + work@.len() == u0 + wl0 - 1,
                forall|w: int|
                    0 <= w < work@.len() ==> #[trigger] work@[w] < n && visited@[work@[w] as int],
                forall|j: int| 0 <= j < n && #[trigger] visited@[j] ==> reachable(g, rs, e[j].0),
                forall|j: int|
                    0 <= j < n && #[trigger] visited@[j] ==> done[j] || work@.contains(j as usize)
                        || j == i,
                forall|j: int|
                    0 <= j < n && #[trigger] done[j] ==> visited@[j] && children_marked(
                        *trie,
                        visited@,
                        j,
                    ),
                forall|x: Seq<u8>| rs.contains(x) ==> #[trigger] marked_keys(*trie, visited@).contains(x),
                forall|cc: int|
                    0 <= cc < ci ==> marked_keys(*trie, visited@).contains(#[trigger] cs@[cc]@),
                visited@[i as int],
            decreases cs@.len() - ci,
        {
            let c = &cs[ci];
            proof {
                assert(digests_view(cs@)[ci as int] == c@);
                assert(digests_view(cs@).contains(c@));
                assert(child_of(g, p, c@));
                lemma_child_reachable(g, rs, p, c@);
            }
            match trie.find(c.as_slice()) {
                None => {
                    return Err(Error::DanglingReference(TableId::Trie, copy_bytes(c.as_slice())));
                },
                Some(j) => {
                    if !visited[j] {
                        let ghost v0 = visited@;
                        let ghost w0 = work@;
                        proof {
                            lemma_unvisited_mark(v0, j as int);
                        }
                        visited.set(j, true);
                        work.push(j);
                        proof {
                            lemma_marked_grows(*trie, v0, visited@);
                            assert forall|w: int| 0 <= w < work@.len() implies #[trigger] work@[w] < n
                                && visited@[work@[w] as int] by {
                                if w < w0.len() {
                                    assert(work@[w] == w0[w]);
                                }
                            }
                            assert forall|jj: int|
                                0 <= jj < n && #[trigger] visited@[jj] implies done[jj]
                                || work@.contains(jj as usize) || jj == i by {
                                if jj == j {
                                    assert(work@[w0.len() as int] == j);
                                } else {
                                    assert(v0[jj]);
                                    if !done[jj] && jj != i {
                                        let w = choose|w: int| 0 <= w < w0.len() && w0[w] == jj as usize;
                                        assert(work@[w] == w0[w]);
                                    }
                                }
                            }
                            assert forall|jj: int|
                                0 <= jj < n && #[trigger] done[jj] implies visited@[jj] && children_marked(
                                    *trie,
                                    visited@,
                                    jj,
                                ) by {
                                assert(children_marked(*trie, v0, jj));
                            }
                        }
                    }
                    proof {
                        assert(visited@[j as int] && e[j as int].0 == c@);
                        assert(marked_keys(*trie, visited@).contains(c@));
                    }
                },
            }
            ci = ci + 1;
        }
        proof {
            assert forall|c: Seq<u8>| #[trigger] digests_view(cs@).contains(c) implies marked_keys(
                *trie,
                visited@,
            ).contains(c) by {
                let idx = choose|idx: int| 0 <= idx < digests_view(cs@).len() && digests_view(cs@)[idx] == c;
                assert(cs@[idx]@ == c);
            }
            assert(children_marked(*trie, visited@, i as int));
            done = done.update(i as int, true);
        }
    }
    proof {
        let s = marked_keys(*trie, visited@);
        assert forall|pp: Seq<u8>, c: Seq<u8>| s.contains(pp) && #[trigger] child_of(g, pp, c) implies s.contains(c) by {
            let j = choose|j: int| 0 <= j < visited@.len() && visited@[j] && (#[trigger] e[j]).0 == pp;
            assert(done[j] || work@.contains(j as usize));
            assert(done[j]);
            assert(children_marked(*trie, visited@, j));
            lemma_map_of_at(e, j);
        }
        assert forall|d: Seq<u8>| s.contains(d) <==> reachable(g, rs, d) by {
            if reachable(g, rs, d) {
                lemma_closed_holds_reachable(g, rs, s, d);
            }
            if s.contains(d) {
                let j = choose|j: int| 0 <= j < visited@.len() && visited@[j] && (#[trigger] e[j]).0 == d;
            }
        }
        assert(s =~= Set::new(|d: Seq<u8>| reachable(trie@, rs, d)));
        assert forall|j: int| 0 <= j < visited@.len() && visited@[j] implies trie_children(
            #[trigger] trie.entries()[j].1,
        ) is Some by {
            assert(done[j] || work@.contains(j as usize));
            assert(children_marked(*trie, visited@, j));
        }
    }
    Ok(visited)
}

} // verus!

verus! {

/// What a failed garbage collection reports: a header that does not decode,
/// or a reachable digest with no record or whose record does not decode.
pub open spec fn gc_failure(s: StoreView, e: Error) -> bool {
    match e {
        Error::Corruption(t, k) => (t == TableId::BlockHeader && s.block_header.contains_key(k@)
            && header_fields(s.block_header[k@]) is None) || (t == TableId::Trie
            && live_nodes(s).contains(k@) && s.trie.contains_key(k@) && trie_children(s.trie[k@])
            is None),
        Error::DanglingReference(t, k) => t == TableId::Trie && live_nodes(s).contains(k@)
            && !s.trie.contains_key(k@),
        Error::NotFound(_) => false,
    }
}

/// The keys of the marked records among the first `i`.
pub open spec fn marked_upto(t: Table, visited: Seq<bool>, i: int) -> Set<Seq<u8>> {
    Set::new(
        |k: Seq<u8>| exists|j: int| 0 <= j < i && visited[j] && (#[trigger] t.entries()[j]).0 == k,
    )
}

/// Copies the marked records of `trie` into a fresh table.
fn copy_marked(trie: &Table, visited: &Vec<bool>) -> (r: Table)
    requires
        trie.wf(),
        visited@.len() == trie.entries().len(),
    ensures
        r.wf(),
        r@ == trie@.restrict(marked_keys(*trie, visited@)),
{
    let mut dest = Table::new();
    let mut i: usize = 0;
    while i < visited.len()
        invariant
            trie.wf(),
            visited@.len() == trie.entries().len(),
            i <= visited@.len(),
            dest.wf(),
            dest@ == trie@.restrict(marked_upto(*trie, visited@, i as int)),
        decreases visited@.len() - i,
    {
        let ghost before = marked_upto(*trie, visited@, i as int);
        let ghost after = marked_upto(*trie, visited@, i + 1);
        if visited[i] {
            let key = copy_bytes(trie.key_at(i).as_slice());
            let value = copy_bytes(trie.value_at(i).as_slice());
            proof {
                lemma_map_of_at(trie.entries(), i as int);
                assert(after =~= before.insert(key@));
                assert(trie@.restrict(after) =~= trie@.restrict(before).insert(key@, value@));
            }
            dest.put(key, value);
        } else {
            proof {
                assert(after =~= before);
            }
        }
        i = i + 1;
    }
    proof {
        assert(marked_upto(*trie, visited@, i as int) =~= marked_keys(*trie, visited@));
    }
    dest
}

/// Trie garbage collection as a build step: a new store whose trie holds
/// exactly the nodes reachable from the state roots of the stored headers,
/// every other table copied unchanged. It succeeds exactly when every header
/// decodes and every reachable digest names a stored node that decodes.
pub fn compact_trie(store: &Store) -> (r: Result<Store, Error>)
    requires
        store.wf(),
    ensures
        r is Ok <==> gc_sound(store@),
        r matches Ok(s) ==> s.wf() && s@ == compacted(store@),
        r matches Err(e) ==> gc_failure(store@, e),
{
    let roots = match collect_roots(&store.block_header) {
        Ok(roots) => roots,
        Err(e) => {
            return Err(e);
        },
    };
    let ghost rs = roots_of(store.block_header@);
    let visited = match mark_live(&store.trie, &roots, Ghost(rs)) {
        Ok(v) => v,
        Err(e) => {
            proof {
                assert(live_nodes(store@) =~= Set::new(|d: Seq<u8>| reachable(store.trie@, rs, d)));
                match &e {
                    Error::Corruption(_, k) => assert(live_nodes(store@).contains(k@)),
                    Error::DanglingReference(_, k) => assert(live_nodes(store@).contains(k@)),
                    Error::NotFound(_) => {},
                }
            }
            return Err(e);
        },
    };
    let trie = copy_marked(&store.trie, &visited);
    let r = Store {
        block_header: store.block_header.copy(),
        block_body: store.block_body.copy(),
        deploy_metadata: store.deploy_metadata.copy(),
        trie,
    };
    proof {
        let live = live_nodes(store@);
        assert(live =~= marked_keys(store.trie, visited@));
        assert forall|d: Seq<u8>| #[trigger] live.contains(d) implies store.trie@.contains_key(d)
            && trie_children(store.trie@[d]) is Some by {
            let j = choose|j: int|
                0 <= j < visited@.len() && visited@[j] && (#[trigger] store.trie.entries()[j]).0 == d;
            lemma_map_of_at(store.trie.entries(), j);
        }
        assert(r@ == compacted(store@));
    }
    Ok(r)
}

/// Trie garbage collection with build-then-replace: on success the store
/// becomes the collected store; on any failure it is left exactly as it was.
pub fn compact_trie_in_place(store: &mut Store) -> (r: Result<(), Error>)
    requires
        old(store).wf(),
    ensures
        r is Ok <==> gc_sound(old(store)@),
        r is Ok ==> final(store).wf() && final(store)@ == compacted(old(store)@),
        r matches Err(e) ==> *final(store) == *old(store) && gc_failure(old(store)@, e),
{
    let built = compact_trie(store);
    replace_on_success(store, built)
}

} // verus!
