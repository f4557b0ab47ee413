use crate::split_file::action::{Action, ActionV};
use crate::split_file::parsed_merch_doc::{
    find_updated, lookup_updated, DocV, ExRecV, ParsedMerchDoc, UpdRecV,
};
use crate::utils::{bytes_eq, bytes_lt, clone_bytes, compute_hash, fingerprint_of, lemma_dv_bytes, lex_lt};
use vstd::pervasive::VecAdditionalExecFns;
use vstd::prelude::*;

verus! {

// ---------------------------------------------------------------------------
// The pending-rename map: an association list from old (fully qualified)
// path to new path.  Each old path is the source of at most one rename, and
// no rename maps a path to itself.
// ---------------------------------------------------------------------------

/// Position of the first edge whose source is `k`, or the map's length if
/// there is none.
pub open spec fn edge_pos(p: Seq<(Seq<u8>, Seq<u8>)>, k: Seq<u8>) -> int
    decreases p.len(),
{
    if p.len() == 0 {
        0
    } else if p[0].0 == k {
        0
    } else {
        1 + edge_pos(p.skip(1), k)
    }
}

/// Whether some pending rename moves a file out of `k`.
pub open spec fn has_edge(p: Seq<(Seq<u8>, Seq<u8>)>, k: Seq<u8>) -> bool {
    edge_pos(p, k) < p.len()
}

/// The destination of the pending rename out of `k`, if any.
pub open spec fn edge_target(p: Seq<(Seq<u8>, Seq<u8>)>, k: Seq<u8>) -> Option<Seq<u8>> {
    if has_edge(p, k) {
        Some(p[edge_pos(p, k)].1)
    } else {
        None
    }
}

/// Registers the rename `k -> v`, replacing any rename already registered
/// out of `k`.
pub open spec fn upsert_edge(p: Seq<(Seq<u8>, Seq<u8>)>, k: Seq<u8>, v: Seq<u8>) -> Seq<
    (Seq<u8>, Seq<u8>),
> {
    if has_edge(p, k) {
        p.update(edge_pos(p, k), (k, v))
    } else {
        p.push((k, v))
    }
}

/// Discards the pending rename out of `k`, if any.
pub open spec fn remove_edge(p: Seq<(Seq<u8>, Seq<u8>)>, k: Seq<u8>) -> Seq<(Seq<u8>, Seq<u8>)> {
    if has_edge(p, k) {
        p.remove(edge_pos(p, k))
    } else {
        p
    }
}

/// Well-formedness of the pending map: sources are pairwise distinct and no
/// rename maps a path to itself.
pub open spec fn wf_pending(p: Seq<(Seq<u8>, Seq<u8>)>) -> bool {
    &&& forall|i: int, j: int| 0 <= i < j < p.len() ==> (#[trigger] p[i]).0 != (#[trigger] p[j]).0
    &&& forall|i: int| 0 <= i < p.len() ==> (#[trigger] p[i]).0 != p[i].1
}

/// `edge_pos` really is the position of the first edge out of `k`.
pub proof fn lemma_edge_pos(p: Seq<(Seq<u8>, Seq<u8>)>, k: Seq<u8>)
    ensures
        0 <= edge_pos(p, k) <= p.len(),
        has_edge(p, k) ==> p[edge_pos(p, k)].0 == k,
        forall|j: int| 0 <= j < edge_pos(p, k) ==> (#[trigger] p[j]).0 != k,
        !has_edge(p, k) ==> forall|j: int| 0 <= j < p.len() ==> (#[trigger] p[j]).0 != k,
    decreases p.len(),
{
    if p.len() == 0 {
    } else if p[0].0 == k {
    } else {
        lemma_edge_pos(p.skip(1), k);
        assert forall|j: int| 0 <= j < edge_pos(p, k) implies (#[trigger] p[j]).0 != k by {
            if j > 0 {
                assert(p.skip(1)[j - 1] == p[j]);
            }
        }
        if !has_edge(p, k) {
            assert forall|j: int| 0 <= j < p.len() implies (#[trigger] p[j]).0 != k by {
                if j > 0 {
                    assert(p.skip(1)[j - 1] == p[j]);
                }
            }
        }
    }
}

/// An entry whose source is `k` pins down `edge_target(p, k)` when sources
/// are unique.
pub proof fn lemma_edge_target_entry(p: Seq<(Seq<u8>, Seq<u8>)>, i: int)
    requires
        wf_pending(p),
        0 <= i < p.len(),
    ensures
        has_edge(p, p[i].0),
        edge_pos(p, p[i].0) == i,
        edge_target(p, p[i].0) == Some(p[i].1),
{
    lemma_edge_pos(p, p[i].0);
    let e = edge_pos(p, p[i].0);
    if e < i {
        assert(p[e].0 == p[i].0);
    } else if e > i {
        assert(p[i].0 != p[i].0);
    }
}

/// What `upsert_edge` does to the map: it keeps well-formedness (when the
/// new edge is no self-loop), targets of other sources, and grows the length
/// by at most one.
pub proof fn lemma_upsert_edge(p: Seq<(Seq<u8>, Seq<u8>)>, k: Seq<u8>, v: Seq<u8>)
    requires
        wf_pending(p),
        k != v,
    ensures
        wf_pending(upsert_edge(p, k, v)),
        upsert_edge(p, k, v).len() <= p.len() + 1,
        p.len() <= upsert_edge(p, k, v).len(),
        edge_target(upsert_edge(p, k, v), k) == Some(v),
        forall|k2: Seq<u8>| k2 != k ==> edge_target(upsert_edge(p, k, v), k2) == edge_target(
            p,
            k2,
        ),
{
    lemma_edge_pos(p, k);
    let q = upsert_edge(p, k, v);
    if has_edge(p, k) {
        let e = edge_pos(p, k);
        assert(q =~= p.update(e, (k, v)));
        lemma_edge_target_entry(q, e);
        assert forall|k2: Seq<u8>| k2 != k implies edge_target(q, k2) == edge_target(p, k2) by {
            lemma_edge_pos(q, k2);
            lemma_edge_pos(p, k2);
            if has_edge(p, k2) {
                let e2 = edge_pos(p, k2);
                assert(q[e2] == p[e2]);
                lemma_edge_target_entry(q, e2);
            } else {
                if has_edge(q, k2) {
                    assert(p[edge_pos(q, k2)].0 == k2);
                }
            }
        }
    } else {
        assert(q =~= p.push((k, v)));
        assert forall|i: int, j: int| 0 <= i < j < q.len() implies (#[trigger] q[i]).0 != (
        #[trigger] q[j]).0 by {
            if j == p.len() {
                assert(q[i] == p[i]);
            }
        }
        lemma_edge_target_entry(q, p.len() as int);
        assert forall|k2: Seq<u8>| k2 != k implies edge_target(q, k2) == edge_target(p, k2) by {
            lemma_edge_pos(q, k2);
            lemma_edge_pos(p, k2);
            if has_edge(p, k2) {
                lemma_edge_target_entry(q, edge_pos(p, k2));
            } else {
                if has_edge(q, k2) {
                    let e2 = edge_pos(q, k2);
                    if e2 < p.len() {
                        assert(p[e2].0 == k2);
                    }
                }
            }
        }
    }
}

/// What `remove_edge` does to the map: it keeps well-formedness, drops `k`,
/// keeps every other source's target, and shrinks the length by one when `k`
/// was present.
pub proof fn lemma_remove_edge(p: Seq<(Seq<u8>, Seq<u8>)>, k: Seq<u8>)
    requires
        wf_pending(p),
    ensures
        wf_pending(remove_edge(p, k)),
        !has_edge(remove_edge(p, k), k),
        has_edge(p, k) ==> remove_edge(p, k).len() == p.len() - 1,
        !has_edge(p, k) ==> remove_edge(p, k) == p,
        forall|k2: Seq<u8>| k2 != k ==> edge_target(remove_edge(p, k), k2) == edge_target(p, k2),
{
    lemma_edge_pos(p, k);
    let q = remove_edge(p, k);
    if has_edge(p, k) {
        let e = edge_pos(p, k);
        assert(q =~= p.remove(e));
        assert(forall|i: int| 0 <= i < e ==> q[i] == p[i]);
        assert(forall|i: int| e <= i < q.len() ==> q[i] == p[i + 1]);
        assert forall|i: int, j: int| 0 <= i < j < q.len() implies (#[trigger] q[i]).0 != (
        #[trigger] q[j]).0 by {}
        if has_edge(q, k) {
            lemma_edge_pos(q, k);
            let e2 = edge_pos(q, k);
            if e2 < e {
                assert(p[e2].0 == k);
            } else {
                assert(p[e2 + 1].0 == k);
            }
        }
        assert forall|k2: Seq<u8>| k2 != k implies edge_target(q, k2) == edge_target(p, k2) by {
            lemma_edge_pos(p, k2);
            lemma_edge_pos(q, k2);
            if has_edge(p, k2) {
                let e2 = edge_pos(p, k2);
                if e2 < e {
                    lemma_edge_target_entry(q, e2);
                } else {
                    lemma_edge_target_entry(q, e2 - 1);
                }
            } else {
                if has_edge(q, k2) {
                    let e2 = edge_pos(q, k2);
                    if e2 < e {
                        assert(p[e2].0 == k2);
                    } else {
                        assert(p[e2 + 1].0 == k2);
                    }
                }
            }
        }
    }
}

// ---------------------------------------------------------------------------
// Resolution of the pending-rename graph into a safe linear order.
// ---------------------------------------------------------------------------

/// The lexicographically smallest source among the pending renames.
pub open spec fn min_from(p: Seq<(Seq<u8>, Seq<u8>)>) -> Seq<u8>
    decreases p.len(),
{
    if p.len() == 0 {
        Seq::empty()
    } else if p.len() == 1 {
        p[0].0
    } else {
        let m = min_from(p.drop_last());
        if lex_lt(p.last().0, m) {
            p.last().0
        } else {
            m
        }
    }
}

/// The minimum really is one of the sources.
pub proof fn lemma_min_from_is_source(p: Seq<(Seq<u8>, Seq<u8>)>)
    requires
        p.len() > 0,
    ensures
        exists|i: int| 0 <= i < p.len() && (#[trigger] p[i]).0 == min_from(p),
    decreases p.len(),
{
    if p.len() == 1 {
        assert(p[0].0 == min_from(p));
    } else {
        if lex_lt(p.last().0, min_from(p.drop_last())) {
            assert(p[p.len() - 1].0 == min_from(p));
        } else {
            lemma_min_from_is_source(p.drop_last());
            let i = choose|i: int|
                0 <= i < p.drop_last().len() && (#[trigger] p.drop_last()[i]).0 == min_from(
                    p.drop_last(),
                );
            assert(p[i].0 == min_from(p));
        }
    }
}

/// A walk along pending renames: nonempty, no source visited twice, every
/// visited path a source of the map.
pub open spec fn chain_wf(p: Seq<(Seq<u8>, Seq<u8>)>, chain: Seq<Seq<u8>>) -> bool {
    &&& chain.len() >= 1
    &&& chain.no_duplicates()
    &&& forall|i: int| 0 <= i < chain.len() ==> has_edge(p, #[trigger] chain[i])
}

/// Distinct sources cannot outnumber the map's entries.
pub proof fn lemma_distinct_sources_le(p: Seq<(Seq<u8>, Seq<u8>)>, c: Seq<Seq<u8>>)
    requires
        wf_pending(p),
        c.no_duplicates(),
        forall|i: int| 0 <= i < c.len() ==> has_edge(p, #[trigger] c[i]),
    ensures
        c.len() <= p.len(),
    decreases c.len(),
{
    if c.len() > 0 {
        let k = c.last();
        let p2 = remove_edge(p, k);
        lemma_remove_edge(p, k);
        let c2 = c.drop_last();
        assert forall|i: int| 0 <= i < c2.len() implies has_edge(p2, #[trigger] c2[i]) by {
            assert(c2[i] == c[i]);
            assert(c[i] != k);
            assert(edge_target(p2, c[i]) == edge_target(p, c[i]));
        }
        lemma_distinct_sources_le(p2, c2);
    }
}

/// Extending a walk by a fresh source keeps it well formed and within the
/// map's size.
pub proof fn lemma_chain_step(p: Seq<(Seq<u8>, Seq<u8>)>, chain: Seq<Seq<u8>>, to: Seq<u8>)
    requires
        wf_pending(p),
        chain_wf(p, chain),
        has_edge(p, to),
        !chain.contains(to),
    ensures
        chain_wf(p, chain.push(to)),
        chain.push(to).len() <= p.len(),
{
    let c = chain.push(to);
    assert forall|i: int, j: int| 0 <= i < j < c.len() implies c[i] != c[j] by {
        if j == chain.len() {
            assert(chain[i] == c[i]);
        }
    }
    assert forall|i: int| 0 <= i < c.len() implies has_edge(p, #[trigger] c[i]) by {
        if i < chain.len() {
            assert(c[i] == chain[i]);
        }
    }
    lemma_distinct_sources_le(p, c);
}

/// Follows targets from the end of `chain` until the next target is not a
/// source (a chain's end) or was already visited (a cycle).
pub open spec fn walk(p: Seq<(Seq<u8>, Seq<u8>)>, chain: Seq<Seq<u8>>) -> Seq<Seq<u8>>
    decreases p.len() - chain.len()
        when wf_pending(p) && chain_wf(p, chain)
{
    let to = edge_target(p, chain.last()).unwrap();
    if chain.contains(to) || !has_edge(p, to) {
        chain
    } else {
        proof {
            lemma_chain_step(p, chain, to);
        }
        walk(p, chain.push(to))
    }
}

/// What a finished walk looks like: it extends the start, stays well
/// formed, and stops exactly at a cycle or at a path nothing moves out of.
pub proof fn lemma_walk_props(p: Seq<(Seq<u8>, Seq<u8>)>, chain: Seq<Seq<u8>>)
    requires
        wf_pending(p),
        chain_wf(p, chain),
    ensures
        ({
            let w = walk(p, chain);
            &&& chain_wf(p, w)
            &&& w.len() >= chain.len()
            &&& forall|i: int| 0 <= i < chain.len() ==> w[i] == chain[i]
            &&& ({
                let to = edge_target(p, w.last()).unwrap();
                w.contains(to) || !has_edge(p, to)
            })
        }),
    decreases p.len() - chain.len(),
{
    lemma_distinct_sources_le(p, chain);
    let to = edge_target(p, chain.last()).unwrap();
    if chain.contains(to) || !has_edge(p, to) {
    } else {
        lemma_chain_step(p, chain, to);
        lemma_walk_props(p, chain.push(to));
        assert(forall|i: int|
            0 <= i < chain.len() ==> walk(p, chain)[i] == chain.push(to)[i] && chain.push(to)[i]
                == chain[i]);
    }
}

/// The suffix appended to a rename target to synthesize a temporary path.
pub open spec fn temp_suffix() -> Seq<u8> {
    seq![95u8, 116u8, 101u8, 109u8, 112u8]
}

/// The temporary path used to break a rename cycle through `to`.
pub open spec fn temp_of(to: Seq<u8>) -> Seq<u8> {
    to + temp_suffix()
}

/// The renames completing a resolved chain, innermost first: the walk's last
/// step is emitted first, the walk's first step last.
pub open spec fn unwind_renames(chain: Seq<Seq<u8>>) -> Seq<ActionV>
    decreases chain.len(),
{
    if chain.len() <= 1 {
        Seq::empty()
    } else {
        seq![ActionV::Rename { from: chain[chain.len() - 2], to: chain[chain.len() - 1] }]
            + unwind_renames(chain.drop_last())
    }
}

/// Drops a resolved chain's sources from the map, last first.
pub open spec fn remove_chain(p: Seq<(Seq<u8>, Seq<u8>)>, chain: Seq<Seq<u8>>) -> Seq<
    (Seq<u8>, Seq<u8>),
>
    decreases chain.len(),
{
    if chain.len() == 0 {
        p
    } else {
        remove_chain(remove_edge(p, chain.last()), chain.drop_last())
    }
}

/// Dropping a chain of distinct sources shrinks the map by the chain's
/// length and keeps it well formed.
pub proof fn lemma_remove_chain(p: Seq<(Seq<u8>, Seq<u8>)>, chain: Seq<Seq<u8>>)
    requires
        wf_pending(p),
        chain.no_duplicates(),
        forall|i: int| 0 <= i < chain.len() ==> has_edge(p, #[trigger] chain[i]),
    ensures
        wf_pending(remove_chain(p, chain)),
        remove_chain(p, chain).len() == p.len() - chain.len(),
        forall|k2: Seq<u8>|
            !chain.contains(k2) ==> edge_target(remove_chain(p, chain), k2) == edge_target(p, k2),
        forall|k2: Seq<u8>| chain.contains(k2) ==> !has_edge(remove_chain(p, chain), k2),
    decreases chain.len(),
{
    if chain.len() > 0 {
        let k = chain.last();
        let p2 = remove_edge(p, k);
        lemma_remove_edge(p, k);
        let c2 = chain.drop_last();
        assert forall|i: int| 0 <= i < c2.len() implies has_edge(p2, #[trigger] c2[i]) by {
            assert(c2[i] == chain[i]);
            assert(chain[i] != k);
            assert(edge_target(p2, chain[i]) == edge_target(p, chain[i]));
        }
        lemma_remove_chain(p2, c2);
        assert forall|k2: Seq<u8>| !chain.contains(k2) implies edge_target(
            remove_chain(p, chain),
            k2,
        ) == edge_target(p, k2) by {
            assert(k2 != chain.last());
            assert forall|i: int| 0 <= i < c2.len() implies c2[i] != k2 by {
                assert(c2[i] == chain[i]);
            }
            assert(!c2.contains(k2));
            assert(edge_target(remove_chain(p2, c2), k2) == edge_target(p2, k2));
        }
        assert forall|k2: Seq<u8>| chain.contains(k2) implies !has_edge(
            remove_chain(p, chain),
            k2,
        ) by {
            if c2.contains(k2) {
            } else {
                let j = choose|j: int| 0 <= j < chain.len() && chain[j] == k2;
                assert(j == chain.len() - 1) by {
                    if j < chain.len() - 1 {
                        assert(c2[j] == chain[j]);
                    }
                }
                assert(!has_edge(p2, k2));
                assert(edge_target(remove_chain(p2, c2), k2) == edge_target(p2, k2));
            }
        }
    }
}

/// Every entry the map keeps after a chain is dropped stood in the map
/// before.
pub proof fn lemma_remove_chain_entries(p: Seq<(Seq<u8>, Seq<u8>)>, chain: Seq<Seq<u8>>, i: int)
    requires
        0 <= i < remove_chain(p, chain).len(),
    ensures
        exists|j: int| 0 <= j < p.len() && #[trigger] p[j] == remove_chain(p, chain)[i],
    decreases chain.len(),
{
    if chain.len() == 0 {
        assert(p[i] == remove_chain(p, chain)[i]);
    } else {
        let p2 = remove_edge(p, chain.last());
        lemma_edge_pos(p, chain.last());
        assert(remove_chain(p, chain)[i] == remove_chain(p2, chain.drop_last())[i]);
        lemma_remove_chain_entries(p2, chain.drop_last(), i);
        let m = choose|m: int|
            0 <= m < p2.len() && #[trigger] p2[m] == remove_chain(p2, chain.drop_last())[i];
        if has_edge(p, chain.last()) {
            let e = edge_pos(p, chain.last());
            assert(p2 =~= p.remove(e));
            if m < e {
                assert(p.remove(e)[m] == p[m]);
                assert(p[m] == remove_chain(p, chain)[i]);
            } else {
                assert(p.remove(e)[m] == p[m + 1]);
                assert(p[m + 1] == remove_chain(p, chain)[i]);
            }
        } else {
            assert(p[m] == remove_chain(p, chain)[i]);
        }
    }
}

/// A walk that follows the map's targets keeps doing so: each member's
/// target is the next member.
pub proof fn lemma_walk_path(p: Seq<(Seq<u8>, Seq<u8>)>, chain: Seq<Seq<u8>>)
    requires
        wf_pending(p),
        chain_wf(p, chain),
        forall|i: int|
            0 <= i < chain.len() - 1 ==> edge_target(p, #[trigger] chain[i]) == Some(chain[i + 1]),
    ensures
        forall|i: int|
            0 <= i < walk(p, chain).len() - 1 ==> edge_target(p, #[trigger] walk(p, chain)[i])
                == Some(walk(p, chain)[i + 1]),
    decreases p.len() - chain.len(),
{
    lemma_distinct_sources_le(p, chain);
    let to = edge_target(p, chain.last()).unwrap();
    if chain.contains(to) || !has_edge(p, to) {
    } else {
        lemma_chain_step(p, chain, to);
        assert forall|i: int| 0 <= i < chain.push(to).len() - 1 implies edge_target(
            p,
            #[trigger] chain.push(to)[i],
        ) == Some(chain.push(to)[i + 1]) by {
            if i < chain.len() - 1 {
                assert(chain.push(to)[i] == chain[i] && chain.push(to)[i + 1] == chain[i + 1]);
            } else {
                assert(chain.push(to)[i] == chain.last());
            }
        }
        lemma_walk_path(p, chain.push(to));
    }
}

/// One resolution round: pick the smallest remaining source, walk its
/// chain, emit its renames (short-circuiting a cycle through a temporary
/// path), and drop the chain from the map.
pub open spec fn resolve_step(p: Seq<(Seq<u8>, Seq<u8>)>) -> (Seq<ActionV>, Seq<
    (Seq<u8>, Seq<u8>),
>) {
    let from = min_from(p);
    let chain = walk(p, seq![from]);
    let last = chain.last();
    let to = edge_target(p, last).unwrap();
    if chain.contains(to) {
        (
            seq![ActionV::Rename { from: last, to: temp_of(to) }] + unwind_renames(chain),
            upsert_edge(remove_chain(p, chain), temp_of(to), to),
        )
    } else {
        (
            seq![ActionV::Rename { from: last, to: to }] + unwind_renames(chain),
            remove_chain(p, chain),
        )
    }
}

/// Facts about one resolution round needed everywhere: the walk of the
/// smallest source is well formed, and the remaining map is well formed and
/// strictly smaller.
pub proof fn lemma_resolve_step(p: Seq<(Seq<u8>, Seq<u8>)>)
    requires
        wf_pending(p),
        p.len() > 0,
    ensures
        chain_wf(p, seq![min_from(p)]),
        wf_pending(resolve_step(p).1),
        resolve_step(p).1.len() < p.len(),
{
    let from = min_from(p);
    lemma_min_from_is_source(p);
    let i = choose|i: int| 0 <= i < p.len() && (#[trigger] p[i]).0 == from;
    lemma_edge_target_entry(p, i);
    let start = seq![from];
    assert(start.no_duplicates());
    assert(forall|j: int| 0 <= j < start.len() ==> has_edge(p, #[trigger] start[j]));
    lemma_walk_props(p, start);
    let chain = walk(p, start);
    let last = chain.last();
    let to = edge_target(p, last).unwrap();
    lemma_edge_pos(p, last);
    assert(p[edge_pos(p, last)] == (p[edge_pos(p, last)].0, p[edge_pos(p, last)].1));
    assert(to != last);
    lemma_remove_chain(p, chain);
    if chain.contains(to) {
        assert(chain.len() >= 2) by {
            if chain.len() == 1 {
                assert(to == chain[0]);
            }
        }
        assert(temp_of(to).len() == to.len() + 5);
        lemma_upsert_edge(remove_chain(p, chain), temp_of(to), to);
    }
}

/// The full resolution of the pending-rename map into an ordered sequence
/// of renames: rounds of `resolve_step` until the map is empty.
pub open spec fn resolve_all(p: Seq<(Seq<u8>, Seq<u8>)>) -> Seq<ActionV>
    decreases p.len()
        when wf_pending(p)
{
    if p.len() == 0 {
        Seq::empty()
    } else {
        proof {
            lemma_resolve_step(p);
        }
        resolve_step(p).0 + resolve_all(resolve_step(p).1)
    }
}

// ---------------------------------------------------------------------------
// Executable counterparts of the map operations.
// ---------------------------------------------------------------------------

/// Element-wise description of the deep view of an edge vector.
pub proof fn lemma_dv_edges(p: Vec<(Vec<u8>, Vec<u8>)>)
    ensures
        p.deep_view().len() == p@.len(),
        forall|i: int| 0 <= i < p@.len() ==> #[trigger] p.deep_view()[i] == (p@[i].0@, p@[i].1@),
{
    assert forall|i: int| 0 <= i < p@.len() implies #[trigger] p.deep_view()[i] == (
    p@[i].0@,
    p@[i].1@,
    ) by {
        lemma_dv_bytes(p@[i].0);
        lemma_dv_bytes(p@[i].1);
    }
}

/// Element-wise description of the deep view of a path vector.
proof fn lemma_dv_paths(c: Vec<Vec<u8>>)
    ensures
        c.deep_view().len() == c@.len(),
        forall|i: int| 0 <= i < c@.len() ==> #[trigger] c.deep_view()[i] == c@[i]@,
{
    assert forall|i: int| 0 <= i < c@.len() implies #[trigger] c.deep_view()[i] == c@[i]@ by {
        lemma_dv_bytes(c@[i]);
    }
}

/// Finds the position of the pending rename out of `k`, or the map's length
/// if there is none.
fn find_edge(p: &Vec<(Vec<u8>, Vec<u8>)>, k: &Vec<u8>) -> (r: usize)
    ensures
        r as int == edge_pos(p.deep_view(), k@),
        r <= p@.len(),
{
    let ghost dv = p.deep_view();
    proof {
        lemma_dv_edges(*p);
        assert(dv.skip(0) =~= dv);
    }
    let mut i: usize = 0;
    while i < p.len()
        invariant
            i <= p@.len(),
            dv == p.deep_view(),
            dv.len() == p@.len(),
            forall|j: int| 0 <= j < p@.len() ==> #[trigger] dv[j] == (p@[j].0@, p@[j].1@),
            edge_pos(dv, k@) == i + edge_pos(dv.skip(i as int), k@),
        decreases p@.len() - i,
    {
        if bytes_eq(&p[i].0, k) {
            proof {
                assert(dv.skip(i as int)[0] == dv[i as int]);
            }
            return i;
        }
        proof {
            assert(dv.skip(i as int)[0] == dv[i as int]);
            assert(dv.skip(i as int).skip(1) =~= dv.skip(i as int + 1));
        }
        i = i + 1;
    }
    proof {
        assert(dv.skip(dv.len() as int) =~= Seq::<(Seq<u8>, Seq<u8>)>::empty());
    }
    i
}

/// Registers the rename `k -> v`, replacing any rename already registered
/// out of `k`.
fn upsert_edge_exec(p: &mut Vec<(Vec<u8>, Vec<u8>)>, k: Vec<u8>, v: Vec<u8>)
    ensures
        final(p).deep_view() == upsert_edge(old(p).deep_view(), k@, v@),
{
    let ghost dv = old(p).deep_view();
    let ghost kv = k@;
    let ghost vv = v@;
    proof {
        lemma_dv_edges(*p);
        lemma_edge_pos(dv, kv);
    }
    let i = find_edge(p, &k);
    if i < p.len() {
        p.set(i, (k, v));
        proof {
            lemma_dv_edges(*p);
            lemma_dv_bytes(p@[i as int].0);
            lemma_dv_bytes(p@[i as int].1);
            assert(p.deep_view() =~= dv.update(i as int, (kv, vv)));
        }
    } else {
        p.push((k, v));
        proof {
            lemma_dv_edges(*p);
            assert(p.deep_view() =~= dv.push((kv, vv)));
        }
    }
}

/// Discards the pending rename out of `k`, if any.
fn remove_edge_exec(p: &mut Vec<(Vec<u8>, Vec<u8>)>, k: &Vec<u8>)
    ensures
        final(p).deep_view() == remove_edge(old(p).deep_view(), k@),
{
    let ghost dv = old(p).deep_view();
    proof {
        lemma_dv_edges(*p);
        lemma_edge_pos(dv, k@);
    }
    let i = find_edge(p, k);
    if i < p.len() {
        p.remove(i);
        proof {
            lemma_dv_edges(*p);
            assert(p.deep_view() =~= dv.remove(i as int));
        }
    }
}

/// The lexicographically smallest source of the map.
fn min_key(p: &Vec<(Vec<u8>, Vec<u8>)>) -> (r: Vec<u8>)
    requires
        p@.len() > 0,
    ensures
        r@ == min_from(p.deep_view()),
{
    let ghost dv = p.deep_view();
    proof {
        lemma_dv_edges(*p);
        assert(dv.take(1) =~= seq![dv[0]]);
    }
    let mut m = clone_bytes(&p[0].0);
    let mut i: usize = 1;
    while i < p.len()
        invariant
            1 <= i <= p@.len(),
            dv == p.deep_view(),
            dv.len() == p@.len(),
            forall|j: int| 0 <= j < p@.len() ==> #[trigger] dv[j] == (p@[j].0@, p@[j].1@),
            m@ == min_from(dv.take(i as int)),
        decreases p@.len() - i,
    {
        proof {
            let t = dv.take(i as int + 1);
            assert(t.drop_last() =~= dv.take(i as int));
            assert(t.last() == dv[i as int]);
        }
        if bytes_lt(&p[i].0, &m) {
            m = clone_bytes(&p[i].0);
        }
        i = i + 1;
    }
    proof {
        assert(dv.take(dv.len() as int) =~= dv);
    }
    m
}

/// Whether the walk already visited `x`.
fn chain_contains(c: &Vec<Vec<u8>>, x: &Vec<u8>) -> (r: bool)
    ensures
        r == c.deep_view().contains(x@),
{
    let ghost dv = c.deep_view();
    proof {
        lemma_dv_paths(*c);
    }
    let mut i: usize = 0;
    while i < c.len()
        invariant
            i <= c@.len(),
            dv == c.deep_view(),
            dv.len() == c@.len(),
            forall|j: int| 0 <= j < c@.len() ==> #[trigger] dv[j] == c@[j]@,
            forall|j: int| 0 <= j < i ==> dv[j] != x@,
        decreases c@.len() - i,
    {
        if bytes_eq(&c[i], x) {
            proof {
                assert(dv[i as int] == x@);
            }
            return true;
        }
        i = i + 1;
    }
    proof {
        if dv.contains(x@) {
            let j = choose|j: int| 0 <= j < dv.len() && dv[j] == x@;
            assert(dv[j] != x@);
        }
    }
    false
}

/// Emits the pending renames in an order that never reads a path before a
/// prior action has vacated it, consuming the map.
fn resolve_renames(pending: &mut Vec<(Vec<u8>, Vec<u8>)>, actions: &mut Vec<Action>)
    requires
        wf_pending(old(pending).deep_view()),
    ensures
        final(actions).deep_view() == old(actions).deep_view() + resolve_all(
            old(pending).deep_view(),
        ),
{
    let ghost p0 = old(pending).deep_view();
    let ghost a0 = old(actions).deep_view();
    while pending.len() > 0
        invariant
            wf_pending(pending.deep_view()),
            a0 + resolve_all(p0) == actions.deep_view() + resolve_all(pending.deep_view()),
        decreases pending.deep_view().len(),
    {
        let ghost p_it = pending.deep_view();
        let ghost a_it = actions.deep_view();
        proof {
            lemma_dv_edges(*pending);
            lemma_resolve_step(p_it);
        }
        // the smallest remaining source starts the walk
        let from = min_key(pending);
        let ghost f = from@;
        let ghost w = walk(p_it, seq![f]);
        proof {
            lemma_walk_props(p_it, seq![f]);
        }
        let mut chain: Vec<Vec<u8>> = Vec::new();
        chain.push(from);
        proof {
            lemma_dv_paths(chain);
            assert(chain.deep_view() =~= seq![f]);
        }
        let mut cycle: bool = false;
        let mut to: Vec<u8> = Vec::new();
        loop
            invariant_except_break
                wf_pending(p_it),
                pending.deep_view() == p_it,
                chain_wf(p_it, chain.deep_view()),
                walk(p_it, chain.deep_view()) == w,
            ensures
                pending.deep_view() == p_it,
                chain.deep_view() == w,
                edge_target(p_it, w.last()) == Some(to@),
                cycle == w.contains(to@),
                !cycle ==> !has_edge(p_it, to@),
            decreases p_it.len() - chain.deep_view().len(),
        {
            proof {
                lemma_dv_paths(chain);
                lemma_dv_edges(*pending);
                lemma_distinct_sources_le(p_it, chain.deep_view());
                lemma_edge_pos(p_it, chain.deep_view().last());
            }
            let last_i = chain.len() - 1;
            proof {
                assert(chain.deep_view().last() == chain@[last_i as int]@);
            }
            let e = find_edge(pending, &chain[last_i]);
            let t = clone_bytes(&pending[e].1);
            proof {
                assert(edge_target(p_it, chain.deep_view().last()) == Some(t@));
            }
            if chain_contains(&chain, &t) {
                cycle = true;
                to = t;
                break;
            }
            let e2 = find_edge(pending, &t);
            if e2 == pending.len() {
                cycle = false;
                to = t;
                break;
            }
            let ghost cpre = chain.deep_view();
            proof {
                lemma_chain_step(p_it, cpre, t@);
            }
            chain.push(t);
            proof {
                lemma_dv_paths(chain);
                assert(chain.deep_view() =~= cpre.push(t@));
            }
        }
        // emit the chain's renames, innermost first, and drop the chain
        let ghost c = chain.deep_view();
        let ghost tov = to@;
        let ghost first_act = ActionV::Rename {
            from: c.last(),
            to: if cycle {
                temp_of(tov)
            } else {
                tov
            },
        };
        proof {
            lemma_dv_paths(chain);
        }
        let k_len = chain.len();
        let last_i = k_len - 1;
        let first_to: Vec<u8>;
        if cycle {
            let mut tmp = clone_bytes(&to);
            tmp.push(95u8);
            tmp.push(116u8);
            tmp.push(101u8);
            tmp.push(109u8);
            tmp.push(112u8);
            proof {
                assert(tmp@ =~= temp_of(tov));
            }
            first_to = tmp;
        } else {
            first_to = clone_bytes(&to);
        }
        actions.push(Action::Rename(clone_bytes(&chain[last_i]), first_to));
        proof {
            assert(actions.deep_view() =~= a_it + seq![first_act]);
        }
        remove_edge_exec(pending, &chain[last_i]);
        proof {
            assert(c.drop_last() =~= c.take(last_i as int));
            assert(c.take(k_len as int) =~= c);
        }
        let mut j: usize = last_i;
        while j > 0
            invariant
                j <= last_i,
                k_len == c.len(),
                last_i == k_len - 1,
                k_len == chain@.len(),
                chain.deep_view() == c,
                forall|q: int| 0 <= q < c.len() ==> #[trigger] chain@[q]@ == c[q],
                wf_pending(p_it),
                remove_chain(p_it, c) == remove_chain(pending.deep_view(), c.take(j as int)),
                actions.deep_view() + unwind_renames(c.take(j as int + 1)) == a_it + seq![
                    first_act,
                ] + unwind_renames(c),
            decreases j,
        {
            actions.push(Action::Rename(clone_bytes(&chain[j - 1]), clone_bytes(&chain[j])));
            remove_edge_exec(pending, &chain[j - 1]);
            proof {
                let t1 = c.take(j as int + 1);
                assert(t1.drop_last() =~= c.take(j as int));
                assert(t1[t1.len() - 2] == c[j as int - 1]);
                assert(t1[t1.len() - 1] == c[j as int]);
                assert(c.take(j as int).drop_last() =~= c.take(j as int - 1));
                assert(c.take(j as int).last() == c[j as int - 1]);
                assert(actions.deep_view() + unwind_renames(c.take(j as int)) =~= a_it + seq![
                    first_act,
                ] + unwind_renames(c));
            }
            j = j - 1;
        }
        proof {
            assert(c.take(0) =~= Seq::<Seq<u8>>::empty());
            assert(unwind_renames(c.take(1)) == Seq::<ActionV>::empty());
            assert(actions.deep_view() =~= a_it + seq![first_act] + unwind_renames(c));
        }
        if cycle {
            let mut tmp = clone_bytes(&to);
            tmp.push(95u8);
            tmp.push(116u8);
            tmp.push(101u8);
            tmp.push(109u8);
            tmp.push(112u8);
            proof {
                assert(tmp@ =~= temp_of(tov));
            }
            upsert_edge_exec(pending, tmp, to);
        }
        proof {
            assert(actions.deep_view() =~= a_it + resolve_step(p_it).0);
            assert(pending.deep_view() == resolve_step(p_it).1);
            assert(resolve_all(p_it) == resolve_step(p_it).0 + resolve_all(resolve_step(p_it).1));
            assert(a_it + resolve_all(p_it) =~= actions.deep_view() + resolve_all(
                pending.deep_view(),
            ));
        }
    }
    proof {
        assert(resolve_all(pending.deep_view()) == Seq::<ActionV>::empty());
        assert(actions.deep_view() =~= actions.deep_view() + resolve_all(pending.deep_view()));
        assert(actions.deep_view() =~= a0 + resolve_all(p0));
    }
}

// ---------------------------------------------------------------------------
// Classification of the existing records, and the full plan.
// ---------------------------------------------------------------------------

/// A fully qualified path: the base directory joined with a relative path.
/// An absolute path stands alone; otherwise a single separator goes between
/// base and path.
pub open spec fn join_spec(base: Seq<u8>, rel: Seq<u8>) -> Seq<u8> {
    if rel.len() > 0 && rel[0] == 47u8 {
        rel
    } else if base.len() == 0 {
        rel
    } else if base[base.len() - 1] == 47u8 {
        base + rel
    } else {
        base + seq![47u8] + rel
    }
}

/// Joins the base directory with a relative path.
pub fn join_path(base: &Vec<u8>, rel: &Vec<u8>) -> (r: Vec<u8>)
    ensures
        r@ == join_spec(base@, rel@),
{
    if rel.len() > 0 && rel[0] == 47u8 {
        return clone_bytes(rel);
    }
    if base.len() == 0 {
        return clone_bytes(rel);
    }
    let mut r = clone_bytes(base);
    if base[base.len() - 1] != 47u8 {
        r.push(47u8);
    }
    r.extend_from_slice(rel.as_slice());
    proof {
        assert(r@ =~= join_spec(base@, rel@));
    }
    r
}

/// Phase one of planning: walk the existing records in order; a vanished
/// identity yields a delete, re-embedded content with a changed fingerprint
/// a write at the record's original path, and a moved path registers a
/// pending rename from old to new fully qualified path.
pub open spec fn classify(
    base: Seq<u8>,
    remaining: Seq<ExRecV>,
    updated: Seq<UpdRecV>,
    acts: Seq<ActionV>,
    pend: Seq<(Seq<u8>, Seq<u8>)>,
) -> (Seq<ActionV>, Seq<(Seq<u8>, Seq<u8>)>)
    decreases remaining.len(),
{
    if remaining.len() == 0 {
        (acts, pend)
    } else {
        let r = remaining[0];
        let old_path = join_spec(base, r.path);
        match find_updated(updated, r.idx) {
            None => classify(
                base,
                remaining.skip(1),
                updated,
                acts.push(ActionV::Delete { path: old_path }),
                pend,
            ),
            Some(u) => {
                let new_path = join_spec(base, u.new_path);
                let pend1 = if old_path != new_path {
                    upsert_edge(pend, old_path, new_path)
                } else {
                    pend
                };
                let acts1 = match u.content {
                    Some(c) => if fingerprint_of(c) != r.hash {
                        acts.push(ActionV::Write { path: old_path, content: c })
                    } else {
                        acts
                    },
                    None => acts,
                };
                classify(base, remaining.skip(1), updated, acts1, pend1)
            },
        }
    }
}

/// Classification keeps the pending map well formed.
pub proof fn lemma_classify_wf(
    base: Seq<u8>,
    remaining: Seq<ExRecV>,
    updated: Seq<UpdRecV>,
    acts: Seq<ActionV>,
    pend: Seq<(Seq<u8>, Seq<u8>)>,
)
    requires
        wf_pending(pend),
    ensures
        wf_pending(classify(base, remaining, updated, acts, pend).1),
    decreases remaining.len(),
{
    if remaining.len() > 0 {
        let r = remaining[0];
        let old_path = join_spec(base, r.path);
        match find_updated(updated, r.idx) {
            None => {
                lemma_classify_wf(
                    base,
                    remaining.skip(1),
                    updated,
                    acts.push(ActionV::Delete { path: old_path }),
                    pend,
                );
            },
            Some(u) => {
                let new_path = join_spec(base, u.new_path);
                let pend1 = if old_path != new_path {
                    lemma_upsert_edge(pend, old_path, new_path);
                    upsert_edge(pend, old_path, new_path)
                } else {
                    pend
                };
                let acts1 = match u.content {
                    Some(c) => if fingerprint_of(c) != r.hash {
                        acts.push(ActionV::Write { path: old_path, content: c })
                    } else {
                        acts
                    },
                    None => acts,
                };
                lemma_classify_wf(base, remaining.skip(1), updated, acts1, pend1);
            },
        }
    }
}

/// The planned action sequence for a document: the classification's writes
/// and deletes in record order, then the pending renames in a safe linear
/// order.
pub open spec fn plan_spec(doc: DocV) -> Seq<ActionV> {
    let r = classify(
        doc.base_path,
        doc.existing,
        doc.updated,
        Seq::<ActionV>::empty(),
        Seq::<(Seq<u8>, Seq<u8>)>::empty(),
    );
    r.0 + resolve_all(r.1)
}

/// Computes the ordered action sequence realizing the edit the document
/// describes: writes and deletes first, in record order, then renames in an
/// order that never reads a path before a prior rename has vacated it.
pub fn build_actions(doc: ParsedMerchDoc) -> (actions: Vec<Action>)
    ensures
        actions.deep_view() == plan_spec(doc.deep_view()),
{
    let ghost docv = doc.deep_view();
    let mut actions: Vec<Action> = Vec::new();
    let mut pending: Vec<(Vec<u8>, Vec<u8>)> = Vec::new();
    proof {
        assert(actions.deep_view() =~= Seq::<ActionV>::empty());
        assert(pending.deep_view() =~= Seq::<(Seq<u8>, Seq<u8>)>::empty());
        assert(docv.existing.skip(0) =~= docv.existing);
    }
    let mut i: usize = 0;
    while i < doc.existing_files.len()
        invariant
            i <= doc.existing_files@.len(),
            docv == doc.deep_view(),
            docv.existing.len() == doc.existing_files@.len(),
            docv.updated == doc.updated_files.deep_view(),
            wf_pending(pending.deep_view()),
            classify(
                docv.base_path,
                docv.existing.skip(i as int),
                docv.updated,
                actions.deep_view(),
                pending.deep_view(),
            ) == classify(
                docv.base_path,
                docv.existing,
                docv.updated,
                Seq::<ActionV>::empty(),
                Seq::<(Seq<u8>, Seq<u8>)>::empty(),
            ),
        decreases doc.existing_files@.len() - i,
    {
        let ghost a_pre = actions.deep_view();
        let ghost p_pre = pending.deep_view();
        let ghost rv = docv.existing[i as int];
        proof {
            assert(docv.existing.skip(i as int)[0] == rv);
            assert(docv.existing.skip(i as int).skip(1) =~= docv.existing.skip(i as int + 1));
            lemma_dv_bytes(doc.existing_files@[i as int].path);
            lemma_dv_bytes(doc.existing_files@[i as int].hash);
            lemma_dv_bytes(doc.base_path);
        }
        let old_path = join_path(&doc.base_path, &doc.existing_files[i].path);
        let ghost opv = old_path@;
        match lookup_updated(&doc.updated_files, doc.existing_files[i].idx) {
            None => {
                actions.push(Action::Delete(old_path));
                proof {
                    assert(find_updated(docv.updated, rv.idx) is None);
                    assert(actions.deep_view() =~= a_pre.push(ActionV::Delete { path: opv }));
                }
            },
            Some(p) => {
                let ghost uv = docv.updated[p as int];
                proof {
                    assert(find_updated(docv.updated, rv.idx) == Some(uv));
                    lemma_dv_bytes(doc.updated_files@[p as int].new_path);
                }
                let new_path = join_path(&doc.base_path, &doc.updated_files[p].new_path);
                let ghost npv = new_path@;
                if !bytes_eq(&old_path, &new_path) {
                    proof {
                        lemma_upsert_edge(p_pre, opv, npv);
                    }
                    upsert_edge_exec(&mut pending, clone_bytes(&old_path), new_path);
                }
                match &doc.updated_files[p].content {
                    Some(c) => {
                        proof {
                            lemma_dv_bytes(*c);
                            assert(uv.content == Some(c@));
                        }
                        let h = compute_hash(c.as_slice());
                        if !bytes_eq(&h, &doc.existing_files[i].hash) {
                            let content_copy = clone_bytes(c);
                            actions.push(Action::Write(old_path, content_copy));
                            proof {
                                assert(actions.deep_view() =~= a_pre.push(
                                    ActionV::Write { path: opv, content: c@ },
                                ));
                            }
                        }
                    },
                    None => {
                        proof {
                            assert(uv.content is None);
                        }
                    },
                }
            },
        }
        i = i + 1;
    }
    proof {
        assert(docv.existing.skip(docv.existing.len() as int) =~= Seq::<ExRecV>::empty());
    }
    resolve_renames(&mut pending, &mut actions);
    actions
}

} // verus!
