use crate::split_file::action::ActionV;
use crate::split_file::build_actions::{
    classify, edge_pos, edge_target, has_edge, join_spec, lemma_classify_wf, lemma_edge_pos,
    lemma_remove_chain, lemma_remove_chain_entries, lemma_resolve_step, lemma_upsert_edge,
    lemma_walk_path, lemma_walk_props, min_from, plan_spec, remove_chain, resolve_all,
    resolve_step, temp_of, temp_suffix, unwind_renames, upsert_edge, walk, wf_pending,
};
use crate::split_file::parsed_merch_doc::{find_updated, DocV, ExRecV, UpdRecV};
use crate::utils::fingerprint_of;
use vstd::prelude::*;

verus! {

// ---------------------------------------------------------------------------
// A record's own contribution to the plan, and how the plan decomposes.
// ---------------------------------------------------------------------------

/// The write or delete an existing record gives rise to: a delete when the
/// edited document no longer mentions its identity, a write when it
/// re-embeds content whose fingerprint differs from the recorded one.
pub open spec fn record_action(base: Seq<u8>, r: ExRecV, updated: Seq<UpdRecV>) -> Option<
    ActionV,
> {
    match find_updated(updated, r.idx) {
        None => Some(ActionV::Delete { path: join_spec(base, r.path) }),
        Some(u) => match u.content {
            Some(c) => if fingerprint_of(c) != r.hash {
                Some(ActionV::Write { path: join_spec(base, r.path), content: c })
            } else {
                None
            },
            None => None,
        },
    }
}

/// The writes and deletes of the records, in record order.
pub open spec fn phase1_acts(base: Seq<u8>, remaining: Seq<ExRecV>, updated: Seq<UpdRecV>) -> Seq<
    ActionV,
>
    decreases remaining.len(),
{
    if remaining.len() == 0 {
        Seq::<ActionV>::empty()
    } else {
        (match record_action(base, remaining[0], updated) {
            Some(a) => seq![a],
            None => Seq::<ActionV>::empty(),
        }) + phase1_acts(base, remaining.skip(1), updated)
    }
}

/// Classification emits exactly its accumulator followed by each record's
/// own action.
pub proof fn lemma_classify_split(
    base: Seq<u8>,
    remaining: Seq<ExRecV>,
    updated: Seq<UpdRecV>,
    acts: Seq<ActionV>,
    pend: Seq<(Seq<u8>, Seq<u8>)>,
)
    ensures
        classify(base, remaining, updated, acts, pend).0 == acts + phase1_acts(
            base,
            remaining,
            updated,
        ),
    decreases remaining.len(),
{
    if remaining.len() == 0 {
        assert(acts + phase1_acts(base, remaining, updated) =~= acts);
    } else {
        let r = remaining[0];
        let old_path = join_spec(base, r.path);
        match find_updated(updated, r.idx) {
            None => {
                let a = ActionV::Delete { path: old_path };
                lemma_classify_split(base, remaining.skip(1), updated, acts.push(a), pend);
                assert(acts.push(a) =~= acts + seq![a]);
                assert(acts + seq![a] + phase1_acts(base, remaining.skip(1), updated) =~= acts + (
                seq![a] + phase1_acts(base, remaining.skip(1), updated)));
            },
            Some(u) => {
                let new_path = join_spec(base, u.new_path);
                let pend1 = if old_path != new_path {
                    upsert_edge(pend, old_path, new_path)
                } else {
                    pend
                };
                match u.content {
                    Some(c) => {
                        if fingerprint_of(c) != r.hash {
                            let a = ActionV::Write { path: old_path, content: c };
                            lemma_classify_split(
                                base,
                                remaining.skip(1),
                                updated,
                                acts.push(a),
                                pend1,
                            );
                            assert(acts.push(a) =~= acts + seq![a]);
                            assert(acts + seq![a] + phase1_acts(base, remaining.skip(1), updated)
                                =~= acts + (seq![a] + phase1_acts(base, remaining.skip(1), updated)));
                        } else {
                            lemma_classify_split(base, remaining.skip(1), updated, acts, pend1);
                            assert(acts + phase1_acts(base, remaining.skip(1), updated) =~= acts + (
                            Seq::<ActionV>::empty() + phase1_acts(base, remaining.skip(1), updated)));
                        }
                    },
                    None => {
                        lemma_classify_split(base, remaining.skip(1), updated, acts, pend1);
                        assert(acts + phase1_acts(base, remaining.skip(1), updated) =~= acts + (Seq::<
                            ActionV,
                        >::empty() + phase1_acts(base, remaining.skip(1), updated)));
                    },
                }
            },
        }
    }
}

/// Phase one emits writes and deletes only, each some record's own action.
pub proof fn lemma_phase1_provenance(base: Seq<u8>, remaining: Seq<ExRecV>, updated: Seq<UpdRecV>)
    ensures
        forall|i: int|
            0 <= i < phase1_acts(base, remaining, updated).len() ==> exists|k: int|
                0 <= k < remaining.len() && record_action(base, #[trigger] remaining[k], updated)
                    == Some(#[trigger] phase1_acts(base, remaining, updated)[i]),
    decreases remaining.len(),
{
    if remaining.len() > 0 {
        lemma_phase1_provenance(base, remaining.skip(1), updated);
        let ph = phase1_acts(base, remaining, updated);
        let tail = phase1_acts(base, remaining.skip(1), updated);
        assert forall|i: int| 0 <= i < ph.len() implies exists|k: int|
            0 <= k < remaining.len() && record_action(base, #[trigger] remaining[k], updated)
                == Some(#[trigger] ph[i]) by {
            match record_action(base, remaining[0], updated) {
                Some(a) => {
                    if i == 0 {
                        assert(record_action(base, remaining[0], updated) == Some(ph[0]));
                    } else {
                        assert(ph[i] == tail[i - 1]);
                        let k0 = choose|k0: int|
                            0 <= k0 < remaining.skip(1).len() && record_action(
                                base,
                                #[trigger] remaining.skip(1)[k0],
                                updated,
                            ) == Some(tail[i - 1]);
                        assert(remaining.skip(1)[k0] == remaining[k0 + 1]);
                    }
                },
                None => {
                    assert(ph[i] == tail[i]);
                    let k0 = choose|k0: int|
                        0 <= k0 < remaining.skip(1).len() && record_action(
                            base,
                            #[trigger] remaining.skip(1)[k0],
                            updated,
                        ) == Some(tail[i]);
                    assert(remaining.skip(1)[k0] == remaining[k0 + 1]);
                },
            }
        }
    }
}

/// Phase one holds no rename.
pub proof fn lemma_phase1_no_renames(base: Seq<u8>, remaining: Seq<ExRecV>, updated: Seq<UpdRecV>)
    ensures
        forall|i: int|
            0 <= i < phase1_acts(base, remaining, updated).len() ==> !(
            #[trigger] phase1_acts(base, remaining, updated)[i] is Rename),
    decreases remaining.len(),
{
    if remaining.len() > 0 {
        lemma_phase1_no_renames(base, remaining.skip(1), updated);
    }
}

/// The unwinding of a chain holds renames only.
pub proof fn lemma_unwind_renames_only(chain: Seq<Seq<u8>>)
    ensures
        forall|i: int|
            0 <= i < unwind_renames(chain).len() ==> (#[trigger] unwind_renames(chain)[i])
                is Rename,
    decreases chain.len(),
{
    if chain.len() > 1 {
        lemma_unwind_renames_only(chain.drop_last());
    }
}

/// The resolved rename order holds renames only.
pub proof fn lemma_resolve_all_renames(p: Seq<(Seq<u8>, Seq<u8>)>)
    requires
        wf_pending(p),
    ensures
        forall|i: int|
            0 <= i < resolve_all(p).len() ==> (#[trigger] resolve_all(p)[i]) is Rename,
    decreases p.len(),
{
    if p.len() > 0 {
        lemma_resolve_step(p);
        lemma_unwind_renames_only(walk_of(p));
        lemma_resolve_all_renames(resolve_step(p).1);
    }
}

/// The walk a resolution round follows.
pub open spec fn walk_of(p: Seq<(Seq<u8>, Seq<u8>)>) -> Seq<Seq<u8>> {
    walk(p, seq![min_from(p)])
}

// ---------------------------------------------------------------------------
// Counting actions.
// ---------------------------------------------------------------------------

/// How often an action occurs in a sequence.
pub open spec fn count_act(s: Seq<ActionV>, a: ActionV) -> int
    decreases s.len(),
{
    if s.len() == 0 {
        0
    } else {
        count_act(s.drop_last(), a) + if s.last() == a {
            1int
        } else {
            0int
        }
    }
}

/// Occurrence counts add over concatenation.
pub proof fn lemma_count_act_add(x: Seq<ActionV>, y: Seq<ActionV>, a: ActionV)
    ensures
        count_act(x + y, a) == count_act(x, a) + count_act(y, a),
    decreases y.len(),
{
    if y.len() == 0 {
        assert(x + y =~= x);
    } else {
        assert((x + y).drop_last() =~= x + y.drop_last());
        assert((x + y).last() == y.last());
        lemma_count_act_add(x, y.drop_last(), a);
    }
}

/// A sequence free of an action counts it zero times.
pub proof fn lemma_count_act_zero(s: Seq<ActionV>, a: ActionV)
    requires
        forall|i: int| 0 <= i < s.len() ==> s[i] != a,
    ensures
        count_act(s, a) == 0,
    decreases s.len(),
{
    if s.len() > 0 {
        assert(forall|i: int| 0 <= i < s.drop_last().len() ==> s.drop_last()[i] == s[i]);
        lemma_count_act_zero(s.drop_last(), a);
    }
}

/// How many records give rise to exactly the given action.
pub open spec fn count_records(
    base: Seq<u8>,
    remaining: Seq<ExRecV>,
    updated: Seq<UpdRecV>,
    a: ActionV,
) -> int
    decreases remaining.len(),
{
    if remaining.len() == 0 {
        0
    } else {
        (if record_action(base, remaining[0], updated) == Some(a) {
            1int
        } else {
            0int
        }) + count_records(base, remaining.skip(1), updated, a)
    }
}

/// Phase one counts an action as often as records give rise to it.
pub proof fn lemma_phase1_count(
    base: Seq<u8>,
    remaining: Seq<ExRecV>,
    updated: Seq<UpdRecV>,
    a: ActionV,
)
    ensures
        count_act(phase1_acts(base, remaining, updated), a) == count_records(
            base,
            remaining,
            updated,
            a,
        ),
    decreases remaining.len(),
{
    if remaining.len() > 0 {
        let head = match record_action(base, remaining[0], updated) {
            Some(x) => seq![x],
            None => Seq::<ActionV>::empty(),
        };
        let tail = phase1_acts(base, remaining.skip(1), updated);
        lemma_count_act_add(head, tail, a);
        lemma_phase1_count(base, remaining.skip(1), updated, a);
        match record_action(base, remaining[0], updated) {
            Some(x) => {
                assert(head.drop_last() =~= Seq::<ActionV>::empty());
                assert(head.len() == 1 && head.last() == x);
                assert(count_act(head.drop_last(), a) == 0);
                assert(count_act(head, a) == if x == a {
                    1int
                } else {
                    0int
                });
            },
            None => {},
        }
    }
}

/// Exactly one record giving rise to an action makes its record count one.
pub proof fn lemma_count_records_unique(
    base: Seq<u8>,
    remaining: Seq<ExRecV>,
    updated: Seq<UpdRecV>,
    a: ActionV,
    k: int,
)
    requires
        0 <= k < remaining.len(),
        record_action(base, remaining[k], updated) == Some(a),
        forall|j: int|
            0 <= j < remaining.len() && j != k ==> record_action(
                base,
                #[trigger] remaining[j],
                updated,
            ) != Some(a),
    ensures
        count_records(base, remaining, updated, a) == 1,
    decreases remaining.len(),
{
    if k == 0 {
        lemma_count_records_none(base, remaining.skip(1), updated, a);
    } else {
        assert forall|j: int|
            0 <= j < remaining.skip(1).len() && j != k - 1 implies record_action(
            base,
            #[trigger] remaining.skip(1)[j],
            updated,
        ) != Some(a) by {
            assert(remaining.skip(1)[j] == remaining[j + 1]);
        }
        assert(remaining.skip(1)[k - 1] == remaining[k]);
        lemma_count_records_unique(base, remaining.skip(1), updated, a, k - 1);
    }
}

/// No record giving rise to an action makes its record count zero.
pub proof fn lemma_count_records_none(
    base: Seq<u8>,
    remaining: Seq<ExRecV>,
    updated: Seq<UpdRecV>,
    a: ActionV,
)
    requires
        forall|j: int|
            0 <= j < remaining.len() ==> record_action(base, #[trigger] remaining[j], updated)
                != Some(a),
    ensures
        count_records(base, remaining, updated, a) == 0,
    decreases remaining.len(),
{
    if remaining.len() > 0 {
        assert forall|j: int| 0 <= j < remaining.skip(1).len() implies record_action(
            base,
            #[trigger] remaining.skip(1)[j],
            updated,
        ) != Some(a) by {
            assert(remaining.skip(1)[j] == remaining[j + 1]);
        }
        lemma_count_records_none(base, remaining.skip(1), updated, a);
    }
}

// ---------------------------------------------------------------------------
// The laws of the planner.
// ---------------------------------------------------------------------------

/// The plan splits into the records' writes and deletes, in record order,
/// followed by renames only.
pub proof fn lemma_plan_decomposition(doc: DocV)
    ensures
        ({
            let ph = phase1_acts(doc.base_path, doc.existing, doc.updated);
            let plan = plan_spec(doc);
            &&& plan.len() >= ph.len()
            &&& forall|i: int| 0 <= i < ph.len() ==> plan[i] == ph[i]
            &&& forall|i: int| ph.len() <= i < plan.len() ==> (#[trigger] plan[i]) is Rename
            &&& forall|i: int| 0 <= i < ph.len() ==> !((#[trigger] plan[i]) is Rename)
        }),
{
    let r = classify(
        doc.base_path,
        doc.existing,
        doc.updated,
        Seq::<ActionV>::empty(),
        Seq::<(Seq<u8>, Seq<u8>)>::empty(),
    );
    lemma_classify_split(
        doc.base_path,
        doc.existing,
        doc.updated,
        Seq::<ActionV>::empty(),
        Seq::<(Seq<u8>, Seq<u8>)>::empty(),
    );
    let ph = phase1_acts(doc.base_path, doc.existing, doc.updated);
    assert(Seq::<ActionV>::empty() + ph =~= ph);
    assert(wf_pending(Seq::<(Seq<u8>, Seq<u8>)>::empty()));
    lemma_classify_wf(
        doc.base_path,
        doc.existing,
        doc.updated,
        Seq::<ActionV>::empty(),
        Seq::<(Seq<u8>, Seq<u8>)>::empty(),
    );
    lemma_resolve_all_renames(r.1);
    lemma_phase1_no_renames(doc.base_path, doc.existing, doc.updated);
}

/// Law (write provenance): every write the plan holds re-embeds some
/// existing record's changed content at that record's original path.  In
/// particular a `file` instruction without re-embedded content, or with
/// content whose fingerprint equals the recorded one, never yields a write.
pub proof fn lemma_write_provenance(doc: DocV, i: int)
    requires
        0 <= i < plan_spec(doc).len(),
        plan_spec(doc)[i] is Write,
    ensures
        exists|k: int|
            0 <= k < doc.existing.len() && record_action(
                doc.base_path,
                #[trigger] doc.existing[k],
                doc.updated,
            ) == Some(plan_spec(doc)[i]),
{
    lemma_plan_decomposition(doc);
    let ph = phase1_acts(doc.base_path, doc.existing, doc.updated);
    assert(i < ph.len());
    lemma_phase1_provenance(doc.base_path, doc.existing, doc.updated);
}

/// Law (ordering): every write the plan holds stands before every rename.
pub proof fn lemma_writes_precede_renames(doc: DocV, i: int, j: int)
    requires
        0 <= i < plan_spec(doc).len(),
        0 <= j < plan_spec(doc).len(),
        plan_spec(doc)[i] is Write,
        plan_spec(doc)[j] is Rename,
    ensures
        i < j,
{
    lemma_plan_decomposition(doc);
}

/// Law (content-change detection): a record whose re-embedded content
/// fingerprints differently from the recorded hash yields exactly one
/// write, of that content at the record's original path, provided no other
/// record resolves to the same full path.
pub proof fn lemma_content_change_detection(doc: DocV, k: int)
    requires
        0 <= k < doc.existing.len(),
        ({
            let r = doc.existing[k];
            match find_updated(doc.updated, r.idx) {
                Some(u) => match u.content {
                    Some(c) => fingerprint_of(c) != r.hash,
                    None => false,
                },
                None => false,
            }
        }),
        forall|k2: int|
            0 <= k2 < doc.existing.len() && k2 != k ==> join_spec(
                doc.base_path,
                (#[trigger] doc.existing[k2]).path,
            ) != join_spec(doc.base_path, doc.existing[k].path),
    ensures
        ({
            let r = doc.existing[k];
            let c = find_updated(doc.updated, r.idx).unwrap().content.unwrap();
            let w = ActionV::Write { path: join_spec(doc.base_path, r.path), content: c };
            count_act(plan_spec(doc), w) == 1
        }),
{
    let r = doc.existing[k];
    let c = find_updated(doc.updated, r.idx).unwrap().content.unwrap();
    let w = ActionV::Write { path: join_spec(doc.base_path, r.path), content: c };
    assert(record_action(doc.base_path, r, doc.updated) == Some(w));
    assert forall|j: int|
        0 <= j < doc.existing.len() && j != k implies record_action(
        doc.base_path,
        #[trigger] doc.existing[j],
        doc.updated,
    ) != Some(w) by {
        match record_action(doc.base_path, doc.existing[j], doc.updated) {
            Some(a) => {
                match a {
                    ActionV::Delete { path } => {},
                    ActionV::Write { path, content } => {
                        assert(path == join_spec(doc.base_path, doc.existing[j].path));
                    },
                    ActionV::Rename { from, to } => {},
                }
            },
            None => {},
        }
    }
    lemma_count_records_unique(doc.base_path, doc.existing, doc.updated, w, k);
    lemma_phase1_count(doc.base_path, doc.existing, doc.updated, w);
    plan_split_count(doc, w);
}

/// Law (deletion): a record whose identity the edited document no longer
/// mentions yields exactly one delete, at the record's path, provided no
/// other record resolves to the same full path.
pub proof fn lemma_deletion(doc: DocV, k: int)
    requires
        0 <= k < doc.existing.len(),
        find_updated(doc.updated, doc.existing[k].idx) is None,
        forall|k2: int|
            0 <= k2 < doc.existing.len() && k2 != k ==> join_spec(
                doc.base_path,
                (#[trigger] doc.existing[k2]).path,
            ) != join_spec(doc.base_path, doc.existing[k].path),
    ensures
        ({
            let d = ActionV::Delete {
                path: join_spec(doc.base_path, doc.existing[k].path),
            };
            count_act(plan_spec(doc), d) == 1
        }),
{
    let r = doc.existing[k];
    let d = ActionV::Delete { path: join_spec(doc.base_path, r.path) };
    assert(record_action(doc.base_path, r, doc.updated) == Some(d));
    assert forall|j: int|
        0 <= j < doc.existing.len() && j != k implies record_action(
        doc.base_path,
        #[trigger] doc.existing[j],
        doc.updated,
    ) != Some(d) by {
        match record_action(doc.base_path, doc.existing[j], doc.updated) {
            Some(a) => {
                match a {
                    ActionV::Delete { path } => {
                        assert(path == join_spec(doc.base_path, doc.existing[j].path));
                    },
                    ActionV::Write { path, content } => {},
                    ActionV::Rename { from, to } => {},
                }
            },
            None => {},
        }
    }
    lemma_count_records_unique(doc.base_path, doc.existing, doc.updated, d, k);
    lemma_phase1_count(doc.base_path, doc.existing, doc.updated, d);
    plan_split_count(doc, d);
}

/// The plan counts a write or delete exactly as often as phase one does.
proof fn plan_split_count(doc: DocV, a: ActionV)
    requires
        !(a is Rename),
    ensures
        count_act(plan_spec(doc), a) == count_act(
            phase1_acts(doc.base_path, doc.existing, doc.updated),
            a,
        ),
{
    lemma_plan_decomposition(doc);
    let plan = plan_spec(doc);
    let ph = phase1_acts(doc.base_path, doc.existing, doc.updated);
    let rest = plan.skip(ph.len() as int);
    assert(plan =~= ph + rest);
    lemma_count_act_add(ph, rest, a);
    assert forall|i: int| 0 <= i < rest.len() implies rest[i] != a by {
        assert(rest[i] == plan[i + ph.len()]);
    }
    lemma_count_act_zero(rest, a);
}

/// Whether an action renames a file out of `k`.
pub open spec fn renames_from(a: ActionV, k: Seq<u8>) -> bool {
    match a {
        ActionV::Rename { from, to } => from == k,
        _ => false,
    }
}

/// The unwinding of a chain renames out of every chain member but the
/// last.
proof fn lemma_unwind_froms(chain: Seq<Seq<u8>>, j: int)
    requires
        0 <= j < chain.len() - 1,
    ensures
        exists|i: int|
            0 <= i < unwind_renames(chain).len() && renames_from(
                #[trigger] unwind_renames(chain)[i],
                chain[j],
            ),
    decreases chain.len(),
{
    let u = unwind_renames(chain);
    if j == chain.len() - 2 {
        assert(renames_from(u[0], chain[j]));
    } else {
        lemma_unwind_froms(chain.drop_last(), j);
        let i0 = choose|i0: int|
            0 <= i0 < unwind_renames(chain.drop_last()).len() && renames_from(
                #[trigger] unwind_renames(chain.drop_last())[i0],
                chain.drop_last()[j],
            );
        assert(u[i0 + 1] == unwind_renames(chain.drop_last())[i0]);
        assert(renames_from(u[i0 + 1], chain[j]));
    }
}

/// Law (rename completeness): every source the pending map registers is
/// eventually renamed out of in the resolved order.
pub proof fn lemma_rename_completeness(p: Seq<(Seq<u8>, Seq<u8>)>, k: Seq<u8>)
    requires
        wf_pending(p),
        has_edge(p, k),
    ensures
        exists|i: int|
            0 <= i < resolve_all(p).len() && renames_from(#[trigger] resolve_all(p)[i], k),
    decreases p.len(),
{
    lemma_resolve_step(p);
    lemma_walk_props(p, seq![min_from(p)]);
    let chain = walk_of(p);
    let acts = resolve_step(p).0;
    let p2 = resolve_step(p).1;
    let last = chain.last();
    let to = edge_target(p, last).unwrap();
    lemma_remove_chain(p, chain);
    assert(resolve_all(p) == acts + resolve_all(p2));
    if chain.contains(k) {
        let j = choose|j: int| 0 <= j < chain.len() && chain[j] == k;
        if j == chain.len() - 1 {
            assert(renames_from(acts[0], k));
            assert(resolve_all(p)[0] == acts[0]);
        } else {
            lemma_unwind_froms(chain, j);
            let i0 = choose|i0: int|
                0 <= i0 < unwind_renames(chain).len() && renames_from(
                    #[trigger] unwind_renames(chain)[i0],
                    chain[j],
                );
            assert(acts[i0 + 1] == unwind_renames(chain)[i0]);
            assert(resolve_all(p)[i0 + 1] == acts[i0 + 1]);
            assert(renames_from(resolve_all(p)[i0 + 1], k));
        }
    } else {
        let rc = remove_chain(p, chain);
        assert(edge_target(rc, k) == edge_target(p, k));
        if chain.contains(to) {
            let tmp = temp_of(to);
            lemma_upsert_edge(rc, tmp, to);
            if k != tmp {
                assert(edge_target(p2, k)
                    == edge_target(rc, k));
            }
            assert(has_edge(p2, k));
        } else {
            assert(has_edge(p2, k));
        }
        lemma_rename_completeness(p2, k);
        let i0 = choose|i0: int|
            0 <= i0 < resolve_all(p2).len() && renames_from(#[trigger] resolve_all(p2)[i0], k);
        assert(resolve_all(p)[acts.len() + i0] == resolve_all(p2)[i0]);
        assert(renames_from(resolve_all(p)[acts.len() + i0], k));
    }
}

// ---------------------------------------------------------------------------
// Safety of the resolved rename order.
// ---------------------------------------------------------------------------

/// Whether a path ends in the temporary suffix.
pub open spec fn ends_with_temp(t: Seq<u8>) -> bool {
    t.len() >= 5 && t.subrange(t.len() - 5, t.len() as int) == temp_suffix()
}

/// Temporary paths carry the suffix, and distinct targets synthesize
/// distinct temporary paths.
proof fn lemma_temp_of_facts(a: Seq<u8>, b: Seq<u8>)
    ensures
        ends_with_temp(temp_of(a)),
        temp_of(a) == temp_of(b) ==> a == b,
{
    assert(temp_of(a).subrange(temp_of(a).len() - 5, temp_of(a).len() as int) =~= temp_suffix());
    if temp_of(a) == temp_of(b) {
        assert(a =~= b) by {
            assert(a.len() == b.len());
            assert(forall|i: int| 0 <= i < a.len() ==> a[i] == temp_of(a)[i] && b[i] == temp_of(
                b,
            )[i]);
        }
    }
}

/// The occupied paths after a sequence of renames is applied in order.
pub open spec fn apply_renames(fs: Set<Seq<u8>>, acts: Seq<ActionV>) -> Set<Seq<u8>>
    decreases acts.len(),
{
    if acts.len() == 0 {
        fs
    } else {
        let fs1 = match acts[0] {
            ActionV::Rename { from, to } => fs.remove(from).insert(to),
            _ => fs,
        };
        apply_renames(fs1, acts.skip(1))
    }
}

/// A sequence of renames is applicable when each one, in order, moves an
/// occupied path onto a vacant one.
pub open spec fn renames_applicable(fs: Set<Seq<u8>>, acts: Seq<ActionV>) -> bool
    decreases acts.len(),
{
    if acts.len() == 0 {
        true
    } else {
        match acts[0] {
            ActionV::Rename { from, to } => fs.contains(from) && !fs.contains(to)
                && renames_applicable(fs.remove(from).insert(to), acts.skip(1)),
            _ => renames_applicable(fs, acts.skip(1)),
        }
    }
}

/// Applicability splits over concatenation.
proof fn lemma_applicable_concat(fs: Set<Seq<u8>>, a: Seq<ActionV>, b: Seq<ActionV>)
    ensures
        renames_applicable(fs, a + b) == (renames_applicable(fs, a) && renames_applicable(
            apply_renames(fs, a),
            b,
        )),
    decreases a.len(),
{
    if a.len() == 0 {
        assert(a + b =~= b);
    } else {
        assert((a + b)[0] == a[0]);
        assert((a + b).skip(1) =~= a.skip(1) + b);
        match a[0] {
            ActionV::Rename { from, to } => {
                lemma_applicable_concat(fs.remove(from).insert(to), a.skip(1), b);
            },
            ActionV::Write { path, content } => {
                lemma_applicable_concat(fs, a.skip(1), b);
            },
            ActionV::Delete { path } => {
                lemma_applicable_concat(fs, a.skip(1), b);
            },
        }
    }
}

/// Unwinding a chain whose last member was just vacated applies cleanly,
/// and vacates the chain's head instead.
proof fn lemma_unwind_applicable(w: Seq<Seq<u8>>, fs: Set<Seq<u8>>)
    requires
        w.no_duplicates(),
        w.len() >= 1,
        forall|i: int| 0 <= i < w.len() - 1 ==> fs.contains(#[trigger] w[i]),
        !fs.contains(w.last()),
    ensures
        renames_applicable(fs, unwind_renames(w)),
        apply_renames(fs, unwind_renames(w)) == if w.len() == 1 {
            fs
        } else {
            fs.remove(w[0]).insert(w.last())
        },
    decreases w.len(),
{
    if w.len() == 1 {
    } else {
        let k = w.len() as int;
        let u = unwind_renames(w);
        let head = ActionV::Rename { from: w[k - 2], to: w[k - 1] };
        assert(u[0] == head);
        assert(u.skip(1) =~= unwind_renames(w.drop_last()));
        let fs1 = fs.remove(w[k - 2]).insert(w[k - 1]);
        let w2 = w.drop_last();
        assert(w2.last() == w[k - 2]);
        assert(!fs1.contains(w2.last()));
        assert forall|i: int| 0 <= i < w2.len() - 1 implies fs1.contains(#[trigger] w2[i]) by {
            assert(w2[i] == w[i]);
        }
        lemma_unwind_applicable(w2, fs1);
        if w2.len() > 1 {
            assert(fs1.remove(w2[0]).insert(w2.last()) =~= fs.remove(w[0]).insert(w[k - 1]));
        }
    }
}

/// The safety hypotheses under which the resolved order can never clobber:
/// every pending source is occupied; a path that is the end of a chain is
/// vacant; no two pending renames share a target; the temporary namespace
/// is untouched (no cycle target's temporary path is occupied, registered,
/// or a target); and no target already ends in the temporary suffix.
pub open spec fn resolvable(p: Seq<(Seq<u8>, Seq<u8>)>, fs: Set<Seq<u8>>) -> bool {
    &&& wf_pending(p)
    &&& forall|i: int| 0 <= i < p.len() ==> fs.contains((#[trigger] p[i]).0)
    &&& forall|i: int|
        0 <= i < p.len() && !has_edge(p, (#[trigger] p[i]).1) ==> !fs.contains(p[i].1)
    &&& forall|i: int, j: int| 0 <= i < j < p.len() ==> (#[trigger] p[i]).1 != (#[trigger] p[j]).1
    &&& forall|i: int|
        0 <= i < p.len() && has_edge(p, (#[trigger] p[i]).1) ==> !fs.contains(temp_of(p[i].1))
            && !has_edge(p, temp_of(p[i].1)) && forall|j: int|
            0 <= j < p.len() ==> (#[trigger] p[j]).1 != temp_of(p[i].1)
    &&& forall|i: int| 0 <= i < p.len() ==> !ends_with_temp((#[trigger] p[i]).1)
}

/// Law (no clobbering): under the safety hypotheses the resolved rename
/// order applies cleanly, even across chains and broken cycles: no rename
/// ever moves onto an occupied path, and none moves out of a vacant one.
pub proof fn lemma_resolve_no_clobber(p: Seq<(Seq<u8>, Seq<u8>)>, fs: Set<Seq<u8>>)
    requires
        resolvable(p, fs),
    ensures
        renames_applicable(fs, resolve_all(p)),
    decreases p.len(),
{
    if p.len() == 0 {
    } else {
        lemma_resolve_step(p);
        lemma_walk_props(p, seq![min_from(p)]);
        lemma_walk_path(p, seq![min_from(p)]);
        let w = walk_of(p);
        let k = w.len() as int;
        let last = w.last();
        let to = edge_target(p, last).unwrap();
        let cyc = w.contains(to);
        let x = if cyc {
            temp_of(to)
        } else {
            to
        };
        let acts = resolve_step(p).0;
        let p2 = resolve_step(p).1;
        let rc = remove_chain(p, w);
        lemma_remove_chain(p, w);
        lemma_edge_pos(p, last);
        let e_last = edge_pos(p, last);
        assert(p[e_last].0 == last && p[e_last].1 == to);
        assert forall|q: int| 0 <= q < k implies has_edge(p, #[trigger] w[q]) && p[edge_pos(
            p,
            w[q],
        )].0 == w[q] && (q < k - 1 ==> p[edge_pos(p, w[q])].1 == w[q + 1]) by {
            lemma_edge_pos(p, w[q]);
        }
        // distinct entries never share a target
        assert forall|j1: int, j2: int|
            0 <= j1 < p.len() && 0 <= j2 < p.len() && j1 != j2 implies (#[trigger] p[j1]).1 != (
        #[trigger] p[j2]).1 by {}
        // a cycle closes at the walk's head
        if cyc {
            let i0 = choose|i0: int| 0 <= i0 < k && w[i0] == to;
            assert(to == w[0]) by {
                if i0 == k - 1 {
                    assert(p[e_last].0 == p[e_last].1);
                } else if i0 > 0 {
                    lemma_edge_pos(p, w[i0 - 1]);
                    let ea = edge_pos(p, w[i0 - 1]);
                    assert(p[ea].1 == w[i0]);
                    assert(w[i0 - 1] != last);
                    assert(ea != e_last) by {
                        assert(p[ea].0 == w[i0 - 1]);
                    }
                    assert(p[ea].1 == p[e_last].1);
                }
            }
        }
        // the walk's members are exactly the keys the step consumes, and
        // the freshly synthesized path is no key at all
        assert(!has_edge(p, x)) by {
            if cyc {
                assert(has_edge(p, p[e_last].1));
            }
        }
        assert(!fs.contains(x)) by {
            if cyc {
                assert(has_edge(p, p[e_last].1));
            }
        }
        assert(x != last && x != w[0]) by {
            assert(has_edge(p, w[0]));
        }
        assert forall|q: int| 0 <= q < k implies #[trigger] w[q] != x by {}
        // the first rename and the unwinding both apply
        let first = ActionV::Rename { from: last, to: x };
        assert(acts == seq![first] + unwind_renames(w));
        assert(acts[0] == first);
        assert(acts.skip(1) =~= unwind_renames(w));
        assert(fs.contains(last));
        let fs1 = fs.remove(last).insert(x);
        assert(!fs1.contains(w.last()));
        assert forall|q: int| 0 <= q < k - 1 implies fs1.contains(#[trigger] w[q]) by {
            lemma_edge_pos(p, w[q]);
            assert(fs.contains(p[edge_pos(p, w[q])].0));
        }
        lemma_unwind_applicable(w, fs1);
        assert(renames_applicable(fs, acts));
        // the step's net effect: the walk's head is vacated, the synthesized
        // or terminal path occupied
        let fs2 = fs.remove(w[0]).insert(x);
        assert(apply_renames(fs, acts) == fs2) by {
            assert(apply_renames(fs, acts) == apply_renames(fs1, unwind_renames(w)));
            if k == 1 {
                assert(fs1 =~= fs2);
            } else {
                assert(fs1.remove(w[0]).insert(w.last()) =~= fs2) by {
                    assert(fs.contains(last));
                }
            }
        }
        // facts about the remaining map's entries
        if cyc {
            assert(upsert_edge(rc, x, to) == rc.push((x, to))) by {
                assert(edge_target(rc, x) == edge_target(p, x)) by {
                    assert(forall|q: int| 0 <= q < k ==> #[trigger] w[q] != x);
                }
                lemma_edge_pos(rc, x);
            }
            assert(temp_of(to) != to);
            lemma_upsert_edge(rc, x, to);
        }
        assert forall|m: int| 0 <= m < rc.len() implies !w.contains((#[trigger] rc[m]).0)
            && exists|j: int| 0 <= j < p.len() && #[trigger] p[j] == rc[m] by {
            lemma_remove_chain_entries(p, w, m);
            if w.contains(rc[m].0) {
                lemma_edge_pos(rc, rc[m].0);
            }
        }
        // every entry of the remaining map that came from the old map keeps
        // the old safety facts; the pushed temporary edge keeps them too
        assert(resolvable(p2, fs2)) by {
            assert(wf_pending(p2));
            let n2 = p2.len();
            let ghost rlen = rc.len() as int;
            assert forall|m: int| 0 <= m < n2 implies fs2.contains((#[trigger] p2[m]).0) by {
                if cyc && m == rlen {
                    assert(p2[m] == (x, to));
                } else {
                    assert(p2[m] == rc[m]);
                    let j = choose|j: int| 0 <= j < p.len() && #[trigger] p[j] == rc[m];
                    assert(fs.contains(p[j].0));
                    assert(p[j].0 != w[0]);
                }
            }
            assert forall|m: int|
                0 <= m < n2 && !has_edge(p2, (#[trigger] p2[m]).1) implies !fs2.contains(
                p2[m].1,
            ) by {
                if cyc && m == rlen {
                    assert(p2[m].1 == to && to == w[0]);
                } else {
                    assert(p2[m] == rc[m]);
                    let j = choose|j: int| 0 <= j < p.len() && #[trigger] p[j] == rc[m];
                    let t = p[j].1;
                    assert(t != x) by {
                        if cyc {
                            assert(has_edge(p, p[e_last].1));
                        } else {
                            if t == to {
                                assert(j == e_last);
                                assert(w.contains(p[j].0));
                            }
                        }
                    }
                    if has_edge(p, t) {
                        assert(w.contains(t)) by {
                            if !w.contains(t) {
                                assert(edge_target(rc, t) == edge_target(p, t));
                                if cyc {
                                    assert(t != x);
                                    assert(edge_target(p2, t) == edge_target(rc, t));
                                }
                            }
                        }
                        let q = choose|q: int| 0 <= q < k && w[q] == t;
                        if q > 0 {
                            lemma_edge_pos(p, w[q - 1]);
                            let ea = edge_pos(p, w[q - 1]);
                            assert(p[ea].1 == w[q]);
                            assert(j == ea);
                            assert(w.contains(p[j].0));
                        } else {
                            assert(t == w[0]);
                        }
                    }
                }
            }
            assert forall|m1: int, m2: int| 0 <= m1 < m2 < n2 implies (#[trigger] p2[m1]).1 != (
            #[trigger] p2[m2]).1 by {
                if cyc && m2 == rlen {
                    assert(p2[m1] == rc[m1]);
                    let j = choose|j: int| 0 <= j < p.len() && #[trigger] p[j] == rc[m1];
                    if p[j].1 == to {
                        assert(j == e_last);
                        assert(w.contains(p[j].0));
                    }
                } else {
                    assert(p2[m1] == rc[m1] && p2[m2] == rc[m2]);
                    let j1 = choose|j: int| 0 <= j < p.len() && #[trigger] p[j] == rc[m1];
                    let j2 = choose|j: int| 0 <= j < p.len() && #[trigger] p[j] == rc[m2];
                    assert(j1 != j2) by {
                        if j1 == j2 {
                            assert(p2[m1].0 == p2[m2].0);
                        }
                    }
                }
            }
            assert forall|m: int|
                0 <= m < n2 && has_edge(p2, (#[trigger] p2[m]).1) implies !fs2.contains(
                temp_of(p2[m].1),
            ) && !has_edge(p2, temp_of(p2[m].1)) && forall|j: int|
                0 <= j < n2 ==> (#[trigger] p2[j]).1 != temp_of(p2[m].1) by {
                if cyc && m == rlen {
                    assert(p2[m].1 == to && to == w[0]);
                    assert(!has_edge(rc, w[0]));
                    assert(w[0] != x);
                    assert(edge_target(p2, w[0]) == edge_target(rc, w[0]));
                    assert(false);
                } else {
                    assert(p2[m] == rc[m]);
                    let j = choose|j: int| 0 <= j < p.len() && #[trigger] p[j] == rc[m];
                    let t = p[j].1;
                    let tt = temp_of(t);
                    assert(has_edge(p, t) && !w.contains(t)) by {
                        if cyc {
                            assert(t != x) by {
                                assert(has_edge(p, p[e_last].1));
                            }
                            assert(edge_target(p2, t) == edge_target(rc, t));
                        }
                        if w.contains(t) {
                            assert(!has_edge(rc, t));
                        } else {
                            assert(edge_target(rc, t) == edge_target(p, t));
                        }
                    }
                    assert(has_edge(p, p[j].1));
                    assert(tt != x) by {
                        if cyc {
                            lemma_temp_of_facts(t, to);
                            assert(has_edge(p, p[e_last].1));
                        } else {
                            if tt == to {
                                lemma_temp_of_facts(t, t);
                                assert(!ends_with_temp(p[e_last].1));
                            }
                        }
                    }
                    assert(!fs2.contains(tt));
                    assert(!has_edge(p2, tt)) by {
                        assert(!w.contains(tt)) by {
                            if w.contains(tt) {
                                let q = choose|q: int| 0 <= q < k && w[q] == tt;
                                assert(has_edge(p, w[q]));
                            }
                        }
                        assert(edge_target(rc, tt) == edge_target(p, tt));
                        if cyc {
                            assert(edge_target(p2, tt) == edge_target(rc, tt));
                        }
                    }
                    assert forall|m2: int| 0 <= m2 < n2 implies (#[trigger] p2[m2]).1 != tt by {
                        if cyc && m2 == rlen {
                            assert(p2[m2].1 == to);
                            if to == tt {
                                lemma_temp_of_facts(t, t);
                                assert(!ends_with_temp(p[e_last].1));
                            }
                        } else {
                            assert(p2[m2] == rc[m2]);
                            let j2 = choose|j2: int| 0 <= j2 < p.len() && #[trigger] p[j2] == rc[m2];
                            assert(p[j2].1 != tt);
                        }
                    }
                }
            }
            assert forall|m: int| 0 <= m < n2 implies !ends_with_temp((#[trigger] p2[m]).1) by {
                if cyc && m == rlen {
                    assert(p2[m].1 == to && to == p[e_last].1);
                } else {
                    assert(p2[m] == rc[m]);
                    let j = choose|j: int| 0 <= j < p.len() && #[trigger] p[j] == rc[m];
                    assert(!ends_with_temp(p[j].1));
                }
            }
        }
        lemma_resolve_no_clobber(p2, fs2);
        lemma_applicable_concat(fs, acts, resolve_all(p2));
        assert(resolve_all(p) == acts + resolve_all(p2));
    }
}

/// An existing record the edited document leaves untouched: same identity,
/// same path, and any re-embedded content fingerprints to the recorded
/// hash.
pub open spec fn untouched(r: ExRecV, updated: Seq<UpdRecV>) -> bool {
    &&& find_updated(updated, r.idx) is Some
    &&& find_updated(updated, r.idx).unwrap().new_path == r.path
    &&& match find_updated(updated, r.idx).unwrap().content {
        Some(c) => fingerprint_of(c) == r.hash,
        None => true,
    }
}

/// Untouched records pass through classification without a trace.
proof fn lemma_classify_untouched(
    base: Seq<u8>,
    remaining: Seq<ExRecV>,
    updated: Seq<UpdRecV>,
    acts: Seq<ActionV>,
    pend: Seq<(Seq<u8>, Seq<u8>)>,
)
    requires
        forall|k: int| 0 <= k < remaining.len() ==> untouched(#[trigger] remaining[k], updated),
    ensures
        classify(base, remaining, updated, acts, pend) == (acts, pend),
    decreases remaining.len(),
{
    if remaining.len() > 0 {
        assert(untouched(remaining[0], updated));
        assert forall|k: int| 0 <= k < remaining.skip(1).len() implies untouched(
            #[trigger] remaining.skip(1)[k],
            updated,
        ) by {
            assert(remaining.skip(1)[k] == remaining[k + 1]);
        }
        lemma_classify_untouched(base, remaining.skip(1), updated, acts, pend);
    }
}

/// Law (round-trip idempotence, planning half): a document all of whose
/// records are untouched plans no action at all.
pub proof fn lemma_untouched_plans_empty(doc: DocV)
    requires
        forall|k: int| 0 <= k < doc.existing.len() ==> untouched(#[trigger] doc.existing[k], doc.updated),
    ensures
        plan_spec(doc) == Seq::<ActionV>::empty(),
{
    lemma_classify_untouched(
        doc.base_path,
        doc.existing,
        doc.updated,
        Seq::<ActionV>::empty(),
        Seq::<(Seq<u8>, Seq<u8>)>::empty(),
    );
    assert(wf_pending(Seq::<(Seq<u8>, Seq<u8>)>::empty()));
    assert(resolve_all(Seq::<(Seq<u8>, Seq<u8>)>::empty()) == Seq::<ActionV>::empty());
    assert(plan_spec(doc) =~= Seq::<ActionV>::empty());
}

} // verus!
