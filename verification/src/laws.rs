//! Properties of the diff engine, proved of its specification.

use vstd::prelude::*;

use crate::diff::{
    diff_spec, find_match, run_pass, tier_matches, CommandView, MatchTier,
};
use crate::record::{kind_of, NodeView, RecordView};

verus! {

/// A found match lies in range and matches.
pub proof fn lemma_find_match_sound(actual: Seq<NodeView>, tier: MatchTier, d: RecordView)
    ensures
        match find_match(actual, tier, d) {
            Some(i) => 0 <= i < actual.len() && tier_matches(tier, d, actual[i].record),
            None => forall|j: int|
                0 <= j < actual.len() ==> !tier_matches(tier, d, #[trigger] actual[j].record),
        },
    decreases actual.len(),
{
    if actual.len() > 0 && !tier_matches(tier, d, actual[0].record) {
        lemma_find_match_sound(actual.drop_first(), tier, d);
        assert(forall|j: int|
            0 <= j < actual.len() - 1 ==> #[trigger] actual.drop_first()[j] == actual[j + 1]);
        match find_match(actual.drop_first(), tier, d) {
            Some(i) => {
                assert(actual.drop_first()[i] == actual[i + 1]);
                assert(tier_matches(tier, d, actual[i + 1].record));
            },
            None => {
                assert forall|j: int|
                    0 <= j < actual.len() implies !tier_matches(
                    tier,
                    d,
                    #[trigger] actual[j].record,
                ) by {
                    if j > 0 {
                        assert(actual.drop_first()[j - 1] == actual[j]);
                        assert(!tier_matches(tier, d, actual.drop_first()[j - 1].record));
                    }
                }
            },
        }
    }
}

/// The counts of one pass: the unclaimed actual records never grow, every
/// desired record is either kept or claims one actual record, and the
/// patch count is the claim count except at the exact tier, which emits
/// nothing.
pub proof fn lemma_run_pass_counts(tier: MatchTier, desired: Seq<RecordView>, actual: Seq<NodeView>)
    ensures
        ({
            let p = run_pass(tier, desired, actual);
            &&& p.actual.len() <= actual.len()
            &&& p.kept.len() + (actual.len() - p.actual.len()) == desired.len()
            &&& p.patches.len() == if tier is Exact {
                0int
            } else {
                actual.len() - p.actual.len()
            }
        }),
    decreases desired.len(),
{
    if desired.len() > 0 {
        let d = desired[0];
        match find_match(actual, tier, d) {
            Some(i) => {
                lemma_find_match_sound(actual, tier, d);
                lemma_run_pass_counts(tier, desired.drop_first(), actual.remove(i));
            },
            None => {
                lemma_run_pass_counts(tier, desired.drop_first(), actual);
            },
        }
    }
}

/// The record values the actual nodes hold, identities stripped.
pub open spec fn actual_records(actual: Seq<NodeView>) -> Seq<RecordView> {
    actual.map_values(|n: NodeView| n.record)
}

/// Idempotence: running the diff where the actual records already equal
/// the desired ones — the same names, types and values, in any order —
/// yields an empty operation list.
pub proof fn lemma_diff_idempotent(actual: Seq<NodeView>, desired: Seq<RecordView>)
    requires
        actual_records(actual).to_multiset() == desired.to_multiset(),
    ensures
        diff_spec(actual, desired) =~= Seq::<CommandView>::empty(),
{
    lemma_pass_exact_consumes(desired, actual);
    let p1 = run_pass(MatchTier::Exact, desired, actual);
    assert(p1.kept.len() == 0 && p1.actual.len() == 0);
    assert(run_pass(MatchTier::NameKind, p1.kept, p1.actual).kept =~= Seq::<RecordView>::empty());
    assert(run_pass(MatchTier::NameKind, p1.kept, p1.actual).actual == p1.actual);
    let p2 = run_pass(MatchTier::NameKind, p1.kept, p1.actual);
    assert(run_pass(MatchTier::Kind, p2.kept, p2.actual).kept =~= Seq::<RecordView>::empty());
}

/// The exact pass consumes everything when the two sides hold the same
/// records, as multisets.
proof fn lemma_pass_exact_consumes(desired: Seq<RecordView>, actual: Seq<NodeView>)
    requires
        actual_records(actual).to_multiset() == desired.to_multiset(),
    ensures
        run_pass(MatchTier::Exact, desired, actual).kept =~= Seq::<RecordView>::empty(),
        run_pass(MatchTier::Exact, desired, actual).actual =~= Seq::<NodeView>::empty(),
    decreases desired.len(),
{
    let recs = actual_records(actual);
    recs.to_multiset_ensures();
    desired.to_multiset_ensures();
    if desired.len() == 0 {
        assert(recs.to_multiset().len() == 0);
        assert(recs.len() == 0);
        assert(actual =~= Seq::<NodeView>::empty());
    } else {
        let d0 = desired[0];
        assert(desired.contains(d0));
        assert(desired.to_multiset().count(d0) > 0);
        assert(recs.to_multiset().count(d0) > 0);
        assert(recs.contains(d0));
        let j = choose|j: int| 0 <= j < recs.len() && recs[j] == d0;
        assert(actual[j].record == d0);
        assert(tier_matches(MatchTier::Exact, d0, actual[j].record));
        lemma_find_match_sound(actual, MatchTier::Exact, d0);
        assert(find_match(actual, MatchTier::Exact, d0) is Some);
        let i = find_match(actual, MatchTier::Exact, d0)->Some_0;
        assert(actual[i].record == d0);
        actual.remove_ensures(i);
        let actual2 = actual.remove(i);
        let recs2 = actual_records(actual2);
        assert(recs2 =~= recs.remove(i)) by {
            assert forall|k: int| 0 <= k < recs2.len() implies recs2[k] == recs.remove(i)[k] by {
                if k < i {
                    assert(actual2[k] == actual[k]);
                    assert(recs.remove(i)[k] == recs[k]);
                } else {
                    assert(actual2[k] == actual[k + 1]);
                    assert(recs.remove(i)[k] == recs[k + 1]);
                }
            }
        }
        assert(recs.remove(i).to_multiset() =~= recs.to_multiset().remove(recs[i]));
        assert(recs[i] == d0);
        assert(desired.drop_first() =~= desired.remove(0));
        assert(desired.remove(0).to_multiset() =~= desired.to_multiset().remove(d0));
        assert(actual_records(actual2).to_multiset() == desired.drop_first().to_multiset());
        lemma_pass_exact_consumes(desired.drop_first(), actual2);
    }
}

/// How many commands in `s` are patches.
pub open spec fn patch_count(s: Seq<CommandView>) -> int
    decreases s.len(),
{
    if s.len() == 0 {
        0
    } else {
        patch_count(s.drop_last()) + if s.last() is Patch {
            1int
        } else {
            0int
        }
    }
}

/// How many commands in `s` are creates.
pub open spec fn create_count(s: Seq<CommandView>) -> int
    decreases s.len(),
{
    if s.len() == 0 {
        0
    } else {
        create_count(s.drop_last()) + if s.last() is Create {
            1int
        } else {
            0int
        }
    }
}

/// How many commands in `s` are deletes.
pub open spec fn delete_count(s: Seq<CommandView>) -> int
    decreases s.len(),
{
    if s.len() == 0 {
        0
    } else {
        delete_count(s.drop_last()) + if s.last() is Delete {
            1int
        } else {
            0int
        }
    }
}

/// The three counts split over concatenation.
proof fn lemma_counts_concat(a: Seq<CommandView>, b: Seq<CommandView>)
    ensures
        patch_count(a + b) == patch_count(a) + patch_count(b),
        create_count(a + b) == create_count(a) + create_count(b),
        delete_count(a + b) == delete_count(a) + delete_count(b),
    decreases b.len(),
{
    if b.len() == 0 {
        assert(a + b =~= a);
    } else {
        lemma_counts_concat(a, b.drop_last());
        assert((a + b).drop_last() =~= a + b.drop_last());
        assert((a + b).last() == b.last());
    }
}

/// Every patch-pass command is a patch, so the counts are the length or
/// zero.
proof fn lemma_counts_of_patches(tier: MatchTier, desired: Seq<RecordView>, actual: Seq<NodeView>)
    ensures
        ({
            let p = run_pass(tier, desired, actual);
            patch_count(p.patches) == p.patches.len() && create_count(p.patches) == 0
                && delete_count(p.patches) == 0
        }),
    decreases desired.len(),
{
    if desired.len() > 0 {
        let d = desired[0];
        match find_match(actual, tier, d) {
            Some(i) => {
                lemma_counts_of_patches(tier, desired.drop_first(), actual.remove(i));
                let rest = run_pass(tier, desired.drop_first(), actual.remove(i));
                if !(tier is Exact) {
                    let single = seq![CommandView::Patch(actual[i], d)];
                    assert(single.drop_last() =~= Seq::<CommandView>::empty());
                    assert(patch_count(Seq::<CommandView>::empty()) == 0);
                    assert(create_count(Seq::<CommandView>::empty()) == 0);
                    assert(delete_count(Seq::<CommandView>::empty()) == 0);
                    assert(single.last() == CommandView::Patch(actual[i], d));
                    assert(patch_count(single) == 1 && create_count(single) == 0
                        && delete_count(single) == 0);
                    lemma_counts_concat(single, rest.patches);
                }
            },
            None => {
                lemma_counts_of_patches(tier, desired.drop_first(), actual);
            },
        }
    }
}

/// The counts of a mapped create segment.
proof fn lemma_counts_of_creates(rs: Seq<RecordView>)
    ensures
        ({
            let s = rs.map_values(|r: RecordView| CommandView::Create(r));
            create_count(s) == s.len() && patch_count(s) == 0 && delete_count(s) == 0
        }),
    decreases rs.len(),
{
    if rs.len() > 0 {
        lemma_counts_of_creates(rs.drop_last());
        let s = rs.map_values(|r: RecordView| CommandView::Create(r));
        assert(s.drop_last() =~= rs.drop_last().map_values(|r: RecordView| CommandView::Create(r)));
        assert(s.last() == CommandView::Create(rs.last()));
    }
}

/// The counts of a mapped delete segment.
proof fn lemma_counts_of_deletes(ns: Seq<NodeView>)
    ensures
        ({
            let s = ns.map_values(|n: NodeView| CommandView::Delete(n));
            delete_count(s) == s.len() && patch_count(s) == 0 && create_count(s) == 0
        }),
    decreases ns.len(),
{
    if ns.len() > 0 {
        lemma_counts_of_deletes(ns.drop_last());
        let s = ns.map_values(|n: NodeView| CommandView::Delete(n));
        assert(s.drop_last() =~= ns.drop_last().map_values(|n: NodeView| CommandView::Delete(n)));
        assert(s.last() == CommandView::Delete(ns.last()));
    }
}

/// The patch and delete operations together never outnumber the actual
/// records, and the patch and create operations together never outnumber
/// the desired records.
pub proof fn lemma_diff_counts(actual: Seq<NodeView>, desired: Seq<RecordView>)
    ensures
        patch_count(diff_spec(actual, desired)) + delete_count(diff_spec(actual, desired))
            <= actual.len(),
        patch_count(diff_spec(actual, desired)) + create_count(diff_spec(actual, desired))
            <= desired.len(),
{
    let p1 = run_pass(MatchTier::Exact, desired, actual);
    let p2 = run_pass(MatchTier::NameKind, p1.kept, p1.actual);
    let p3 = run_pass(MatchTier::Kind, p2.kept, p2.actual);
    let creates = p3.kept.map_values(|r: RecordView| CommandView::Create(r));
    let deletes = p3.actual.map_values(|n: NodeView| CommandView::Delete(n));
    lemma_run_pass_counts(MatchTier::Exact, desired, actual);
    lemma_run_pass_counts(MatchTier::NameKind, p1.kept, p1.actual);
    lemma_run_pass_counts(MatchTier::Kind, p2.kept, p2.actual);
    lemma_counts_of_patches(MatchTier::NameKind, p1.kept, p1.actual);
    lemma_counts_of_patches(MatchTier::Kind, p2.kept, p2.actual);
    lemma_counts_of_creates(p3.kept);
    lemma_counts_of_deletes(p3.actual);
    lemma_counts_concat(p2.patches, p3.patches);
    lemma_counts_concat(p2.patches + p3.patches, creates);
    lemma_counts_concat(p2.patches + p3.patches + creates, deletes);
}

/// How many times `x` occurs in `s`.
pub open spec fn count_of<T>(s: Seq<T>, x: T) -> int
    decreases s.len(),
{
    if s.len() == 0 {
        0
    } else {
        count_of(s.drop_last(), x) + if s.last() == x {
            1int
        } else {
            0int
        }
    }
}

/// Occurrence counts are nonnegative and split over concatenation.
proof fn lemma_count_concat<T>(a: Seq<T>, b: Seq<T>, x: T)
    ensures
        count_of(a + b, x) == count_of(a, x) + count_of(b, x),
        count_of(a, x) >= 0,
    decreases a.len() + b.len(),
{
    if b.len() == 0 {
        assert(a + b =~= a);
        if a.len() > 0 {
            lemma_count_concat(a.drop_last(), Seq::<T>::empty(), x);
            assert(a.drop_last() + Seq::<T>::empty() =~= a.drop_last());
        }
    } else {
        lemma_count_concat(a, b.drop_last(), x);
        assert((a + b).drop_last() =~= a + b.drop_last());
        assert((a + b).last() == b.last());
    }
}

/// Removing one element removes exactly its occurrence.
proof fn lemma_count_remove<T>(s: Seq<T>, i: int, x: T)
    requires
        0 <= i < s.len(),
    ensures
        count_of(s.remove(i), x) == count_of(s, x) - (if s[i] == x {
            1int
        } else {
            0int
        }),
    decreases s.len(),
{
    if i == s.len() - 1 {
        assert(s.remove(i) =~= s.drop_last());
    } else {
        lemma_count_remove(s.drop_last(), i, x);
        assert(s.remove(i).drop_last() =~= s.drop_last().remove(i));
        assert(s.remove(i).last() == s.last());
    }
}

/// A matching record at any tier has the matching record-type tag.
proof fn lemma_tier_match_kind(tier: MatchTier, d: RecordView, a: RecordView)
    requires
        tier_matches(tier, d, a),
    ensures
        kind_of(d.value) == kind_of(a.value),
{
}

/// A pass never claims an actual record whose record-type tag no desired
/// record carries.
proof fn lemma_pass_keeps_unmatched_node(
    tier: MatchTier,
    desired: Seq<RecordView>,
    actual: Seq<NodeView>,
    n: NodeView,
)
    requires
        forall|i: int|
            0 <= i < desired.len() ==> kind_of(#[trigger] desired[i].value) != kind_of(
                n.record.value,
            ),
    ensures
        count_of(run_pass(tier, desired, actual).actual, n) == count_of(actual, n),
    decreases desired.len(),
{
    if desired.len() > 0 {
        let d = desired[0];
        assert(forall|i: int|
            0 <= i < desired.len() - 1 ==> #[trigger] desired.drop_first()[i] == desired[i + 1]);
        match find_match(actual, tier, d) {
            Some(i) => {
                lemma_find_match_sound(actual, tier, d);
                lemma_tier_match_kind(tier, d, actual[i].record);
                assert(actual[i] != n);
                lemma_count_remove(actual, i, n);
                lemma_pass_keeps_unmatched_node(tier, desired.drop_first(), actual.remove(i), n);
            },
            None => {
                lemma_pass_keeps_unmatched_node(tier, desired.drop_first(), actual, n);
            },
        }
    }
}

/// What a pass keeps is drawn from the desired records.
proof fn lemma_pass_kept_kinds(
    tier: MatchTier,
    desired: Seq<RecordView>,
    actual: Seq<NodeView>,
    k: crate::record::RecordKind,
)
    requires
        forall|i: int| 0 <= i < desired.len() ==> kind_of(#[trigger] desired[i].value) != k,
    ensures
        forall|i: int|
            0 <= i < run_pass(tier, desired, actual).kept.len() ==> kind_of(
                #[trigger] run_pass(tier, desired, actual).kept[i].value,
            ) != k,
    decreases desired.len(),
{
    if desired.len() > 0 {
        let d = desired[0];
        assert(forall|i: int|
            0 <= i < desired.len() - 1 ==> #[trigger] desired.drop_first()[i] == desired[i + 1]);
        match find_match(actual, tier, d) {
            Some(i) => {
                lemma_pass_kept_kinds(tier, desired.drop_first(), actual.remove(i), k);
            },
            None => {
                lemma_pass_kept_kinds(tier, desired.drop_first(), actual, k);
                let rest = run_pass(tier, desired.drop_first(), actual);
                assert(forall|i: int|
                    0 <= i < rest.kept.len() ==> (seq![d] + rest.kept)[i + 1] == #[trigger] rest.kept[i]);
            },
        }
    }
}

/// A per-value count is bounded by the per-shape count.
proof fn lemma_count_delete_bound(s: Seq<CommandView>, c: CommandView)
    ensures
        c is Delete ==> count_of(s, c) <= delete_count(s),
        c is Create ==> count_of(s, c) <= create_count(s),
        count_of(s, c) >= 0,
    decreases s.len(),
{
    if s.len() > 0 {
        lemma_count_delete_bound(s.drop_last(), c);
    }
}

/// Mapping a constructor over a sequence preserves occurrence counts.
proof fn lemma_count_map_delete(ns: Seq<NodeView>, n: NodeView)
    ensures
        count_of(ns.map_values(|m: NodeView| CommandView::Delete(m)), CommandView::Delete(n))
            == count_of(ns, n),
    decreases ns.len(),
{
    if ns.len() > 0 {
        lemma_count_map_delete(ns.drop_last(), n);
        let s = ns.map_values(|m: NodeView| CommandView::Delete(m));
        assert(s.drop_last() =~= ns.drop_last().map_values(|m: NodeView| CommandView::Delete(m)));
        assert(s.last() == CommandView::Delete(ns.last()));
    }
}

/// Mapping the create constructor preserves occurrence counts.
proof fn lemma_count_map_create(rs: Seq<RecordView>, r: RecordView)
    ensures
        count_of(rs.map_values(|q: RecordView| CommandView::Create(q)), CommandView::Create(r))
            == count_of(rs, r),
    decreases rs.len(),
{
    if rs.len() > 0 {
        lemma_count_map_create(rs.drop_last(), r);
        let s = rs.map_values(|q: RecordView| CommandView::Create(q));
        assert(s.drop_last() =~= rs.drop_last().map_values(|q: RecordView| CommandView::Create(q)));
        assert(s.last() == CommandView::Create(rs.last()));
    }
}

/// An actual record whose record-type tag no desired record carries is
/// deleted: once per occurrence, and touched by nothing else.
pub proof fn lemma_unmatched_actual_deleted(
    actual: Seq<NodeView>,
    desired: Seq<RecordView>,
    n: NodeView,
)
    requires
        forall|i: int|
            0 <= i < desired.len() ==> kind_of(#[trigger] desired[i].value) != kind_of(
                n.record.value,
            ),
    ensures
        count_of(diff_spec(actual, desired), CommandView::Delete(n)) == count_of(actual, n),
{
    let p1 = run_pass(MatchTier::Exact, desired, actual);
    let p2 = run_pass(MatchTier::NameKind, p1.kept, p1.actual);
    let p3 = run_pass(MatchTier::Kind, p2.kept, p2.actual);
    let creates = p3.kept.map_values(|r: RecordView| CommandView::Create(r));
    let deletes = p3.actual.map_values(|m: NodeView| CommandView::Delete(m));
    let k = kind_of(n.record.value);
    lemma_pass_keeps_unmatched_node(MatchTier::Exact, desired, actual, n);
    lemma_pass_kept_kinds(MatchTier::Exact, desired, actual, k);
    lemma_pass_keeps_unmatched_node(MatchTier::NameKind, p1.kept, p1.actual, n);
    lemma_pass_kept_kinds(MatchTier::NameKind, p1.kept, p1.actual, k);
    lemma_pass_keeps_unmatched_node(MatchTier::Kind, p2.kept, p2.actual, n);
    assert(count_of(p3.actual, n) == count_of(actual, n));
    lemma_count_map_delete(p3.actual, n);
    let c = CommandView::Delete(n);
    lemma_counts_of_patches(MatchTier::NameKind, p1.kept, p1.actual);
    lemma_counts_of_patches(MatchTier::Kind, p2.kept, p2.actual);
    lemma_counts_of_creates(p3.kept);
    lemma_count_delete_bound(p2.patches, c);
    lemma_count_delete_bound(p3.patches, c);
    lemma_count_delete_bound(creates, c);
    lemma_count_concat(p2.patches, p3.patches, c);
    lemma_count_concat(p2.patches + p3.patches, creates, c);
    lemma_count_concat(p2.patches + p3.patches + creates, deletes, c);
}

/// A pass finds no claim for a desired record whose record-type tag no
/// actual record carries, and passes the record through unclaimed.
proof fn lemma_pass_keeps_unmatched_record(
    tier: MatchTier,
    desired: Seq<RecordView>,
    actual: Seq<NodeView>,
    d: RecordView,
)
    requires
        forall|j: int|
            0 <= j < actual.len() ==> kind_of(#[trigger] actual[j].record.value) != kind_of(
                d.value,
            ),
    ensures
        count_of(run_pass(tier, desired, actual).kept, d) == count_of(desired, d),
        forall|j: int|
            0 <= j < run_pass(tier, desired, actual).actual.len() ==> kind_of(
                #[trigger] run_pass(tier, desired, actual).actual[j].record.value,
            ) != kind_of(d.value),
    decreases desired.len(),
{
    let p = run_pass(tier, desired, actual);
    if desired.len() == 0 {
        assert(p.kept =~= Seq::<RecordView>::empty());
        assert(count_of(Seq::<RecordView>::empty(), d) == 0);
        assert(count_of(desired, d) == 0) by {
            assert(desired =~= Seq::<RecordView>::empty());
        }
        assert(p.actual == actual);
        assert forall|j: int|
            0 <= j < p.actual.len() implies kind_of(#[trigger] p.actual[j].record.value)
            != kind_of(d.value) by {
            assert(p.actual[j] == actual[j]);
            assert(kind_of(actual[j].record.value) != kind_of(d.value));
        }
    } else {
        let d0 = desired[0];
        assert(desired =~= seq![d0] + desired.drop_first());
        lemma_count_concat(seq![d0], desired.drop_first(), d);
        assert(count_of(seq![d0], d) == if d0 == d {
            1int
        } else {
            0int
        }) by {
            assert(seq![d0].drop_last() =~= Seq::<RecordView>::empty());
            assert(count_of(Seq::<RecordView>::empty(), d) == 0);
        }
        match find_match(actual, tier, d0) {
            Some(i) => {
                lemma_find_match_sound(actual, tier, d0);
                assert(0 <= i < actual.len());
                lemma_tier_match_kind(tier, d0, actual[i].record);
                assert(kind_of(actual[i].record.value) != kind_of(d.value));
                assert(kind_of(d0.value) != kind_of(d.value));
                assert(d0 != d);
                actual.remove_ensures(i);
                assert forall|j: int|
                    0 <= j < actual.remove(i).len() implies kind_of(
                    #[trigger] actual.remove(i)[j].record.value,
                ) != kind_of(d.value) by {
                    if j < i {
                        assert(actual.remove(i)[j] == actual[j]);
                        assert(kind_of(actual[j].record.value) != kind_of(d.value));
                    } else {
                        assert(actual.remove(i)[j] == actual[j + 1]);
                        assert(kind_of(actual[j + 1].record.value) != kind_of(d.value));
                    }
                }
                lemma_pass_keeps_unmatched_record(tier, desired.drop_first(), actual.remove(i), d);
                let rest = run_pass(tier, desired.drop_first(), actual.remove(i));
                assert(p.actual == rest.actual);
                assert forall|j: int|
                    0 <= j < p.actual.len() implies kind_of(#[trigger] p.actual[j].record.value)
                    != kind_of(d.value) by {
                    assert(p.actual[j] == rest.actual[j]);
                    assert(kind_of(rest.actual[j].record.value) != kind_of(d.value));
                }
            },
            None => {
                lemma_pass_keeps_unmatched_record(tier, desired.drop_first(), actual, d);
                let rest = run_pass(tier, desired.drop_first(), actual);
                assert(p.kept =~= seq![d0] + rest.kept);
                lemma_count_concat(seq![d0], rest.kept, d);
                assert(count_of(seq![d0], d) == if d0 == d {
                    1int
                } else {
                    0int
                }) by {
                    assert(seq![d0].drop_last() =~= Seq::<RecordView>::empty());
                    assert(count_of(Seq::<RecordView>::empty(), d) == 0);
                }
                assert(p.actual == rest.actual);
                assert forall|j: int|
                    0 <= j < p.actual.len() implies kind_of(#[trigger] p.actual[j].record.value)
                    != kind_of(d.value) by {
                    assert(p.actual[j] == rest.actual[j]);
                    assert(kind_of(rest.actual[j].record.value) != kind_of(d.value));
                }
            },
        }
    }
}

/// A desired record whose record-type tag no actual record carries is
/// created: once per occurrence, and produces nothing else.
pub proof fn lemma_unmatched_desired_created(
    actual: Seq<NodeView>,
    desired: Seq<RecordView>,
    d: RecordView,
)
    requires
        forall|j: int|
            0 <= j < actual.len() ==> kind_of(#[trigger] actual[j].record.value) != kind_of(
                d.value,
            ),
    ensures
        count_of(diff_spec(actual, desired), CommandView::Create(d)) == count_of(desired, d),
{
    let p1 = run_pass(MatchTier::Exact, desired, actual);
    let p2 = run_pass(MatchTier::NameKind, p1.kept, p1.actual);
    let p3 = run_pass(MatchTier::Kind, p2.kept, p2.actual);
    let creates = p3.kept.map_values(|r: RecordView| CommandView::Create(r));
    let deletes = p3.actual.map_values(|m: NodeView| CommandView::Delete(m));
    lemma_pass_keeps_unmatched_record(MatchTier::Exact, desired, actual, d);
    lemma_pass_keeps_unmatched_record(MatchTier::NameKind, p1.kept, p1.actual, d);
    lemma_pass_keeps_unmatched_record(MatchTier::Kind, p2.kept, p2.actual, d);
    assert(count_of(p3.kept, d) == count_of(desired, d));
    lemma_count_map_create(p3.kept, d);
    let c = CommandView::Create(d);
    lemma_counts_of_patches(MatchTier::NameKind, p1.kept, p1.actual);
    lemma_counts_of_patches(MatchTier::Kind, p2.kept, p2.actual);
    lemma_counts_of_deletes(p3.actual);
    lemma_count_delete_bound(p2.patches, c);
    lemma_count_delete_bound(p3.patches, c);
    lemma_count_delete_bound(deletes, c);
    lemma_count_concat(p2.patches, p3.patches, c);
    lemma_count_concat(p2.patches + p3.patches, creates, c);
    lemma_count_concat(p2.patches + p3.patches + creates, deletes, c);
}

/// Whether a command references the actual record with this identity.
pub open spec fn touches(c: CommandView, id: i64) -> bool {
    match c {
        CommandView::Delete(n) => n.id == id,
        CommandView::Patch(n, _) => n.id == id,
        _ => false,
    }
}

/// Whether some node in `s` carries this identity.
pub open spec fn id_in(s: Seq<NodeView>, id: i64) -> bool {
    exists|j: int| 0 <= j < s.len() && s[j].id == id
}

/// All provider identities in `s` are distinct.
pub open spec fn distinct_ids(s: Seq<NodeView>) -> bool {
    forall|j: int, k: int| 0 <= j < k < s.len() ==> s[j].id != s[k].id
}

/// Removing a node keeps identities distinct.
proof fn lemma_distinct_remove(s: Seq<NodeView>, i: int)
    requires
        0 <= i < s.len(),
        distinct_ids(s),
    ensures
        distinct_ids(s.remove(i)),
{
    s.remove_ensures(i);
    assert forall|j: int, k: int| 0 <= j < k < s.remove(i).len() implies s.remove(i)[j].id
        != s.remove(i)[k].id by {
        let jj = if j < i { j } else { j + 1 };
        let kk = if k < i { k } else { k + 1 };
        assert(s.remove(i)[j] == s[jj]);
        assert(s.remove(i)[k] == s[kk]);
        assert(s[jj].id != s[kk].id);
    }
}

/// An identity absent from the working list is referenced by no patch of
/// the pass and absent from what survives it.
proof fn lemma_pass_ids(tier: MatchTier, desired: Seq<RecordView>, actual: Seq<NodeView>, id: i64)
    requires
        !id_in(actual, id),
    ensures
        !id_in(run_pass(tier, desired, actual).actual, id),
        forall|k: int|
            0 <= k < run_pass(tier, desired, actual).patches.len() ==> !touches(
                #[trigger] run_pass(tier, desired, actual).patches[k],
                id,
            ),
    decreases desired.len(),
{
    let p = run_pass(tier, desired, actual);
    if desired.len() == 0 {
    } else {
        let d0 = desired[0];
        match find_match(actual, tier, d0) {
            Some(i) => {
                lemma_find_match_sound(actual, tier, d0);
                actual.remove_ensures(i);
                assert(!id_in(actual.remove(i), id)) by {
                    if id_in(actual.remove(i), id) {
                        let j = choose|j: int|
                            0 <= j < actual.remove(i).len() && actual.remove(i)[j].id == id;
                        let jj = if j < i { j } else { j + 1 };
                        assert(actual.remove(i)[j] == actual[jj]);
                        assert(id_in(actual, id));
                    }
                }
                lemma_pass_ids(tier, desired.drop_first(), actual.remove(i), id);
                let rest = run_pass(tier, desired.drop_first(), actual.remove(i));
                if !(tier is Exact) {
                    assert(actual[i].id != id) by {
                        if actual[i].id == id {
                            assert(id_in(actual, id));
                        }
                    }
                    assert forall|k: int|
                        0 <= k < p.patches.len() implies !touches(#[trigger] p.patches[k], id) by {
                        if k == 0 {
                            assert(p.patches[0] == CommandView::Patch(actual[i], d0));
                        } else {
                            assert(p.patches[k] == rest.patches[k - 1]);
                        }
                    }
                }
            },
            None => {
                lemma_pass_ids(tier, desired.drop_first(), actual, id);
            },
        }
    }
}

/// The exact pass claims, for a desired record with a value-identical
/// actual record, some such actual record: it does not survive the pass.
proof fn lemma_pass1_claims(desired: Seq<RecordView>, actual: Seq<NodeView>, d: RecordView)
    requires
        desired.contains(d),
        exists|j: int| 0 <= j < actual.len() && actual[j].record == d,
        distinct_ids(actual),
    ensures
        exists|j: int|
            0 <= j < actual.len() && actual[j].record == d && !id_in(
                run_pass(MatchTier::Exact, desired, actual).actual,
                actual[j].id,
            ),
    decreases desired.len(),
{
    let p = run_pass(MatchTier::Exact, desired, actual);
    let d0 = desired[0];
    assert(forall|i: int|
        0 <= i < desired.len() - 1 ==> #[trigger] desired.drop_first()[i] == desired[i + 1]);
    match find_match(actual, MatchTier::Exact, d0) {
        Some(k) => {
            lemma_find_match_sound(actual, MatchTier::Exact, d0);
            actual.remove_ensures(k);
            let rest = run_pass(MatchTier::Exact, desired.drop_first(), actual.remove(k));
            assert(p.actual == rest.actual);
            assert(!id_in(actual.remove(k), actual[k].id)) by {
                if id_in(actual.remove(k), actual[k].id) {
                    let j = choose|j: int|
                        0 <= j < actual.remove(k).len() && actual.remove(k)[j].id == actual[k].id;
                    let jj = if j < k { j } else { j + 1 };
                    assert(actual.remove(k)[j] == actual[jj]);
                    assert(jj != k);
                    assert(actual[jj].id != actual[k].id);
                }
            }
            if actual[k].record == d {
                lemma_pass_ids(MatchTier::Exact, desired.drop_first(), actual.remove(k), actual[k].id);
                assert(actual[k].record == d && !id_in(p.actual, actual[k].id));
            } else {
                assert(d0 != d);
                assert(desired.drop_first().contains(d)) by {
                    let i = choose|i: int| 0 <= i < desired.len() && desired[i] == d;
                    assert(i != 0);
                    assert(desired.drop_first()[i - 1] == d);
                }
                assert(exists|j: int|
                    0 <= j < actual.remove(k).len() && actual.remove(k)[j].record == d) by {
                    let j0 = choose|j: int| 0 <= j < actual.len() && actual[j].record == d;
                    assert(j0 != k);
                    let jr = if j0 < k { j0 } else { j0 - 1 };
                    assert(actual.remove(k)[jr] == actual[j0]);
                }
                lemma_distinct_remove(actual, k);
                lemma_pass1_claims(desired.drop_first(), actual.remove(k), d);
                let j = choose|j: int|
                    0 <= j < actual.remove(k).len() && actual.remove(k)[j].record == d && !id_in(
                        rest.actual,
                        actual.remove(k)[j].id,
                    );
                let m = if j < k { j } else { j + 1 };
                assert(actual.remove(k)[j] == actual[m]);
                assert(actual[m].record == d && !id_in(p.actual, actual[m].id));
            }
        },
        None => {
            lemma_find_match_sound(actual, MatchTier::Exact, d0);
            assert(d0 != d) by {
                if d0 == d {
                    let j = choose|j: int| 0 <= j < actual.len() && actual[j].record == d;
                    assert(tier_matches(MatchTier::Exact, d0, actual[j].record));
                }
            }
            assert(desired.drop_first().contains(d)) by {
                let i = choose|i: int| 0 <= i < desired.len() && desired[i] == d;
                assert(i != 0);
                assert(desired.drop_first()[i - 1] == d);
            }
            lemma_pass1_claims(desired.drop_first(), actual, d);
            let rest = run_pass(MatchTier::Exact, desired.drop_first(), actual);
            assert(p.actual == rest.actual);
        },
    }
}

/// Exact-match precedence: when a desired record is value-identical to
/// some actual record — the identities being distinct, as a provider
/// assigns them — some actual record with exactly that value is referenced
/// by no operation of the diff.
pub proof fn lemma_exact_match_untouched(actual: Seq<NodeView>, desired: Seq<RecordView>, i: int)
    requires
        0 <= i < desired.len(),
        exists|j: int| 0 <= j < actual.len() && actual[j].record == desired[i],
        distinct_ids(actual),
    ensures
        exists|j: int|
            0 <= j < actual.len() && actual[j].record == desired[i] && (forall|k: int|
                0 <= k < diff_spec(actual, desired).len() ==> !touches(
                    #[trigger] diff_spec(actual, desired)[k],
                    actual[j].id,
                )),
{
    let d = desired[i];
    assert(desired.contains(d));
    lemma_pass1_claims(desired, actual, d);
    let p1 = run_pass(MatchTier::Exact, desired, actual);
    let p2 = run_pass(MatchTier::NameKind, p1.kept, p1.actual);
    let p3 = run_pass(MatchTier::Kind, p2.kept, p2.actual);
    let creates = p3.kept.map_values(|r: RecordView| CommandView::Create(r));
    let deletes = p3.actual.map_values(|m: NodeView| CommandView::Delete(m));
    let j = choose|j: int|
        0 <= j < actual.len() && actual[j].record == d && !id_in(p1.actual, actual[j].id);
    let id = actual[j].id;
    lemma_pass_ids(MatchTier::NameKind, p1.kept, p1.actual, id);
    lemma_pass_ids(MatchTier::Kind, p2.kept, p2.actual, id);
    assert forall|k: int|
        0 <= k < diff_spec(actual, desired).len() implies !touches(
        #[trigger] diff_spec(actual, desired)[k],
        id,
    ) by {
        let s = diff_spec(actual, desired);
        let n2 = p2.patches.len() as int;
        let n3 = p3.patches.len() as int;
        let nc = creates.len() as int;
        if k < n2 {
            assert(s[k] == p2.patches[k]);
        } else if k < n2 + n3 {
            assert(s[k] == p3.patches[k - n2]);
        } else if k < n2 + n3 + nc {
            assert(s[k] == creates[k - n2 - n3]);
            assert(creates[k - n2 - n3] == CommandView::Create(p3.kept[k - n2 - n3]));
        } else {
            assert(s[k] == deletes[k - n2 - n3 - nc]);
            assert(deletes[k - n2 - n3 - nc] == CommandView::Delete(
                p3.actual[k - n2 - n3 - nc],
            ));
            assert(!id_in(p3.actual, id));
            assert(p3.actual[k - n2 - n3 - nc].id != id);
        }
    }
}

} // verus!
