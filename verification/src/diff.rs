//! The diff engine: given the actual record set (with provider identities)
//! and the desired record set, compute the ordered list of corrective
//! operations in four strictly ordered passes.
//!
//! 1. Exact matches are dropped (no operation).
//! 2. A remaining desired record claims the first remaining actual record
//!    with the same name and record-type tag: a patch.
//! 3. A still-remaining desired record claims the first remaining actual
//!    record with the same record-type tag alone: a patch.
//! 4. Leftover desired records become creates; leftover actual records
//!    become deletes.
//!
//! Within each pass, the first structurally matching actual record in list
//! order is claimed, and a claimed record is never reused by a later pass.

use vstd::prelude::*;

use crate::record::{
    kind_of, nodes_view, records_view, NodeView, Record, RecordNode, RecordView, ZoneValue,
    ZoneView,
};

verus! {

/// One corrective operation of a reconciliation round.
#[derive(Debug, Clone, PartialEq)]
pub enum Command {
    /// Replace the zone-level configuration.
    Zone(ZoneValue),
    /// Create a new record from the desired record.
    Create(Record),
    /// Delete the actual record with this identity.
    Delete(RecordNode),
    /// Replace the actual record's contents with the desired record.
    Patch(RecordNode, Record),
}

/// The mathematical view of a command.
pub enum CommandView {
    Zone(ZoneView),
    Create(RecordView),
    Delete(NodeView),
    Patch(NodeView, RecordView),
}

impl View for Command {
    type V = CommandView;

    open spec fn view(&self) -> CommandView {
        match self {
            Command::Zone(z) => CommandView::Zone(z@),
            Command::Create(r) => CommandView::Create(r@),
            Command::Delete(n) => CommandView::Delete(n@),
            Command::Patch(n, r) => CommandView::Patch(n@, r@),
        }
    }
}

/// The view of a sequence of commands.
pub open spec fn commands_view(s: Seq<Command>) -> Seq<CommandView> {
    s.map_values(|c: Command| c@)
}

/// The three match tiers, in strict priority order.
#[derive(Debug, Clone, Copy, PartialEq, Eq, Structural)]
pub enum MatchTier {
    /// Same name and same typed value.
    Exact,
    /// Same name and same record-type tag.
    NameKind,
    /// Same record-type tag alone.
    Kind,
}

/// Whether a desired record matches an actual record at the given tier.
pub open spec fn tier_matches(tier: MatchTier, d: RecordView, a: RecordView) -> bool {
    match tier {
        MatchTier::Exact => d == a,
        MatchTier::NameKind => d.name == a.name && kind_of(d.value) == kind_of(a.value),
        MatchTier::Kind => kind_of(d.value) == kind_of(a.value),
    }
}

/// The index of the first actual record matching `d` at `tier`, if any.
pub open spec fn find_match(actual: Seq<NodeView>, tier: MatchTier, d: RecordView) -> Option<int>
    decreases actual.len(),
{
    if actual.len() == 0 {
        None
    } else if tier_matches(tier, d, actual[0].record) {
        Some(0int)
    } else {
        match find_match(actual.drop_first(), tier, d) {
            Some(i) => Some(i + 1),
            None => None,
        }
    }
}

/// The outcome of one pass: desired records kept for the next pass, actual
/// records not yet claimed, and the patches the pass emitted.
pub struct PassView {
    pub kept: Seq<RecordView>,
    pub actual: Seq<NodeView>,
    pub patches: Seq<CommandView>,
}

/// One pass over the desired records in order: each claims the first
/// matching actual record, which is removed from the working list; at the
/// exact tier a claim emits no operation, at the two patch tiers it emits a
/// patch of the claimed identity to the desired record.
pub open spec fn run_pass(tier: MatchTier, desired: Seq<RecordView>, actual: Seq<NodeView>) -> PassView
    decreases desired.len(),
{
    if desired.len() == 0 {
        PassView { kept: Seq::empty(), actual, patches: Seq::empty() }
    } else {
        let d = desired[0];
        match find_match(actual, tier, d) {
            Some(i) => {
                let rest = run_pass(tier, desired.drop_first(), actual.remove(i));
                if tier is Exact {
                    PassView { kept: rest.kept, actual: rest.actual, patches: rest.patches }
                } else {
                    PassView {
                        kept: rest.kept,
                        actual: rest.actual,
                        patches: seq![CommandView::Patch(actual[i], d)] + rest.patches,
                    }
                }
            },
            None => {
                let rest = run_pass(tier, desired.drop_first(), actual);
                PassView {
                    kept: seq![d] + rest.kept,
                    actual: rest.actual,
                    patches: rest.patches,
                }
            },
        }
    }
}

/// The complete diff: exact matches are dropped, then name+kind patches,
/// then kind-only patches, then creates for leftover desired records and
/// deletes for leftover actual records, in that order.
pub open spec fn diff_spec(actual: Seq<NodeView>, desired: Seq<RecordView>) -> Seq<CommandView> {
    let p1 = run_pass(MatchTier::Exact, desired, actual);
    let p2 = run_pass(MatchTier::NameKind, p1.kept, p1.actual);
    let p3 = run_pass(MatchTier::Kind, p2.kept, p2.actual);
    p2.patches + p3.patches + p3.kept.map_values(|r: RecordView| CommandView::Create(r))
        + p3.actual.map_values(|n: NodeView| CommandView::Delete(n))
}

/// The exact pass emits no patches.
pub proof fn lemma_exact_no_patches(desired: Seq<RecordView>, actual: Seq<NodeView>)
    ensures
        run_pass(MatchTier::Exact, desired, actual).patches =~= Seq::<CommandView>::empty(),
    decreases desired.len(),
{
    if desired.len() > 0 {
        match find_match(actual, MatchTier::Exact, desired[0]) {
            Some(i) => {
                lemma_exact_no_patches(desired.drop_first(), actual.remove(i));
            },
            None => {
                lemma_exact_no_patches(desired.drop_first(), actual);
            },
        }
    }
}

/// If `i` is a matching index and nothing before it matches, the first
/// match is `i`.
pub proof fn lemma_find_match_first(actual: Seq<NodeView>, tier: MatchTier, d: RecordView, i: int)
    requires
        0 <= i < actual.len(),
        tier_matches(tier, d, actual[i].record),
        forall|j: int| 0 <= j < i ==> !tier_matches(tier, d, #[trigger] actual[j].record),
    ensures
        find_match(actual, tier, d) == Some(i),
    decreases i,
{
    if i > 0 {
        assert(!tier_matches(tier, d, actual[0].record));
        assert(actual.drop_first()[i - 1] == actual[i]);
        assert(forall|j: int|
            0 <= j < i - 1 ==> #[trigger] actual.drop_first()[j] == actual[j + 1]);
        lemma_find_match_first(actual.drop_first(), tier, d, i - 1);
    }
}

/// If nothing matches, there is no first match.
pub proof fn lemma_find_match_none(actual: Seq<NodeView>, tier: MatchTier, d: RecordView)
    requires
        forall|j: int| 0 <= j < actual.len() ==> !tier_matches(tier, d, #[trigger] actual[j].record),
    ensures
        find_match(actual, tier, d) == None::<int>,
    decreases actual.len(),
{
    if actual.len() > 0 {
        assert(forall|j: int|
            0 <= j < actual.len() - 1 ==> #[trigger] actual.drop_first()[j] == actual[j + 1]);
        lemma_find_match_none(actual.drop_first(), tier, d);
    }
}

/// Whether two records match at the given tier, executably.
fn tier_matches_exec(tier: MatchTier, d: &Record, a: &Record) -> (r: bool)
    ensures
        r == tier_matches(tier, d@, a@),
{
    match tier {
        MatchTier::Exact => d.record_eq(a),
        MatchTier::NameKind => {
            let neq: bool = d.name == a.name;
            neq && d.value.kind() == a.value.kind()
        },
        MatchTier::Kind => d.value.kind() == a.value.kind(),
    }
}

/// The index of the first actual record matching `d` at `tier`, if any.
fn find_match_idx(actual: &Vec<RecordNode>, tier: MatchTier, d: &Record) -> (r: Option<usize>)
    ensures
        match r {
            Some(i) => i < actual.len() && find_match(nodes_view(actual@), tier, d@) == Some(
                i as int,
            ),
            None => find_match(nodes_view(actual@), tier, d@) is None,
        },
{
    let ghost av = nodes_view(actual@);
    let mut i: usize = 0;
    while i < actual.len()
        invariant
            i <= actual.len(),
            av == nodes_view(actual@),
            av.len() == actual.len(),
            forall|j: int| 0 <= j < i ==> !tier_matches(tier, d@, #[trigger] av[j].record),
        decreases actual.len() - i,
    {
        assert(av[i as int] == actual@[i as int]@);
        if tier_matches_exec(tier, d, &actual[i].record) {
            proof {
                lemma_find_match_first(av, tier, d@, i as int);
            }
            return Some(i);
        }
        i += 1;
    }
    proof {
        lemma_find_match_none(av, tier, d@);
    }
    None
}

/// One executable pass: `desired` is consumed in order, each record either
/// claims (and removes) the first matching actual record or is kept; at the
/// patch tiers a claim appends a patch command.
fn apply_pass(
    tier: MatchTier,
    desired: Vec<Record>,
    actual: &mut Vec<RecordNode>,
    coms: &mut Vec<Command>,
) -> (kept: Vec<Record>)
    ensures
        ({
            let pass = run_pass(tier, records_view(desired@), nodes_view(old(actual)@));
            records_view(kept@) == pass.kept && nodes_view(final(actual)@) == pass.actual
                && commands_view(final(coms)@) == commands_view(old(coms)@) + pass.patches
        }),
{
    let ghost d0 = records_view(desired@);
    let ghost a0 = nodes_view(actual@);
    let ghost c0 = commands_view(coms@);
    let mut rem = desired;
    let mut kept: Vec<Record> = Vec::new();
    while rem.len() > 0
        invariant
            run_pass(tier, d0, a0).kept =~= records_view(kept@) + run_pass(
                tier,
                records_view(rem@),
                nodes_view(actual@),
            ).kept,
            run_pass(tier, d0, a0).actual =~= run_pass(
                tier,
                records_view(rem@),
                nodes_view(actual@),
            ).actual,
            c0 + run_pass(tier, d0, a0).patches =~= commands_view(coms@) + run_pass(
                tier,
                records_view(rem@),
                nodes_view(actual@),
            ).patches,
        decreases rem.len(),
    {
        let ghost rem_pre = records_view(rem@);
        let ghost act_pre = nodes_view(actual@);
        let ghost coms_pre = commands_view(coms@);
        let d = rem.remove(0);
        proof {
            assert(rem_pre[0] == d@);
            assert(records_view(rem@) =~= rem_pre.drop_first());
        }
        let found = find_match_idx(actual, tier, &d);
        match found {
            Some(i) => {
                let node = actual.remove(i);
                proof {
                    assert(node@ == act_pre[i as int]);
                    assert(nodes_view(actual@) =~= act_pre.remove(i as int));
                }
                match tier {
                    MatchTier::Exact => {
                        proof {
                            let rest = run_pass(tier, rem_pre.drop_first(), act_pre.remove(i as int));
                            assert(run_pass(tier, rem_pre, act_pre).kept == rest.kept);
                            assert(run_pass(tier, rem_pre, act_pre).actual == rest.actual);
                            assert(run_pass(tier, rem_pre, act_pre).patches == rest.patches);
                        }
                    },
                    _ => {
                        coms.push(Command::Patch(node, d));
                        proof {
                            assert(commands_view(coms@) =~= coms_pre + seq![
                                CommandView::Patch(act_pre[i as int], rem_pre[0]),
                            ]);
                            assert(run_pass(tier, rem_pre, act_pre).patches == seq![
                                CommandView::Patch(act_pre[i as int], rem_pre[0]),
                            ] + run_pass(
                                tier,
                                rem_pre.drop_first(),
                                act_pre.remove(i as int),
                            ).patches);
                        }
                    },
                }
            },
            None => {
                kept.push(d);
                proof {
                    assert(records_view(kept@) =~= records_view(kept@.drop_last()) + seq![
                        rem_pre[0],
                    ]);
                    assert(run_pass(tier, rem_pre, act_pre).kept == seq![rem_pre[0]] + run_pass(
                        tier,
                        rem_pre.drop_first(),
                        act_pre,
                    ).kept);
                }
            },
        }
    }
    proof {
        assert(records_view(rem@) =~= Seq::<RecordView>::empty());
        assert(run_pass(tier, records_view(rem@), nodes_view(actual@)) == PassView {
            kept: Seq::<RecordView>::empty(),
            actual: nodes_view(actual@),
            patches: Seq::<CommandView>::empty(),
        });
        assert(records_view(kept@) =~= records_view(kept@) + Seq::<RecordView>::empty());
        assert(commands_view(coms@) =~= commands_view(coms@) + Seq::<CommandView>::empty());
        assert(commands_view(coms@) =~= c0 + run_pass(tier, d0, a0).patches);
    }
    kept
}

/// The diff engine: compute the ordered operation list that brings the
/// actual record set to the desired record set, per `diff_spec`.
pub fn make_diff_commands(l_real: Vec<RecordNode>, l_ideal: Vec<Record>) -> (coms: Vec<Command>)
    ensures
        commands_view(coms@) == diff_spec(nodes_view(l_real@), records_view(l_ideal@)),
{
    let ghost a0 = nodes_view(l_real@);
    let ghost d0 = records_view(l_ideal@);
    let mut coms: Vec<Command> = Vec::new();
    let mut actual = l_real;
    proof {
        lemma_exact_no_patches(d0, a0);
        assert(commands_view(coms@) =~= Seq::<CommandView>::empty());
    }
    let kept1 = apply_pass(MatchTier::Exact, l_ideal, &mut actual, &mut coms);
    let kept2 = apply_pass(MatchTier::NameKind, kept1, &mut actual, &mut coms);
    let mut kept3 = apply_pass(MatchTier::Kind, kept2, &mut actual, &mut coms);
    let ghost p1 = run_pass(MatchTier::Exact, d0, a0);
    let ghost p2 = run_pass(MatchTier::NameKind, p1.kept, p1.actual);
    let ghost p3 = run_pass(MatchTier::Kind, p2.kept, p2.actual);
    proof {
        assert(commands_view(coms@) =~= p2.patches + p3.patches);
    }
    let ghost c_before_creates = commands_view(coms@);
    while kept3.len() > 0
        invariant
            c_before_creates + p3.kept.map_values(|r: RecordView| CommandView::Create(r))
                =~= commands_view(coms@) + records_view(kept3@).map_values(
                |r: RecordView| CommandView::Create(r),
            ),
        decreases kept3.len(),
    {
        let ghost kpre = records_view(kept3@);
        let r = kept3.remove(0);
        coms.push(Command::Create(r));
        proof {
            assert(records_view(kept3@) =~= kpre.drop_first());
            assert(kpre.map_values(|r: RecordView| CommandView::Create(r)) =~= seq![
                CommandView::Create(kpre[0]),
            ] + kpre.drop_first().map_values(|r: RecordView| CommandView::Create(r)));
        }
    }
    let ghost c_before_deletes = commands_view(coms@);
    proof {
        assert(records_view(kept3@) =~= Seq::<RecordView>::empty());
        assert(records_view(kept3@).map_values(|r: RecordView| CommandView::Create(r)) =~= Seq::<
            CommandView,
        >::empty());
        assert(c_before_deletes =~= c_before_creates + p3.kept.map_values(
            |r: RecordView| CommandView::Create(r),
        ));
    }
    while actual.len() > 0
        invariant
            c_before_deletes + p3.actual.map_values(|n: NodeView| CommandView::Delete(n))
                =~= commands_view(coms@) + nodes_view(actual@).map_values(
                |n: NodeView| CommandView::Delete(n),
            ),
        decreases actual.len(),
    {
        let ghost apre = nodes_view(actual@);
        let n = actual.remove(0);
        coms.push(Command::Delete(n));
        proof {
            assert(nodes_view(actual@) =~= apre.drop_first());
            assert(apre.map_values(|n: NodeView| CommandView::Delete(n)) =~= seq![
                CommandView::Delete(apre[0]),
            ] + apre.drop_first().map_values(|n: NodeView| CommandView::Delete(n)));
        }
    }
    proof {
        assert(nodes_view(actual@) =~= Seq::<NodeView>::empty());
        assert(nodes_view(actual@).map_values(|n: NodeView| CommandView::Delete(n)) =~= Seq::<
            CommandView,
        >::empty());
        assert(commands_view(coms@) =~= c_before_deletes + p3.actual.map_values(
            |n: NodeView| CommandView::Delete(n),
        ));
        assert(commands_view(coms@) =~= p2.patches + p3.patches + p3.kept.map_values(
            |r: RecordView| CommandView::Create(r),
        ) + p3.actual.map_values(|n: NodeView| CommandView::Delete(n)));
    }
    coms
}

} // verus!
