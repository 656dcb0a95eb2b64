//! The reconciliation loop's decisions, as a state machine over rounds.
//!
//! The caller fetches the actual zone configuration and record list, hands
//! them to `plan_round`, and acts on the outcome: execute the returned
//! operations (concurrently, waiting for all of them, not aborting the
//! round on a single failure) and come back for the next round, or stop.
//! The round counter advances whether or not operations failed: a failed
//! operation is corrected by the next round's diff against whatever state
//! actually resulted.

use vstd::prelude::*;

use crate::diff::{commands_view, diff_spec, make_diff_commands, Command, CommandView};
use crate::record::{nodes_view, records_view, NodeView, Record, RecordNode, RecordView, ZoneValue, ZoneView};

verus! {

/// The view of an optional zone configuration.
pub open spec fn zone_opt_view(z: Option<ZoneValue>) -> Option<ZoneView> {
    match z {
        Some(zv) => Some(zv@),
        None => None,
    }
}

/// The full operation list of one round: the record diff, then a zone
/// update if and only if a desired zone configuration exists and differs
/// from the actual one.
pub open spec fn round_plan_spec(
    actual: Seq<NodeView>,
    zone_actual: ZoneView,
    desired: Seq<RecordView>,
    zone_desired: Option<ZoneView>,
) -> Seq<CommandView> {
    diff_spec(actual, desired) + (match zone_desired {
        Some(z) => if z != zone_actual {
            seq![CommandView::Zone(z)]
        } else {
            Seq::empty()
        },
        None => Seq::empty(),
    })
}

/// What one round decides.
pub enum RoundPlan {
    /// The operation list is empty: the states agree, stop successfully.
    Converged,
    /// Operations remain but the retry budget is spent: stop with failure.
    Exhausted,
    /// Execute these operations, then fetch and plan again.
    Execute(Vec<Command>),
}

/// The reconciliation state: the desired state computed once per run, the
/// retry budget, and the rounds already spent.
pub struct Reconciler {
    desired_records: Vec<Record>,
    desired_zone: Option<ZoneValue>,
    retry: usize,
    t: usize,
}

impl Reconciler {
    /// The desired record views.
    pub closed spec fn desired(&self) -> Seq<RecordView> {
        records_view(self.desired_records@)
    }

    /// The desired zone view.
    pub closed spec fn desired_zone_view(&self) -> Option<ZoneView> {
        zone_opt_view(self.desired_zone)
    }

    /// The retry budget.
    pub closed spec fn retry_limit(&self) -> usize {
        self.retry
    }

    /// The rounds already spent.
    pub closed spec fn round(&self) -> usize {
        self.t
    }

    /// A reconciler before its first round.
    pub fn new(desired_records: Vec<Record>, desired_zone: Option<ZoneValue>, retry: usize) -> (s:
        Reconciler)
        ensures
            s.desired() == records_view(desired_records@),
            s.desired_zone_view() == zone_opt_view(desired_zone),
            s.retry_limit() == retry,
            s.round() == 0,
    {
        Reconciler { desired_records, desired_zone, retry, t: 0 }
    }

    /// Decide one round from the fetched actual state: converged when no
    /// operation is needed; exhausted when operations remain but the spent
    /// rounds reach the budget; otherwise the operations to execute, with
    /// the round counter advanced. The decision never depends on how the
    /// previous round's operations fared — only on the state fetched now.
    pub fn plan_round(&mut self, zone_real: &ZoneValue, records_real: Vec<RecordNode>) -> (r:
        RoundPlan)
        ensures
            final(self).desired() == old(self).desired(),
            final(self).desired_zone_view() == old(self).desired_zone_view(),
            final(self).retry_limit() == old(self).retry_limit(),
            ({
                let coms = round_plan_spec(
                    nodes_view(records_real@),
                    zone_real@,
                    old(self).desired(),
                    old(self).desired_zone_view(),
                );
                match r {
                    RoundPlan::Converged => coms.len() == 0 && final(self).round() == old(
                        self,
                    ).round(),
                    RoundPlan::Exhausted => coms.len() > 0 && old(self).round() >= old(
                        self,
                    ).retry_limit() && final(self).round() == old(self).round(),
                    RoundPlan::Execute(cs) => coms.len() > 0 && old(self).round() < old(
                        self,
                    ).retry_limit() && commands_view(cs@) == coms && final(self).round() == old(
                        self,
                    ).round() + 1,
                }
            }),
    {
        let desired = duplicate_records(&self.desired_records);
        let mut coms = make_diff_commands(records_real, desired);
        let ghost base = commands_view(coms@);
        match &self.desired_zone {
            Some(z) => {
                if !z.zone_eq(zone_real) {
                    let zc = z.duplicate();
                    coms.push(Command::Zone(zc));
                    proof {
                        assert(commands_view(coms@) =~= base + seq![
                            CommandView::Zone(zone_opt_view(self.desired_zone)->Some_0),
                        ]);
                    }
                } else {
                    proof {
                        assert(commands_view(coms@) =~= base + Seq::<CommandView>::empty());
                    }
                }
            },
            None => {
                proof {
                    assert(commands_view(coms@) =~= base + Seq::<CommandView>::empty());
                }
            },
        }
        if coms.len() == 0 {
            return RoundPlan::Converged;
        }
        if self.t >= self.retry {
            return RoundPlan::Exhausted;
        }
        self.t = self.t + 1;
        RoundPlan::Execute(coms)
    }
}

/// Fresh records whose views equal the given ones.
fn duplicate_records(v: &Vec<Record>) -> (r: Vec<Record>)
    ensures
        records_view(r@) == records_view(v@),
{
    let mut r: Vec<Record> = Vec::new();
    let mut i: usize = 0;
    while i < v.len()
        invariant
            i <= v.len(),
            records_view(r@) =~= records_view(v@).take(i as int),
        decreases v.len() - i,
    {
        let ghost rv_pre = records_view(r@);
        let dup = v[i].duplicate();
        proof {
            assert(dup@ == records_view(v@)[i as int]);
        }
        r.push(dup);
        proof {
            assert(records_view(r@) =~= rv_pre.push(dup@));
            assert(records_view(v@).take(i + 1int) =~= records_view(v@).take(i as int).push(
                records_view(v@)[i as int],
            ));
        }
        i += 1;
    }
    proof {
        assert(records_view(r@) =~= records_view(v@));
    }
    r
}

} // verus!
