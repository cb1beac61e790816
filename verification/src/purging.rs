//! What a new snapshot does: how far the log is to be purged, when it is, and what is spared.

use crate::command::CommandView;
use crate::log_id::{
    fit, id_at, lemma_leader_order_is_total, lemma_log_ids_fit, lemma_opt_order, next_index,
    opt_precedes, LogId,
};
use crate::meaning::law_positions_in_log;
use crate::node::NodeId;
use crate::progress::{Inflight, ProgressEntry};
use crate::raft_state::{positions_agree, RaftStateView, SnapshotView};
use crate::tracking::all_within;
use crate::validity::{lemma_id_at_held, lemma_member_held, lemma_purged_log, on_log};
use crate::view::EngineView;
use vstd::prelude::*;

verus! {

/// Entries that are sent to the node start behind the index `at`, if any are sent.
pub open spec fn starts_behind<NID>(e: ProgressEntry<NID>, at: int) -> bool {
    e.inflight matches Inflight::Logs { prev_log_id, .. } ==> at < next_index(prev_log_id)
}

/// The same of all nodes.
pub open spec fn all_start_behind<NID>(
    entries: Seq<(NID, ProgressEntry<NID>)>,
    at: int,
) -> bool {
    forall|k: int| 0 <= k < entries.len() ==> starts_behind((#[trigger] entries[k]).1, at)
}

/// On a log, what is not before an entry has no smaller index, and the other way round.
proof fn lemma_behind<NID: NodeId>(log: Seq<LogId<NID>>, p: LogId<NID>, x: LogId<NID>)
    requires
        log.contains(p),
        on_log(log, x),
    ensures
        opt_precedes(Some(x), Some(p)) <==> x.index < p.index,
{
    let k = choose|k: int| 0 <= k < log.len() && log[k] == p;
    assert(fit(log[k], x));
    lemma_leader_order_is_total(p.leader_id, x.leader_id);
}

impl<NID: NodeId, M> EngineView<NID, M> {
    /// A snapshot that covers more than the last one takes its place. It is planned to purge
    /// the log up to where the snapshot still leaves as many entries in the log as the
    /// configuration asks for, just if that is a whole batch; otherwise the plan stays. Nothing
    /// else that is stored changes but what is purged.
    pub proof fn law_purge_is_planned(self, meta: SnapshotView<NID, M>)
        requires
            self.valid(),
            self.trusts_snapshot(meta),
            opt_precedes(self.local.state.snapshot.last_log_id, meta.last_log_id),
        ensures
            ({
                let (s, after) = (self.local.state, self.snapshot_finished(meta));
                let t = after.local.state;
                let end = next_index(meta.last_log_id) - self.config.max_in_snapshot_log_to_keep;
                let enough = end > 0 && s.purged_next + self.config.purge_batch_size <= end;
                &&& t.snapshot == meta
                &&& enough ==> (t.purge_upto matches Some(p) && p.index == end - 1
                    && s.log.contains(p))
                &&& !enough ==> t.purge_upto == s.purge_upto
                &&& t == (RaftStateView {
                    log: t.log,
                    purged_next: t.purged_next,
                    purge_upto: t.purge_upto,
                    snapshot: t.snapshot,
                    ..s
                })
                &&& after.local.output.flags.local_data
                &&& after.local.output.flags.replication == self.local.output.flags.replication
                &&& after.local.output.flags.cluster == self.local.output.flags.cluster
                &&& after.leader == self.leader
                &&& t.purged_next == s.purged_next ==> after.local.output.commands
                    == self.local.output.commands
            }),
    {
        reveal(positions_agree);
        let s = self.local.state;
        let taken = self.local.snapshot_updated(meta).state;
        let end = taken.purgeable_end(self.config);
        self.local.lemma_snapshot_planned(meta, self.config);
        let planned = taken.purge_planned(self.config);
        lemma_id_at_held(s.log, end - 1);
        if let Some(x) = id_at(s.log, end - 1) {
            assert(s.log.contains(x));
        }
        if s.log.len() > 0 {
            assert(s.log[s.log.len() - 1].index == s.log[0].index + (s.log.len() - 1));
        }
        if let (Some(p), Some(l)) = (planned.purge_upto, planned.last_purged()) {
            lemma_member_held(planned.log, 0);
            lemma_log_ids_fit(planned.log, l, p);
            lemma_opt_order(Some(l), Some(p));
        }
    }

    /// If a node that leads purges its log, no entry that is gone is on its way to another
    /// node: what is on its way starts behind the last purged entry.
    pub proof fn law_purge_spares_what_is_sent(self, meta: SnapshotView<NID, M>, k: int)
        requires
            self.valid(),
            self.trusts_snapshot(meta),
            self.snapshot_finished(meta).local.state.purged_next != self.local.state.purged_next,
        ensures
            ({
                let after = self.snapshot_finished(meta);
                let t = after.local.state;
                let gone = t.purged_next - 1;
                &&& t.log.len() > 0
                &&& t.log[0].index == gone
                &&& self.local.queues(after.local, CommandView::PurgeLog { upto: t.log[0] })
                &&& self.tracks_log() ==> (self.leader matches Some(l) ==> {
                    let p = l.progress;
                    &&& 0 <= k < p.voters.len() ==> starts_behind(p.voters[k].1, gone)
                    &&& 0 <= k < p.learners.len() ==> starts_behind(p.learners[k].1, gone)
                })
                &&& self.leader matches Some(l) ==> {
                    let p = l.progress;
                    &&& 0 <= k < p.voters.len() ==> (
                    p.voters[k].1.inflight matches Inflight::Logs { prev_log_id, .. }
                        ==> !opt_precedes(prev_log_id, Some(t.log[0])))
                    &&& 0 <= k < p.learners.len() ==> (
                    p.learners[k].1.inflight matches Inflight::Logs { prev_log_id, .. }
                        ==> !opt_precedes(prev_log_id, Some(t.log[0])))
                }
            }),
    {
        reveal(positions_agree);
        let after = self.snapshot_finished(meta);
        self.local.lemma_snapshot_planned(meta, self.config);
        let planned = self.local.snapshot_updated(meta).state.purge_planned(self.config);
        let p = planned.purge_upto->0;
        assert(planned.purge_upto is Some);
        lemma_purged_log(planned.log, p);
        assert(after.local.state.log[0] == p);
        let n = self.local.output.commands.len() as int;
        assert(after.local.output.commands[n] == CommandView::<NID, M>::PurgeLog { upto: p });
        assert(planned.log.contains(p)) by {
            law_positions_in_log(planned.log, 0, p);
        }
        if let Some(l) = self.leader {
            let q = l.progress;
            assert(!q.uses_log(p));
            if 0 <= k < q.voters.len() {
                assert(!q.voters[k].1.uses_log(p));
                if self.tracks_log() {
                    reveal(all_within);
                    assert(q.voters[k].1.is_within(planned.log));
                    if let Inflight::Logs { prev_log_id, .. } = q.voters[k].1.inflight {
                        if let Some(x) = prev_log_id {
                            lemma_behind(planned.log, p, x);
                        }
                    }
                }
            }
            if 0 <= k < q.learners.len() {
                assert(!q.learners[k].1.uses_log(p));
                if self.tracks_log() {
                    reveal(all_within);
                    assert(q.learners[k].1.is_within(planned.log));
                    if let Inflight::Logs { prev_log_id, .. } = q.learners[k].1.inflight {
                        if let Some(x) = prev_log_id {
                            lemma_behind(planned.log, p, x);
                        }
                    }
                }
            }
        }
    }

    /// A node purges its log as far as planned, and tells the runtime, if it follows, or if
    /// what is on its way to other nodes starts behind what is to go.
    pub proof fn law_unused_entries_are_purged(self, meta: SnapshotView<NID, M>)
        requires
            self.valid(),
            self.trusts_snapshot(meta),
            self.tracks_log(),
            opt_precedes(self.local.state.snapshot.last_log_id, meta.last_log_id),
            ({
                let planned = self.snapshot_finished(meta).local.state.purge_upto;
                &&& planned is Some
                &&& self.leader matches Some(l) ==> {
                    &&& all_start_behind(l.progress.voters, planned->0.index as int)
                    &&& all_start_behind(l.progress.learners, planned->0.index as int)
                }
            }),
        ensures
            ({
                let (s, after) = (self.local.state, self.snapshot_finished(meta));
                let t = after.local.state;
                let p = t.purge_upto->0;
                &&& t.purged_next == p.index + 1
                &&& t.log.len() > 0
                &&& t.log[0] == p
                &&& s.purged_next <= p.index ==> self.local.queues(
                    after.local,
                    CommandView::PurgeLog { upto: p },
                )
            }),
    {
        reveal(positions_agree);
        let after = self.snapshot_finished(meta);
        self.local.lemma_snapshot_planned(meta, self.config);
        let planned = self.local.snapshot_updated(meta).state.purge_planned(self.config);
        let p = planned.purge_upto->0;
        assert(after.local.state.purge_upto == planned.purge_upto);
        lemma_purged_log(planned.log, p);
        law_positions_in_log(planned.log, 0, p);
        if let Some(l) = self.leader {
            let q = l.progress;
            reveal(all_within);
            assert forall|k: int| 0 <= k < q.voters.len() implies !(
            #[trigger] q.voters[k]).1.uses_log(p) by {
                assert(starts_behind(q.voters[k].1, p.index as int));
                assert(q.voters[k].1.is_within(planned.log));
                if let Inflight::Logs { prev_log_id, .. } = q.voters[k].1.inflight {
                    if let Some(x) = prev_log_id {
                        lemma_behind(planned.log, p, x);
                    }
                }
            }
            assert forall|k: int| 0 <= k < q.learners.len() implies !(
            #[trigger] q.learners[k]).1.uses_log(p) by {
                assert(starts_behind(q.learners[k].1, p.index as int));
                assert(q.learners[k].1.is_within(planned.log));
                if let Inflight::Logs { prev_log_id, .. } = q.learners[k].1.inflight {
                    if let Some(x) = prev_log_id {
                        lemma_behind(planned.log, p, x);
                    }
                }
            }
            assert(!q.uses_log(p));
        }
        let n = self.local.output.commands.len() as int;
        match planned.last_purged() {
            Some(l) => {
                lemma_member_held(planned.log, 0);
                lemma_log_ids_fit(planned.log, l, p);
                lemma_opt_order(Some(l), Some(p));
            },
            None => {},
        }
        if opt_precedes(planned.last_purged(), Some(p)) {
            assert(after.local.output.commands[n] == CommandView::<NID, M>::PurgeLog { upto: p });
        }
    }
}

} // verus!
