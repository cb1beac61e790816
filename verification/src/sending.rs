//! What a leader sends: to whom, from where on, and how much.

use crate::command::{CommandView, OutputView};
use crate::config::EngineConfig;
use crate::entry::{ids_of, EntryView};
use crate::handler::replication_handler::{all_sent, requests};
use crate::history::{lemma_extends_on, lemma_push_extends};
use crate::leader::LeaderView;
use crate::leadership::ids_in;
use crate::log_id::{id_at, next_index, LogId};
use crate::meaning::law_known_progress;
use crate::membership::{EffectiveMembershipView, MembershipView};
use crate::node::NodeId;
use crate::node_set::{in_order, lemma_order_exists};
use crate::progress::{others, probe, Inflight, ProgressEntry, ProgressView};
use crate::raft_state::{positions_agree, RaftStateView};
use crate::tracking::all_within;
use crate::validity::{lemma_id_at_held, lemma_last_held};
use crate::view::{EngineView, LeadingView, LocalView};
use crate::vote::lemma_vote_order_is_total;
use vstd::prelude::*;

verus! {

impl<NID: NodeId> ProgressEntry<NID> {
    /// What is on its way to the node is of use to it. It is the snapshot if the log cannot
    /// match but where it is to be purged. Otherwise it is at least one entry, and at most
    /// `max` of them, or fewer only at the end of the log; they are from the log, follow an
    /// entry of it, and start neither before the last matching entry nor before what is to be
    /// purged. While the last matching entry is searched, they start about half way.
    pub open spec fn is_served<M>(self, s: RaftStateView<NID, M>, max: int) -> bool {
        let from = next_index(self.matching);
        let kept = next_index(s.purge_upto);
        match self.inflight {
            Inflight::Idle => false,
            Inflight::Snapshot { last_log_id } => self.searching_end < kept && last_log_id
                == s.snapshot.last_log_id,
            Inflight::Logs { prev_log_id, last_log_id } => {
                let start = next_index(prev_log_id);
                let stop = next_index(last_log_id);
                &&& self.searching_end >= kept
                &&& prev_log_id matches Some(p) ==> s.log.contains(p)
                &&& last_log_id matches Some(l) && s.log.contains(l)
                &&& from <= start
                &&& kept <= start
                &&& start < stop <= start + max
                &&& stop < start + max ==> last_log_id == s.last_log_id()
                &&& start > kept && from >= self.searching_end ==> start == from
                &&& start > kept && from < self.searching_end ==> {
                    &&& (start - from) % 8 == 0
                    &&& 2 * (start - from) <= self.searching_end - from
                    &&& self.searching_end - from < 2 * (start - from) + 16
                }
            },
        }
    }

    /// What is to be sent next is of use.
    proof fn lemma_request_serves<M>(self, s: RaftStateView<NID, M>, max: int)
        requires
            s.valid(),
            self.next_request(s, max) !is Idle,
        ensures
            (ProgressEntry { inflight: self.next_request(s, max), ..self }).is_served(s, max),
    {
        reveal(positions_agree);
        let from = next_index(self.matching);
        let kept = next_index(s.purge_upto);
        let end = next_index(s.last_log_id());
        let point = probe(from, self.searching_end as int);
        let start = if point < kept {
            kept
        } else {
            point
        };
        let stop = if start + max < end {
            start + max
        } else {
            end
        };
        if self.searching_end >= kept {
            assert(start < stop <= end);
            assert(s.log.len() > 0);
            assert(s.log[s.log.len() - 1].index == s.log[0].index + (s.log.len() - 1));
            assert(id_at(s.log, stop - 1) == Some(s.log[stop - 1 - s.log[0].index]));
            assert(s.log[stop - 1 - s.log[0].index].index == stop - 1);
            if start > 0 {
                assert(id_at(s.log, start - 1) == Some(s.log[start - 1 - s.log[0].index]));
                assert(s.log[start - 1 - s.log[0].index].index == start - 1);
            } else {
                assert(id_at(s.log, start - 1) is None);
            }
        }
    }

    /// A node whose log is not known to match to the end is sent something.
    proof fn lemma_request_comes<M>(self, s: RaftStateView<NID, M>, max: int)
        requires
            self.is_within(s.log),
            max > 0,
            next_index(s.purge_upto) < next_index(s.last_log_id()),
            next_index(self.matching) < next_index(s.last_log_id()),
        ensures
            self.next_request(s, max) !is Idle,
    {
    }
}

/// What is recorded of a node, among the voters or the learners.
pub open spec fn is_recorded<NID>(
    p: ProgressView<NID>,
    id: NID,
    e: ProgressEntry<NID>,
) -> bool {
    p.voters.contains((id, e)) || p.learners.contains((id, e))
}

/// Nothing is on its way to a node.
pub open spec fn is_idle<NID>(p: ProgressView<NID>, id: NID) -> bool {
    forall|e: ProgressEntry<NID>| #[trigger] is_recorded(p, id, e) ==> e.inflight is Idle
}

impl<NID: NodeId, M> LocalView<NID, M> {
    /// If something is on its way to a node, it was already before, or the runtime was told to
    /// send it on the way from `self` to `after`, and it is of use.
    pub open spec fn accounts_for(
        self,
        after: Self,
        known: ProgressView<NID>,
        config: EngineConfig<NID>,
        id: NID,
        e: ProgressEntry<NID>,
    ) -> bool {
        id != config.id && e.inflight !is Idle ==> is_recorded(known, id, e) || (self.queues(
            after,
            CommandView::Replicate { target: id, req: e.inflight },
        ) && e.is_served(after.state, config.max_payload_entries as int))
    }

    /// The same of all nodes.
    #[verifier::opaque]
    spec fn accounts_for_all(
        self,
        after: Self,
        known: ProgressView<NID>,
        config: EngineConfig<NID>,
        entries: Seq<(NID, ProgressEntry<NID>)>,
    ) -> bool {
        forall|i: int|
            0 <= i < entries.len() ==> self.accounts_for(
                after,
                known,
                config,
                (#[trigger] entries[i]).0,
                entries[i].1,
            )
    }

    /// What was accounted for still is, as long as the log stays.
    proof fn lemma_accounts_on(
        self,
        middle: Self,
        after: Self,
        known: ProgressView<NID>,
        config: EngineConfig<NID>,
        id: NID,
        e: ProgressEntry<NID>,
    )
        requires
            self.accounts_for(middle, known, config, id, e),
            after.output.extends(middle.output),
            after.state.log == middle.state.log,
            after.state.purge_upto == middle.state.purge_upto,
            after.state.snapshot == middle.state.snapshot,
        ensures
            self.accounts_for(after, known, config, id, e),
    {
        let c = CommandView::<NID, M>::Replicate { target: id, req: e.inflight };
        if self.queues(middle, c) {
            self.lemma_queued_before(middle, after, c);
        }
    }
}

proof fn lemma_push_all_commands<NID, M>(o: OutputView<NID, M>, cs: Seq<CommandView<NID, M>>)
    ensures
        o.push_all(cs).commands == o.commands + cs,
    decreases cs.len(),
{
    if cs.len() == 0 {
        assert(o.commands + cs =~= o.commands);
    } else {
        lemma_push_all_commands(o, cs.drop_last());
        assert(o.commands + cs =~= (o.commands + cs.drop_last()).push(cs.last()));
    }
}

/// A node with nothing on its way has its request among the requests.
proof fn lemma_request_found<NID: NodeId, M>(
    entries: Seq<(NID, ProgressEntry<NID>)>,
    id: NID,
    s: RaftStateView<NID, M>,
    max: int,
    k: int,
) -> (j: int)
    requires
        0 <= k < entries.len(),
        entries[k].0 != id,
        entries[k].1.inflight is Idle,
        entries[k].1.next_request(s, max) !is Idle,
    ensures
        0 <= j < requests(entries, id, s, max).len(),
        requests(entries, id, s, max)[j] == (CommandView::<NID, M>::Replicate {
            target: entries[k].0,
            req: entries[k].1.next_request(s, max),
        }),
    decreases entries.len(),
{
    if k == entries.len() - 1 {
        requests(entries, id, s, max).len() - 1
    } else {
        assert(entries.drop_last()[k] == entries[k]);
        lemma_request_found(entries.drop_last(), id, s, max, k)
    }
}

/// A request is for another node that nothing is on its way to.
proof fn lemma_request_origin<NID: NodeId, M>(
    entries: Seq<(NID, ProgressEntry<NID>)>,
    id: NID,
    s: RaftStateView<NID, M>,
    max: int,
    j: int,
) -> (k: int)
    requires
        0 <= j < requests(entries, id, s, max).len(),
    ensures
        0 <= k < entries.len(),
        entries[k].0 != id,
        entries[k].1.inflight is Idle,
        entries[k].1.next_request(s, max) !is Idle,
        requests(entries, id, s, max)[j] == (CommandView::<NID, M>::Replicate {
            target: entries[k].0,
            req: entries[k].1.next_request(s, max),
        }),
    decreases entries.len(),
{
    let before = requests(entries.drop_last(), id, s, max);
    if j < before.len() {
        let k = lemma_request_origin(entries.drop_last(), id, s, max, j);
        assert(entries.drop_last()[k] == entries[k]);
        k
    } else {
        entries.len() - 1
    }
}

/// What is among the others is about another node, and every other node is among them.
proof fn lemma_others<NID>(entries: Seq<(NID, ProgressEntry<NID>)>, id: NID, k: int)
    ensures
        0 <= k < entries.len() && entries[k].0 != id ==> others(entries, id).contains(entries[k]),
        0 <= k < others(entries, id).len() ==> others(entries, id)[k].0 != id && entries.contains(
            others(entries, id)[k],
        ),
    decreases entries.len(),
{
    if entries.len() > 0 {
        let front = entries.drop_last();
        let n = entries.len() - 1;
        let rest = others(front, id);
        let all = others(entries, id);
        lemma_others(front, id, k);
        assert(entries[n] == entries.last());
        if 0 <= k < n && entries[k].0 != id {
            assert(front[k] == entries[k]);
            let i = choose|i: int| 0 <= i < rest.len() && rest[i] == front[k];
            assert(all[i] == entries[k]);
        }
        if k == n && entries[k].0 != id {
            assert(all[all.len() - 1] == entries[k]);
        }
        if 0 <= k < all.len() {
            if k < rest.len() {
                assert(all[k] == rest[k]);
                let i = choose|i: int| 0 <= i < front.len() && front[i] == rest[k];
                assert(entries[i] == all[k]);
            } else {
                assert(all[k] == entries[n]);
            }
        }
    }
}

impl<NID: NodeId, M> LeadingView<NID, M> {
    /// Replication starts over to every other node that the progress is kept for, with nothing
    /// on its way, and to no node else. What the logs are known to match stays.
    pub proof fn law_streams_go_to_all_others(self, config: EngineConfig<NID>, k: int)
        ensures
            ({
                let after = self.streams_rebuilt(config);
                let (p, q) = (self.leader.progress, after.leader.progress);
                let c = after.local.output.commands.last();
                &&& after.local.state == self.local.state
                &&& after.local.output.commands.len() == self.local.output.commands.len() + 1
                &&& after.leader == (LeaderView { progress: q, ..self.leader })
                &&& q.configs == p.configs
                &&& q.voters.len() == p.voters.len()
                &&& q.learners.len() == p.learners.len()
                &&& c matches CommandView::RebuildReplicationStreams { targets } && {
                    &&& 0 <= k < p.voters.len() ==> {
                        let (id, e) = p.voters[k];
                        let stopped = (id, ProgressEntry { inflight: Inflight::Idle, ..e });
                        &&& id != config.id ==> q.voters[k] == stopped && targets.contains(stopped)
                        &&& id == config.id ==> q.voters[k] == p.voters[k]
                    }
                    &&& 0 <= k < p.learners.len() ==> {
                        let (id, e) = p.learners[k];
                        let stopped = (id, ProgressEntry { inflight: Inflight::Idle, ..e });
                        &&& id != config.id ==> q.learners[k] == stopped && targets.contains(
                            stopped,
                        )
                        &&& id == config.id ==> q.learners[k] == p.learners[k]
                    }
                    &&& 0 <= k < targets.len() ==> targets[k].0 != config.id && is_recorded(
                        q,
                        targets[k].0,
                        targets[k].1,
                    )
                }
            }),
    {
        reveal(LeadingView::streams_rebuilt);
        let q = self.streams_rebuilt(config).leader.progress;
        let (a, b) = (others(q.voters, config.id), others(q.learners, config.id));
        let targets = a + b;
        lemma_others(q.voters, config.id, k);
        lemma_others(q.learners, config.id, k);
        lemma_others(q.learners, config.id, k - a.len());
        if 0 <= k < q.voters.len() && q.voters[k].0 != config.id {
            let i = choose|i: int| 0 <= i < a.len() && a[i] == q.voters[k];
            assert(targets[i] == q.voters[k]);
        }
        if 0 <= k < q.learners.len() && q.learners[k].0 != config.id {
            let i = choose|i: int| 0 <= i < b.len() && b[i] == q.learners[k];
            assert(targets[a.len() + i] == q.learners[k]);
        }
    }

    /// A leader sends to other nodes only, to those that nothing was on its way to, and queues
    /// nothing else. What it tells the runtime to send is recorded as on its way. Nothing else
    /// that it knows changes.
    pub proof fn law_sends_only_to_idle_others(self, config: EngineConfig<NID>, j: int, k: int)
        ensures
            ({
                let after = self.replication_initiated(config);
                let (p, q) = (self.leader.progress, after.leader.progress);
                let cs = after.local.output.commands;
                &&& after.local.state == self.local.state
                &&& self.local.output.commands.len() <= j < cs.len() ==> (
                cs[j] matches CommandView::Replicate { target, req } && target != config.id
                    && req !is Idle && exists|x: ProgressEntry<NID>| #[trigger]
                    is_recorded(p, target, x) && x.inflight is Idle && is_recorded(
                        q,
                        target,
                        ProgressEntry { inflight: req, ..x },
                    ))
                &&& q.configs == p.configs
                &&& q.voters.len() == p.voters.len()
                &&& q.learners.len() == p.learners.len()
                &&& 0 <= k < p.voters.len() ==> {
                    let (e, x) = (p.voters[k], q.voters[k]);
                    &&& x == (e.0, ProgressEntry { inflight: x.1.inflight, ..e.1 })
                    &&& e.0 == config.id || e.1.inflight !is Idle ==> x == e
                }
                &&& 0 <= k < p.learners.len() ==> {
                    let (e, x) = (p.learners[k], q.learners[k]);
                    &&& x == (e.0, ProgressEntry { inflight: x.1.inflight, ..e.1 })
                    &&& e.0 == config.id || e.1.inflight !is Idle ==> x == e
                }
            }),
    {
        reveal(LeadingView::replication_initiated);
        let after = self.replication_initiated(config);
        let (p, q) = (self.leader.progress, after.leader.progress);
        let (s, max) = (self.local.state, config.max_payload_entries as int);
        let a = requests(p.voters, config.id, s, max);
        let b = requests(p.learners, config.id, s, max);
        lemma_push_all_commands(self.local.output, a + b);
        let n = self.local.output.commands.len() as int;
        if n <= j < after.local.output.commands.len() {
            let i = j - n;
            assert(after.local.output.commands[j] == (a + b)[i]);
            if i < a.len() {
                let h = lemma_request_origin(p.voters, config.id, s, max, i);
                let x = p.voters[h].1;
                assert(p.voters[h] == (p.voters[h].0, x));
                assert(is_recorded(p, p.voters[h].0, x));
                assert(q.voters[h] == (
                    p.voters[h].0,
                    ProgressEntry { inflight: x.next_request(s, max), ..x },
                ));
            } else {
                let h = lemma_request_origin(p.learners, config.id, s, max, i - a.len());
                let x = p.learners[h].1;
                assert(p.learners[h] == (p.learners[h].0, x));
                assert(is_recorded(p, p.learners[h].0, x));
                assert(q.learners[h] == (
                    p.learners[h].0,
                    ProgressEntry { inflight: x.next_request(s, max), ..x },
                ));
            }
        }
    }

    /// Sending accounts for all that is on its way.
    proof fn lemma_initiated_accounts(
        self,
        before: LocalView<NID, M>,
        known: ProgressView<NID>,
        config: EngineConfig<NID>,
    )
        requires
            self.local.state.valid(),
            self.local.output.extends(before.output),
            before.accounts_for_all(self.local, known, config, self.leader.progress.voters),
            before.accounts_for_all(self.local, known, config, self.leader.progress.learners),
        ensures
            ({
                let after = self.replication_initiated(config);
                &&& before.accounts_for_all(
                    after.local,
                    known,
                    config,
                    after.leader.progress.voters,
                )
                &&& before.accounts_for_all(
                    after.local,
                    known,
                    config,
                    after.leader.progress.learners,
                )
            }),
    {
        let after = self.replication_initiated(config).local;
        let p = self.leader.progress;
        let (s, max) = (self.local.state, config.max_payload_entries as int);
        let a = requests(p.voters, config.id, s, max);
        let b = requests(p.learners, config.id, s, max);
        self.lemma_replication_initiated_leads(config);
        assert(after.output.extends(self.local.output)) by {
            reveal(LocalView::leads_to);
        }
        reveal(LeadingView::replication_initiated);
        lemma_push_all_commands(self.local.output, a + b);
        assert forall|i: int| 0 <= i < a.len() + b.len() implies before.queues(
            after,
            #[trigger] (a + b)[i],
        ) by {
            assert(after.output.commands[self.local.output.commands.len() + i] == (a + b)[i]);
        }
        lemma_sent_accounts(before, self.local, after, known, config, p.voters, a + b, 0);
        lemma_sent_accounts(
            before,
            self.local,
            after,
            known,
            config,
            p.learners,
            a + b,
            a.len() as int,
        );
    }

    /// After sending, something is on its way to every other node whose log is not known to
    /// match to the end.
    proof fn lemma_initiated_reaches(
        self,
        config: EngineConfig<NID>,
        id: NID,
        e: ProgressEntry<NID>,
    )
        requires
            self.tracks_log(),
            config.max_payload_entries > 0,
            next_index(self.local.state.purge_upto) < next_index(self.local.state.last_log_id()),
            is_recorded(self.replication_initiated(config).leader.progress, id, e),
            id != config.id,
            next_index(e.matching) < next_index(self.local.state.last_log_id()),
        ensures
            e.inflight !is Idle,
    {
        reveal(LeadingView::replication_initiated);
        reveal(all_within);
        let (p, q) = (
            self.leader.progress,
            self.replication_initiated(config).leader.progress,
        );
        let (s, max) = (self.local.state, config.max_payload_entries as int);
        if q.voters.contains((id, e)) {
            let k = choose|k: int| 0 <= k < q.voters.len() && q.voters[k] == (id, e);
            assert(p.voters[k].1.is_within(s.log));
            p.voters[k].1.lemma_request_comes(s, max);
        } else {
            let k = choose|k: int| 0 <= k < q.learners.len() && q.learners[k] == (id, e);
            assert(p.learners[k].1.is_within(s.log));
            p.learners[k].1.lemma_request_comes(s, max);
        }
    }

    /// Progress of this node leaves the others.
    proof fn lemma_progressed_accounts(
        self,
        before: LocalView<NID, M>,
        known: ProgressView<NID>,
        config: EngineConfig<NID>,
        upto: Option<LogId<NID>>,
    )
        requires
            before.accounts_for_all(self.local, known, config, self.leader.progress.voters),
            before.accounts_for_all(self.local, known, config, self.leader.progress.learners),
        ensures
            ({
                let after = self.local_progressed(config, upto);
                &&& before.accounts_for_all(
                    after.local,
                    known,
                    config,
                    after.leader.progress.voters,
                )
                &&& before.accounts_for_all(
                    after.local,
                    known,
                    config,
                    after.leader.progress.learners,
                )
                &&& after.local.output.extends(self.local.output)
                &&& after.local.state.purge_upto == self.local.state.purge_upto
                &&& after.local.state.snapshot == self.local.state.snapshot
            }),
    {
        let after = self.local_progressed(config, upto);
        self.lemma_progressed_adds(config, upto);
        reveal(LeadingView::local_progressed);
        reveal(LeadingView::accepted_committed);
        reveal(LocalView::accounts_for_all);
        let n = self.local.output.commands.len() as int;
        assert(after.local.output.commands.subrange(0, n) =~= self.local.output.commands);
        let (p, q) = (self.leader.progress, after.leader.progress);
        assert forall|i: int| 0 <= i < q.voters.len() implies before.accounts_for(
            after.local,
            known,
            config,
            (#[trigger] q.voters[i]).0,
            q.voters[i].1,
        ) by {
            assert(q.voters[i].0 != config.id ==> q.voters[i] == p.voters[i]);
            before.lemma_accounts_on(
                self.local,
                after.local,
                known,
                config,
                p.voters[i].0,
                p.voters[i].1,
            );
        }
        assert forall|i: int| 0 <= i < q.learners.len() implies before.accounts_for(
            after.local,
            known,
            config,
            (#[trigger] q.learners[i]).0,
            q.learners[i].1,
        ) by {
            assert(q.learners[i].0 != config.id ==> q.learners[i] == p.learners[i]);
            before.lemma_accounts_on(
                self.local,
                after.local,
                known,
                config,
                p.learners[i].0,
                p.learners[i].1,
            );
        }
    }

    /// When the streams are rebuilt, nothing is on its way to another node.
    proof fn lemma_rebuilt_accounts(
        self,
        before: LocalView<NID, M>,
        known: ProgressView<NID>,
        config: EngineConfig<NID>,
    )
        ensures
            ({
                let after = self.streams_rebuilt(config);
                &&& before.accounts_for_all(
                    after.local,
                    known,
                    config,
                    after.leader.progress.voters,
                )
                &&& before.accounts_for_all(
                    after.local,
                    known,
                    config,
                    after.leader.progress.learners,
                )
            }),
    {
        reveal(LocalView::accounts_for_all);
        reveal(LeadingView::streams_rebuilt);
    }

    /// The effects of entries that a leader has appended account for all that is on its way.
    proof fn lemma_absorbed_accounts(
        self,
        config: EngineConfig<NID>,
        entries: Seq<EntryView<NID, M>>,
        n: int,
    )
        requires
            self.valid(),
        ensures
            ({
                let after = self.absorbed(config, entries, n);
                let known = self.leader.progress;
                &&& self.local.accounts_for_all(
                    after.local,
                    known,
                    config,
                    after.leader.progress.voters,
                )
                &&& self.local.accounts_for_all(
                    after.local,
                    known,
                    config,
                    after.leader.progress.learners,
                )
                &&& after.local.state.purge_upto == self.local.state.purge_upto
                &&& after.local.state.snapshot == self.local.state.snapshot
            }),
        decreases n,
    {
        let known = self.leader.progress;
        if n <= 0 {
            reveal(LocalView::accounts_for_all);
            assert forall|i: int| 0 <= i < known.voters.len() implies is_recorded(
                known,
                (#[trigger] known.voters[i]).0,
                known.voters[i].1,
            ) by {
                assert(known.voters[i] == (known.voters[i].0, known.voters[i].1));
            }
            assert forall|i: int| 0 <= i < known.learners.len() implies is_recorded(
                known,
                (#[trigger] known.learners[i]).0,
                known.learners[i].1,
            ) by {
                assert(known.learners[i] == (known.learners[i].0, known.learners[i].1));
            }
        } else {
            self.lemma_absorbed_accounts(config, entries, n - 1);
            self.lemma_absorbed_leads(config, entries, n - 1);
            let l = self.absorbed(config, entries, n - 1);
            let log_id = entries[n - 1].log_id;
            if let Some(m) = entries[n - 1].membership {
                let upto = id_at(l.local.state.log, log_id.index - 1);
                l.local.state.lemma_positions();
                lemma_id_at_held(l.local.state.log, log_id.index - 1);
                l.lemma_local_progressed(config, upto);
                l.lemma_progressed_accounts(self.local, known, config, upto);
                let p = if log_id.index > 0 {
                    l.local_progressed(config, upto)
                } else {
                    l
                };
                assert(p.local.output.extends(self.local.output)) by {
                    reveal(LocalView::leads_to);
                    if log_id.index > 0 {
                        lemma_extends_on(
                            self.local.output,
                            l.local.output,
                            p.local.output,
                        );
                    }
                }
                p.lemma_membership_accounts(self.local, known, config, log_id, m);
            }
        }
    }

    /// Putting a membership into force accounts for all that is on its way.
    proof fn lemma_membership_accounts(
        self,
        before: LocalView<NID, M>,
        known: ProgressView<NID>,
        config: EngineConfig<NID>,
        log_id: LogId<NID>,
        m: MembershipView<NID, M>,
    )
        requires
            self.local.state.valid(),
            self.local.output.extends(before.output),
        ensures
            ({
                let after = self.membership_appended(config, log_id, m);
                &&& before.accounts_for_all(
                    after.local,
                    known,
                    config,
                    after.leader.progress.voters,
                )
                &&& before.accounts_for_all(
                    after.local,
                    known,
                    config,
                    after.leader.progress.learners,
                )
                &&& after.local.state.purge_upto == self.local.state.purge_upto
                &&& after.local.state.snapshot == self.local.state.snapshot
            }),
    {
        reveal(LeadingView::membership_appended);
        let default = ProgressEntry::<NID>::unknown(next_index(self.local.state.last_log_id()));
        let em = EffectiveMembershipView { log_id: Some(log_id), membership: m };
        let c = CommandView::UpdateMembership { membership: em };
        let l = LeadingView {
            leader: LeaderView {
                progress: self.leader.progress.for_membership(m, default),
                ..self.leader
            },
            local: LocalView {
                state: RaftStateView {
                    membership: self.local.state.membership.appended(em),
                    ..self.local.state
                },
                output: self.local.output.push(c),
            },
        };
        let r = l.streams_rebuilt(config);
        l.law_streams_go_to_all_others(config, 0);
        l.lemma_rebuilt_accounts(before, known, config);
        r.lemma_initiated_adds(config);
        assert(r.local.output.extends(before.output)) by {
            lemma_push_extends(self.local.output, c);
            l.lemma_streams_rebuilt_leads(config);
            reveal(LocalView::leads_to);
            lemma_extends_on(before.output, self.local.output, l.local.output);
            lemma_extends_on(before.output, l.local.output, r.local.output);
        }
        r.lemma_initiated_accounts(before, known, config);
    }
}

proof fn lemma_sent_accounts<NID: NodeId, M>(
    before: LocalView<NID, M>,
    middle: LocalView<NID, M>,
    after: LocalView<NID, M>,
    known: ProgressView<NID>,
    config: EngineConfig<NID>,
    entries: Seq<(NID, ProgressEntry<NID>)>,
    cs: Seq<CommandView<NID, M>>,
    at: int,
)
    requires
        middle.state.valid(),
        after.state == middle.state,
        after.output.extends(middle.output),
        before.accounts_for_all(middle, known, config, entries),
        forall|i: int| 0 <= i < cs.len() ==> before.queues(after, #[trigger] cs[i]),
        0 <= at,
        at + requests(entries, config.id, middle.state, config.max_payload_entries as int).len()
            <= cs.len(),
        forall|i: int|
            0 <= i < requests(
                entries,
                config.id,
                middle.state,
                config.max_payload_entries as int,
            ).len() ==> #[trigger] requests(
                entries,
                config.id,
                middle.state,
                config.max_payload_entries as int,
            )[i] == cs[at + i],
    ensures
        before.accounts_for_all(
            after,
            known,
            config,
            all_sent(entries, config.id, middle.state, config.max_payload_entries as int),
        ),
{
    reveal(LocalView::accounts_for_all);
    let (s, max) = (middle.state, config.max_payload_entries as int);
    let done = all_sent(entries, config.id, s, max);
    assert forall|i: int| 0 <= i < done.len() implies before.accounts_for(
        after,
        known,
        config,
        (#[trigger] done[i]).0,
        done[i].1,
    ) by {
        let (id, e) = entries[i];
        if id != config.id && e.inflight is Idle {
            if e.next_request(s, max) !is Idle {
                let j = lemma_request_found(entries, config.id, s, max, i);
                e.lemma_request_serves(s, max);
                assert(before.queues(after, cs[at + j]));
            }
        } else {
            before.lemma_accounts_on(middle, after, known, config, id, e);
        }
    }
}

/// A member of a membership is recorded.
proof fn lemma_member_recorded<NID: NodeId, M>(
    p: ProgressView<NID>,
    m: MembershipView<NID, M>,
    id: NID,
)
    requires
        p.is_for(m),
        m.voters().finite(),
        m.learners().finite(),
        m.voters().contains(id) || m.learners().contains(id),
    ensures
        p.entry(id) is Some,
        is_recorded(p, id, p.entry(id)->0),
{
    lemma_order_exists(m.voters());
    lemma_order_exists(m.learners());
    law_known_progress(p, id, id, ProgressEntry::unknown(0));
    if m.voters().contains(id) {
        let ids = in_order(m.voters());
        assert(ids.to_set().contains(id));
        let k = choose|k: int| 0 <= k < ids.len() && ids[k] == id;
        assert(ids_in(p.voters)[k] == id);
        assert(p.voters[k].0 == id);
    } else {
        let ids = in_order(m.learners());
        assert(ids.to_set().contains(id));
        let k = choose|k: int| 0 <= k < ids.len() && ids[k] == id;
        assert(ids_in(p.learners)[k] == id);
        assert(p.learners[k].0 == id);
    }
}

impl<NID: NodeId, M> EngineView<NID, M> {
    /// After clients have proposed entries to a leader, every other voter and learner is known,
    /// and if its log is not known to match to the end, something is on its way to it. Unless
    /// that was on its way before, the runtime is told to send it, and it is of use.
    pub proof fn law_proposals_are_sent_to_all(
        self,
        memberships: Seq<Option<MembershipView<NID, M>>>,
        id: NID,
    )
        requires
            self.valid(),
            self.in_step(),
            self.tracks_log(),
            self.can_propose(memberships.len() as int),
            memberships.len() > 0,
            self.config.max_payload_entries > 0,
            id != self.config.id,
            ({
                let m = self.entries_appended(
                    self.proposed(memberships),
                ).local.state.membership.effective.membership;
                &&& m.voters().finite()
                &&& m.learners().finite()
                &&& m.voters().contains(id) || m.learners().contains(id)
            }),
        ensures
            ({
                let after = self.entries_appended(self.proposed(memberships));
                let (s, known) = (after.local.state, (self.leader->0).progress);
                after.leader matches Some(l) && l.progress.entry(id) matches Some(e) && {
                    next_index(e.matching) < next_index(s.last_log_id()) ==> {
                        &&& e.inflight !is Idle
                        &&& is_idle(known, id) ==> {
                            &&& self.local.queues(
                                after.local,
                                CommandView::Replicate { target: id, req: e.inflight },
                            )
                            &&& e.is_served(s, self.config.max_payload_entries as int)
                        }
                        &&& is_recorded(known, id, e) || (self.local.queues(
                            after.local,
                            CommandView::Replicate { target: id, req: e.inflight },
                        ) && e.is_served(s, self.config.max_payload_entries as int))
                    }
                }
            }),
    {
        let n = memberships.len() as int;
        let config = self.config;
        let entries = self.proposed(memberships);
        let ids = self.local.state.next_ids(n);
        assert(ids_of(entries) =~= ids);
        self.local.state.lemma_positions();
        self.lemma_proposed_leads(memberships);
        self.lemma_entries_taken(n);
        let e = self.entries_taken(ids);
        let l = e.leading();
        let known = l.leader.progress;
        let a = l.absorbed(config, entries, n);
        let last = Some(entries.last().log_id);
        let b = a.local_progressed(config, last);
        let c = b.replication_initiated(config);
        let after = self.entries_appended(entries);
        l.lemma_absorbed_leads(config, entries, n);
        l.lemma_absorbed_log(config, entries, n);
        l.lemma_absorbed_accounts(config, entries, n);
        a.local.state.lemma_positions();
        assert(a.local.state.log.last() == ids.last());
        lemma_last_held(a.local.state.log);
        a.lemma_local_progressed(config, last);
        a.lemma_progressed_adds(config, last);
        a.lemma_progressed_accounts(l.local, known, config, last);
        b.lemma_initiated_adds(config);
        assert(b.local.output.extends(l.local.output)) by {
            reveal(LocalView::leads_to);
            lemma_extends_on(l.local.output, a.local.output, b.local.output);
        }
        b.lemma_initiated_accounts(l.local, known, config);
        let m = after.local.state.membership.effective.membership;
        assert(c.leader.progress.is_for(m));
        lemma_member_recorded(c.leader.progress, m, id);
        let x = c.leader.progress.entry(id)->0;
        assert(l.local.accounts_for(c.local, known, config, id, x)) by {
            reveal(LocalView::accounts_for_all);
            let p = c.leader.progress;
            if p.voters.contains((id, x)) {
                let k = choose|k: int| 0 <= k < p.voters.len() && p.voters[k] == (id, x);
                assert(p.voters[k].0 == id && p.voters[k].1 == x);
            } else {
                let k = choose|k: int| 0 <= k < p.learners.len() && p.learners[k] == (id, x);
                assert(p.learners[k].0 == id && p.learners[k].1 == x);
            }
        }
        self.lemma_taken_tracks(n);
        l.lemma_absorbed_tracks(config, entries, n);
        a.lemma_progressed_tracks(config, last);
        if next_index(x.matching) < next_index(after.local.state.last_log_id()) {
            b.lemma_initiated_reaches(config, id, x);
            let r = CommandView::<NID, M>::Replicate { target: id, req: x.inflight };
            if l.local.queues(c.local, r) {
                lemma_push_extends(
                    self.local.output,
                    CommandView::AppendInputEntries { from: 0, to: n },
                );
                lemma_push_extends(
                    c.local.output,
                    CommandView::MoveInputCursorBy { n },
                );
                self.local.lemma_queued_behind(l.local, c.local, r);
                self.local.lemma_queued_before(c.local, after.local, r);
            }
            assert(is_idle(known, id) ==> !is_recorded(known, id, x));
        }
        assert(after.leader == Some(c.leader));
        assert(known == (self.leader->0).progress);
        assert(after.local.state == c.local.state);
    }

    /// After a node has taken office, the runtime is told to send to every other voter and
    /// learner: all but those whose log is known to match to the end.
    pub proof fn law_office_is_announced_to_all(self, id: NID)
        requires
            self.valid(),
            self.in_step(),
            self.tracks_log(),
            self.local.state.is_leading(self.config.id),
            next_index(self.local.state.last_log_id()) < u64::MAX,
            self.config.max_payload_entries > 0,
            id != self.config.id,
            ({
                let m = self.local.state.membership.effective.membership;
                &&& m.voters().finite()
                &&& m.learners().finite()
                &&& m.voters().contains(id) || m.learners().contains(id)
            }),
        ensures
            ({
                let after = self.leader_established();
                let s = after.local.state;
                after.leader matches Some(l) && l.progress.entry(id) matches Some(e) && {
                    next_index(e.matching) < next_index(s.last_log_id()) ==> {
                        &&& self.local.queues(
                            after.local,
                            CommandView::Replicate { target: id, req: e.inflight },
                        )
                        &&& e.is_served(s, self.config.max_payload_entries as int)
                    }
                }
            }),
    {
        let config = self.config;
        let vote = self.local.state.vote.granted();
        let after = self.leader_established();
        lemma_vote_order_is_total(self.local.state.vote, vote);
        self.lemma_leader_established_leads();
        self.law_office_is_taken();
        self.lemma_saw_vote(vote);
        self.lemma_saw_vote_leads(vote);
        self.lemma_saw_vote_tracks(vote);
        self.lemma_office();
        self.local.state.lemma_positions();
        reveal(EngineView::leader_established);
        let l = self.saw_vote(vote).leading();
        let a = l.streams_rebuilt(config);
        let b = a.blank_appended(config);
        let c = b.replication_initiated(config);
        l.lemma_streams_rebuilt(config);
        a.lemma_blank_appended(config);
        let none = ProgressView::<NID>::none();
        l.lemma_rebuilt_accounts(self.local, none, config);
        reveal(LeadingView::streams_rebuilt);
        a.lemma_blank_accounts(self.local, none, config);
        b.lemma_initiated_adds(config);
        assert(b.local.output.extends(self.local.output)) by {
            l.lemma_streams_rebuilt_leads(config);
            a.lemma_blank_appended_leads(config);
            self.local.lemma_leads_on(l.local, a.local);
            self.local.lemma_leads_on(a.local, b.local);
            reveal(LocalView::leads_to);
        }
        b.lemma_initiated_accounts(self.local, none, config);
        let m = self.local.state.membership.effective.membership;
        lemma_member_recorded(c.leader.progress, m, id);
        let x = c.leader.progress.entry(id)->0;
        assert(self.local.accounts_for(c.local, none, config, id, x)) by {
            reveal(LocalView::accounts_for_all);
            let p = c.leader.progress;
            if p.voters.contains((id, x)) {
                let k = choose|k: int| 0 <= k < p.voters.len() && p.voters[k] == (id, x);
                assert(p.voters[k].0 == id && p.voters[k].1 == x);
            } else {
                let k = choose|k: int| 0 <= k < p.learners.len() && p.learners[k] == (id, x);
                assert(p.learners[k].0 == id && p.learners[k].1 == x);
            }
        }
        if next_index(x.matching) < next_index(after.local.state.last_log_id()) {
            l.lemma_rebuilt_tracks(config);
            a.lemma_blank_tracks(config);
            b.lemma_initiated_reaches(config, id, x);
        }
    }

    /// After a leader has started, the runtime is told to send to every other voter and
    /// learner whose log is not known to match to the end, as long as there are entries that
    /// are not to be purged.
    pub proof fn law_restored_leader_sends_to_all(self, id: NID)
        requires
            self.valid(),
            self.in_step(),
            self.tracks_log(),
            self.local.state.is_leader(self.config.id),
            next_index(self.local.state.purge_upto) < next_index(self.local.state.last_log_id()),
            self.config.max_payload_entries > 0,
            id != self.config.id,
            ({
                let m = self.local.state.membership.effective.membership;
                &&& m.voters().finite()
                &&& m.learners().finite()
                &&& m.voters().contains(id) || m.learners().contains(id)
            }),
        ensures
            ({
                let after = self.started_up();
                let s = after.local.state;
                after.leader matches Some(l) && l.progress.entry(id) matches Some(e) && {
                    next_index(e.matching) < next_index(s.last_log_id()) ==> {
                        &&& self.local.queues(
                            after.local,
                            CommandView::Replicate { target: id, req: e.inflight },
                        )
                        &&& e.is_served(s, self.config.max_payload_entries as int)
                    }
                }
            }),
    {
        let config = self.config;
        let after = self.started_up();
        self.lemma_startup_leads();
        self.law_leader_is_restored();
        self.local.state.lemma_positions();
        self.lemma_took_side();
        let vote = self.local.state.vote;
        lemma_vote_order_is_total(vote, vote);
        self.lemma_saw_vote_tracks(vote);
        self.lemma_saw_vote_leads(vote);
        let l = self.took_side().leading();
        assert(self.took_side() == self.saw_vote(vote));
        let a = l.streams_rebuilt(config);
        let c = a.replication_initiated(config);
        let none = ProgressView::<NID>::none();
        l.law_streams_go_to_all_others(config, 0);
        l.lemma_rebuilt_accounts(self.local, none, config);
        l.lemma_rebuilt_tracks(config);
        assert(a.local.output.extends(self.local.output)) by {
            l.lemma_streams_rebuilt_leads(config);
            self.local.lemma_leads_on(l.local, a.local);
            reveal(LocalView::leads_to);
        }
        a.lemma_initiated_accounts(self.local, none, config);
        a.lemma_initiated_adds(config);
        let m = self.local.state.membership.effective.membership;
        lemma_member_recorded(c.leader.progress, m, id);
        let x = c.leader.progress.entry(id)->0;
        assert(self.local.accounts_for(c.local, none, config, id, x)) by {
            reveal(LocalView::accounts_for_all);
            let p = c.leader.progress;
            if p.voters.contains((id, x)) {
                let k = choose|k: int| 0 <= k < p.voters.len() && p.voters[k] == (id, x);
                assert(p.voters[k].0 == id && p.voters[k].1 == x);
            } else {
                let k = choose|k: int| 0 <= k < p.learners.len() && p.learners[k] == (id, x);
                assert(p.learners[k].0 == id && p.learners[k].1 == x);
            }
        }
        if next_index(x.matching) < next_index(after.local.state.last_log_id()) {
            a.lemma_initiated_reaches(config, id, x);
        }
    }
}

impl<NID: NodeId, M> LeadingView<NID, M> {
    /// An entry without content that is appended leaves nothing on its way to another node.
    proof fn lemma_blank_accounts(
        self,
        before: LocalView<NID, M>,
        known: ProgressView<NID>,
        config: EngineConfig<NID>,
    )
        requires
            forall|i: int|
                0 <= i < self.leader.progress.voters.len() ==> (
                #[trigger] self.leader.progress.voters[i]).0 == config.id
                    || self.leader.progress.voters[i].1.inflight is Idle,
            forall|i: int|
                0 <= i < self.leader.progress.learners.len() ==> (
                #[trigger] self.leader.progress.learners[i]).0 == config.id
                    || self.leader.progress.learners[i].1.inflight is Idle,
        ensures
            ({
                let after = self.blank_appended(config);
                &&& before.accounts_for_all(
                    after.local,
                    known,
                    config,
                    after.leader.progress.voters,
                )
                &&& before.accounts_for_all(
                    after.local,
                    known,
                    config,
                    after.leader.progress.learners,
                )
            }),
    {
        reveal(LeadingView::blank_appended);
        reveal(LeadingView::local_progressed);
        reveal(LeadingView::accepted_committed);
        reveal(LocalView::accounts_for_all);
    }
}

} // verus!
