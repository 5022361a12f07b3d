use vstd::prelude::*;

use crate::datastore::{DatastoreError, TxData, TxOffset};
use crate::durability::{
    decided_pairs, decided_run, lemma_replay_all_yields_every_decided, lemma_replay_after_offset,
    lemma_wf_durable_offset, same_pairs, LogView,
};
use omnipaxos::util::NodeId;

verus! {

/// The bookkeeping a node keeps beside its datastore and its replica: who it is, whether
/// it runs, which leader it last saw, up to which offset the replicated log has been
/// applied to the datastore, and how many bytes of messages it has received.
pub struct NodeState {
    node_id: NodeId,
    last_applied_index: Option<TxOffset>,
    is_running: bool,
    current_leader: Option<NodeId>,
    received_messages_size: u64,
    got_promoted_leader: bool,
}

/// The abstract state of a [`NodeState`].
pub struct NodeStateView {
    pub node_id: NodeId,
    pub last_applied_index: Option<TxOffset>,
    pub is_running: bool,
    pub current_leader: Option<NodeId>,
    pub received_messages_size: u64,
    pub got_promoted_leader: bool,
}

impl View for NodeState {
    type V = NodeStateView;

    closed spec fn view(&self) -> NodeStateView {
        NodeStateView {
            node_id: self.node_id,
            last_applied_index: self.last_applied_index,
            is_running: self.is_running,
            current_leader: self.current_leader,
            received_messages_size: self.received_messages_size,
            got_promoted_leader: self.got_promoted_leader,
        }
    }
}

/// What the datastore has to do after the node took note of the current leader.
#[derive(Clone, Copy, Debug, PartialEq, Eq, Structural)]
pub enum LeaderAction {
    /// Nothing.
    Nothing,
    /// This node lost the leadership: roll back the transactions committed in memory that
    /// are not replicated.
    RollbackUnreplicated,
    /// This node became the leader: apply the replicated transactions it has not applied.
    ApplyReplicated,
}

/// What the datastore has to do to catch up with the replicated log.
pub enum ApplyAction<'a> {
    /// Nothing: the log has nothing new.
    Nothing,
    /// Advance the replicated durability offset to the given offset; the transactions up
    /// to it are already in memory.
    AdvanceReplicated(TxOffset),
    /// Replay these transactions in order, advancing the replicated durability offset to
    /// each one's offset after replaying it.
    Replay(Vec<(TxOffset, &'a TxData)>),
}

/// The state and action after a node with state `s` sees `observed` as the leader.
/// A leader is adopted when none was known or when it differs from the known one; a
/// change away from this node asks for a rollback, a change to this node marks it as
/// promoted and asks for the replicated transactions to be applied; seeing no leader
/// changes nothing.
pub open spec fn leader_transition(s: NodeStateView, observed: Option<NodeId>) -> (
    NodeStateView,
    LeaderAction,
) {
    let adopted = NodeStateView { current_leader: observed, ..s };
    match (s.current_leader, observed) {
        (Some(old), Some(new)) => {
            if old == new {
                (s, LeaderAction::Nothing)
            } else if old == s.node_id {
                (adopted, LeaderAction::RollbackUnreplicated)
            } else if new == s.node_id {
                (
                    NodeStateView { got_promoted_leader: true, ..adopted },
                    LeaderAction::ApplyReplicated,
                )
            } else {
                (adopted, LeaderAction::Nothing)
            }
        },
        (None, Some(_)) => (adopted, LeaderAction::Nothing),
        (_, None) => (s, LeaderAction::Nothing),
    }
}

/// Nothing is to be applied: the log has no decided entry at its durable position, or
/// the node has already applied up to that entry's offset.
pub open spec fn apply_skips(s: NodeStateView, log: &LogView) -> bool {
    log.durable_offset() is None || s.last_applied_index == log.durable_offset()
}

/// The transactions up to the durable offset are in this leader's memory already: it
/// leads, and either was not just promoted or its datastore's offset is the durable one.
pub open spec fn apply_advances(
    s: NodeStateView,
    log: &LogView,
    store_offset: Option<TxOffset>,
) -> bool {
    log.leads() && (!s.got_promoted_leader || store_offset == log.durable_offset())
}

/// The transactions a replay applies: every decided one when nothing is applied yet,
/// otherwise those after the last applied offset.
pub open spec fn replayed(s: NodeStateView, log: &LogView) -> Seq<(TxOffset, TxData)> {
    match s.last_applied_index {
        None => decided_pairs(log.full_window()),
        Some(o) => decided_pairs(log.replay_window(o)),
    }
}

/// The inputs on which applying is defined: a just promoted leader needs its datastore's
/// offset, and a replay needs a replayable start.
pub open spec fn apply_defined(
    s: NodeStateView,
    log: &LogView,
    store_offset: Option<TxOffset>,
) -> bool {
    !apply_skips(s, log) ==> {
        &&& (log.leads() && s.got_promoted_leader ==> store_offset is Some)
        &&& (!apply_advances(s, log, store_offset) ==> match s.last_applied_index {
            None => log.can_replay_all(),
            Some(o) => log.can_replay_from(o),
        })
    }
}

/// The node's state after applying the replicated log: unchanged when there is nothing
/// to apply; otherwise the promotion mark is cleared and the last applied offset becomes
/// the durable offset (when advancing) or the offset of the last replayed transaction
/// (when replaying at least one).
pub open spec fn apply_transition(
    s: NodeStateView,
    log: &LogView,
    store_offset: Option<TxOffset>,
) -> NodeStateView {
    if apply_skips(s, log) {
        s
    } else if apply_advances(s, log, store_offset) {
        NodeStateView {
            last_applied_index: log.durable_offset(),
            got_promoted_leader: false,
            ..s
        }
    } else {
        let txs = replayed(s, log);
        NodeStateView {
            last_applied_index: if txs.len() > 0 {
                Some(txs.last().0)
            } else {
                s.last_applied_index
            },
            got_promoted_leader: false,
            ..s
        }
    }
}

/// Whether the action `a` is the one that applying `log` to a node in state `s` asks for.
pub open spec fn apply_action_is<'a>(
    a: ApplyAction<'a>,
    s: NodeStateView,
    log: &LogView,
    store_offset: Option<TxOffset>,
) -> bool {
    match a {
        ApplyAction::Nothing => apply_skips(s, log),
        ApplyAction::AdvanceReplicated(o) => {
            &&& !apply_skips(s, log)
            &&& apply_advances(s, log, store_offset)
            &&& log.durable_offset() == Some(o)
        },
        ApplyAction::Replay(txs) => {
            &&& !apply_skips(s, log)
            &&& !apply_advances(s, log, store_offset)
            &&& same_pairs(txs@, replayed(s, log))
        },
    }
}

/// Starting and committing mutable transactions is for the leader only.
pub fn mutation_permitted(log: &LogView) -> (r: Result<(), DatastoreError>)
    ensures
        r is Ok <==> log.leads(),
        r matches Err(e) ==> e == DatastoreError::NotLeader,
{
    if log.is_leader() {
        Ok(())
    } else {
        Err(DatastoreError::NotLeader)
    }
}

impl NodeState {
    /// A running node that knows no leader and has applied nothing.
    pub fn new(node_id: NodeId) -> (r: Self)
        ensures
            r@ == (NodeStateView {
                node_id,
                last_applied_index: None,
                is_running: true,
                current_leader: None,
                received_messages_size: 0,
                got_promoted_leader: false,
            }),
    {
        NodeState {
            node_id,
            last_applied_index: None,
            is_running: true,
            current_leader: None,
            received_messages_size: 0,
            got_promoted_leader: false,
        }
    }

    pub fn node_id(&self) -> (r: &NodeId)
        ensures
            *r == self@.node_id,
    {
        &self.node_id
    }

    pub fn is_running(&self) -> (r: bool)
        ensures
            r == self@.is_running,
    {
        self.is_running
    }

    /// The leader this node last took note of.
    pub fn current_leader(&self) -> (r: Option<NodeId>)
        ensures
            r == self@.current_leader,
    {
        self.current_leader
    }

    /// How many bytes of messages this node has received.
    pub fn received_messages_size(&self) -> (r: u64)
        ensures
            r == self@.received_messages_size,
    {
        self.received_messages_size
    }

    /// Whether this node became the leader and has not applied the log since.
    pub fn got_promoted_leader(&self) -> (r: bool)
        ensures
            r == self@.got_promoted_leader,
    {
        self.got_promoted_leader
    }

    /// The offset up to which the replicated log has been applied.
    pub fn last_applied_index(&self) -> (r: Option<TxOffset>)
        ensures
            r == self@.last_applied_index,
    {
        self.last_applied_index
    }

    /// Marks the node as stopped; nothing else changes.
    pub fn stop(&mut self)
        ensures
            final(self)@ == (NodeStateView { is_running: false, ..old(self)@ }),
    {
        self.is_running = false;
    }

    /// Adds the size of a received message to the running total.
    pub fn record_received(&mut self, size: u64)
        requires
            old(self)@.received_messages_size + size <= u64::MAX,
        ensures
            final(self)@ == (NodeStateView {
                received_messages_size: (old(self)@.received_messages_size + size) as u64,
                ..old(self)@
            }),
    {
        self.received_messages_size = self.received_messages_size + size;
    }

    /// Takes note of the leader the replica follows now, and says what the datastore has
    /// to do about a change of leadership.
    pub fn update_leader(&mut self, observed: Option<NodeId>) -> (r: LeaderAction)
        ensures
            (final(self)@, r) == leader_transition(old(self)@, observed),
    {
        let old_leader = self.current_leader;
        let mut action = LeaderAction::Nothing;
        if old_leader.is_some() && observed.is_some() && old_leader.unwrap() != observed.unwrap() {
            if old_leader.unwrap() == self.node_id {
                action = LeaderAction::RollbackUnreplicated;
            } else if observed.unwrap() == self.node_id {
                self.got_promoted_leader = true;
                action = LeaderAction::ApplyReplicated;
            }
            self.current_leader = observed;
        }
        if old_leader.is_none() && observed.is_some() {
            self.current_leader = observed;
        }
        action
    }

    /// Whether applying `log` is defined for this node, given its datastore's offset.
    pub fn can_apply(&self, log: &LogView, store_offset: Option<TxOffset>) -> (r: bool)
        ensures
            r == apply_defined(self@, log, store_offset),
    {
        let decided = log.get_durable_tx_offset_optional();
        if decided.is_none() || self.last_applied_index == decided {
            return true;
        }
        let leads = log.is_leader();
        if leads && self.got_promoted_leader && store_offset.is_none() {
            return false;
        }
        let advances = leads && (!self.got_promoted_leader || store_offset == decided);
        if advances {
            return true;
        }
        match self.last_applied_index {
            None => log.decided_idx > 0 || log.entries.len() > 0,
            Some(o) => o.0 < u64::MAX && (log.decided_idx as u64) < u64::MAX && (log.decided_idx
                > 0 || o.0 < log.entries.len() as u64),
        }
    }

    /// Decides how the datastore catches up with the replicated log: nothing when the
    /// durable entry is missing or already applied; a leader whose memory already holds the
    /// transactions advances the replicated offset to the durable one; anyone else replays
    /// the decided transactions after its last applied offset. Records the new last
    /// applied offset and clears the promotion mark.
    pub fn apply_replicated_txns<'a>(
        &mut self,
        log: &'a LogView,
        store_offset: Option<TxOffset>,
    ) -> (r: ApplyAction<'a>)
        requires
            apply_defined(old(self)@, log, store_offset),
        ensures
            final(self)@ == apply_transition(old(self)@, log, store_offset),
            apply_action_is(r, old(self)@, log, store_offset),
    {
        let decided = log.get_durable_tx_offset_optional();
        let replicated = self.last_applied_index;
        if decided.is_none() || (replicated.is_some() && decided.unwrap() == replicated.unwrap()) {
            return ApplyAction::Nothing;
        }
        let durable = decided.unwrap();
        let action;
        if log.is_leader() && (!self.got_promoted_leader || store_offset.unwrap() == durable) {
            self.last_applied_index = decided;
            action = ApplyAction::AdvanceReplicated(durable);
        } else {
            let txs = match replicated {
                Some(o) => log.iter_starting_from_offset(o),
                None => log.replay_all(),
            };
            let n = txs.len();
            if n > 0 {
                self.last_applied_index = Some(txs[n - 1].0);
            }
            action = ApplyAction::Replay(txs);
        }
        self.got_promoted_leader = false;
        action
    }
}

/// A node adopts every leader it sees and keeps the one it knows when it sees none; its
/// identity, running state, applied offset and received byte count stay as they are.
pub proof fn lemma_leader_adopted(s: NodeStateView, observed: Option<NodeId>)
    ensures
        observed is Some ==> leader_transition(s, observed).0.current_leader == observed,
        observed is None ==> leader_transition(s, observed) == (s, LeaderAction::Nothing),
        leader_transition(s, observed).0.node_id == s.node_id,
        leader_transition(s, observed).0.is_running == s.is_running,
        leader_transition(s, observed).0.last_applied_index == s.last_applied_index,
        leader_transition(s, observed).0.received_messages_size == s.received_messages_size,
{
}

/// A node rolls back its unreplicated transactions exactly when it was the leader it knew
/// and sees another node lead.
pub proof fn lemma_rollback_iff_leadership_lost(s: NodeStateView, observed: Option<NodeId>)
    ensures
        leader_transition(s, observed).1 == LeaderAction::RollbackUnreplicated <==> (
        s.current_leader == Some(s.node_id) && observed is Some && observed != Some(s.node_id)),
{
}

/// A node applies the replicated transactions as a new leader exactly when leadership
/// moves to it from another known leader, and it is then marked as promoted.
pub proof fn lemma_apply_iff_promoted(s: NodeStateView, observed: Option<NodeId>)
    ensures
        leader_transition(s, observed).1 == LeaderAction::ApplyReplicated <==> (
        s.current_leader is Some && s.current_leader != Some(s.node_id) && observed == Some(
            s.node_id,
        )),
        leader_transition(s, observed).1 == LeaderAction::ApplyReplicated
            ==> leader_transition(s, observed).0.got_promoted_leader,
{
}

/// Seeing the same leader twice in a row asks for nothing the second time and changes
/// nothing more.
pub proof fn lemma_leader_update_idempotent(s: NodeStateView, observed: Option<NodeId>)
    ensures
        ({
            let s1 = leader_transition(s, observed).0;
            leader_transition(s1, observed) == (s1, LeaderAction::Nothing)
        }),
{
}

/// Once a leader has advanced to the durable offset, applying the same log again does
/// nothing.
pub proof fn lemma_apply_after_advance_skips(
    s: NodeStateView,
    log: &LogView,
    store_offset: Option<TxOffset>,
)
    requires
        !apply_skips(s, log),
        apply_advances(s, log, store_offset),
    ensures
        apply_transition(s, log, store_offset).last_applied_index == log.durable_offset(),
        apply_skips(apply_transition(s, log, store_offset), log),
{
}

/// Applying the log touches nothing but the applied offset and the promotion mark, and
/// clears the mark whenever it does any work.
pub proof fn lemma_apply_frame(s: NodeStateView, log: &LogView, store_offset: Option<TxOffset>)
    ensures
        ({
            let t = apply_transition(s, log, store_offset);
            &&& t.node_id == s.node_id
            &&& t.is_running == s.is_running
            &&& t.current_leader == s.current_leader
            &&& t.received_messages_size == s.received_messages_size
            &&& !apply_skips(s, log) ==> !t.got_promoted_leader
        }),
{
}

/// In a well-formed log, what a replay yields is the decided transactions from some
/// position on, up to the decided index; when it yields any, it ends with the last
/// decided transaction, whose offset is the durable offset.
proof fn lemma_replayed_run(s: NodeStateView, log: &LogView)
    requires
        log.wf(),
        log.decided_idx > 0,
        match s.last_applied_index {
            None => true,
            Some(o) => o.0 < u64::MAX,
        },
    ensures
        exists|lo: int|
            0 <= lo <= log.decided_idx && replayed(s, log) == #[trigger] decided_run(log, lo),
        replayed(s, log).len() > 0 ==> Some(replayed(s, log).last().0) == log.durable_offset(),
{
    lemma_wf_durable_offset(log);
    let d = log.decided_idx as int;
    match s.last_applied_index {
        None => {
            assert(log.can_replay_all());
            lemma_replay_all_yields_every_decided(log);
            assert(replayed(s, log) == decided_run(log, 0));
        },
        Some(o) => {
            lemma_replay_after_offset(log, o);
            if o.0 + 1 < d {
                assert(replayed(s, log) == decided_run(log, o.0 + 1));
            } else {
                assert(decided_run(log, d) =~= Seq::<(TxOffset, TxData)>::empty());
                assert(replayed(s, log) == decided_run(log, d));
            }
        },
    }
    let lo = choose|lo: int|
        0 <= lo <= log.decided_idx && replayed(s, log) == #[trigger] decided_run(log, lo);
    if replayed(s, log).len() > 0 {
        assert(replayed(s, log).last() == decided_run(log, lo)[d - lo - 1]);
    }
}

/// A node that has applied nothing replays every decided transaction of a well-formed log
/// once, in log order; its applied offset then is the durable offset, and applying the
/// same log again does nothing.
pub proof fn lemma_first_replay_applies_every_decided(
    s: NodeStateView,
    log: &LogView,
    store_offset: Option<TxOffset>,
)
    requires
        log.wf(),
        log.decided_idx > 0,
        s.last_applied_index is None,
        !apply_advances(s, log, store_offset),
    ensures
        !apply_skips(s, log),
        replayed(s, log) == decided_run(log, 0),
        replayed(s, log).len() == log.decided_idx,
        apply_transition(s, log, store_offset).last_applied_index == log.durable_offset(),
        apply_skips(apply_transition(s, log, store_offset), log),
{
    lemma_wf_durable_offset(log);
    lemma_replay_all_yields_every_decided(log);
    lemma_replayed_run(s, log);
}

/// Applying an unchanged well-formed log a second time replays no transaction; and when
/// the first round did work (advancing, or replaying at least one transaction), the
/// second round does nothing at all.
pub proof fn lemma_apply_twice_replays_nothing(
    s: NodeStateView,
    log: &LogView,
    store_offset: Option<TxOffset>,
    next_store_offset: Option<TxOffset>,
)
    requires
        log.wf(),
        apply_defined(s, log, store_offset),
    ensures
        ({
            let s1 = apply_transition(s, log, store_offset);
            &&& (!apply_skips(s1, log) && !apply_advances(s1, log, next_store_offset))
                ==> replayed(s1, log).len() == 0
            &&& (!apply_skips(s, log) && (apply_advances(s, log, store_offset) || replayed(
                s,
                log,
            ).len() > 0)) ==> apply_skips(s1, log)
        }),
{
    lemma_wf_durable_offset(log);
    let s1 = apply_transition(s, log, store_offset);
    if apply_skips(s, log) || apply_advances(s, log, store_offset) {
        return;
    }
    assert(log.decided_idx > 0);
    lemma_replayed_run(s, log);
    if replayed(s, log).len() == 0 {
        assert(s1.last_applied_index == s.last_applied_index);
        assert(replayed(s1, log) == replayed(s, log));
    }
}

/// Seeing a leader sets the promotion mark exactly when it asks for the replicated log
/// to be applied as new leader, and otherwise leaves the mark as it was: neither the first
/// leader a node learns of (even itself) nor a lost leadership touches it.
pub proof fn lemma_promotion_mark(s: NodeStateView, observed: Option<NodeId>)
    ensures
        leader_transition(s, observed).0.got_promoted_leader == (s.got_promoted_leader
            || leader_transition(s, observed).1 == LeaderAction::ApplyReplicated),
        s.current_leader is None ==> leader_transition(s, observed).0.got_promoted_leader
            == s.got_promoted_leader,
{
}

/// With nothing new decided (no decided entry at the durable position, or the node has
/// applied up to its offset), applying asks for nothing and changes nothing. Otherwise
/// the node does work: a follower replays, a leader that was not just promoted advances
/// to the durable offset, and a just promoted leader advances exactly when its datastore
/// is at the durable offset and replays otherwise.
pub proof fn lemma_apply_action_by_role<'a>(
    a: ApplyAction<'a>,
    s: NodeStateView,
    log: &LogView,
    store_offset: Option<TxOffset>,
)
    requires
        apply_action_is(a, s, log, store_offset),
    ensures
        (log.durable_offset() is None || s.last_applied_index == log.durable_offset()) ==> (
        a is Nothing && apply_transition(s, log, store_offset) == s),
        log.durable_offset() is Some && s.last_applied_index != log.durable_offset() ==> {
            &&& !(a is Nothing)
            &&& !apply_transition(s, log, store_offset).got_promoted_leader
            &&& log.current_leader != Some(log.node_id) ==> a is Replay
            &&& (log.current_leader == Some(log.node_id) && !s.got_promoted_leader) ==> (a matches ApplyAction::AdvanceReplicated(o) && Some(o) == log.durable_offset())
            &&& (log.current_leader == Some(log.node_id) && s.got_promoted_leader) ==> (
            a is AdvanceReplicated <==> store_offset == log.durable_offset())
        },
{
}

/// In a well-formed log, applying catches up whenever a decided transaction lies after
/// what the node has applied (everything, when it has applied nothing): afterwards the
/// node's applied offset is the offset of the last decided transaction; it advances
/// straight to that offset or replays exactly the decided transactions after its applied
/// position, in log order; and it does nothing only when it had already applied up to
/// that offset.
pub proof fn lemma_apply_catches_up<'a>(
    a: ApplyAction<'a>,
    s: NodeStateView,
    log: &LogView,
    store_offset: Option<TxOffset>,
)
    requires
        log.wf(),
        log.decided_idx > 0,
        match s.last_applied_index {
            None => true,
            Some(o) => o.0 + 1 < log.decided_idx,
        },
        apply_action_is(a, s, log, store_offset),
    ensures
        apply_transition(s, log, store_offset).last_applied_index == Some(
            log.entries@[log.decided_idx - 1]->Decided_0.tx_offset,
        ),
        a is Nothing ==> s.last_applied_index == Some(
            log.entries@[log.decided_idx - 1]->Decided_0.tx_offset,
        ),
        a matches ApplyAction::AdvanceReplicated(o) ==> o
            == log.entries@[log.decided_idx - 1]->Decided_0.tx_offset,
        a matches ApplyAction::Replay(txs) ==> same_pairs(
            txs@,
            match s.last_applied_index {
                None => decided_run(log, 0),
                Some(o) => decided_run(log, o.0 + 1),
            },
        ),
{
    lemma_wf_durable_offset(log);
    let d = log.decided_idx as int;
    if !apply_skips(s, log) && !apply_advances(s, log, store_offset) {
        match s.last_applied_index {
            None => {
                lemma_replay_all_yields_every_decided(log);
            },
            Some(o) => {
                lemma_replay_after_offset(log, o);
            },
        }
        let lo = match s.last_applied_index {
            None => 0,
            Some(o) => o.0 + 1,
        };
        assert(replayed(s, log) == decided_run(log, lo));
        assert(replayed(s, log).len() > 0);
        assert(replayed(s, log).last() == decided_run(log, lo)[d - lo - 1]);
    }
}

/// Applying a well-formed log is defined for every node whose applied offset leaves room
/// for the next position, unless it is a just promoted leader that does not know its
/// datastore's offset.
pub proof fn lemma_apply_defined_on_wf(
    s: NodeStateView,
    log: &LogView,
    store_offset: Option<TxOffset>,
)
    requires
        log.wf(),
        log.decided_idx < u64::MAX,
        match s.last_applied_index {
            None => true,
            Some(o) => o.0 < u64::MAX,
        },
        !(log.current_leader == Some(log.node_id) && s.got_promoted_leader && store_offset is None),
    ensures
        apply_defined(s, log, store_offset),
{
    lemma_wf_durable_offset(log);
}

} // verus!
