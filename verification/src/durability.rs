use vstd::prelude::*;
use vstd::string::*;

use crate::bonustask::AccessLogEntry;
use crate::datastore::{TxData, TxOffset};
use omnipaxos::errors::ConfigError;
use omnipaxos::util::NodeId;
use omnipaxos::OmniPaxosConfig;

verus! {

/// The record that the durability layer appends to the replicated log for each committed
/// transaction: the transaction itself and the access-log request it came with.
pub struct DatabaseLogEntry {
    pub tx_offset: TxOffset,
    pub tx_data: TxData,
    pub ip: String,
    pub date: String,
    pub time: String,
    pub offset: i16,
    pub url: String,
    pub method_protocol_status: String,
    pub response_size: u16,
}

/// The decimal digit `d` (for `d < 10`) as a character.
pub open spec fn digit_char(d: nat) -> char {
    if d == 0 {
        '0'
    } else if d == 1 {
        '1'
    } else if d == 2 {
        '2'
    } else if d == 3 {
        '3'
    } else if d == 4 {
        '4'
    } else if d == 5 {
        '5'
    } else if d == 6 {
        '6'
    } else if d == 7 {
        '7'
    } else if d == 8 {
        '8'
    } else {
        '9'
    }
}

/// The decimal representation of `n`, without leading zeros.
pub open spec fn decimal(n: nat) -> Seq<char>
    decreases n,
{
    if n < 10 {
        seq![digit_char(n)]
    } else {
        decimal(n / 10).push(digit_char(n % 10))
    }
}

/// The separator placed between the parts of a combined field.
pub open spec fn separator() -> Seq<char> {
    seq![' ', '-', ' ']
}

/// The `date` field of a log entry: day, month and year joined by separators.
pub open spec fn date_text(day: u8, month: Seq<char>, year: u16) -> Seq<char> {
    decimal(day as nat) + separator() + month + separator() + decimal(year as nat)
}

/// The `method_protocol_status` field of a log entry: method, protocol and status code
/// joined by separators.
pub open spec fn status_text(method: Seq<char>, protocol: Seq<char>, status_code: u16) -> Seq<char> {
    method + separator() + protocol + separator() + decimal(status_code as nat)
}

fn push_digit(s: &mut String, d: u16)
    requires
        d < 10,
    ensures
        final(s)@ == old(s)@.push(digit_char(d as nat)),
{
    proof {
        reveal_strlit("0");
        reveal_strlit("1");
        reveal_strlit("2");
        reveal_strlit("3");
        reveal_strlit("4");
        reveal_strlit("5");
        reveal_strlit("6");
        reveal_strlit("7");
        reveal_strlit("8");
        reveal_strlit("9");
    }
    if d == 0 {
        s.append("0");
    } else if d == 1 {
        s.append("1");
    } else if d == 2 {
        s.append("2");
    } else if d == 3 {
        s.append("3");
    } else if d == 4 {
        s.append("4");
    } else if d == 5 {
        s.append("5");
    } else if d == 6 {
        s.append("6");
    } else if d == 7 {
        s.append("7");
    } else if d == 8 {
        s.append("8");
    } else {
        s.append("9");
    }
}

fn push_decimal(s: &mut String, n: u16)
    ensures
        final(s)@ == old(s)@ + decimal(n as nat),
    decreases n,
{
    if n >= 10 {
        push_decimal(s, n / 10);
    }
    push_digit(s, n % 10);
    assert(old(s)@ + decimal(n as nat) =~= final(s)@) by {
        if n >= 10 {
            assert(decimal(n as nat) == decimal((n / 10) as nat).push(digit_char((n % 10) as nat)));
        }
    }
}

fn push_separator(s: &mut String)
    ensures
        final(s)@ == old(s)@ + separator(),
{
    proof {
        reveal_strlit(" - ");
    }
    s.append(" - ");
    assert(final(s)@ =~= old(s)@ + separator());
}

impl DatabaseLogEntry {
    /// The entry that records the committed transaction `tx_data` at `tx_offset` together
    /// with the access-log request `ale`. The request's day, month and year become one
    /// `date` field, its method, protocol and status code one `method_protocol_status`
    /// field; the other fields are carried over unchanged.
    pub fn new(tx_offset: TxOffset, tx_data: TxData, ale: AccessLogEntry) -> (e: Self)
        ensures
            e.tx_offset == tx_offset,
            e.tx_data == tx_data,
            e.ip == ale.ip,
            e.date@ == date_text(ale.day, ale.month@, ale.year),
            e.time == ale.time,
            e.offset == ale.offset,
            e.url == ale.url,
            e.method_protocol_status@ == status_text(ale.method@, ale.protocol@, ale.status_code),
            e.response_size == ale.response_size,
    {
        let AccessLogEntry {
            ip,
            day,
            month,
            year,
            time,
            offset,
            method,
            url,
            protocol,
            status_code,
            response_size,
        } = ale;
        let mut date = String::new();
        push_decimal(&mut date, day as u16);
        push_separator(&mut date);
        date.append(month.as_str());
        push_separator(&mut date);
        push_decimal(&mut date, year);
        assert(date@ =~= date_text(day, month@, year));

        let mut method_protocol_status = method;
        push_separator(&mut method_protocol_status);
        method_protocol_status.append(protocol.as_str());
        push_separator(&mut method_protocol_status);
        push_decimal(&mut method_protocol_status, status_code);
        assert(method_protocol_status@ =~= status_text(ale.method@, protocol@, status_code));

        DatabaseLogEntry {
            tx_offset,
            tx_data,
            ip,
            date,
            time,
            offset,
            url,
            method_protocol_status,
            response_size,
        }
    }
}


/// What reading one position of the replicated log yields, with the entry's payload
/// where the log still holds it.
pub enum LogSlot {
    /// The entry is decided: it stays in the log at this position.
    Decided(DatabaseLogEntry),
    /// The entry is accepted but not decided, and may still be replaced.
    Undecided(DatabaseLogEntry),
    /// The entry has been trimmed away.
    Trimmed,
    /// The entry has been folded into a snapshot.
    Snapshotted,
    /// The log was stopped here for a reconfiguration.
    StopSign,
}

/// The durability layer's view of its OmniPaxos replica: the node it runs on, the leader
/// that the replica currently follows, how many entries are decided, and what reading
/// each position of the log yields (`entries[i]` for a position `i` below the length;
/// reading past the end yields nothing).
pub struct LogView {
    pub node_id: NodeId,
    pub current_leader: Option<NodeId>,
    pub decided_idx: usize,
    pub entries: Vec<LogSlot>,
}

/// The decided entries among `slots`, in log order, as pairs of offset and transaction.
pub open spec fn decided_pairs(slots: Seq<LogSlot>) -> Seq<(TxOffset, TxData)>
    decreases slots.len(),
{
    if slots.len() == 0 {
        Seq::empty()
    } else {
        let rest = decided_pairs(slots.drop_last());
        match slots.last() {
            LogSlot::Decided(e) => rest.push((e.tx_offset, e.tx_data)),
            _ => rest,
        }
    }
}

/// `pairs` lists the same offsets and transactions as `expected`, in the same order.
pub open spec fn same_pairs<'a>(
    pairs: Seq<(TxOffset, &'a TxData)>,
    expected: Seq<(TxOffset, TxData)>,
) -> bool {
    &&& pairs.len() == expected.len()
    &&& forall|i: int| 0 <= i < pairs.len() ==> #[trigger] pairs[i].0 == expected[i].0 && *pairs[i].1 == expected[i].1
}

/// The offset and transaction of a decided slot; nothing for any other slot.
pub open spec fn decided_content(slot: LogSlot) -> Option<(TxOffset, TxData)> {
    match slot {
        LogSlot::Decided(e) => Some((e.tx_offset, e.tx_data)),
        _ => None,
    }
}

impl LogView {
    /// What reading position `pos` of the log yields.
    pub open spec fn read(&self, pos: int) -> Option<LogSlot> {
        if 0 <= pos < self.entries@.len() {
            Some(self.entries@[pos])
        } else {
            None
        }
    }

    /// The shape of an OmniPaxos replica's log that is never trimmed, snapshotted or
    /// reconfigured: the decided index lies within the log, and exactly the positions
    /// below it hold decided entries.
    pub open spec fn wf(&self) -> bool {
        &&& self.decided_idx <= self.entries@.len()
        &&& forall|i: int|
            0 <= i < self.entries@.len() ==> (#[trigger] self.entries@[i] is Decided <==> i
                < self.decided_idx)
    }

    /// The position of the last decided entry, or 0 when nothing is decided.
    pub open spec fn durable_position(&self) -> nat {
        if self.decided_idx > 0 {
            (self.decided_idx - 1) as nat
        } else {
            0
        }
    }

    /// Whether the replica follows its own node as leader.
    pub open spec fn leads(&self) -> bool {
        self.current_leader == Some(self.node_id)
    }

    /// The offset of the transaction at the durable position, if that entry is decided.
    pub open spec fn durable_offset(&self) -> Option<TxOffset> {
        match self.read(self.durable_position() as int) {
            Some(LogSlot::Decided(e)) => Some(e.tx_offset),
            _ => None,
        }
    }

    /// One past the last position a replay visits: past the decided index, but not past
    /// the end of the log.
    pub open spec fn replay_end(&self) -> int {
        let len = self.entries@.len() as int;
        if self.decided_idx + 1 < len {
            self.decided_idx + 1
        } else {
            len
        }
    }

    /// The durable offset: 0 when at most one transaction is decided; otherwise the offset
    /// of the last decided transaction, or its position when the entry there is not a
    /// decided one.
    pub open spec fn durable_tx_offset(&self) -> TxOffset {
        if self.decided_idx <= 1 {
            TxOffset(0)
        } else {
            match self.durable_offset() {
                Some(o) => o,
                None => TxOffset((self.decided_idx - 1) as u64),
            }
        }
    }

    /// The slots that a replay after `offset` visits: when nothing is decided, the slot at
    /// `offset` itself; otherwise the existing positions from `offset + 1` up to and
    /// including `decided_idx`.
    pub open spec fn replay_window(&self, offset: TxOffset) -> Seq<LogSlot> {
        if self.decided_idx == 0 {
            seq![self.entries@[offset.0 as int]]
        } else if offset.0 + 1 < self.replay_end() {
            self.entries@.subrange(offset.0 + 1, self.replay_end())
        } else {
            Seq::empty()
        }
    }

    /// The slots that a replay of the whole log visits: when nothing is decided, the first
    /// slot; otherwise the existing positions from 0 up to and including `decided_idx`.
    pub open spec fn full_window(&self) -> Seq<LogSlot> {
        if self.decided_idx == 0 {
            seq![self.entries@[0]]
        } else {
            self.entries@.subrange(0, self.replay_end())
        }
    }

    /// The inputs on which a replay after `offset` is defined: the next position and the
    /// end of the range must be representable, and when nothing is decided the slot at
    /// `offset` must exist.
    pub open spec fn can_replay_from(&self, offset: TxOffset) -> bool {
        &&& offset.0 < u64::MAX
        &&& self.decided_idx < u64::MAX
        &&& self.decided_idx == 0 ==> offset.0 < self.entries@.len()
    }

    /// The inputs on which a replay of the whole log is defined: when nothing is decided,
    /// the first slot must exist.
    pub open spec fn can_replay_all(&self) -> bool {
        self.decided_idx == 0 ==> self.entries@.len() > 0
    }

    /// The leader that the replica currently follows.
    pub fn get_current_leader(&self) -> (r: Option<NodeId>)
        ensures
            r == self.current_leader,
    {
        self.current_leader
    }

    /// Whether this node is the leader the replica follows.
    pub fn is_leader(&self) -> (r: bool)
        ensures
            r == self.leads(),
    {
        match self.current_leader {
            Some(l) => l == self.node_id,
            None => false,
        }
    }

    /// The offset and transaction at log position `pos` if that entry is decided.
    pub fn read_decided_at_position(&self, pos: u64) -> (r: Option<(TxOffset, &TxData)>)
        requires
            pos < self.entries@.len(),
        ensures
            match decided_content(self.entries@[pos as int]) {
                Some((o, d)) => r matches Some((ro, rd)) && ro == o && *rd == d,
                None => r is None,
            },
    {
        let len = self.entries.len();
        assert(pos < len);
        match &self.entries[pos as usize] {
            LogSlot::Decided(e) => Some((e.tx_offset, &e.tx_data)),
            _ => None,
        }
    }

    /// The offset of the last decided transaction, or nothing when the entry at the
    /// durable position is not a decided one (in particular when nothing is decided).
    pub fn get_durable_tx_offset_optional(&self) -> (r: Option<TxOffset>)
        ensures
            r == self.durable_offset(),
    {
        let pos: usize = if self.decided_idx > 0 {
            self.decided_idx - 1
        } else {
            0
        };
        if pos < self.entries.len() {
            match &self.entries[pos] {
                LogSlot::Decided(e) => Some(e.tx_offset),
                _ => None,
            }
        } else {
            None
        }
    }

    /// The durable offset: 0 when at most one transaction is decided; otherwise the offset
    /// of the last decided transaction, or its position when the entry there is not a
    /// decided one.
    pub fn get_durable_tx_offset(&self) -> (r: TxOffset)
        ensures
            r == self.durable_tx_offset(),
    {
        if self.decided_idx <= 1 {
            return TxOffset(0);
        }
        match self.get_durable_tx_offset_optional() {
            Some(o) => o,
            None => TxOffset((self.decided_idx - 1) as u64),
        }
    }

    /// The decided entries at positions `lo` up to `end` (excluded), in order.
    fn decided_between(&self, lo: usize, end: usize) -> (r: Vec<(TxOffset, &TxData)>)
        requires
            lo <= end <= self.entries@.len(),
        ensures
            same_pairs(r@, decided_pairs(self.entries@.subrange(lo as int, end as int))),
    {
        let mut out: Vec<(TxOffset, &TxData)> = Vec::new();
        let mut i: usize = lo;
        proof {
            assert(self.entries@.subrange(lo as int, lo as int) =~= Seq::<LogSlot>::empty());
        }
        while i < end
            invariant
                lo <= i <= end,
                end <= self.entries@.len(),
                same_pairs(out@, decided_pairs(self.entries@.subrange(lo as int, i as int))),
            decreases end - i,
        {
            match &self.entries[i] {
                LogSlot::Decided(e) => {
                    out.push((e.tx_offset, &e.tx_data));
                },
                _ => {},
            }
            proof {
                let s = self.entries@.subrange(lo as int, i + 1);
                assert(s.drop_last() =~= self.entries@.subrange(lo as int, i as int));
                assert(s.last() == self.entries@[i as int]);
            }
            i = i + 1;
        }
        out
    }

    /// The pair of a slot that is read on its own, if it is decided.
    fn decided_single(&self, pos: usize) -> (r: Vec<(TxOffset, &TxData)>)
        requires
            pos < self.entries@.len(),
        ensures
            same_pairs(r@, decided_pairs(seq![self.entries@[pos as int]])),
    {
        let mut out: Vec<(TxOffset, &TxData)> = Vec::new();
        match &self.entries[pos] {
            LogSlot::Decided(e) => {
                out.push((e.tx_offset, &e.tx_data));
            },
            _ => {},
        }
        proof {
            let w = seq![self.entries@[pos as int]];
            assert(w.len() == 1 && w.last() == self.entries@[pos as int]);
            assert(w.drop_last() =~= Seq::<LogSlot>::empty());
            assert(decided_pairs(w.drop_last()) =~= Seq::<(TxOffset, TxData)>::empty());
        }
        out
    }

    /// One past the last position a replay visits.
    fn replay_end_exec(&self) -> (r: usize)
        ensures
            r == self.replay_end(),
    {
        let len = self.entries.len();
        if self.decided_idx < len && self.decided_idx + 1 < len {
            self.decided_idx + 1
        } else {
            len
        }
    }

    /// The decided transactions after `offset` that a replica has to replay, in log order.
    pub fn iter_starting_from_offset(&self, offset: TxOffset) -> (r: Vec<(TxOffset, &TxData)>)
        requires
            self.can_replay_from(offset),
        ensures
            same_pairs(r@, decided_pairs(self.replay_window(offset))),
            self.wf() ==> decided_pairs(self.replay_window(offset)) == if offset.0 + 1
                < self.decided_idx {
                decided_run(self, offset.0 + 1)
            } else {
                Seq::<(TxOffset, TxData)>::empty()
            },
    {
        proof {
            if self.wf() {
                if self.decided_idx > 0 {
                    lemma_replay_after_offset(self, offset);
                } else {
                    let w = self.replay_window(offset);
                    assert(!(self.entries@[offset.0 as int] is Decided));
                    assert(w.drop_last() =~= Seq::<LogSlot>::empty());
                    assert(decided_pairs(w.drop_last()) =~= Seq::<(TxOffset, TxData)>::empty());
                }
            }
        }
        let len = self.entries.len();
        if self.decided_idx == 0 {
            assert(offset.0 < len);
            return self.decided_single(offset.0 as usize);
        }
        let end = self.replay_end_exec();
        if offset.0 + 1 >= end as u64 {
            proof {
                assert(self.replay_window(offset) =~= Seq::<LogSlot>::empty());
                assert(decided_pairs(Seq::<LogSlot>::empty()) =~= Seq::<(TxOffset, TxData)>::empty());
            }
            return Vec::new();
        }
        self.decided_between((offset.0 + 1) as usize, end)
    }

    /// All decided transactions after offset 0: a replay after offset 0.
    pub fn iter(&self) -> (r: Vec<(TxOffset, &TxData)>)
        requires
            self.can_replay_from(TxOffset(0)),
        ensures
            same_pairs(r@, decided_pairs(self.replay_window(TxOffset(0)))),
            self.wf() ==> decided_pairs(self.replay_window(TxOffset(0))) == if 1
                < self.decided_idx {
                decided_run(self, 1)
            } else {
                Seq::<(TxOffset, TxData)>::empty()
            },
    {
        self.iter_starting_from_offset(TxOffset(0))
    }

    /// Every decided transaction of the log from position 0 on, in log order: what a node
    /// that has applied nothing yet replays.
    pub fn replay_all(&self) -> (r: Vec<(TxOffset, &TxData)>)
        requires
            self.can_replay_all(),
        ensures
            same_pairs(r@, decided_pairs(self.full_window())),
            self.wf() ==> decided_pairs(self.full_window()) == decided_run(self, 0),
    {
        proof {
            if self.wf() {
                lemma_replay_all_yields_every_decided(self);
            }
        }
        if self.decided_idx == 0 {
            return self.decided_single(0);
        }
        let end = self.replay_end_exec();
        self.decided_between(0, end)
    }
}

/// The identifier of the one cluster configuration the replicas run in.
pub const CONFIGURATION_ID: u32 = 1;

/// The number of OmniPaxos ticks without a heartbeat after which a new leader is elected.
pub const ELECTION_TICK_TIMEOUT: u64 = 5;

/// Errors of setting up the durability layer.
#[derive(Clone, Copy, Debug, PartialEq, Eq, Structural)]
pub enum DurabilityError {
    /// OmniPaxos refused the configuration derived from the node and its cluster.
    InvalidConfig,
}

#[verifier::external_type_specification]
#[verifier::external_body]
pub struct ExOmniPaxosConfig(OmniPaxosConfig);

#[verifier::external_type_specification]
#[verifier::external_body]
pub struct ExConfigError(ConfigError);

/// The configuration that `omnipaxos_config_checked` builds from its arguments.
pub uninterp spec fn omnipaxos_config_of(
    configuration_id: u32,
    nodes: Seq<NodeId>,
    pid: NodeId,
    election_tick_timeout: u64,
) -> OmniPaxosConfig;

/// Whether `OmniPaxosConfig::validate` accepts a configuration with these values and
/// OmniPaxos's defaults for everything else: more than one node, a non-zero configuration
/// id, a non-zero pid that is one of the nodes, and a non-zero election timeout (the
/// defaults for buffer size, batch size and resend timeout are non-zero, and there is no
/// flexible quorum to check).
pub open spec fn config_accepted(
    configuration_id: u32,
    nodes: Seq<NodeId>,
    pid: NodeId,
    election_tick_timeout: u64,
) -> bool {
    &&& nodes.len() > 1
    &&& configuration_id != 0
    &&& pid != 0
    &&& election_tick_timeout != 0
    &&& nodes.contains(pid)
}

/// Builds an `omnipaxos::OmniPaxosConfig` whose `cluster_config` has the given
/// configuration id and nodes and whose `server_config` has the given pid and election
/// tick timeout, every other field taken from `Default`, and checks it with
/// `OmniPaxosConfig::validate`. Trusted: that `validate` succeeds exactly under
/// `config_accepted` (read from the checks in `ClusterConfig::validate`,
/// `ServerConfig::validate` and `OmniPaxosConfig::validate` and the values of
/// `ServerConfig::default`), and that the configuration handed back depends on the
/// arguments alone.
#[verifier::external_body]
fn omnipaxos_config_checked(
    configuration_id: u32,
    nodes: Vec<NodeId>,
    pid: NodeId,
    election_tick_timeout: u64,
) -> (r: Result<OmniPaxosConfig, ConfigError>)
    ensures
        r is Ok <==> config_accepted(configuration_id, nodes@, pid, election_tick_timeout),
        r matches Ok(c) ==> c == omnipaxos_config_of(
            configuration_id,
            nodes@,
            pid,
            election_tick_timeout,
        ),
{
    let config = OmniPaxosConfig {
        cluster_config: omnipaxos::ClusterConfig { configuration_id, nodes, ..Default::default() },
        server_config: omnipaxos::ServerConfig { pid, election_tick_timeout, ..Default::default() },
    };
    match config.validate() {
        Ok(()) => Ok(config),
        Err(e) => Err(e),
    }
}

/// The OmniPaxos configuration of node `node_id` in the cluster `nodes`: configuration
/// [`CONFIGURATION_ID`], election timeout [`ELECTION_TICK_TIMEOUT`]. Refused unless the
/// cluster has more than one node and `node_id` is a non-zero member of it.
pub fn omnipaxos_config(node_id: NodeId, nodes: &Vec<NodeId>) -> (r: Result<
    OmniPaxosConfig,
    DurabilityError,
>)
    ensures
        r is Ok <==> (nodes@.len() > 1 && node_id != 0 && nodes@.contains(node_id)),
        r matches Ok(c) ==> c == omnipaxos_config_of(
            CONFIGURATION_ID,
            nodes@,
            node_id,
            ELECTION_TICK_TIMEOUT,
        ),
{
    let cluster = nodes.clone();
    assert(cluster@ =~= nodes@);
    match omnipaxos_config_checked(CONFIGURATION_ID, cluster, node_id, ELECTION_TICK_TIMEOUT) {
        Ok(c) => Ok(c),
        Err(_) => Err(DurabilityError::InvalidConfig),
    }
}

/// Whether a character is one of the ASCII decimal digits.
pub open spec fn is_digit(c: char) -> bool {
    48 <= (c as int) <= 57
}

/// Whether every character of `s` is a decimal digit.
pub open spec fn all_digits(s: Seq<char>) -> bool {
    forall|i: int| 0 <= i < s.len() ==> is_digit(#[trigger] s[i])
}

/// The value of a decimal digit character: its distance from `'0'`.
pub open spec fn digit_value(c: char) -> int {
    (c as int) - 48
}

/// The number a string of decimal digits denotes.
pub open spec fn digits_value(s: Seq<char>) -> int
    decreases s.len(),
{
    if s.len() == 0 {
        0
    } else {
        digits_value(s.drop_last()) * 10 + digit_value(s.last())
    }
}

/// The decimal rendering of a number reads back as that number, and has no leading zero.
pub proof fn lemma_decimal_reads_back(n: nat)
    ensures
        digits_value(decimal(n)) == n,
        all_digits(decimal(n)),
        decimal(n).len() >= 1,
        decimal(n)[0] == '0' ==> n == 0,
    decreases n,
{
    let d = decimal(n);
    if n >= 10 {
        lemma_decimal_reads_back(n / 10);
        lemma_digit_reads_back(n % 10);
        assert(d.drop_last() =~= decimal(n / 10));
        assert(n == (n / 10) * 10 + n % 10) by (nonlinear_arith);
        assert(d[0] == decimal(n / 10)[0]);
        assert(d.last() == digit_char(n % 10));
        assert(digits_value(d) == digits_value(d.drop_last()) * 10 + digit_value(d.last()));
        assert forall|i: int| 0 <= i < d.len() implies is_digit(#[trigger] d[i]) by {
            if i < d.len() - 1 {
                assert(d[i] == decimal(n / 10)[i]);
            }
        }
    } else {
        lemma_digit_reads_back(n);
        assert(d.drop_last() =~= Seq::<char>::empty());
        assert(digits_value(d) == digits_value(d.drop_last()) * 10 + digit_value(d.last()));
    }
}

proof fn lemma_digit_reads_back(d: nat)
    requires
        d < 10,
    ensures
        digit_value(digit_char(d)) == d,
        is_digit(digit_char(d)),
        digit_char(d) == '0' ==> d == 0,
{
}

/// The durable offset is what reading the durable position for a decided entry yields.
pub proof fn lemma_durable_offset_is_decided_read(log: &LogView)
    ensures
        log.durable_position() < log.entries@.len() ==> log.durable_offset() == match decided_content(
            log.entries@[log.durable_position() as int],
        ) {
            Some((o, _)) => Some(o),
            None => None,
        },
        log.durable_position() >= log.entries@.len() ==> log.durable_offset() is None,
{
}

/// A replay yields only decided entries, in the order of the log: each replayed pair is
/// the offset and transaction of a decided slot, later pairs coming from later slots, and
/// there are never more pairs than slots.
pub proof fn lemma_replayed_are_decided(slots: Seq<LogSlot>)
    ensures
        decided_pairs(slots).len() <= slots.len(),
        exists|pos: Seq<int>|
            {
                &&& #[trigger] pos.len() == decided_pairs(slots).len()
                &&& forall|k: int|
                    0 <= k < pos.len() ==> 0 <= #[trigger] pos[k] < slots.len()
                        && decided_content(slots[pos[k]]) == Some(decided_pairs(slots)[k])
                &&& forall|k: int, l: int| 0 <= k < l < pos.len() ==> pos[k] < pos[l]
            },
    decreases slots.len(),
{
    if slots.len() == 0 {
        assert(Seq::<int>::empty().len() == decided_pairs(slots).len());
    } else {
        let rest = slots.drop_last();
        lemma_replayed_are_decided(rest);
        let pos = choose|pos: Seq<int>|
            {
                &&& #[trigger] pos.len() == decided_pairs(rest).len()
                &&& forall|k: int|
                    0 <= k < pos.len() ==> 0 <= #[trigger] pos[k] < rest.len()
                        && decided_content(rest[pos[k]]) == Some(decided_pairs(rest)[k])
                &&& forall|k: int, l: int| 0 <= k < l < pos.len() ==> pos[k] < pos[l]
            };
        match slots.last() {
            LogSlot::Decided(e) => {
                let pos2 = pos.push(slots.len() - 1);
                assert(pos2.len() == decided_pairs(slots).len());
                assert forall|k: int| 0 <= k < pos2.len() implies 0 <= #[trigger] pos2[k]
                    < slots.len() && decided_content(slots[pos2[k]]) == Some(
                    decided_pairs(slots)[k],
                ) by {
                    if k < pos.len() {
                        assert(slots[pos[k]] == rest[pos[k]]);
                    }
                }
            },
            _ => {
                assert(pos.len() == decided_pairs(slots).len());
                assert forall|k: int| 0 <= k < pos.len() implies 0 <= #[trigger] pos[k]
                    < slots.len() && decided_content(slots[pos[k]]) == Some(
                    decided_pairs(slots)[k],
                ) by {
                    assert(slots[pos[k]] == rest[pos[k]]);
                }
            },
        }
    }
}

/// The decided transactions at positions `lo` up to the decided index, in order.
pub open spec fn decided_run(log: &LogView, lo: int) -> Seq<(TxOffset, TxData)> {
    Seq::new(
        (log.decided_idx - lo) as nat,
        |k: int|
            (
                log.entries@[lo + k]->Decided_0.tx_offset,
                log.entries@[lo + k]->Decided_0.tx_data,
            ),
    )
}

/// Collecting the decided entries of two stretches of slots one after the other gives
/// the decided entries of each, one after the other.
pub proof fn lemma_decided_pairs_concat(a: Seq<LogSlot>, b: Seq<LogSlot>)
    ensures
        decided_pairs(a + b) == decided_pairs(a) + decided_pairs(b),
    decreases b.len(),
{
    if b.len() == 0 {
        assert(a + b =~= a);
        assert(decided_pairs(b) =~= Seq::<(TxOffset, TxData)>::empty());
        assert(decided_pairs(a) + decided_pairs(b) =~= decided_pairs(a));
    } else {
        lemma_decided_pairs_concat(a, b.drop_last());
        assert((a + b).drop_last() =~= a + b.drop_last());
        assert((a + b).last() == b.last());
        match b.last() {
            LogSlot::Decided(e) => {
                assert((decided_pairs(a) + decided_pairs(b.drop_last())).push((e.tx_offset, e.tx_data))
                    =~= decided_pairs(a) + decided_pairs(b.drop_last()).push((e.tx_offset, e.tx_data)));
            },
            _ => {},
        }
    }
}

/// Slots that are all decided yield one pair per slot, in order.
pub proof fn lemma_all_decided(slots: Seq<LogSlot>)
    requires
        forall|i: int| 0 <= i < slots.len() ==> #[trigger] slots[i] is Decided,
    ensures
        decided_pairs(slots).len() == slots.len(),
        forall|i: int|
            0 <= i < slots.len() ==> #[trigger] decided_pairs(slots)[i] == (
                slots[i]->Decided_0.tx_offset,
                slots[i]->Decided_0.tx_data,
            ),
    decreases slots.len(),
{
    if slots.len() > 0 {
        let rest = slots.drop_last();
        assert forall|i: int| 0 <= i < rest.len() implies #[trigger] rest[i] is Decided by {
            assert(rest[i] == slots[i]);
        }
        lemma_all_decided(rest);
        assert(slots.last() is Decided);
        assert forall|i: int| 0 <= i < slots.len() implies #[trigger] decided_pairs(slots)[i] == (
            slots[i]->Decided_0.tx_offset,
            slots[i]->Decided_0.tx_data,
        ) by {
            if i < rest.len() {
                assert(rest[i] == slots[i]);
            }
        }
    }
}

/// Slots none of which is decided yield nothing.
pub proof fn lemma_none_decided(slots: Seq<LogSlot>)
    requires
        forall|i: int| 0 <= i < slots.len() ==> !(#[trigger] slots[i] is Decided),
    ensures
        decided_pairs(slots) == Seq::<(TxOffset, TxData)>::empty(),
    decreases slots.len(),
{
    if slots.len() > 0 {
        let rest = slots.drop_last();
        assert forall|i: int| 0 <= i < rest.len() implies !(#[trigger] rest[i] is Decided) by {
            assert(rest[i] == slots[i]);
        }
        lemma_none_decided(rest);
        assert(!(slots[slots.len() - 1] is Decided));
    } else {
        assert(decided_pairs(slots) =~= Seq::<(TxOffset, TxData)>::empty());
    }
}

/// In a well-formed log, the slots a replay visits from position `lo` on yield the
/// decided transactions from `lo` up to the decided index, in order, each once; from a
/// position past the decided index they yield nothing.
pub proof fn lemma_window_is_decided_run(log: &LogView, lo: int)
    requires
        log.wf(),
        0 <= lo <= log.replay_end(),
    ensures
        lo <= log.decided_idx ==> decided_pairs(log.entries@.subrange(lo, log.replay_end()))
            == decided_run(log, lo),
        lo > log.decided_idx ==> decided_pairs(log.entries@.subrange(lo, log.replay_end()))
            == Seq::<(TxOffset, TxData)>::empty(),
{
    let e = log.replay_end();
    let d = log.decided_idx as int;
    let ent = log.entries@;
    if lo <= d {
        let a = ent.subrange(lo, d);
        let b = ent.subrange(d, e);
        assert(ent.subrange(lo, e) =~= a + b);
        lemma_decided_pairs_concat(a, b);
        assert forall|i: int| 0 <= i < a.len() implies #[trigger] a[i] is Decided by {
            assert(a[i] == ent[lo + i]);
        }
        lemma_all_decided(a);
        assert forall|i: int| 0 <= i < b.len() implies !(#[trigger] b[i] is Decided) by {
            assert(b[i] == ent[d + i]);
        }
        lemma_none_decided(b);
        assert(decided_pairs(a) + decided_pairs(b) =~= decided_pairs(a));
        assert forall|k: int| 0 <= k < a.len() implies #[trigger] decided_pairs(a)[k]
            == decided_run(log, lo)[k] by {
            assert(a[k] == ent[lo + k]);
        }
        assert(decided_pairs(a) =~= decided_run(log, lo));
    } else {
        let w = ent.subrange(lo, e);
        assert forall|i: int| 0 <= i < w.len() implies !(#[trigger] w[i] is Decided) by {
            assert(w[i] == ent[lo + i]);
        }
        lemma_none_decided(w);
    }
}

/// In a well-formed log the durable offset is the offset of the last decided
/// transaction, and there is none while nothing is decided.
pub proof fn lemma_wf_durable_offset(log: &LogView)
    requires
        log.wf(),
    ensures
        log.decided_idx == 0 ==> log.durable_offset() is None,
        log.decided_idx > 0 ==> log.durable_offset() == Some(
            log.entries@[log.decided_idx - 1]->Decided_0.tx_offset,
        ),
{
    if log.decided_idx == 0 && log.entries@.len() > 0 {
        assert(!(log.entries@[0] is Decided));
    }
    if log.decided_idx > 0 {
        assert(log.entries@[log.decided_idx - 1] is Decided);
    }
}

/// A replay of a whole well-formed log yields every decided transaction once, in log order;
/// it yields nothing while nothing is decided.
pub proof fn lemma_replay_all_yields_every_decided(log: &LogView)
    requires
        log.wf(),
        log.can_replay_all(),
    ensures
        decided_pairs(log.full_window()) == decided_run(log, 0),
{
    if log.decided_idx > 0 {
        lemma_window_is_decided_run(log, 0);
    } else {
        let w = log.full_window();
        assert(!(log.entries@[0] is Decided));
        assert(w.drop_last() =~= Seq::<LogSlot>::empty());
        assert(decided_pairs(w.drop_last()) =~= Seq::<(TxOffset, TxData)>::empty());
        assert(decided_run(log, 0) =~= Seq::<(TxOffset, TxData)>::empty());
    }
}

/// A replay after `offset` of a well-formed log in which something is decided yields the
/// decided transactions at the positions after `offset`, in order: `d - 1 - offset` of
/// them, or none when `offset` is at or past the last decided position.
pub proof fn lemma_replay_after_offset(log: &LogView, offset: TxOffset)
    requires
        log.wf(),
        log.decided_idx > 0,
        offset.0 < u64::MAX,
    ensures
        offset.0 + 1 < log.decided_idx ==> decided_pairs(log.replay_window(offset)) == decided_run(
            log,
            offset.0 + 1,
        ),
        offset.0 + 1 >= log.decided_idx ==> decided_pairs(log.replay_window(offset))
            == Seq::<(TxOffset, TxData)>::empty(),
{
    let lo = offset.0 + 1;
    if lo < log.replay_end() {
        lemma_window_is_decided_run(log, lo);
        if lo == log.decided_idx {
            assert(decided_run(log, lo) =~= Seq::<(TxOffset, TxData)>::empty());
        }
    } else {
        assert(decided_pairs(Seq::<LogSlot>::empty()) =~= Seq::<(TxOffset, TxData)>::empty());
    }
}

/// A replay after a later offset yields a suffix of a replay after an earlier one: what
/// the earlier replay yields is the decided entries between the two offsets followed by
/// what the later one yields.
pub proof fn lemma_replay_suffix(log: &LogView, o1: TxOffset, o2: TxOffset)
    requires
        log.decided_idx > 0,
        o1.0 <= o2.0 < u64::MAX,
    ensures
        ({
            let e = log.replay_end();
            let a = if o1.0 + 1 < e { o1.0 + 1 } else { e };
            let b = if o2.0 + 1 < e { o2.0 + 1 } else { e };
            decided_pairs(log.replay_window(o1)) == decided_pairs(log.entries@.subrange(a, b))
                + decided_pairs(log.replay_window(o2))
        }),
{
    let e = log.replay_end();
    let a = if o1.0 + 1 < e { o1.0 + 1 } else { e };
    let b = if o2.0 + 1 < e { o2.0 + 1 } else { e };
    let ent = log.entries@;
    assert(decided_pairs(Seq::<LogSlot>::empty()) =~= Seq::<(TxOffset, TxData)>::empty());
    if b < e {
        assert(log.replay_window(o1) =~= ent.subrange(a, b) + log.replay_window(o2));
        lemma_decided_pairs_concat(ent.subrange(a, b), log.replay_window(o2));
    } else {
        assert(log.replay_window(o2) =~= Seq::<LogSlot>::empty());
        if a < e {
            assert(log.replay_window(o1) =~= ent.subrange(a, b));
        } else {
            assert(ent.subrange(a, b) =~= Seq::<LogSlot>::empty());
        }
        assert(decided_pairs(log.replay_window(o1)) + Seq::<(TxOffset, TxData)>::empty()
            =~= decided_pairs(log.replay_window(o1)));
    }
}

/// A replay of the whole log yields the decided entry at position 0, if any, followed by
/// what a replay after offset 0 yields; with nothing decided both read the first slot.
pub proof fn lemma_replay_all_is_first_then_after_zero(log: &LogView)
    requires
        log.entries@.len() > 0,
    ensures
        log.decided_idx == 0 ==> log.full_window() == log.replay_window(TxOffset(0)),
        log.decided_idx > 0 ==> decided_pairs(log.full_window()) == decided_pairs(
            seq![log.entries@[0]],
        ) + decided_pairs(log.replay_window(TxOffset(0))),
{
    if log.decided_idx > 0 {
        let e = log.replay_end();
        let ent = log.entries@;
        assert(decided_pairs(Seq::<LogSlot>::empty()) =~= Seq::<(TxOffset, TxData)>::empty());
        if 1 < e {
            assert(log.full_window() =~= seq![ent[0]] + log.replay_window(TxOffset(0)));
            lemma_decided_pairs_concat(seq![ent[0]], log.replay_window(TxOffset(0)));
        } else {
            assert(log.full_window() =~= seq![ent[0]]);
            assert(log.replay_window(TxOffset(0)) =~= Seq::<LogSlot>::empty());
            assert(decided_pairs(seq![ent[0]]) + Seq::<(TxOffset, TxData)>::empty()
                =~= decided_pairs(seq![ent[0]]));
        }
    }
}

/// From two decided transactions on, the durable offset and the optional durable offset
/// agree whenever the latter exists, and in a well-formed log it always does.
pub proof fn lemma_durable_offsets_agree(log: &LogView)
    requires
        log.decided_idx >= 2,
    ensures
        log.durable_offset() is Some ==> Some(log.durable_tx_offset()) == log.durable_offset(),
        log.wf() ==> Some(log.durable_tx_offset()) == log.durable_offset(),
{
    if log.wf() {
        lemma_wf_durable_offset(log);
    }
}

/// In a well-formed log in which something is decided, a replay after a later offset
/// yields exactly the last `max(0, d - 1 - o2)` transactions that a replay after an
/// earlier offset yields.
pub proof fn lemma_replay_suffix_count(log: &LogView, o1: TxOffset, o2: TxOffset)
    requires
        log.wf(),
        log.decided_idx > 0,
        o1.0 <= o2.0 < u64::MAX,
    ensures
        ({
            let p1 = decided_pairs(log.replay_window(o1));
            let p2 = decided_pairs(log.replay_window(o2));
            let n2 = if o2.0 + 1 < log.decided_idx { log.decided_idx - 1 - o2.0 } else { 0 };
            &&& p2.len() == n2
            &&& n2 <= p1.len()
            &&& p2 == p1.subrange(p1.len() - n2, p1.len() as int)
        }),
{
    lemma_replay_after_offset(log, o1);
    lemma_replay_after_offset(log, o2);
    let p1 = decided_pairs(log.replay_window(o1));
    let p2 = decided_pairs(log.replay_window(o2));
    let d = log.decided_idx as int;
    if o2.0 + 1 < d {
        let lo1 = o1.0 + 1;
        let lo2 = o2.0 + 1;
        assert(p1 == decided_run(log, lo1));
        assert(p2 =~= p1.subrange(p1.len() - (d - lo2), p1.len() as int));
    } else {
        assert(p2 =~= p1.subrange(p1.len() as int, p1.len() as int));
    }
}

/// The `method_protocol_status` field reads back as its parts, whatever they are: the
/// method, `" - "`, the protocol, `" - "`, and decimal digits that denote the status code.
pub proof fn lemma_status_text_reads_back(method: Seq<char>, protocol: Seq<char>, status_code: u16)
    ensures
        ({
            let t = status_text(method, protocol, status_code);
            let m = method.len() as int;
            let p = protocol.len() as int;
            let k = m + 3 + p + 3;
            &&& t.len() > k
            &&& t.subrange(0, m) == method
            &&& t.subrange(m, m + 3) == seq![' ', '-', ' ']
            &&& t.subrange(m + 3, m + 3 + p) == protocol
            &&& t.subrange(m + 3 + p, k) == seq![' ', '-', ' ']
            &&& all_digits(t.subrange(k, t.len() as int))
            &&& digits_value(t.subrange(k, t.len() as int)) == status_code
        }),
{
    let t = status_text(method, protocol, status_code);
    let m = method.len() as int;
    let p = protocol.len() as int;
    let k = m + 3 + p + 3;
    let digits = decimal(status_code as nat);
    lemma_decimal_reads_back(status_code as nat);
    assert(t.subrange(0, m) =~= method);
    assert(t.subrange(m, m + 3) =~= seq![' ', '-', ' ']);
    assert(t.subrange(m + 3, m + 3 + p) =~= protocol);
    assert(t.subrange(m + 3 + p, k) =~= seq![' ', '-', ' ']);
    assert(t.subrange(k, t.len() as int) =~= digits);
}

/// The `date` field reads back as its parts, whatever they are: decimal digits that denote
/// the day, `" - "`, the month, `" - "`, and decimal digits that denote the year. The
/// returned `k` is where the day's digits end.
pub proof fn lemma_date_text_reads_back(day: u8, month: Seq<char>, year: u16) -> (k: int)
    ensures
        ({
            let t = date_text(day, month, year);
            let mo = month.len() as int;
            &&& 0 < k
            &&& t.len() > k + 3 + mo + 3
            &&& all_digits(t.subrange(0, k))
            &&& digits_value(t.subrange(0, k)) == day
            &&& t.subrange(k, k + 3) == seq![' ', '-', ' ']
            &&& t.subrange(k + 3, k + 3 + mo) == month
            &&& t.subrange(k + 3 + mo, k + 6 + mo) == seq![' ', '-', ' ']
            &&& all_digits(t.subrange(k + 6 + mo, t.len() as int))
            &&& digits_value(t.subrange(k + 6 + mo, t.len() as int)) == year
        }),
{
    let t = date_text(day, month, year);
    let mo = month.len() as int;
    lemma_decimal_reads_back(day as nat);
    lemma_decimal_reads_back(year as nat);
    let k = decimal(day as nat).len() as int;
    assert(t.subrange(0, k) =~= decimal(day as nat));
    assert(t.subrange(k, k + 3) =~= seq![' ', '-', ' ']);
    assert(t.subrange(k + 3, k + 3 + mo) =~= month);
    assert(t.subrange(k + 3 + mo, k + 6 + mo) =~= seq![' ', '-', ' ']);
    assert(t.subrange(k + 6 + mo, t.len() as int) =~= decimal(year as nat));
    k
}

/// A replica leads exactly when the leader it follows is its own node; of two replicas
/// that follow the same leader, at most one leads.
pub proof fn lemma_leads_iff_own_leader(log: &LogView, other: &LogView)
    ensures
        log.leads() <==> log.current_leader == Some(log.node_id),
        log.current_leader != Some(log.node_id) ==> !log.leads(),
        (other.current_leader == log.current_leader && other.node_id != log.node_id) ==> !(
        log.leads() && other.leads()),
{
}

/// The durable offset is 0 while at most one transaction is decided; from two on, in a
/// well-formed log, it is the offset of the last decided transaction.
pub proof fn lemma_durable_tx_offset_value(log: &LogView)
    ensures
        log.decided_idx <= 1 ==> log.durable_tx_offset() == TxOffset(0),
        log.wf() && log.decided_idx >= 2 ==> log.durable_tx_offset()
            == log.entries@[log.decided_idx - 1]->Decided_0.tx_offset,
{
    if log.wf() {
        lemma_wf_durable_offset(log);
    }
}

/// Reading a slot for a decided transaction yields its offset and transaction exactly
/// when the slot is decided.
pub proof fn lemma_decided_content(slot: LogSlot)
    ensures
        decided_content(slot) is Some <==> slot is Decided,
        slot is Decided ==> decided_content(slot) == Some(
            (slot->Decided_0.tx_offset, slot->Decided_0.tx_data),
        ),
{
}

/// The decided run from `lo` lists, in order, the offset and transaction of each entry
/// from position `lo` up to the decided index.
pub proof fn lemma_decided_run_elements(log: &LogView, lo: int)
    requires
        0 <= lo <= log.decided_idx,
    ensures
        decided_run(log, lo).len() == log.decided_idx - lo,
        forall|k: int|
            0 <= k < log.decided_idx - lo ==> #[trigger] decided_run(log, lo)[k] == (
                log.entries@[lo + k]->Decided_0.tx_offset,
                log.entries@[lo + k]->Decided_0.tx_data,
            ),
{
}

/// Which slots a replay visits. With something decided, a replay after `offset` visits
/// the existing positions after `offset` up to and including the decided index, and a
/// replay of the whole log those from position 0 on; with nothing decided, both visit the
/// single slot at `offset` (position 0 for the whole log).
pub proof fn lemma_replay_window_bounds(log: &LogView, offset: TxOffset)
    ensures
        ({
            let len = log.entries@.len() as int;
            let d = log.decided_idx as int;
            let end = if d + 1 < len { d + 1 } else { len };
            let lo = if offset.0 + 1 < end { offset.0 + 1 } else { end };
            &&& d > 0 ==> log.replay_window(offset) == log.entries@.subrange(lo, end)
            &&& d > 0 ==> log.full_window() == log.entries@.subrange(0, end)
            &&& d == 0 ==> log.replay_window(offset) == seq![log.entries@[offset.0 as int]]
            &&& d == 0 ==> log.full_window() == seq![log.entries@[0]]
        }),
{
    let len = log.entries@.len() as int;
    let d = log.decided_idx as int;
    let end = if d + 1 < len { d + 1 } else { len };
    if d > 0 && !(offset.0 + 1 < end) {
        assert(log.entries@.subrange(end, end) =~= Seq::<LogSlot>::empty());
    }
}

} // verus!
