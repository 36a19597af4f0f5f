//! Aggregate counters of the tunnel server.
//!
//! Counters carry what an operator needs without ever holding a record that describes one user. The one
//! counter with an attribute is keyed by the kind of a connect error, whose labels are a closed set; no
//! destination, address, connection id or stream id is ever part of a series.
//!
//! All counters are running totals: a missed export costs resolution, never counts.
use vstd::prelude::*;

use crate::table;
use crate::table::Table;

verus! {

/// The kind of a connect error.
#[derive(Debug, Clone, Copy, PartialEq, Eq, Structural)]
pub enum ErrorKind {
    /// An entity was not found.
    NotFound,
    /// Permission was denied.
    PermissionDenied,
    /// The connection was refused.
    ConnectionRefused,
    /// The connection was reset.
    ConnectionReset,
    /// The host is not reachable.
    HostUnreachable,
    /// The network is not reachable.
    NetworkUnreachable,
    /// The connection was aborted.
    ConnectionAborted,
    /// There is no connection.
    NotConnected,
    /// The address is in use.
    AddrInUse,
    /// The address is not available.
    AddrNotAvailable,
    /// The network is down.
    NetworkDown,
    /// The pipe was closed.
    BrokenPipe,
    /// An entity exists.
    AlreadyExists,
    /// The operation would block.
    WouldBlock,
    /// A parameter is wrong.
    InvalidInput,
    /// Data are wrong.
    InvalidData,
    /// The operation timed out.
    TimedOut,
    /// A write wrote nothing.
    WriteZero,
    /// The operation was interrupted.
    Interrupted,
    /// The operation is not supported.
    Unsupported,
    /// The input ended too early.
    UnexpectedEof,
    /// There is not enough memory.
    OutOfMemory,
    /// Anything else.
    Other,
}

/// The number of labels.
pub const LABELS: u64 = 11;

/// The place of a kind's label in alphabetical order. Kinds without a label of their own are `other`.
pub open spec fn label_of(kind: ErrorKind) -> u64 {
    match kind {
        ErrorKind::AddrNotAvailable => 0,
        ErrorKind::ConnectionAborted => 1,
        ErrorKind::ConnectionRefused => 2,
        ErrorKind::ConnectionReset => 3,
        ErrorKind::HostUnreachable => 4,
        ErrorKind::InvalidInput => 5,
        ErrorKind::NetworkUnreachable => 6,
        ErrorKind::NotConnected => 7,
        ErrorKind::PermissionDenied => 9,
        ErrorKind::TimedOut => 10,
        _ => 8,
    }
}

/// The label at a place.
pub open spec fn label_text(place: u64) -> Seq<char> {
    if place == 0 {
        "addr_not_available"@
    } else if place == 1 {
        "connection_aborted"@
    } else if place == 2 {
        "connection_refused"@
    } else if place == 3 {
        "connection_reset"@
    } else if place == 4 {
        "host_unreachable"@
    } else if place == 5 {
        "invalid_input"@
    } else if place == 6 {
        "network_unreachable"@
    } else if place == 7 {
        "not_connected"@
    } else if place == 9 {
        "permission_denied"@
    } else if place == 10 {
        "timed_out"@
    } else {
        "other"@
    }
}

fn label_place(kind: ErrorKind) -> (place: u64)
    ensures
        place == label_of(kind),
{
    match kind {
        ErrorKind::AddrNotAvailable => 0,
        ErrorKind::ConnectionAborted => 1,
        ErrorKind::ConnectionRefused => 2,
        ErrorKind::ConnectionReset => 3,
        ErrorKind::HostUnreachable => 4,
        ErrorKind::InvalidInput => 5,
        ErrorKind::NetworkUnreachable => 6,
        ErrorKind::NotConnected => 7,
        ErrorKind::PermissionDenied => 9,
        ErrorKind::TimedOut => 10,
        _ => 8,
    }
}

/// The label at a place.
pub fn label_at(place: u64) -> (s: &'static str)
    ensures
        s@ == label_text(place),
{
    if place == 0 {
        "addr_not_available"
    } else if place == 1 {
        "connection_aborted"
    } else if place == 2 {
        "connection_refused"
    } else if place == 3 {
        "connection_reset"
    } else if place == 4 {
        "host_unreachable"
    } else if place == 5 {
        "invalid_input"
    } else if place == 6 {
        "network_unreachable"
    } else if place == 7 {
        "not_connected"
    } else if place == 9 {
        "permission_denied"
    } else if place == 10 {
        "timed_out"
    } else {
        "other"
    }
}

/// The label of a kind.
pub fn kind_label(kind: ErrorKind) -> (s: &'static str)
    ensures
        s@ == label_text(label_of(kind)),
{
    label_at(label_place(kind))
}

/// A counter after `n` more: counters go round at the largest number.
pub open spec fn counted(c: u64, n: u64) -> u64 {
    ((c + n) % 0x1_0000_0000_0000_0000) as u64
}

/// The values of all counters.
#[verifier::ext_equal]
pub struct Counts {
    /// Queries that came in.
    pub queries: u64,
    /// Answers that went out.
    pub answers: u64,
    /// Streams for which a connection was started.
    pub streams_opened: u64,
    /// Targets that could not be decoded.
    pub undecodable_targets: u64,
    /// Streams dropped for their backlog.
    pub backlog_drops: u64,
    /// Connects that took too long.
    pub connect_timeouts: u64,
    /// Sessions dropped as idle.
    pub sessions_swept: u64,
    /// Bytes handed to targets.
    pub bytes_uplink: u64,
    /// Bytes read from targets.
    pub bytes_downlink: u64,
    /// Connect errors, by the place of their label.
    pub connect_failures: Seq<(u64, u64)>,
}

/// All counters at zero.
pub open spec fn no_counts() -> Counts {
    Counts {
        queries: 0,
        answers: 0,
        streams_opened: 0,
        undecodable_targets: 0,
        backlog_drops: 0,
        connect_timeouts: 0,
        sessions_swept: 0,
        bytes_uplink: 0,
        bytes_downlink: 0,
        connect_failures: Seq::empty(),
    }
}

/// Connect errors stand by rising place of their label, and every label is of the closed set.
pub open spec fn failures_ok(s: Seq<(u64, u64)>) -> bool {
    table::keyed(s) && forall|i: int| 0 <= i < s.len() ==> (#[trigger] s[i]).0 < LABELS
}

/// The connect errors after one more of this label.
pub open spec fn failed_once_more(s: Seq<(u64, u64)>, place: u64) -> Seq<(u64, u64)> {
    table::with(
        s,
        place,
        if table::holds(s, place) {
            counted(table::at(s, place), 1)
        } else {
            1
        },
    )
}

/// The values of all counters at one time.
#[derive(Debug)]
pub struct Snapshot {
    /// Queries that came in.
    pub queries: u64,
    /// Answers that went out.
    pub answers: u64,
    /// Streams for which a connection was started.
    pub streams_opened: u64,
    /// Targets that could not be decoded.
    pub undecodable_targets: u64,
    /// Streams dropped for their backlog.
    pub backlog_drops: u64,
    /// Connects that took too long.
    pub connect_timeouts: u64,
    /// Sessions dropped as idle.
    pub sessions_swept: u64,
    /// Bytes handed to targets.
    pub bytes_uplink: u64,
    /// Bytes read from targets.
    pub bytes_downlink: u64,
    /// Connect errors, by the place of their label.
    pub connect_failures: Table<u64>,
}

impl View for Snapshot {
    type V = Counts;

    open spec fn view(&self) -> Counts {
        Counts {
            queries: self.queries,
            answers: self.answers,
            streams_opened: self.streams_opened,
            undecodable_targets: self.undecodable_targets,
            backlog_drops: self.backlog_drops,
            connect_timeouts: self.connect_timeouts,
            sessions_swept: self.sessions_swept,
            bytes_uplink: self.bytes_uplink,
            bytes_downlink: self.bytes_downlink,
            connect_failures: self.connect_failures@,
        }
    }
}

impl Default for Snapshot {
    fn default() -> (s: Snapshot)
        ensures
            s@ == no_counts(),
    {
        Snapshot {
            queries: 0,
            answers: 0,
            streams_opened: 0,
            undecodable_targets: 0,
            backlog_drops: 0,
            connect_timeouts: 0,
            sessions_swept: 0,
            bytes_uplink: 0,
            bytes_downlink: 0,
            connect_failures: Table::new(),
        }
    }
}

impl Snapshot {
    /// The labels of connect errors with their counts, in alphabetical order of the labels.
    pub fn failures(&self) -> (out: Vec<(&'static str, u64)>)
        ensures
            out@.len() == self@.connect_failures.len(),
            forall|i: int|
                0 <= i < out@.len() ==> (#[trigger] out@[i]).0@ == label_text(
                    self@.connect_failures[i].0,
                ) && out@[i].1 == self@.connect_failures[i].1,
    {
        let mut out: Vec<(&'static str, u64)> = Vec::new();
        let mut i: usize = 0;
        while i < self.connect_failures.len()
            invariant
                i <= self@.connect_failures.len(),
                out@.len() == i,
                forall|j: int|
                    0 <= j < i ==> (#[trigger] out@[j]).0@ == label_text(
                        self@.connect_failures[j].0,
                    ) && out@[j].1 == self@.connect_failures[j].1,
            decreases self@.connect_failures.len() - i,
        {
            out.push((label_at(self.connect_failures.key(i)), *self.connect_failures.value(i)));
            i = i + 1;
        }
        out
    }

    /// How many connect errors of a kind there were.
    pub fn failures_of(&self, kind: ErrorKind) -> (n: u64)
        requires
            failures_ok(self@.connect_failures),
        ensures
            n == if table::holds(self@.connect_failures, label_of(kind)) {
                table::at(self@.connect_failures, label_of(kind))
            } else {
                0
            },
    {
        match self.connect_failures.find(label_place(kind)) {
            Some(i) => *self.connect_failures.value(i),
            None => 0,
        }
    }
}

/// The counters of a running server.
#[derive(Debug)]
pub struct Metrics {
    counts: Snapshot,
}

impl View for Metrics {
    type V = Counts;

    closed spec fn view(&self) -> Counts {
        self.counts@
    }
}

impl Default for Metrics {
    fn default() -> (m: Metrics)
        ensures
            m.wf(),
            m@ == no_counts(),
    {
        Metrics { counts: Snapshot::default() }
    }
}

impl Metrics {
    /// What every operation keeps.
    pub open spec fn wf(&self) -> bool {
        failures_ok(self@.connect_failures)
    }

    /// All counters at zero.
    pub fn new() -> (m: Metrics)
        ensures
            m.wf(),
            m@ == no_counts(),
    {
        Metrics::default()
    }

    /// Counts a query.
    pub fn query_received(&mut self)
        requires
            old(self).wf(),
        ensures
            final(self).wf(),
            final(self)@ == (Counts { queries: counted(old(self)@.queries, 1), ..old(self)@ }),
    {
        self.counts.queries = self.counts.queries.wrapping_add(1);
    }

    /// Counts an answer.
    pub fn answer_sent(&mut self)
        requires
            old(self).wf(),
        ensures
            final(self).wf(),
            final(self)@ == (Counts { answers: counted(old(self)@.answers, 1), ..old(self)@ }),
    {
        self.counts.answers = self.counts.answers.wrapping_add(1);
    }

    /// Counts a stream for which a connection was started.
    pub fn stream_opened(&mut self)
        requires
            old(self).wf(),
        ensures
            final(self).wf(),
            final(self)@ == (Counts {
                streams_opened: counted(old(self)@.streams_opened, 1),
                ..old(self)@
            }),
    {
        self.counts.streams_opened = self.counts.streams_opened.wrapping_add(1);
    }

    /// Counts a target that could not be decoded.
    pub fn undecodable_target(&mut self)
        requires
            old(self).wf(),
        ensures
            final(self).wf(),
            final(self)@ == (Counts {
                undecodable_targets: counted(old(self)@.undecodable_targets, 1),
                ..old(self)@
            }),
    {
        self.counts.undecodable_targets = self.counts.undecodable_targets.wrapping_add(1);
    }

    /// Counts a stream that was dropped for its backlog.
    pub fn backlog_drop(&mut self)
        requires
            old(self).wf(),
        ensures
            final(self).wf(),
            final(self)@ == (Counts {
                backlog_drops: counted(old(self)@.backlog_drops, 1),
                ..old(self)@
            }),
    {
        self.counts.backlog_drops = self.counts.backlog_drops.wrapping_add(1);
    }

    /// Counts a connect that took too long.
    pub fn connect_timeout(&mut self)
        requires
            old(self).wf(),
        ensures
            final(self).wf(),
            final(self)@ == (Counts {
                connect_timeouts: counted(old(self)@.connect_timeouts, 1),
                ..old(self)@
            }),
    {
        self.counts.connect_timeouts = self.counts.connect_timeouts.wrapping_add(1);
    }

    /// Counts `n` sessions that were dropped as idle.
    pub fn sessions_swept(&mut self, n: u64)
        requires
            old(self).wf(),
        ensures
            final(self).wf(),
            final(self)@ == (Counts {
                sessions_swept: counted(old(self)@.sessions_swept, n),
                ..old(self)@
            }),
    {
        self.counts.sessions_swept = self.counts.sessions_swept.wrapping_add(n);
    }

    /// Counts `n` bytes handed to a target.
    pub fn uplink(&mut self, n: u64)
        requires
            old(self).wf(),
        ensures
            final(self).wf(),
            final(self)@ == (Counts {
                bytes_uplink: counted(old(self)@.bytes_uplink, n),
                ..old(self)@
            }),
    {
        self.counts.bytes_uplink = self.counts.bytes_uplink.wrapping_add(n);
    }

    /// Counts `n` bytes read from a target.
    pub fn downlink(&mut self, n: u64)
        requires
            old(self).wf(),
        ensures
            final(self).wf(),
            final(self)@ == (Counts {
                bytes_downlink: counted(old(self)@.bytes_downlink, n),
                ..old(self)@
            }),
    {
        self.counts.bytes_downlink = self.counts.bytes_downlink.wrapping_add(n);
    }

    /// Counts a connect error under the label of its kind. It takes the kind, since an error's text can
    /// hold the name of a destination.
    pub fn egress_connect_failed(&mut self, kind: ErrorKind)
        requires
            old(self).wf(),
        ensures
            final(self).wf(),
            final(self)@ == (Counts {
                connect_failures: failed_once_more(
                    old(self)@.connect_failures,
                    label_of(kind),
                ),
                ..old(self)@
            }),
    {
        let ghost s = self@.connect_failures;
        let place: u64 = label_place(kind);
        let n: u64 = match self.counts.connect_failures.find(place) {
            Some(i) => (*self.counts.connect_failures.value(i)).wrapping_add(1),
            None => 1,
        };
        self.counts.connect_failures.put(place, n);
        proof {
            lemma_closed_set(s, place, n);
            assert(self@.connect_failures == failed_once_more(s, place));
        }
    }

    /// The values of all counters.
    pub fn snapshot(&self) -> (s: Snapshot)
        requires
            self.wf(),
        ensures
            s@ == self@,
    {
        let mut failures: Table<u64> = Table::new();
        let ghost all = self@.connect_failures;
        let mut i: usize = 0;
        assert(all.take(0) =~= Seq::empty());
        while i < self.counts.connect_failures.len()
            invariant
                i <= all.len(),
                all == self@.connect_failures,
                failures_ok(all),
                failures@ == all.take(i as int),
                table::keyed(failures@),
            decreases all.len() - i,
        {
            let k: u64 = self.counts.connect_failures.key(i);
            let v: u64 = *self.counts.connect_failures.value(i);
            proof {
                let t = all.take(i as int);
                if t.len() > 0 {
                    assert(t[t.len() - 1] == all[i - 1]);
                    assert(all[i - 1].0 < all[i as int].0);
                }
                table::lemma_rank_is(t, k, i as int);
                assert(table::with(t, k, v) =~= all.take(i + 1));
            }
            failures.put(k, v);
            i = i + 1;
        }
        assert(all.take(i as int) =~= all);
        Snapshot {
            queries: self.counts.queries,
            answers: self.counts.answers,
            streams_opened: self.counts.streams_opened,
            undecodable_targets: self.counts.undecodable_targets,
            backlog_drops: self.counts.backlog_drops,
            connect_timeouts: self.counts.connect_timeouts,
            sessions_swept: self.counts.sessions_swept,
            bytes_uplink: self.counts.bytes_uplink,
            bytes_downlink: self.counts.bytes_downlink,
            connect_failures: failures,
        }
    }
}

proof fn lemma_closed_set(s: Seq<(u64, u64)>, place: u64, n: u64)
    requires
        failures_ok(s),
        place < LABELS,
    ensures
        failures_ok(table::with(s, place, n)),
{
    table::lemma_with(s, place, n);
    table::lemma_rank(s, place);
    let t = table::with(s, place, n);
    let r = table::rank(s, place) as int;
    assert forall|i: int| 0 <= i < t.len() implies (#[trigger] t[i]).0 < LABELS by {
        if i == r {
        } else if table::holds(s, place) || i < r {
            assert(t[i] == s[i]);
        } else {
            assert(t[i] == s[i - 1]);
        }
    }
}

/// Every label comes from the closed set, whatever goes wrong on the network.
pub proof fn lemma_labels_are_closed(kind: ErrorKind)
    ensures
        label_of(kind) < LABELS,
{
}

/// A counter never falls, as long as it does not go round.
pub proof fn lemma_counters_never_fall(c: u64, n: u64)
    requires
        c + n <= u64::MAX,
    ensures
        counted(c, n) == c + n,
        counted(c, n) >= c,
{
}

/// A connect error counts under its own label and under no other.
pub proof fn lemma_failures_count_apart(s: Seq<(u64, u64)>, place: u64, other: u64)
    requires
        failures_ok(s),
        other != place,
    ensures
        table::holds(failed_once_more(s, place), place),
        table::holds(failed_once_more(s, place), other) == table::holds(s, other),
        table::holds(s, other) ==> table::at(failed_once_more(s, place), other) == table::at(
            s,
            other,
        ),
{
    let n = if table::holds(s, place) {
        counted(table::at(s, place), 1)
    } else {
        1
    };
    table::lemma_with(s, place, n);
    table::lemma_with_other(s, place, n, other);
}

} // verus!
