//! Which server the user chose: none, for the best one, or a place in the pool.
use vstd::prelude::*;

use crate::ui::models::ServerInfo;

verus! {

/// The chosen server as the window and the tray remember it.
#[derive(Debug)]
pub struct SelectedServer(pub Option<usize>);

impl Default for SelectedServer {
    fn default() -> (s: SelectedServer)
        ensures
            s.0 is None,
    {
        SelectedServer(None)
    }
}

/// The pin that a selection call's argument stands for: a negative number is automatic.
pub open spec fn pin_of(index: int) -> Option<int> {
    if index < 0 {
        None
    } else {
        Some(index)
    }
}

/// The argument of a selection call for a pin: -1 where there is none, or where it does not fit.
pub open spec fn number_of(pin: Option<usize>) -> int {
    match pin {
        Some(i) => if i <= i32::MAX {
            i as int
        } else {
            -1
        },
        None => -1,
    }
}

/// The pin that a selection call's argument stands for.
pub fn tray_pin(index: i32) -> (pin: Option<usize>)
    ensures
        pin is None <==> index < 0,
        pin matches Some(i) ==> i == index,
{
    if index < 0 {
        None
    } else {
        Some(index as usize)
    }
}

/// The argument of a selection call for a pin.
pub fn tray_pin_to_i32(pin: Option<usize>) -> (index: i32)
    ensures
        index == number_of(pin),
{
    match pin {
        Some(i) => {
            let wide: u64 = i as u64;
            if wide <= i32::MAX as u64 {
                i as i32
            } else {
                -1
            }
        },
        None => -1,
    }
}

/// The place of the first server that the snapshot marks as pinned.
pub open spec fn pinned_at(servers: Seq<ServerInfo>) -> Option<int>
    decreases servers.len(),
{
    if servers.len() == 0 {
        None
    } else {
        match pinned_at(servers.drop_last()) {
            Some(i) => Some(i),
            None => if servers.last().is_pinned {
                Some(servers.len() - 1)
            } else {
                None
            },
        }
    }
}

/// The pin that a snapshot gives: the pool index of its first pinned server.
pub open spec fn snapshot_pin(servers: Seq<ServerInfo>) -> Option<usize> {
    match pinned_at(servers) {
        Some(i) => Some(servers[i].index),
        None => None,
    }
}

/// The place that `pinned_at` names holds a pinned server, and none before it does.
pub proof fn lemma_pinned_at(servers: Seq<ServerInfo>)
    ensures
        pinned_at(servers) matches Some(i) ==> 0 <= i < servers.len() && servers[i].is_pinned && (
        forall|j: int| 0 <= j < i ==> !(#[trigger] servers[j]).is_pinned),
        pinned_at(servers) is None ==> forall|j: int|
            0 <= j < servers.len() ==> !(#[trigger] servers[j]).is_pinned,
    decreases servers.len(),
{
    if servers.len() > 0 {
        let rest = servers.drop_last();
        lemma_pinned_at(rest);
        assert forall|j: int| 0 <= j < rest.len() implies #[trigger] servers[j] == rest[j] by {}
    }
}

/// The pin that a snapshot gives, if it gives one.
pub fn pin_from_snapshot(servers: &[ServerInfo]) -> (pin: Option<usize>)
    ensures
        pin == snapshot_pin(servers@),
{
    let mut i: usize = 0;
    assert(servers@.take(0) =~= Seq::empty());
    while i < servers.len()
        invariant
            i <= servers@.len(),
            pinned_at(servers@.take(i as int)) is None,
        decreases servers@.len() - i,
    {
        assert(servers@.take(i + 1).drop_last() =~= servers@.take(i as int));
        if servers[i].is_pinned {
            proof {
                lemma_first_stays(servers@, i + 1);
            }
            return Some(servers[i].index);
        }
        i = i + 1;
    }
    assert(servers@.take(i as int) =~= servers@);
    None
}

proof fn lemma_first_stays(servers: Seq<ServerInfo>, n: int)
    requires
        0 <= n <= servers.len(),
        pinned_at(servers.take(n)) is Some,
    ensures
        pinned_at(servers) == pinned_at(servers.take(n)),
    decreases servers.len() - n,
{
    if n < servers.len() {
        assert(servers.take(n + 1).drop_last() =~= servers.take(n));
        lemma_first_stays(servers, n + 1);
    } else {
        assert(servers.take(n) =~= servers);
    }
}

/// The remembered pin after a snapshot: a pin in the snapshot wins, and a snapshot without one
/// leaves the memory alone, since that is also what a pool that is not running reports.
pub open spec fn synced(remembered: Option<usize>, servers: Seq<ServerInfo>) -> Option<usize> {
    match snapshot_pin(servers) {
        Some(i) => Some(i),
        None => remembered,
    }
}

/// What a selection leaves remembered: the new pin only where the tunnel took it.
pub open spec fn selected_after(
    remembered: Option<usize>,
    pin: Option<usize>,
    taken: bool,
) -> Option<usize> {
    if taken {
        pin
    } else {
        remembered
    }
}

impl SelectedServer {
    /// Follows a snapshot of the pool.
    pub fn sync(&mut self, servers: &[ServerInfo])
        ensures
            final(self).0 == synced(old(self).0, servers@),
    {
        if let Some(i) = pin_from_snapshot(servers) {
            self.0 = Some(i);
        }
    }

    /// Records a selection once the tunnel has answered it.
    pub fn record(&mut self, pin: Option<usize>, taken: bool)
        ensures
            final(self).0 == selected_after(old(self).0, pin, taken),
    {
        if taken {
            self.0 = pin;
        }
    }
}

/// A pin that fits in the call's argument comes back from it as it was.
pub proof fn lemma_pin_round_trip(pin: Option<usize>)
    requires
        pin matches Some(i) ==> i <= i32::MAX,
    ensures
        match pin {
            Some(i) => pin_of(number_of(pin)) == Some(i as int),
            None => pin_of(number_of(pin)) is None,
        },
{
}

/// A pin that does not fit is automatic: it never wraps round to another server.
pub proof fn lemma_large_pin_is_automatic(i: usize)
    requires
        i > i32::MAX,
    ensures
        pin_of(number_of(Some(i))) is None,
{
}

/// The pin follows its server: when the pool is reordered, what is remembered is the index of the
/// pinned server in the new order.
pub proof fn lemma_pin_follows_its_server(
    remembered: Option<usize>,
    servers: Seq<ServerInfo>,
    i: int,
)
    requires
        0 <= i < servers.len(),
        servers[i].is_pinned,
        forall|j: int| 0 <= j < servers.len() && j != i ==> !(#[trigger] servers[j]).is_pinned,
    ensures
        synced(remembered, servers) == Some(servers[i].index),
{
    lemma_pinned_at(servers);
}

/// A snapshot in which nothing is pinned leaves what is remembered alone.
pub proof fn lemma_no_pin_changes_nothing(remembered: Option<usize>, servers: Seq<ServerInfo>)
    requires
        forall|j: int| 0 <= j < servers.len() ==> !(#[trigger] servers[j]).is_pinned,
    ensures
        synced(remembered, servers) == remembered,
{
    lemma_pinned_at(servers);
}

} // verus!
