//! Lifecycle states of work items and the registry that holds one per item.

use crate::counting::{count, lemma_count_le_len, lemma_count_push, lemma_count_update};
use vstd::prelude::*;

verus! {

/// Where one work item stands.
///
/// An item starts `Queued`. A worker that claims it moves it to `Running` and
/// then to `Done` or `Error`; cancellation moves a `Queued` item to
/// `Canceled`. Nothing else is a legal step: in particular a `Running` item is
/// never canceled.
#[derive(Clone, Copy, Debug, PartialEq, Eq, Structural)]
pub enum Status {
    Queued,
    Running,
    Done,
    Error,
    Canceled,
}

impl Status {
    /// `Done`, `Error` and `Canceled` are final.
    pub open spec fn is_terminal(self) -> bool {
        self is Done || self is Error || self is Canceled
    }

    /// The legal steps of the lifecycle.
    pub open spec fn may_become(self, next: Status) -> bool {
        ||| self is Queued && next is Running
        ||| self is Queued && next is Canceled
        ||| self is Running && next is Done
        ||| self is Running && next is Error
    }

    /// Whether `later` can be reached from this state by legal steps.
    pub open spec fn leads_to(self, later: Status) -> bool {
        ||| self == later
        ||| self.may_become(later)
        ||| self is Queued && (later is Done || later is Error)
    }

    /// Whether the state is final.
    pub fn terminal(self) -> (b: bool)
        ensures
            b == self.is_terminal(),
    {
        match self {
            Status::Done | Status::Error | Status::Canceled => true,
            Status::Queued | Status::Running => false,
        }
    }

    /// Whether `next` may follow this state.
    pub fn allows(self, next: Status) -> (b: bool)
        ensures
            b == self.may_become(next),
    {
        match (self, next) {
            (Status::Queued, Status::Running) => true,
            (Status::Queued, Status::Canceled) => true,
            (Status::Running, Status::Done) => true,
            (Status::Running, Status::Error) => true,
            _ => false,
        }
    }
}

/// The predicate "is in state `which`".
pub open spec fn in_state(which: Status) -> spec_fn(Status) -> bool {
    |s: Status| s == which
}

/// The predicate "is in a final state".
pub open spec fn in_terminal_state() -> spec_fn(Status) -> bool {
    |s: Status| s.is_terminal()
}

/// What a cancellation sweep makes of one state.
pub open spec fn swept(s: Status) -> Status {
    if s is Queued {
        Status::Canceled
    } else {
        s
    }
}

/// What an attempted step makes of the states: item `id` moves to `next` if
/// that is a legal step for it; otherwise nothing changes.
pub open spec fn advanced(states: Seq<Status>, id: int, next: Status) -> Seq<Status> {
    if 0 <= id < states.len() && states[id].may_become(next) {
        states.update(id, next)
    } else {
        states
    }
}

/// The states after a cancellation sweep.
pub open spec fn swept_all(states: Seq<Status>) -> Seq<Status> {
    states.map_values(|s: Status| swept(s))
}

/// A sweep changes no count but those of `Queued` and `Canceled`.
pub proof fn lemma_sweep_keeps_count(states: Seq<Status>, which: Status)
    requires
        which != Status::Queued,
        which != Status::Canceled,
    ensures
        count(swept_all(states), in_state(which)) == count(states, in_state(which)),
    decreases states.len(),
{
    if states.len() > 0 {
        assert(swept_all(states).drop_last() =~= swept_all(states.drop_last()));
        lemma_sweep_keeps_count(states.drop_last(), which);
    }
}

/// An attempted step changes the counts by one item at most: the count of the
/// state left falls by one and the count of the state entered rises by one.
pub proof fn lemma_advanced_count(states: Seq<Status>, id: int, next: Status, which: Status)
    ensures
        advanced(states, id, next) == states ==> count(advanced(states, id, next), in_state(which))
            == count(states, in_state(which)),
        advanced(states, id, next) != states ==> count(
            advanced(states, id, next),
            in_state(which),
        ) + (if states[id] == which {
            1nat
        } else {
            0nat
        }) == count(states, in_state(which)) + (if next == which {
            1nat
        } else {
            0nat
        }),
{
    if 0 <= id < states.len() && states[id].may_become(next) {
        lemma_count_update(states, id, next, in_state(which));
    }
}

/// The five per-state counts add up to the number of items.
pub proof fn lemma_states_partition(s: Seq<Status>)
    ensures
        count(s, in_state(Status::Queued)) + count(s, in_state(Status::Running)) + count(
            s,
            in_state(Status::Done),
        ) + count(s, in_state(Status::Error)) + count(s, in_state(Status::Canceled)) == s.len(),
    decreases s.len(),
{
    if s.len() > 0 {
        lemma_states_partition(s.drop_last());
    }
}

/// The final states are `Done`, `Error` and `Canceled`, so their counts add up
/// to the count of final states.
pub proof fn lemma_terminal_is_done_error_canceled(s: Seq<Status>)
    ensures
        count(s, in_terminal_state()) == count(s, in_state(Status::Done)) + count(
            s,
            in_state(Status::Error),
        ) + count(s, in_state(Status::Canceled)),
    decreases s.len(),
{
    if s.len() > 0 {
        lemma_terminal_is_done_error_canceled(s.drop_last());
    }
}

/// One lifecycle state per work item, the items numbered from zero in the
/// order in which they were discovered.
pub struct StatusRegistry {
    entries: Vec<Status>,
}

impl View for StatusRegistry {
    type V = Seq<Status>;

    closed spec fn view(&self) -> Seq<Status> {
        self.entries@
    }
}

impl StatusRegistry {
    /// A registry of `total` items, all `Queued`.
    pub fn new(total: usize) -> (r: StatusRegistry)
        ensures
            r@ == Seq::new(total as nat, |i: int| Status::Queued),
    {
        let mut entries: Vec<Status> = Vec::new();
        let mut i: usize = 0;
        while i < total
            invariant
                i <= total,
                entries@ == Seq::new(i as nat, |k: int| Status::Queued),
            decreases total - i,
        {
            entries.push(Status::Queued);
            i += 1;
            assert(entries@ =~= Seq::new(i as nat, |k: int| Status::Queued));
        }
        StatusRegistry { entries }
    }

    /// The number of items.
    pub fn len(&self) -> (n: usize)
        ensures
            n == self@.len(),
    {
        self.entries.len()
    }

    /// The state of item `id`, if there is such an item.
    pub fn get(&self, id: usize) -> (s: Option<Status>)
        ensures
            s == if id < self@.len() {
                Some(self@[id as int])
            } else {
                None
            },
    {
        if id < self.entries.len() {
            Some(self.entries[id])
        } else {
            None
        }
    }

    /// Moves item `id` to `next` if that is a legal step, and says whether it
    /// did. An illegal step, or an `id` out of range, changes nothing.
    pub fn advance(&mut self, id: usize, next: Status) -> (moved: bool)
        ensures
            moved == (id < old(self)@.len() && old(self)@[id as int].may_become(next)),
            final(self)@ == advanced(old(self)@, id as int, next),
    {
        if id < self.entries.len() && self.entries[id].allows(next) {
            self.entries.set(id, next);
            true
        } else {
            false
        }
    }

    /// The cancellation sweep: every `Queued` item becomes `Canceled`, every
    /// other item stays as it is. Returns how many items were canceled.
    pub fn cancel_queued(&mut self) -> (canceled: usize)
        ensures
            final(self)@ == swept_all(old(self)@),
            canceled == count(old(self)@, in_state(Status::Queued)),
    {
        let mut canceled: usize = 0;
        let mut i: usize = 0;
        let n: usize = self.entries.len();
        while i < n
            invariant
                i <= n,
                n == old(self)@.len(),
                self.entries@.len() == n,
                forall|k: int| 0 <= k < i ==> self.entries@[k] == swept(old(self)@[k]),
                forall|k: int| i <= k < n ==> self.entries@[k] == old(self)@[k],
                canceled == count(old(self)@.take(i as int), in_state(Status::Queued)),
            decreases n - i,
        {
            proof {
                assert(old(self)@.take(i + 1) =~= old(self)@.take(i as int).push(
                    old(self)@[i as int],
                ));
                lemma_count_push(
                    old(self)@.take(i as int),
                    old(self)@[i as int],
                    in_state(Status::Queued),
                );
                lemma_count_le_len(old(self)@.take(i + 1), in_state(Status::Queued));
            }
            match self.entries[i] {
                Status::Queued => {
                    self.entries.set(i, Status::Canceled);
                    canceled += 1;
                },
                _ => {},
            }
            i += 1;
        }
        proof {
            assert(old(self)@.take(n as int) =~= old(self)@);
            assert(self.entries@ =~= swept_all(old(self)@));
        }
        canceled
    }

    /// How many items are in state `which`.
    pub fn count(&self, which: Status) -> (n: usize)
        ensures
            n == count(self@, in_state(which)),
    {
        let mut n: usize = 0;
        let mut i: usize = 0;
        let len: usize = self.entries.len();
        while i < len
            invariant
                i <= len,
                len == self.entries@.len(),
                n == count(self.entries@.take(i as int), in_state(which)),
                n <= i,
            decreases len - i,
        {
            proof {
                assert(self.entries@.take(i + 1) =~= self.entries@.take(i as int).push(
                    self.entries@[i as int],
                ));
                lemma_count_push(
                    self.entries@.take(i as int),
                    self.entries@[i as int],
                    in_state(which),
                );
            }
            if self.entries[i] == which {
                n += 1;
            }
            i += 1;
        }
        proof {
            assert(self.entries@.take(len as int) =~= self.entries@);
        }
        n
    }

    /// How many items are in a final state.
    pub fn terminal_count(&self) -> (n: usize)
        ensures
            n == count(self@, in_terminal_state()),
    {
        let mut n: usize = 0;
        let mut i: usize = 0;
        let len: usize = self.entries.len();
        while i < len
            invariant
                i <= len,
                len == self.entries@.len(),
                n == count(self.entries@.take(i as int), in_terminal_state()),
                n <= i,
            decreases len - i,
        {
            proof {
                assert(self.entries@.take(i + 1) =~= self.entries@.take(i as int).push(
                    self.entries@[i as int],
                ));
                lemma_count_push(
                    self.entries@.take(i as int),
                    self.entries@[i as int],
                    in_terminal_state(),
                );
            }
            if self.entries[i].terminal() {
                n += 1;
            }
            i += 1;
        }
        proof {
            assert(self.entries@.take(len as int) =~= self.entries@);
        }
        n
    }
}

} // verus!
