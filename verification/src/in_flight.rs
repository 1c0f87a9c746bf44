//! The writes that are on their way, so that two writers of one fragment do the work once.
use vstd::prelude::*;

use crate::types::{Address, Partition};

verus! {

/// A concurrent map of the dashmap crate.
#[verifier::external_type_specification]
#[verifier::external_body]
#[verifier::reject_recursive_types(K)]
#[verifier::reject_recursive_types(V)]
#[verifier::reject_recursive_types(S)]
pub struct ExDashMap<K, V, S>(dashmap::DashMap<K, V, S>);

/// What a map from fragments to tickets holds.
pub uninterp spec fn tickets_of(
    map: dashmap::DashMap<(u128, u128, u128, u128), u64>,
) -> Map<(u128, u128, u128, u128), u64>;

/// No tickets at all.
pub open spec fn no_tickets() -> Map<(u128, u128, u128, u128), u64> {
    Map::empty()
}

/// `DashMap::new`: the map is empty.
#[verifier::external_body]
fn new_tickets() -> (r: dashmap::DashMap<(u128, u128, u128, u128), u64>)
    ensures
        tickets_of(r) == no_tickets(),
{
    dashmap::DashMap::new()
}

/// `DashMap::entry` with `Entry::or_insert`: the value of the key, which is the one given where the
/// key was not there. Nothing else changes.
#[verifier::external_body]
fn ticket_or_insert(
    map: &mut dashmap::DashMap<(u128, u128, u128, u128), u64>,
    key: (u128, u128, u128, u128),
    ticket: u64,
) -> (r: u64)
    ensures
        r == if tickets_of(*old(map)).contains_key(key) {
            tickets_of(*old(map))[key]
        } else {
            ticket
        },
        tickets_of(*final(map)) == tickets_of(*old(map)).insert(key, r),
{
    *map.entry(key).or_insert(ticket)
}

/// `DashMap::get`: the value of the key, where it is there.
#[verifier::external_body]
fn get_ticket(
    map: &dashmap::DashMap<(u128, u128, u128, u128), u64>,
    key: &(u128, u128, u128, u128),
) -> (r: Option<u64>)
    ensures
        r == if tickets_of(*map).contains_key(*key) {
            Some(tickets_of(*map)[*key])
        } else {
            None
        },
{
    map.get(key).map(|entry| *entry.value())
}

/// `DashMap::remove`: the key is gone, and its value, where it was there, is given back.
#[verifier::external_body]
fn remove_ticket(
    map: &mut dashmap::DashMap<(u128, u128, u128, u128), u64>,
    key: &(u128, u128, u128, u128),
) -> (r: Option<u64>)
    ensures
        r == if tickets_of(*old(map)).contains_key(*key) {
            Some(tickets_of(*old(map))[*key])
        } else {
            None
        },
        tickets_of(*final(map)) == tickets_of(*old(map)).remove(*key),
{
    map.remove(key).map(|entry| entry.1)
}

/// A fragment that is being written.
#[derive(Clone, Copy, Debug, PartialEq, Eq, Structural)]
pub struct StoreInFlightKey {
    pub partition: Partition,
    pub address: Address,
}

impl StoreInFlightKey {
    /// The key as numbers.
    pub open spec fn numbers(self) -> (u128, u128, u128, u128) {
        (
            self.partition.value,
            self.address.hash.high,
            self.address.hash.low,
            self.address.context.value,
        )
    }

    /// The key as numbers.
    fn as_numbers(&self) -> (r: (u128, u128, u128, u128))
        ensures
            r == self.numbers(),
    {
        (
            self.partition.value,
            self.address.hash.high,
            self.address.hash.low,
            self.address.context.value,
        )
    }
}

/// The right to write a fragment. It is given back when the write ends.
#[derive(Debug, PartialEq, Eq, Structural)]
pub struct StoreInFlightGuard {
    pub key: StoreInFlightKey,
}

/// The writes that are on their way. Those who wait for one hold its ticket.
pub struct InFlight {
    map: dashmap::DashMap<(u128, u128, u128, u128), u64>,
    next: u64,
}

impl InFlight {
    /// The tickets by fragment.
    pub closed spec fn tickets(self) -> Map<(u128, u128, u128, u128), u64> {
        tickets_of(self.map)
    }

    /// How many tickets were handed out.
    pub closed spec fn handed_out(self) -> u64 {
        self.next
    }

    /// Every ticket was handed out once.
    pub open spec fn wf(self) -> bool {
        forall|key: (u128, u128, u128, u128)| #[trigger]
            self.tickets().contains_key(key) ==> self.tickets()[key] < self.handed_out()
    }

    /// Nothing is on its way.
    pub fn new() -> (r: InFlight)
        ensures
            r.wf(),
            r.tickets() == no_tickets(),
            r.handed_out() == 0,
    {
        InFlight { map: new_tickets(), next: 0 }
    }

    /// Tries to get the right to write a fragment. Where another writer has it, gives the ticket to
    /// wait for.
    pub fn try_acquire_in_flight(&mut self, partition: Partition, address: Address) -> (r: Result<
        StoreInFlightGuard,
        u64,
    >)
        requires
            old(self).wf(),
            old(self).handed_out() < u64::MAX,
        ensures
            final(self).wf(),
            asked(*old(self), *final(self), StoreInFlightKey { partition, address }, r),
    {
        let key = StoreInFlightKey { partition, address };
        let numbers = key.as_numbers();
        let ticket: u64 = ticket_or_insert(&mut self.map, numbers, self.next);
        if ticket == self.next {
            self.next = self.next + 1;
            assert forall|k: (u128, u128, u128, u128)| #[trigger]
                self.tickets().contains_key(k) implies self.tickets()[k] < self.handed_out() by {
                if k != numbers {
                    assert(old(self).tickets().contains_key(k));
                }
            }
            return Ok(StoreInFlightGuard { key });
        }
        assert(self.tickets() =~= old(self).tickets());
        Err(ticket)
    }

    /// Gives the right to write a fragment back. Gives the ticket whose holders are to be woken.
    pub fn release(&mut self, guard: StoreInFlightGuard) -> (r: Option<u64>)
        requires
            old(self).wf(),
        ensures
            final(self).wf(),
            released(*old(self), *final(self), guard.key, r),
    {
        let numbers = guard.key.as_numbers();
        let ticket = remove_ticket(&mut self.map, &numbers);
        assert forall|k: (u128, u128, u128, u128)| #[trigger]
            self.tickets().contains_key(k) implies self.tickets()[k] < self.handed_out() by {
            assert(old(self).tickets().contains_key(k));
        }
        ticket
    }

    /// The ticket of a fragment that is being written, for a reader that wants to see the write.
    pub fn wait_if_in_flight(&self, partition: Partition, address: Address) -> (r: Option<u64>)
        ensures
            r == ({
                let key = (StoreInFlightKey { partition, address }).numbers();
                if self.tickets().contains_key(key) {
                    Some(self.tickets()[key])
                } else {
                    None
                }
            }),
    {
        let key = StoreInFlightKey { partition, address };
        get_ticket(&self.map, &key.as_numbers())
    }
}

/// Whether a table is another after a writer asked for a fragment and was answered. Where no one was
/// writing it, the writer gets the right to; otherwise it gets the ticket of the one who is.
pub open spec fn asked(
    before: InFlight,
    after: InFlight,
    key: StoreInFlightKey,
    answer: Result<StoreInFlightGuard, u64>,
) -> bool {
    if before.tickets().contains_key(key.numbers()) {
        &&& answer == Err::<StoreInFlightGuard, u64>(before.tickets()[key.numbers()])
        &&& after.tickets() == before.tickets()
        &&& after.handed_out() == before.handed_out()
    } else {
        &&& answer == Ok::<StoreInFlightGuard, u64>(StoreInFlightGuard { key })
        &&& acquired(before, after, key)
    }
}

/// Whether a table is another after the right to write a fragment was given back, and whose holders
/// are then woken.
pub open spec fn released(
    before: InFlight,
    after: InFlight,
    key: StoreInFlightKey,
    woken: Option<u64>,
) -> bool {
    &&& woken == if before.tickets().contains_key(key.numbers()) {
        Some(before.tickets()[key.numbers()])
    } else {
        None
    }
    &&& after.tickets() == before.tickets().remove(key.numbers())
    &&& after.handed_out() == before.handed_out()
}

/// Whether nothing became of the writing of a fragment between two states of a table.
pub open spec fn undisturbed(before: InFlight, after: InFlight, key: StoreInFlightKey) -> bool {
    &&& after.tickets().contains_key(key.numbers()) == before.tickets().contains_key(key.numbers())
    &&& before.tickets().contains_key(key.numbers()) ==> after.tickets()[key.numbers()]
        == before.tickets()[key.numbers()]
}

/// Whether writers ask for one fragment, one after the other, and no one gives the right to write it
/// back in between. What becomes of other fragments in between does not matter.
pub open spec fn ask_in_turn(
    before: Seq<InFlight>,
    after: Seq<InFlight>,
    key: StoreInFlightKey,
    answers: Seq<Result<StoreInFlightGuard, u64>>,
) -> bool {
    &&& before.len() == after.len() == answers.len()
    &&& forall|i: int|
        0 <= i < answers.len() ==> asked(before[i], after[i], key, #[trigger] answers[i])
    &&& forall|i: int|
        0 <= i < answers.len() - 1 ==> undisturbed(#[trigger] after[i], before[i + 1], key)
}

/// Of writers that ask for one fragment while none gives the right to write it back, exactly the
/// first gets the right, and all others get its ticket.
pub proof fn law_one_of_many_writers_leads(
    before: Seq<InFlight>,
    after: Seq<InFlight>,
    key: StoreInFlightKey,
    answers: Seq<Result<StoreInFlightGuard, u64>>,
    i: int,
)
    requires
        ask_in_turn(before, after, key, answers),
        0 <= i < answers.len(),
        !before[0].tickets().contains_key(key.numbers()),
    ensures
        i == 0 ==> answers[i] == Ok::<StoreInFlightGuard, u64>(StoreInFlightGuard { key }),
        i > 0 ==> answers[i] == Err::<StoreInFlightGuard, u64>(before[0].handed_out()),
        after[i].tickets().contains_key(key.numbers()),
        after[i].tickets()[key.numbers()] == before[0].handed_out(),
    decreases i,
{
    assert(asked(before[i], after[i], key, answers[i]));
    if i > 0 {
        law_one_of_many_writers_leads(before, after, key, answers, i - 1);
        assert(undisturbed(after[i - 1], before[i - 1 + 1], key));
    }
}

/// Whether a table is another after a fragment was acquired that no one was writing.
pub open spec fn acquired(before: InFlight, after: InFlight, key: StoreInFlightKey) -> bool {
    &&& !before.tickets().contains_key(key.numbers())
    &&& after.tickets() == before.tickets().insert(key.numbers(), before.handed_out())
    &&& after.handed_out() == before.handed_out() + 1
}

/// While one writer has the right to write a fragment, all who ask for it get the first writer's
/// ticket; once it was given back, the table is as it was before.
pub proof fn law_one_writer_at_a_time(before: InFlight, after: InFlight, key: StoreInFlightKey)
    requires
        before.wf(),
        acquired(before, after, key),
    ensures
        after.tickets().contains_key(key.numbers()),
        after.tickets()[key.numbers()] == before.handed_out(),
        after.tickets().remove(key.numbers()) == before.tickets(),
{
    assert(after.tickets().remove(key.numbers()) =~= before.tickets());
}

/// Acquiring one fragment leaves the writers of all others alone.
pub proof fn law_writers_do_not_meet(
    before: InFlight,
    after: InFlight,
    key: StoreInFlightKey,
    other: StoreInFlightKey,
)
    requires
        acquired(before, after, key),
        other != key,
    ensures
        after.tickets().contains_key(other.numbers()) == before.tickets().contains_key(
            other.numbers(),
        ),
        before.tickets().contains_key(other.numbers()) ==> after.tickets()[other.numbers()]
            == before.tickets()[other.numbers()],
{
}

/// From the moment that a writer gets the right to write a fragment until it gives it back, whoever
/// asks for the fragment gets one and the same ticket. Giving the right back wakes the holders of
/// that ticket, and the next who asks gets the right, with a ticket that was not handed out before.
/// What becomes of other fragments in between does not matter.
pub proof fn law_rights_are_given_back(
    acquire: (InFlight, InFlight),
    before: Seq<InFlight>,
    after: Seq<InFlight>,
    answers: Seq<Result<StoreInFlightGuard, u64>>,
    release: (InFlight, InFlight),
    woken: Option<u64>,
    again: (InFlight, InFlight),
    answer: Result<StoreInFlightGuard, u64>,
    key: StoreInFlightKey,
)
    requires
        acquired(acquire.0, acquire.1, key),
        ask_in_turn(before, after, key, answers),
        answers.len() > 0 ==> undisturbed(acquire.1, before[0], key),
        undisturbed(
            if answers.len() > 0 {
                after.last()
            } else {
                acquire.1
            },
            release.0,
            key,
        ),
        released(release.0, release.1, key, woken),
        undisturbed(release.1, again.0, key),
        again.0.handed_out() >= acquire.1.handed_out(),
        asked(again.0, again.1, key, answer),
    ensures
        forall|i: int|
            0 <= i < answers.len() ==> #[trigger] answers[i] == Err::<StoreInFlightGuard, u64>(
                acquire.0.handed_out(),
            ),
        woken == Some(acquire.0.handed_out()),
        answer == Ok::<StoreInFlightGuard, u64>(StoreInFlightGuard { key }),
        again.1.tickets()[key.numbers()] > acquire.0.handed_out(),
{
    assert forall|i: int| 0 <= i < answers.len() implies #[trigger] answers[i] == Err::<
        StoreInFlightGuard,
        u64,
    >(acquire.0.handed_out()) by {
        lemma_held(acquire.1, before, after, answers, key, i);
    }
    if answers.len() > 0 {
        lemma_held(acquire.1, before, after, answers, key, answers.len() - 1);
    }
}

/// While a fragment is held, all who ask get the ticket of the one who holds it.
proof fn lemma_held(
    held: InFlight,
    before: Seq<InFlight>,
    after: Seq<InFlight>,
    answers: Seq<Result<StoreInFlightGuard, u64>>,
    key: StoreInFlightKey,
    i: int,
)
    requires
        held.tickets().contains_key(key.numbers()),
        ask_in_turn(before, after, key, answers),
        0 <= i < answers.len(),
        undisturbed(held, before[0], key),
    ensures
        answers[i] == Err::<StoreInFlightGuard, u64>(held.tickets()[key.numbers()]),
        after[i].tickets().contains_key(key.numbers()),
        after[i].tickets()[key.numbers()] == held.tickets()[key.numbers()],
    decreases i,
{
    assert(asked(before[i], after[i], key, answers[i]));
    if i > 0 {
        lemma_held(held, before, after, answers, key, i - 1);
        assert(undisturbed(after[i - 1], before[i - 1 + 1], key));
    }
}

} // verus!
