//! Obliterating a fragment together with those that it lists.
//!
//! What a fragment lists goes before the fragment itself.
use vstd::prelude::*;

use crate::fragment_engine::FragmentReference;
use crate::types::Address;

verus! {

/// What a walk does next.
#[derive(Clone, Copy, Debug, PartialEq, Eq, Structural)]
pub enum ObliterateStep {
    /// Look at this fragment, and say what it lists.
    Look(Address),
    /// Obliterate this fragment: all that it lists is gone.
    Obliterate(Address),
    /// End.
    Done,
}

/// A walk over a fragment and those that it lists.
pub struct ObliteratePass {
    /// What is still to be done, the next at the end: a fragment, and whether it was looked at.
    pub pending: Vec<(Address, bool)>,
}

/// The addresses that a list stands for: they have the context of the fragment that lists them.
pub open spec fn listed_by(address: Address, list: Seq<FragmentReference>) -> Seq<Address> {
    list.map_values(|r: FragmentReference| Address { hash: r.hash, context: address.context })
}

/// Fragments that were not looked at, the first at the end.
pub open spec fn unseen(addresses: Seq<Address>) -> Seq<(Address, bool)> {
    Seq::new(addresses.len(), |i: int| (addresses[addresses.len() - 1 - i], false))
}

/// What is still to be done once the next fragment was looked at.
pub open spec fn looked_at(pending: Seq<(Address, bool)>, list: Seq<Address>) -> Seq<
    (Address, bool),
> {
    pending.drop_last().push((pending.last().0, true)) + unseen(list)
}

impl ObliteratePass {
    /// A walk that begins with a fragment.
    pub fn new(address: Address) -> (r: ObliteratePass)
        ensures
            r.pending@ == seq![(address, false)],
    {
        let mut pending: Vec<(Address, bool)> = Vec::new();
        pending.push((address, false));
        assert(pending@ =~= seq![(address, false)]);
        ObliteratePass { pending }
    }

    /// What is done next.
    pub open spec fn step(self) -> ObliterateStep {
        if self.pending@.len() == 0 {
            ObliterateStep::Done
        } else if self.pending@.last().1 {
            ObliterateStep::Obliterate(self.pending@.last().0)
        } else {
            ObliterateStep::Look(self.pending@.last().0)
        }
    }

    /// What is done next.
    pub fn next(&self) -> (r: ObliterateStep)
        ensures
            r == self.step(),
    {
        let count: usize = self.pending.len();
        if count == 0 {
            return ObliterateStep::Done;
        }
        let (address, seen) = self.pending[count - 1];
        if seen {
            ObliterateStep::Obliterate(address)
        } else {
            ObliterateStep::Look(address)
        }
    }

    /// Records what the fragment lists that `next` gave to look at. One that lists nothing, or whose
    /// list could not be loaded, has none.
    pub fn listed(&mut self, list: Option<&Vec<FragmentReference>>)
        requires
            old(self).step() is Look,
        ensures
            final(self).pending@ == looked_at(
                old(self).pending@,
                match list {
                    Some(list) => listed_by(old(self).pending@.last().0, list@),
                    None => Seq::empty(),
                },
            ),
    {
        let ghost before = self.pending@;
        let count: usize = self.pending.len();
        let (address, _) = self.pending[count - 1];
        self.pending.set(count - 1, (address, true));
        let ghost seen = self.pending@;
        assert(seen =~= before.drop_last().push((before.last().0, true)));
        match list {
            None => {
                assert(self.pending@ =~= seen + unseen(Seq::empty()));
            },
            Some(list) => {
                let ghost addresses = listed_by(address, list@);
                let mut left: usize = list.len();
                while left > 0
                    invariant
                        left <= list@.len(),
                        addresses == listed_by(address, list@),
                        self.pending@ =~= seen + unseen(addresses).take(list@.len() - left),
                    decreases left,
                {
                    left = left - 1;
                    self.pending.push(
                        (Address { hash: list[left].hash, context: address.context }, false),
                    );
                }
                assert(unseen(addresses).take(list@.len() as int) =~= unseen(addresses));
            },
        }
    }

    /// Records that the fragment is gone that `next` gave to obliterate.
    pub fn obliterated(&mut self)
        requires
            old(self).step() is Obliterate,
        ensures
            final(self).pending@ == old(self).pending@.drop_last(),
    {
        self.pending.pop();
        assert(self.pending@ =~= old(self).pending@.drop_last());
    }
}

/// The fragments that a walk gives to obliterate, in order, where looking at one after the other says
/// that they list `told`.
pub open spec fn given(pending: Seq<(Address, bool)>, told: Seq<Seq<Address>>) -> Seq<Address>
    decreases told.len(), pending.len(),
{
    if pending.len() == 0 {
        Seq::empty()
    } else if pending.last().1 {
        seq![pending.last().0] + given(pending.drop_last(), told)
    } else if told.len() == 0 {
        Seq::empty()
    } else {
        given(looked_at(pending, told[0]), told.skip(1))
    }
}

/// Whether a walk comes to its end with just these looks.
pub open spec fn ends(pending: Seq<(Address, bool)>, told: Seq<Seq<Address>>) -> bool
    decreases told.len(), pending.len(),
{
    if pending.len() == 0 {
        told.len() == 0
    } else if pending.last().1 {
        ends(pending.drop_last(), told)
    } else {
        told.len() > 0 && ends(looked_at(pending, told[0]), told.skip(1))
    }
}

/// Before a walk comes back to what was below, it gives everything that lay above. The result is what
/// it gives until then, and how many looks that takes.
proof fn lemma_above_goes_first(
    base: Seq<(Address, bool)>,
    above: Seq<(Address, bool)>,
    told: Seq<Seq<Address>>,
) -> (r: (Seq<Address>, int))
    requires
        ends(base + above, told),
    ensures
        0 <= r.1 <= told.len(),
        ends(base, told.skip(r.1)),
        given(base + above, told) == r.0 + given(base, told.skip(r.1)),
        forall|i: int| 0 <= i < above.len() ==> r.0.contains((#[trigger] above[i]).0),
    decreases told.len(), above.len(),
{
    let all = base + above;
    if above.len() == 0 {
        assert(all =~= base);
        assert(told.skip(0) =~= told);
        assert(Seq::<Address>::empty() + given(base, told) =~= given(base, told));
        (Seq::empty(), 0)
    } else {
        let top = above.last();
        assert(all.last() == top);
        if top.1 {
            let rest = above.drop_last();
            assert(all.drop_last() =~= base + rest);
            let (first, used) = lemma_above_goes_first(base, rest, told);
            let r = seq![top.0] + first;
            assert(r + given(base, told.skip(used)) =~= seq![top.0] + (first + given(
                base,
                told.skip(used),
            )));
            assert forall|i: int| 0 <= i < above.len() implies r.contains(
                (#[trigger] above[i]).0,
            ) by {
                if i < rest.len() {
                    assert(rest[i] == above[i]);
                    let k = choose|k: int| 0 <= k < first.len() && first[k] == above[i].0;
                    assert(r[k + 1] == above[i].0);
                } else {
                    assert(r[0] == above[i].0);
                }
            }
            (r, used)
        } else {
            let more = looked_at(above, told[0]);
            assert(looked_at(all, told[0]) =~= base + more);
            let (first, used) = lemma_above_goes_first(base, more, told.skip(1));
            assert(told.skip(1).skip(used) =~= told.skip(used + 1));
            assert forall|i: int| 0 <= i < above.len() implies first.contains(
                (#[trigger] above[i]).0,
            ) by {
                assert(more[i].0 == above[i].0);
            }
            (first, used + 1)
        }
    }
}

/// Whether a fragment stands at a place of a list, after some others.
pub open spec fn goes_after(
    order: Seq<Address>,
    n: int,
    address: Address,
    others: Seq<Address>,
) -> bool {
    &&& 0 <= n < order.len()
    &&& order[n] == address
    &&& forall|i: int| 0 <= i < others.len() ==> order.take(n).contains(#[trigger] others[i])
}

/// A walk gives a fragment to obliterate only after all that the fragment lists: whatever was pending,
/// and whatever else is looked at in between.
pub proof fn law_listed_fragments_go_first(
    base: Seq<(Address, bool)>,
    address: Address,
    told: Seq<Seq<Address>>,
)
    requires
        ends(base.push((address, false)), told),
    ensures
        told.len() > 0,
        exists|n: int| #[trigger]
            goes_after(given(base.push((address, false)), told), n, address, told[0]),
{
    let pending = base.push((address, false));
    let order = given(pending, told);
    let seen = base.push((address, true));
    assert(pending.drop_last() =~= base);
    let kids = unseen(told[0]);
    assert(looked_at(pending, told[0]) =~= seen + kids);
    let (first, used) = lemma_above_goes_first(seen, kids, told.skip(1));
    let n = first.len() as int;
    let left = told.skip(1).skip(used);
    assert(seen.drop_last() =~= base);
    assert(given(seen, left) == seq![address] + given(base, left));
    assert(order =~= first + (seq![address] + given(base, left)));
    assert(order[n] == address);
    assert(order.take(n) =~= first);
    assert forall|i: int| 0 <= i < told[0].len() implies order.take(n).contains(
        #[trigger] told[0][i],
    ) by {
        let k = told[0].len() - 1 - i;
        assert(kids[k].0 == told[0][i]);
    }
    assert(goes_after(order, n, address, told[0]));
}

/// The last that a walk gives is the fragment that it began with.
pub proof fn law_walk_ends_where_it_began(address: Address, told: Seq<Seq<Address>>)
    requires
        ends(seq![(address, false)], told),
    ensures
        given(seq![(address, false)], told).len() > 0,
        given(seq![(address, false)], told).last() == address,
{
    let pending = seq![(address, false)];
    let seen = seq![(address, true)];
    let kids = unseen(told[0]);
    assert(looked_at(pending, told[0]) =~= seen + kids);
    let (first, used) = lemma_above_goes_first(seen, kids, told.skip(1));
    let left = told.skip(1).skip(used);
    assert(seen.drop_last() =~= Seq::<(Address, bool)>::empty());
    let nothing = Seq::<(Address, bool)>::empty();
    assert(seen.last() == (address, true));
    assert(given(nothing, left) =~= Seq::empty());
    assert(given(seen, left) == seq![address] + given(nothing, left));
    assert(given(seen, left) =~= seq![address]);
    assert(given(pending, told) =~= first + seq![address]);
}

/// A walk gives as many fragments to obliterate as it was told of, with the one that it began with:
/// each time that a fragment is listed it is given once.
pub proof fn law_walk_gives_each_listed_fragment_once(
    pending: Seq<(Address, bool)>,
    told: Seq<Seq<Address>>,
)
    requires
        ends(pending, told),
    ensures
        given(pending, told).len() == pending.len() + listed_in_all(told),
    decreases told.len(), pending.len(),
{
    if pending.len() > 0 {
        if pending.last().1 {
            law_walk_gives_each_listed_fragment_once(pending.drop_last(), told);
        } else {
            law_walk_gives_each_listed_fragment_once(looked_at(pending, told[0]), told.skip(1));
        }
    }
}

/// How many fragments were listed.
pub open spec fn listed_in_all(told: Seq<Seq<Address>>) -> int
    decreases told.len(),
{
    if told.len() == 0 {
        0
    } else {
        told[0].len() + listed_in_all(told.skip(1))
    }
}

/// What a fragment lists is looked for under the hashes of its list, in order, in the context of the
/// fragment.
pub proof fn law_listed_fragments_share_the_context(
    address: Address,
    list: Seq<FragmentReference>,
    i: int,
)
    requires
        0 <= i < list.len(),
    ensures
        listed_by(address, list).len() == list.len(),
        listed_by(address, list)[i].hash == list[i].hash,
        listed_by(address, list)[i].context == address.context,
{
}

/// What a fragment lists is looked at in the order of the list: the first is next, and once it is
/// done with, the rest follow as if they alone had been listed.
pub proof fn law_listed_fragments_go_in_order(
    pass: ObliteratePass,
    before: Seq<(Address, bool)>,
    list: Seq<Address>,
)
    requires
        before.len() > 0,
        list.len() > 0,
        pass.pending@ == looked_at(before, list),
    ensures
        pass.step() == ObliterateStep::Look(list[0]),
        pass.pending@.drop_last() == looked_at(before, list.skip(1)),
{
    let rest = list.skip(1);
    assert(unseen(list).last() == (list[0], false));
    assert(unseen(list).drop_last() =~= unseen(rest));
    assert(pass.pending@.drop_last() =~= looked_at(before, rest));
}

/// A fragment that lists nothing is obliterated next, once it was looked at.
pub proof fn law_fragments_without_lists_go_at_once(
    pass: ObliteratePass,
    before: Seq<(Address, bool)>,
)
    requires
        before.len() > 0,
        pass.pending@ == looked_at(before, Seq::empty()),
    ensures
        pass.step() == ObliterateStep::Obliterate(before.last().0),
{
    assert(pass.pending@ =~= before.drop_last().push((before.last().0, true)));
}

} // verus!
