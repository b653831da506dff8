use vstd::prelude::*;

verus! {

/// Number of inventory slots.
pub const SLOTS: usize = 9;

/// A hotbar: nine slots, each empty or holding a block id and a positive quantity, and the
/// index of the selected slot.
pub struct Inventory {
    pub items: [Option<(usize, usize)>; 9],
    pub selected: usize,
}

/// First of the first `n` slots holding block `id`.
pub open spec fn first_with(items: Seq<Option<(usize, usize)>>, id: usize, n: int) -> Option<int>
    decreases n,
{
    if n <= 0 {
        None
    } else {
        match first_with(items, id, n - 1) {
            Some(i) => Some(i),
            None => match items[n - 1] {
                Some((x, _)) => if x == id {
                    Some(n - 1)
                } else {
                    None
                },
                None => None,
            },
        }
    }
}

/// Number of non-empty slots among the first `n`.
pub open spec fn filled(items: Seq<Option<(usize, usize)>>, n: int) -> int
    decreases n,
{
    if n <= 0 {
        0
    } else {
        filled(items, n - 1) + if items[n - 1] is Some {
            1int
        } else {
            0
        }
    }
}

/// Slots after one block `id` is added: the first slot holding `id` counts one more;
/// without one, a new stack of one goes to the slot whose index is the number of non-empty
/// slots, if that is a slot; with none free the slots stay as they were.
pub open spec fn added(items: Seq<Option<(usize, usize)>>, id: usize) -> Seq<Option<(usize, usize)>> {
    match first_with(items, id, SLOTS as int) {
        Some(i) => items.update(i, Some((id, (items[i]->Some_0.1 + 1) as usize))),
        None => if filled(items, SLOTS as int) < SLOTS {
            items.update(filled(items, SLOTS as int), Some((id, 1usize)))
        } else {
            items
        },
    }
}

/// Slots after one item of the selected slot is used: its quantity drops by one, and a
/// stack of one leaves the slot empty.
pub open spec fn consumed(items: Seq<Option<(usize, usize)>>, sel: int) -> Seq<Option<(usize, usize)>> {
    match items[sel] {
        Some((id, q)) => if q <= 1 {
            items.update(sel, None)
        } else {
            items.update(sel, Some((id, (q - 1) as usize)))
        },
        None => items,
    }
}

impl Inventory {
    /// Every stack holds at least one item.
    pub open spec fn wf(&self) -> bool {
        forall|i: int| 0 <= i < SLOTS ==> (#[trigger] self.items@[i] matches Some((_, q)) ==> q >= 1)
    }

    /// An empty hotbar with the first slot selected.
    pub fn new() -> (r: Inventory)
        ensures
            r.wf(),
            r.selected == 0,
            forall|i: int| 0 <= i < SLOTS ==> #[trigger] r.items@[i] is None,
    {
        Inventory { items: [None; 9], selected: 0 }
    }

    /// Adds one block `id_to_add`.
    pub fn add_to_inventory(&mut self, id_to_add: usize)
        requires
            forall|i: int|
                0 <= i < SLOTS ==> (#[trigger] old(self).items@[i] matches Some((x, q)) ==> x == id_to_add ==> q
                    < usize::MAX),
        ensures
            final(self).items@ == added(old(self).items@, id_to_add),
            final(self).selected == old(self).selected,
            old(self).wf() ==> final(self).wf(),
    {
        let mut first_free_index: usize = 0;
        let mut i: usize = 0;
        while i < SLOTS
            invariant
                i <= SLOTS,
                self.items == old(self).items,
                self.selected == old(self).selected,
                first_with(self.items@, id_to_add, i as int) is None,
                first_free_index == filled(self.items@, i as int),
                first_free_index <= i,
                forall|m: int|
                    0 <= m < SLOTS ==> (#[trigger] old(self).items@[m] matches Some((x, q)) ==> x == id_to_add ==> q
                        < usize::MAX),
            decreases SLOTS - i,
        {
            if let Some((id, quantity)) = self.items[i] {
                if id == id_to_add {
                    proof {
                        assert(first_with(self.items@, id_to_add, i + 1) == Some(i as int));
                        lemma_first_with_stable(self.items@, id_to_add, i as int + 1, SLOTS as int);
                    }
                    self.items[i] = Some((id, quantity + 1));
                    proof {
                        assert(self.items@ =~= added(old(self).items@, id_to_add));
                    }
                    return ;
                } else {
                    first_free_index = first_free_index + 1;
                }
            }
            i = i + 1;
        }
        if first_free_index < SLOTS {
            self.items[first_free_index] = Some((id_to_add, 1));
        }
        proof {
            assert(self.items@ =~= added(old(self).items@, id_to_add));
        }
    }

    /// Uses one item of the selected slot and returns its block id, or `None` where the slot
    /// is empty.
    pub fn consume_currently_selected(&mut self) -> (r: Option<usize>)
        requires
            old(self).wf(),
            old(self).selected < SLOTS,
        ensures
            final(self).wf(),
            final(self).selected == old(self).selected,
            final(self).items@ == consumed(old(self).items@, old(self).selected as int),
            r == match old(self).items@[old(self).selected as int] {
                Some((id, _)) => Some(id),
                None => None,
            },
    {
        let sel = self.selected;
        match self.items[sel] {
            Some((id, quantity)) => {
                assert(quantity >= 1);
                if quantity == 1 {
                    self.items[sel] = None;
                } else {
                    self.items[sel] = Some((id, quantity - 1));
                }
                proof {
                    assert(self.items@ =~= consumed(old(self).items@, sel as int));
                }
                Some(id)
            },
            None => None,
        }
    }
}

proof fn lemma_first_with_stable(items: Seq<Option<(usize, usize)>>, id: usize, m: int, n: int)
    requires
        0 <= m <= n,
        first_with(items, id, m) is Some,
    ensures
        first_with(items, id, n) == first_with(items, id, m),
    decreases n - m,
{
    if n > m {
        lemma_first_with_stable(items, id, m, n - 1);
    }
}

} // verus!
