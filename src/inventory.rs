//! A bounded container of item stacks: slot accounting, best-effort and
//! strict insertion, and all-or-nothing removal.

use vstd::prelude::*;
use crate::item::{ceil_div, lemma_ceil_div_bound, lemma_ceil_div_parts, ItemStack};
use crate::packing::{lemma_add_one_valid, lemma_fits_packs_all};

verus! {

/// Slots that a sequence of stacks occupies, each stack counted on its own.
pub open spec fn slots_of(stacks: Seq<ItemStack>) -> int
    decreases stacks.len(),
{
    if stacks.len() == 0 {
        0
    } else {
        slots_of(stacks.drop_last()) + stacks.last().slots_needed()
    }
}

/// Units of item type `id` over a sequence of stacks.
pub open spec fn quantity(stacks: Seq<ItemStack>, id: u16) -> int
    decreases stacks.len(),
{
    if stacks.len() == 0 {
        0
    } else {
        quantity(stacks.drop_last(), id) + if stacks.last().id() == id {
            stacks.last().size as int
        } else {
            0
        }
    }
}

/// Index of the last stack of item type `id`, or -1 when there is none.
pub open spec fn index_of(stacks: Seq<ItemStack>, id: u16) -> int
    decreases stacks.len(),
{
    if stacks.len() == 0 {
        -1
    } else if stacks.last().id() == id {
        stacks.len() - 1
    } else {
        index_of(stacks.drop_last(), id)
    }
}

/// Every stack has a usable item type.
pub open spec fn types_valid(stacks: Seq<ItemStack>) -> bool {
    forall|i: int| 0 <= i < stacks.len() ==> #[trigger] stacks[i].item_type.valid()
}

/// Valid types, no empty stack, and at most one stack per item type.
pub open spec fn stacks_valid(stacks: Seq<ItemStack>) -> bool {
    &&& types_valid(stacks)
    &&& forall|i: int| 0 <= i < stacks.len() ==> #[trigger] stacks[i].size > 0
    &&& forall|i: int, j: int|
        0 <= i < j < stacks.len() ==> #[trigger] stacks[i].id() != #[trigger] stacks[j].id()
}

/// `demand` can be taken from `stacks`: for each item type it names, the
/// stacks hold at least as many units as `demand` asks for in all.
pub open spec fn can_take(stacks: Seq<ItemStack>, demand: Seq<ItemStack>) -> bool {
    forall|i: int|
        0 <= i < demand.len() ==> quantity(demand, #[trigger] demand[i].id()) <= quantity(
            stacks,
            demand[i].id(),
        )
}

/// `stacks` with the units of `demand` subtracted, type by type, and the
/// stacks that became empty left out; the order of the rest is kept.
pub open spec fn taken(stacks: Seq<ItemStack>, demand: Seq<ItemStack>) -> Seq<ItemStack>
    decreases stacks.len(),
{
    if stacks.len() == 0 {
        seq![]
    } else {
        let rest = taken(stacks.drop_last(), demand);
        let s = stacks.last();
        let left = s.size - quantity(demand, s.id());
        if left > 0 {
            rest.push(s.with_size(left as u16))
        } else {
            rest
        }
    }
}

/// The smaller of two integers.
pub open spec fn min_of(a: int, b: int) -> int {
    if a < b {
        a
    } else {
        b
    }
}

/// Slots the held stacks would need, each grown by the units of its type
/// that `demand` holds.
pub open spec fn grown_slots(stacks: Seq<ItemStack>, demand: Seq<ItemStack>) -> int
    decreases stacks.len(),
{
    if stacks.len() == 0 {
        0
    } else {
        let s = stacks.last();
        grown_slots(stacks.drop_last(), demand) + ceil_div(
            s.size + quantity(demand, s.id()),
            s.max_stack(),
        )
    }
}

/// Entry `i` is the first entry of its item type in `demand` with a positive
/// size, and that type is not held in `stacks`.
pub open spec fn opens_stack(stacks: Seq<ItemStack>, demand: Seq<ItemStack>, i: int) -> bool {
    &&& demand[i].size > 0
    &&& index_of(stacks, demand[i].id()) == -1
    &&& forall|j: int|
        0 <= j < i && #[trigger] demand[j].id() == demand[i].id() ==> demand[j].size == 0
}

/// Slots that the first `n` entries of `demand` open for types not held:
/// each such type, at its first entry with a positive size, needs all of its
/// units in `demand` at that entry's `max_stack`.
pub open spec fn fresh_slots(stacks: Seq<ItemStack>, demand: Seq<ItemStack>, n: int) -> int
    decreases n,
{
    if n <= 0 {
        0
    } else {
        fresh_slots(stacks, demand, n - 1) + if opens_stack(stacks, demand, n - 1) {
            ceil_div(quantity(demand, demand[n - 1].id()), demand[n - 1].max_stack())
        } else {
            0
        }
    }
}

/// Slots needed once `demand` is merged in: held stacks grown by the units of
/// their type, and one new stack for each other type.
pub open spec fn merged_slots(stacks: Seq<ItemStack>, demand: Seq<ItemStack>) -> int {
    grown_slots(stacks, demand) + fresh_slots(stacks, demand, demand.len() as int)
}

/// `demand` fits in `stacks` with `slots` slots: merged in, it needs no more
/// slots than there are, and no item type totals more units than a stack's
/// size can count.
pub open spec fn fits(stacks: Seq<ItemStack>, slots: int, demand: Seq<ItemStack>) -> bool {
    &&& merged_slots(stacks, demand) <= slots
    &&& forall|i: int|
        0 <= i < demand.len() ==> quantity(stacks, #[trigger] demand[i].id()) + quantity(
            demand,
            demand[i].id(),
        ) <= u16::MAX
}

/// Slots that the stacks fill completely: the sum of `size / max_stack`.
pub open spec fn full_slots_of(stacks: Seq<ItemStack>) -> int
    decreases stacks.len(),
{
    if stacks.len() == 0 {
        0
    } else {
        full_slots_of(stacks.drop_last()) + stacks.last().size as int / stacks.last().max_stack()
    }
}

/// Stacks that leave a slot partly filled.
pub open spec fn partial_slots_of(stacks: Seq<ItemStack>) -> int
    decreases stacks.len(),
{
    if stacks.len() == 0 {
        0
    } else {
        partial_slots_of(stacks.drop_last()) + if stacks.last().size as int % stacks.last().max_stack() > 0 {
            1int
        } else {
            0int
        }
    }
}

pub(crate) proof fn lemma_full_partial(stacks: Seq<ItemStack>)
    requires
        types_valid(stacks),
    ensures
        full_slots_of(stacks) >= 0,
        partial_slots_of(stacks) >= 0,
        full_slots_of(stacks) + partial_slots_of(stacks) == slots_of(stacks),
    decreases stacks.len(),
{
    if stacks.len() > 0 {
        let s = stacks.last();
        assert(s.item_type.valid());
        lemma_ceil_div_parts(s.size as int, s.max_stack());
        assert(types_valid(stacks.drop_last())) by {
            assert forall|i: int| 0 <= i < stacks.len() - 1 implies #[trigger] stacks.drop_last()[i].item_type.valid() by {
                assert(stacks[i].item_type.valid());
            }
        }
        lemma_full_partial(stacks.drop_last());
    }
}

pub(crate) proof fn lemma_full_partial_prefix(stacks: Seq<ItemStack>, i: int)
    requires
        types_valid(stacks),
        0 <= i < stacks.len(),
    ensures
        full_slots_of(stacks.take(i + 1)) == full_slots_of(stacks.take(i)) + stacks[i].size as int
            / stacks[i].max_stack(),
        partial_slots_of(stacks.take(i + 1)) == partial_slots_of(stacks.take(i)) + if stacks[i].size as int
            % stacks[i].max_stack() > 0 {
            1int
        } else {
            0int
        },
        full_slots_of(stacks.take(i + 1)) + partial_slots_of(stacks.take(i + 1)) <= slots_of(stacks),
        full_slots_of(stacks.take(i + 1)) >= 0,
        partial_slots_of(stacks.take(i + 1)) >= 0,
{
    assert(stacks.take(i + 1).drop_last() =~= stacks.take(i));
    assert(types_valid(stacks.take(i + 1))) by {
        assert forall|j: int| 0 <= j < i + 1 implies #[trigger] stacks.take(i + 1)[j].item_type.valid() by {
            assert(stacks[j].item_type.valid());
        }
    }
    lemma_full_partial(stacks.take(i + 1));
    lemma_slots_prefix(stacks, i + 1);
}

/// Units of `entry` that one packing step puts into `stacks`, with `slots`
/// slots in all. A held stack of the same type takes what fits in its partly
/// filled slot and in the free slots, up to the largest stack size; a type not
/// held gets a new stack over as many free slots as it needs and can have.
pub open spec fn placed_amount(stacks: Seq<ItemStack>, slots: int, entry: ItemStack) -> int {
    let free = slots - slots_of(stacks);
    let k = index_of(stacks, entry.id());
    if k >= 0 {
        let s = stacks[k];
        let room = (s.slots_needed() + free) * s.max_stack() - s.size;
        min_of(min_of(entry.size as int, room), u16::MAX - s.size)
    } else {
        min_of(entry.size as int, min_of(free, entry.slots_needed()) * entry.max_stack())
    }
}

/// `stacks` after one packing step of `entry`.
pub open spec fn add_one(stacks: Seq<ItemStack>, slots: int, entry: ItemStack) -> Seq<ItemStack> {
    let k = index_of(stacks, entry.id());
    let p = placed_amount(stacks, slots, entry);
    if k >= 0 {
        stacks.update(k, stacks[k].with_size((stacks[k].size + p) as u16))
    } else if p > 0 {
        stacks.push(entry.with_size(p as u16))
    } else {
        stacks
    }
}

/// `stacks` after packing the entries of `demand` one by one, in order.
pub open spec fn packed(stacks: Seq<ItemStack>, slots: int, demand: Seq<ItemStack>) -> Seq<ItemStack>
    decreases demand.len(),
{
    if demand.len() == 0 {
        stacks
    } else {
        add_one(packed(stacks, slots, demand.drop_last()), slots, demand.last())
    }
}

/// What packing `demand` into `stacks` leaves over: for each entry in order,
/// the units that did not go in, entries that went in whole left out.
pub open spec fn leftover(stacks: Seq<ItemStack>, slots: int, demand: Seq<ItemStack>) -> Seq<ItemStack>
    decreases demand.len(),
{
    if demand.len() == 0 {
        seq![]
    } else {
        let before = packed(stacks, slots, demand.drop_last());
        let e = demand.last();
        let rest = e.size - placed_amount(before, slots, e);
        let earlier = leftover(stacks, slots, demand.drop_last());
        if rest > 0 {
            earlier.push(e.with_size(rest as u16))
        } else {
            earlier
        }
    }
}

pub(crate) proof fn lemma_slots_nonneg(stacks: Seq<ItemStack>)
    requires
        types_valid(stacks),
    ensures
        slots_of(stacks) >= 0,
    decreases stacks.len(),
{
    if stacks.len() > 0 {
        let s = stacks.last();
        assert(s.item_type.valid());
        lemma_ceil_div_parts(s.size as int, s.max_stack());
        lemma_slots_nonneg(stacks.drop_last());
    }
}

pub(crate) proof fn lemma_slots_prefix(stacks: Seq<ItemStack>, i: int)
    requires
        types_valid(stacks),
        0 <= i <= stacks.len(),
    ensures
        slots_of(stacks.take(i)) <= slots_of(stacks),
        i < stacks.len() ==> slots_of(stacks.take(i + 1)) == slots_of(stacks.take(i))
            + stacks[i].slots_needed(),
    decreases stacks.len() - i,
{
    if i < stacks.len() {
        assert(stacks.take(i + 1).drop_last() =~= stacks.take(i));
        assert(stacks[i].item_type.valid());
        lemma_ceil_div_parts(stacks[i].size as int, stacks[i].max_stack());
        lemma_slots_prefix(stacks, i + 1);
    } else {
        assert(stacks.take(i) =~= stacks);
    }
}

pub(crate) proof fn lemma_slots_push(stacks: Seq<ItemStack>, s: ItemStack)
    ensures
        slots_of(stacks.push(s)) == slots_of(stacks) + s.slots_needed(),
{
    assert(stacks.push(s).drop_last() =~= stacks);
}

pub(crate) proof fn lemma_slots_update(stacks: Seq<ItemStack>, k: int, s: ItemStack)
    requires
        0 <= k < stacks.len(),
    ensures
        slots_of(stacks.update(k, s)) == slots_of(stacks) - stacks[k].slots_needed()
            + s.slots_needed(),
    decreases stacks.len(),
{
    let u = stacks.update(k, s);
    if k == stacks.len() - 1 {
        assert(u.drop_last() =~= stacks.drop_last());
    } else {
        assert(u.drop_last() =~= stacks.drop_last().update(k, s));
        lemma_slots_update(stacks.drop_last(), k, s);
    }
}

pub(crate) proof fn lemma_quantity_prefix(stacks: Seq<ItemStack>, id: u16, i: int)
    requires
        0 <= i <= stacks.len(),
    ensures
        quantity(stacks.take(i), id) <= quantity(stacks, id),
        quantity(stacks.take(i), id) >= 0,
        i < stacks.len() ==> quantity(stacks.take(i + 1), id) == quantity(stacks.take(i), id)
            + if stacks[i].id() == id {
            stacks[i].size as int
        } else {
            0
        },
    decreases stacks.len() - i,
{
    if i < stacks.len() {
        assert(stacks.take(i + 1).drop_last() =~= stacks.take(i));
        lemma_quantity_prefix(stacks, id, i + 1);
    } else {
        assert(stacks.take(i) =~= stacks);
    }
    lemma_quantity_nonneg(stacks.take(i), id);
}

pub(crate) proof fn lemma_quantity_nonneg(stacks: Seq<ItemStack>, id: u16)
    ensures
        quantity(stacks, id) >= 0,
    decreases stacks.len(),
{
    if stacks.len() > 0 {
        lemma_quantity_nonneg(stacks.drop_last(), id);
    }
}

pub(crate) proof fn lemma_grown_prefix(stacks: Seq<ItemStack>, demand: Seq<ItemStack>, i: int)
    requires
        types_valid(stacks),
        0 <= i <= stacks.len(),
    ensures
        0 <= grown_slots(stacks.take(i), demand) <= grown_slots(stacks, demand),
        i < stacks.len() ==> grown_slots(stacks.take(i + 1), demand) == grown_slots(
            stacks.take(i),
            demand,
        ) + ceil_div(stacks[i].size + quantity(demand, stacks[i].id()), stacks[i].max_stack()),
    decreases stacks.len() - i,
{
    lemma_quantity_nonneg(demand, 0);
    if i < stacks.len() {
        assert(stacks.take(i + 1).drop_last() =~= stacks.take(i));
        assert(stacks[i].item_type.valid());
        lemma_quantity_nonneg(demand, stacks[i].id());
        lemma_ceil_div_parts(stacks[i].size + quantity(demand, stacks[i].id()), stacks[i].max_stack());
        lemma_grown_prefix(stacks, demand, i + 1);
        assert(types_valid(stacks.take(i))) by {
            assert forall|j: int| 0 <= j < i implies #[trigger] stacks.take(i)[j].item_type.valid() by {
                assert(stacks.take(i)[j] == stacks[j]);
            }
        }
        lemma_grown_nonneg(stacks.take(i), demand);
    } else {
        assert(stacks.take(i) =~= stacks);
        lemma_grown_nonneg(stacks, demand);
    }
}

pub(crate) proof fn lemma_grown_nonneg(stacks: Seq<ItemStack>, demand: Seq<ItemStack>)
    requires
        types_valid(stacks),
    ensures
        grown_slots(stacks, demand) >= 0,
    decreases stacks.len(),
{
    if stacks.len() > 0 {
        let s = stacks.last();
        assert(s.item_type.valid());
        lemma_quantity_nonneg(demand, s.id());
        lemma_ceil_div_parts(s.size + quantity(demand, s.id()), s.max_stack());
        lemma_grown_nonneg(stacks.drop_last(), demand);
    }
}

pub(crate) proof fn lemma_fresh_mono(stacks: Seq<ItemStack>, demand: Seq<ItemStack>, n: int, m: int)
    requires
        types_valid(demand),
        0 <= n <= m <= demand.len(),
    ensures
        0 <= fresh_slots(stacks, demand, n) <= fresh_slots(stacks, demand, m),
    decreases m,
{
    if m > 0 {
        assert(demand[m - 1].item_type.valid());
        lemma_quantity_nonneg(demand, demand[m - 1].id());
        lemma_ceil_div_parts(quantity(demand, demand[m - 1].id()), demand[m - 1].max_stack());
        lemma_fresh_mono(stacks, demand, if n < m { n } else { m - 1 }, m - 1);
    }
}

/// A positive quantity of a type comes from some non-empty stack of that type.
pub(crate) proof fn lemma_quantity_witness(stacks: Seq<ItemStack>, id: u16)
    requires
        quantity(stacks, id) > 0,
    ensures
        exists|i: int| 0 <= i < stacks.len() && #[trigger] stacks[i].id() == id && stacks[i].size > 0,
    decreases stacks.len(),
{
    if quantity(stacks.drop_last(), id) > 0 {
        lemma_quantity_witness(stacks.drop_last(), id);
        let i = choose|i: int|
            0 <= i < stacks.drop_last().len() && #[trigger] stacks.drop_last()[i].id() == id
                && stacks.drop_last()[i].size > 0;
        assert(stacks[i] == stacks.drop_last()[i]);
    } else {
        assert(stacks[stacks.len() - 1].id() == id && stacks[stacks.len() - 1].size > 0);
    }
}

pub(crate) proof fn lemma_index_of(stacks: Seq<ItemStack>, id: u16)
    ensures
        -1 <= index_of(stacks, id) < stacks.len(),
        index_of(stacks, id) >= 0 ==> stacks[index_of(stacks, id)].id() == id,
        index_of(stacks, id) == -1 ==> forall|i: int|
            0 <= i < stacks.len() ==> #[trigger] stacks[i].id() != id,
    decreases stacks.len(),
{
    if stacks.len() > 0 {
        lemma_index_of(stacks.drop_last(), id);
        if stacks.last().id() != id {
            assert forall|i: int| 0 <= i < stacks.len() && index_of(stacks, id) == -1 implies #[trigger] stacks[i].id() != id by {
                if i < stacks.len() - 1 {
                    assert(stacks.drop_last()[i] == stacks[i]);
                }
            }
        }
    }
}

/// With one stack per type, a type's quantity is the size of its stack.
pub(crate) proof fn lemma_quantity_unique(stacks: Seq<ItemStack>, id: u16)
    requires
        stacks_valid(stacks),
    ensures
        index_of(stacks, id) >= 0 ==> quantity(stacks, id) == stacks[index_of(stacks, id)].size,
        index_of(stacks, id) == -1 ==> quantity(stacks, id) == 0,
    decreases stacks.len(),
{
    if stacks.len() > 0 {
        let d = stacks.drop_last();
        assert(stacks_valid(d)) by {
            assert forall|i: int| 0 <= i < d.len() implies #[trigger] d[i].item_type.valid() by {
                assert(stacks[i].item_type.valid());
            }
            assert forall|i: int| 0 <= i < d.len() implies #[trigger] d[i].size > 0 by {
                assert(stacks[i].size > 0);
            }
            assert forall|i: int, j: int| 0 <= i < j < d.len() implies #[trigger] d[i].id() != #[trigger] d[j].id() by {
                assert(stacks[i].id() != stacks[j].id());
            }
        }
        lemma_quantity_unique(d, id);
        lemma_index_of(d, id);
        if stacks.last().id() == id && index_of(d, id) >= 0 {
            let k = index_of(d, id);
            assert(stacks[k].id() != stacks[stacks.len() - 1].id());
        }
    }
}

/// What `taken` keeps: valid, unique stacks whose types were already held,
/// occupying no more slots than before.
pub(crate) proof fn lemma_taken(stacks: Seq<ItemStack>, demand: Seq<ItemStack>)
    requires
        stacks_valid(stacks),
    ensures
        stacks_valid(taken(stacks, demand)),
        slots_of(taken(stacks, demand)) <= slots_of(stacks),
        forall|j: int|
            0 <= j < taken(stacks, demand).len() ==> exists|k: int|
                0 <= k < stacks.len() && stacks[k].id() == #[trigger] taken(stacks, demand)[j].id(),
    decreases stacks.len(),
{
    if stacks.len() > 0 {
        let d = stacks.drop_last();
        assert(stacks_valid(d)) by {
            assert forall|i: int| 0 <= i < d.len() implies #[trigger] d[i].item_type.valid() by {
                assert(stacks[i].item_type.valid());
            }
            assert forall|i: int| 0 <= i < d.len() implies #[trigger] d[i].size > 0 by {
                assert(stacks[i].size > 0);
            }
            assert forall|i: int, j: int| 0 <= i < j < d.len() implies #[trigger] d[i].id() != #[trigger] d[j].id() by {
                assert(stacks[i].id() != stacks[j].id());
            }
        }
        lemma_taken(d, demand);
        let rest = taken(d, demand);
        let s = stacks.last();
        let left = s.size - quantity(demand, s.id());
        assert(s.item_type.valid());
        lemma_ceil_div_parts(s.size as int, s.max_stack());
        if left > 0 {
            let t = rest.push(s.with_size(left as u16));
            lemma_slots_push(rest, s.with_size(left as u16));
            lemma_quantity_nonneg(demand, s.id());
            vstd::arithmetic::div_mod::lemma_div_is_ordered(
                left + s.max_stack() - 1,
                s.size + s.max_stack() - 1,
                s.max_stack(),
            );
            assert forall|j: int| 0 <= j < t.len() implies exists|k: int|
                0 <= k < stacks.len() && stacks[k].id() == #[trigger] t[j].id() by {
                if j < rest.len() {
                    assert(t[j] == rest[j]);
                    let k = choose|k: int| 0 <= k < d.len() && d[k].id() == #[trigger] rest[j].id();
                    assert(stacks[k] == d[k]);
                } else {
                    assert(stacks[stacks.len() - 1].id() == t[j].id());
                }
            }
            assert forall|i: int, j: int| 0 <= i < j < t.len() implies #[trigger] t[i].id() != #[trigger] t[j].id() by {
                if j < rest.len() {
                    assert(t[i] == rest[i] && t[j] == rest[j]);
                } else {
                    assert(t[i] == rest[i]);
                    let k = choose|k: int| 0 <= k < d.len() && d[k].id() == #[trigger] rest[i].id();
                    assert(stacks[k].id() != stacks[stacks.len() - 1].id());
                }
            }
            assert forall|i: int| 0 <= i < t.len() implies #[trigger] t[i].item_type.valid() && t[i].size > 0 by {
                if i < rest.len() {
                    assert(t[i] == rest[i]);
                }
            }
        } else {
            lemma_slots_nonneg(stacks);
            assert forall|j: int| 0 <= j < rest.len() implies exists|k: int|
                0 <= k < stacks.len() && stacks[k].id() == #[trigger] rest[j].id() by {
                let k = choose|k: int| 0 <= k < d.len() && d[k].id() == #[trigger] rest[j].id();
                assert(stacks[k] == d[k]);
            }
        }
    }
}

pub(crate) proof fn lemma_taken_step(stacks: Seq<ItemStack>, demand: Seq<ItemStack>, i: int)
    requires
        0 <= i < stacks.len(),
    ensures
        taken(stacks.take(i + 1), demand) == ({
            let rest = taken(stacks.take(i), demand);
            let left = stacks[i].size - quantity(demand, stacks[i].id());
            if left > 0 {
                rest.push(stacks[i].with_size(left as u16))
            } else {
                rest
            }
        }),
{
    assert(stacks.take(i + 1).drop_last() =~= stacks.take(i));
}

/// Units of item type `id` over `demand`, as long as they do not exceed `cap`;
/// some number above `cap` otherwise.
fn quantity_capped(demand: &Vec<ItemStack>, id: u16, cap: u64) -> (r: u64)
    requires
        cap <= u32::MAX,
    ensures
        quantity(demand@, id) <= cap ==> r == quantity(demand@, id),
        quantity(demand@, id) > cap ==> r > cap,
{
    let mut total: u64 = 0;
    let mut j: usize = 0;
    while j < demand.len()
        invariant
            0 <= j <= demand.len(),
            cap <= u32::MAX,
            total == quantity(demand@.take(j as int), id),
            total <= cap,
        decreases demand.len() - j,
    {
        proof {
            lemma_quantity_prefix(demand@, id, j as int);
        }
        if demand[j].item_type.id == id {
            total = total + demand[j].size as u64;
            if total > cap {
                proof {
                    lemma_quantity_prefix(demand@, id, j + 1);
                }
                return total;
            }
        }
        j = j + 1;
    }
    proof {
        assert(demand@.take(demand.len() as int) =~= demand@);
    }
    total
}

pub(crate) proof fn lemma_taken_untouched(stacks: Seq<ItemStack>, demand: Seq<ItemStack>)
    requires
        forall|i: int| 0 <= i < stacks.len() ==> #[trigger] stacks[i].size > 0,
        forall|i: int| 0 <= i < stacks.len() ==> quantity(demand, #[trigger] stacks[i].id()) == 0,
    ensures
        taken(stacks, demand) == stacks,
    decreases stacks.len(),
{
    if stacks.len() > 0 {
        let d = stacks.drop_last();
        assert forall|i: int| 0 <= i < d.len() implies #[trigger] d[i].size > 0 by {
            assert(stacks[i].size > 0);
        }
        assert forall|i: int| 0 <= i < d.len() implies quantity(demand, #[trigger] d[i].id()) == 0 by {
            assert(quantity(demand, stacks[i].id()) == 0);
        }
        lemma_taken_untouched(d, demand);
        assert(stacks.last().size > 0);
        assert(quantity(demand, stacks.last().id()) == 0);
        assert(stacks.last().with_size(stacks.last().size) == stacks.last());
        assert(d.push(stacks.last()) =~= stacks);
    }
}

/// Round trip: when the slots left free can hold a stack of an item type that
/// is not held, adding that stack and then removing it succeeds and gives back
/// exactly the stacks held before.
pub proof fn lemma_add_then_remove(stacks: Seq<ItemStack>, slots: int, s: ItemStack)
    requires
        stacks_valid(stacks),
        s.item_type.valid(),
        index_of(stacks, s.id()) == -1,
        slots_of(stacks) + s.slots_needed() <= slots,
    ensures
        can_take(packed(stacks, slots, seq![s]), seq![s]),
        taken(packed(stacks, slots, seq![s]), seq![s]) == stacks,
{
    let d = seq![s];
    assert(d.drop_last() =~= Seq::<ItemStack>::empty());
    assert(packed(stacks, slots, d.drop_last()) == stacks);
    assert(d.last() == s);
    assert(packed(stacks, slots, d) == add_one(stacks, slots, s));
    lemma_ceil_div_parts(s.size as int, s.max_stack());
    lemma_ceil_div_bound(s.size as int, s.max_stack(), s.slots_needed());
    assert(placed_amount(stacks, slots, s) == s.size);
    lemma_index_of(stacks, s.id());
    lemma_quantity_unique(stacks, s.id());
    assert(quantity(d, s.id()) == s.size) by {
        assert(quantity(d.drop_last(), s.id()) == 0);
    }
    assert forall|i: int| 0 <= i < stacks.len() implies quantity(d, #[trigger] stacks[i].id()) == 0 by {
        assert(quantity(d.drop_last(), stacks[i].id()) == 0);
        assert(stacks[i].id() != s.id());
    }
    lemma_taken_untouched(stacks, d);
    let after = packed(stacks, slots, d);
    if s.size > 0 {
        assert(after == stacks.push(s.with_size(s.size)));
        assert(after.drop_last() =~= stacks);
        assert(quantity(after, s.id()) == s.size);
        assert(taken(after, d) == taken(stacks, d));
    } else {
        assert(after == stacks);
        lemma_quantity_nonneg(stacks, s.id());
    }
    assert forall|i: int| 0 <= i < d.len() implies quantity(d, #[trigger] d[i].id()) <= quantity(after, d[i].id()) by {
        assert(d[i] == s);
    }
}

/// Why a strict insertion did not happen.
#[derive(Debug, Clone, Copy, PartialEq, Eq, Structural)]
pub enum InventoryError {
    /// The items do not all fit.
    InventoryFull,
    /// The capacity check passed, yet packing left items over. This is proved
    /// not to happen; it stands for the internal-consistency fault.
    PackingMismatch,
}

/// A field-for-field copy of a sequence of stacks.
fn copy_stacks(stacks: &Vec<ItemStack>) -> (r: Vec<ItemStack>)
    ensures
        r@ == stacks@,
{
    let mut r: Vec<ItemStack> = Vec::new();
    let mut i: usize = 0;
    while i < stacks.len()
        invariant
            0 <= i <= stacks.len(),
            r@ == stacks@.take(i as int),
        decreases stacks.len() - i,
    {
        r.push(stacks[i].duplicate());
        proof {
            assert(stacks@.take(i + 1) =~= stacks@.take(i as int).push(stacks@[i as int]));
        }
        i = i + 1;
    }
    proof {
        assert(stacks@.take(stacks.len() as int) =~= stacks@);
    }
    r
}

/// A bounded container of item stacks, at most one per item type.
pub struct Inventory {
    pub stacks: Vec<ItemStack>,
    /// Capacity in slots.
    pub slots: u16,
}

impl Default for Inventory {
    /// An empty inventory of one slot.
    fn default() -> (r: Inventory)
        ensures
            r.stacks@.len() == 0,
            r.slots == 1,
    {
        Inventory { stacks: Vec::new(), slots: 1 }
    }
}

impl Inventory {
    /// Stacks are valid and unique by type, and fit in the slots.
    pub open spec fn wf(&self) -> bool {
        &&& stacks_valid(self.stacks@)
        &&& slots_of(self.stacks@) <= self.slots
    }

    /// An empty inventory with `slots` slots.
    pub fn new(slots: u16) -> (r: Inventory)
        ensures
            r.wf(),
            r.stacks@.len() == 0,
            r.slots == slots,
    {
        Inventory { stacks: Vec::new(), slots }
    }

    /// Position of the stack of item type `id`, if there is one.
    fn find(&self, id: u16) -> (r: Option<usize>)
        requires
            stacks_valid(self.stacks@),
        ensures
            r is None <==> index_of(self.stacks@, id) == -1,
            r matches Some(k) ==> k == index_of(self.stacks@, id),
    {
        proof {
            lemma_index_of(self.stacks@, id);
        }
        let mut i: usize = 0;
        while i < self.stacks.len()
            invariant
                stacks_valid(self.stacks@),
                0 <= i <= self.stacks.len(),
                forall|j: int| 0 <= j < i ==> #[trigger] self.stacks@[j].id() != id,
            decreases self.stacks.len() - i,
        {
            if self.stacks[i].item_type.id == id {
                proof {
                    lemma_index_of(self.stacks@, id);
                    let k = index_of(self.stacks@, id);
                    if k != i {
                        assert(self.stacks@[k].id() != self.stacks@[i as int].id());
                    }
                }
                return Some(i);
            }
            i = i + 1;
        }
        None
    }

    /// Units of item type `id` held.
    pub fn held(&self, id: u16) -> (r: u16)
        requires
            self.wf(),
        ensures
            r == quantity(self.stacks@, id),
    {
        proof {
            lemma_quantity_unique(self.stacks@, id);
            lemma_index_of(self.stacks@, id);
        }
        match self.find(id) {
            Some(k) => self.stacks[k].size,
            None => 0,
        }
    }

    /// Slots occupied by the stacks held: the sum of their needed slots.
    pub fn used_slots(&self) -> (r: u16)
        requires
            self.wf(),
        ensures
            r == slots_of(self.stacks@),
    {
        let mut total: u16 = 0;
        let mut i: usize = 0;
        while i < self.stacks.len()
            invariant
                self.wf(),
                0 <= i <= self.stacks.len(),
                total == slots_of(self.stacks@.take(i as int)),
            decreases self.stacks.len() - i,
        {
            proof {
                lemma_slots_prefix(self.stacks@, i as int);
                lemma_slots_prefix(self.stacks@, i + 1);
                assert(self.stacks@[i as int].item_type.valid());
            }
            total = total + self.stacks[i].needed_slots();
            i = i + 1;
        }
        proof {
            assert(self.stacks@.take(self.stacks.len() as int) =~= self.stacks@);
        }
        total
    }

    /// Packs one entry; returns how many of its units went in.
    fn place(&mut self, entry: &ItemStack) -> (placed: u16)
        requires
            old(self).wf(),
            entry.item_type.valid(),
        ensures
            final(self).wf(),
            final(self).slots == old(self).slots,
            placed == placed_amount(old(self).stacks@, old(self).slots as int, *entry),
            final(self).stacks@ == add_one(old(self).stacks@, old(self).slots as int, *entry),
    {
        let used = self.used_slots();
        let free = self.slots - used;
        proof {
            lemma_index_of(self.stacks@, entry.id());
            lemma_add_one_valid(self.stacks@, self.slots as int, *entry);
        }
        match self.find(entry.item_type.id) {
            Some(k) => {
                let s = self.stacks[k].duplicate();
                let m = s.item_type.max_stack as u64;
                let need = s.needed_slots();
                proof {
                    assert(self.stacks@[k as int].item_type.valid());
                    lemma_ceil_div_bound(s.size as int, s.max_stack(), need as int);
                    assert((need as int + free as int) * (m as int) <= 131070 * 65535) by (nonlinear_arith)
                        requires
                            0 <= need <= 65535,
                            0 <= free <= 65535,
                            0 <= m <= 65535,
                    ;
                    assert((need as int + free as int) * (m as int) >= need as int * m as int) by (nonlinear_arith)
                        requires
                            0 <= free,
                            0 <= m,
                    ;
                }
                let room: u64 = (need as u64 + free as u64) * m - s.size as u64;
                let mut p: u64 = entry.size as u64;
                if room < p {
                    p = room;
                }
                if ((u16::MAX - s.size) as u64) < p {
                    p = (u16::MAX - s.size) as u64;
                }
                self.stacks.set(k, s.resized(s.size + p as u16));
                p as u16
            },
            None => {
                let m = entry.item_type.max_stack;
                let need = entry.needed_slots();
                let n: u16 = if free < need {
                    free
                } else {
                    need
                };
                proof {
                    assert(n as int * m as int <= 65535 * 65535) by (nonlinear_arith)
                        requires
                            0 <= n <= 65535,
                            0 <= m <= 65535,
                    ;
                }
                let cap: u64 = n as u64 * m as u64;
                let size: u64 = if (entry.size as u64) < cap {
                    entry.size as u64
                } else {
                    cap
                };
                if size > 0 {
                    self.stacks.push(entry.resized(size as u16));
                }
                size as u16
            },
        }
    }

    /// Best-effort insertion. Entries are packed in order: each tops up the
    /// stack of its type, if one is held, then spreads over free slots, at most
    /// `max_stack` units per slot; a type not held gets a new stack. Whatever
    /// does not fit is returned, one entry per input entry that did not go in
    /// whole. What did go in stays in, and the stacks always fit the slots.
    pub fn add(&mut self, demand: &Vec<ItemStack>) -> (r: Vec<ItemStack>)
        requires
            old(self).wf(),
            types_valid(demand@),
        ensures
            final(self).wf(),
            slots_of(final(self).stacks@) <= final(self).slots,
            final(self).slots == old(self).slots,
            final(self).stacks@ == packed(old(self).stacks@, old(self).slots as int, demand@),
            r@ == leftover(old(self).stacks@, old(self).slots as int, demand@),
    {
        let ghost start = self.stacks@;
        let mut rest: Vec<ItemStack> = Vec::new();
        let mut i: usize = 0;
        while i < demand.len()
            invariant
                self.wf(),
                self.slots == old(self).slots,
                start == old(self).stacks@,
                types_valid(demand@),
                0 <= i <= demand.len(),
                self.stacks@ == packed(start, self.slots as int, demand@.take(i as int)),
                rest@ == leftover(start, self.slots as int, demand@.take(i as int)),
            decreases demand.len() - i,
        {
            let e = &demand[i];
            proof {
                assert(demand@[i as int].item_type.valid());
                assert(demand@.take(i + 1).drop_last() =~= demand@.take(i as int));
            }
            let p = self.place(e);
            if p < e.size {
                rest.push(e.resized(e.size - p));
            }
            i = i + 1;
        }
        proof {
            assert(demand@.take(demand.len() as int) =~= demand@);
        }
        rest
    }

    /// Whether no entry of `demand` before position `i` has the item type of
    /// entry `i` and a positive size.
    fn first_of_type(demand: &Vec<ItemStack>, i: usize) -> (r: bool)
        requires
            i < demand.len(),
        ensures
            r == forall|j: int|
                0 <= j < i && #[trigger] demand@[j].id() == demand@[i as int].id() ==> demand@[j].size
                    == 0,
    {
        let id = demand[i].item_type.id;
        let mut j: usize = 0;
        while j < i
            invariant
                i < demand.len(),
                id == demand@[i as int].id(),
                0 <= j <= i,
                forall|x: int| 0 <= x < j && #[trigger] demand@[x].id() == id ==> demand@[x].size == 0,
            decreases i - j,
        {
            if demand[j].item_type.id == id && demand[j].size > 0 {
                proof {
                    assert(demand@[j as int].id() == demand@[i as int].id());
                }
                return false;
            }
            j = j + 1;
        }
        true
    }

    /// Whether all of `demand` would go in: merged into the stacks of its
    /// types, and with new stacks for the other types, it needs no more slots
    /// than the inventory has. The inventory is not changed.
    pub fn can_fit(&self, demand: &Vec<ItemStack>) -> (r: bool)
        requires
            self.wf(),
            types_valid(demand@),
        ensures
            r == fits(self.stacks@, self.slots as int, demand@),
    {
        let ghost st = self.stacks@;
        let mut total: u64 = 0;
        let mut k: usize = 0;
        while k < self.stacks.len()
            invariant
                self.wf(),
                st == self.stacks@,
                types_valid(demand@),
                0 <= k <= self.stacks.len(),
                total == grown_slots(st.take(k as int), demand@),
                total <= self.slots,
                forall|j: int|
                    0 <= j < k ==> st[j].size + quantity(demand@, #[trigger] st[j].id()) <= u16::MAX,
            decreases self.stacks.len() - k,
        {
            let s = &self.stacks[k];
            let room = (u16::MAX - s.size) as u64;
            let q = quantity_capped(demand, s.item_type.id, room);
            proof {
                lemma_grown_prefix(st, demand@, k as int);
                lemma_grown_prefix(st, demand@, k + 1);
                lemma_fresh_mono(st, demand@, 0, demand@.len() as int);
                assert(st[k as int].item_type.valid());
            }
            if q > room {
                proof {
                    let id = s.id();
                    lemma_quantity_witness(demand@, id);
                    let j = choose|j: int| 0 <= j < demand@.len() && #[trigger] demand@[j].id() == id && demand@[j].size > 0;
                    lemma_quantity_unique(st, id);
                    lemma_index_of(st, id);
                    let x = index_of(st, id);
                    if x != k {
                        assert(st[x].id() != st[k as int].id());
                    }
                    assert(quantity(st, demand@[j].id()) + quantity(demand@, demand@[j].id()) > u16::MAX);
                }
                return false;
            }
            let m = s.item_type.max_stack as u64;
            total = total + (s.size as u64 + q + m - 1) / m;
            if total > self.slots as u64 {
                return false;
            }
            k = k + 1;
        }
        proof {
            assert(st.take(st.len() as int) =~= st);
        }
        let mut i: usize = 0;
        while i < demand.len()
            invariant
                self.wf(),
                st == self.stacks@,
                types_valid(demand@),
                0 <= i <= demand.len(),
                total == grown_slots(st, demand@) + fresh_slots(st, demand@, i as int),
                total <= self.slots,
                forall|j: int|
                    0 <= j < st.len() ==> st[j].size + quantity(demand@, #[trigger] st[j].id()) <= u16::MAX,
                forall|j: int|
                    0 <= j < i && index_of(st, #[trigger] demand@[j].id()) == -1 && demand@[j].size > 0
                        ==> quantity(demand@, demand@[j].id()) <= u16::MAX,
            decreases demand.len() - i,
        {
            let e = &demand[i];
            let id = e.item_type.id;
            proof {
                lemma_fresh_mono(st, demand@, i + 1, demand@.len() as int);
                lemma_grown_nonneg(st, demand@);
                assert(demand@[i as int].item_type.valid());
                lemma_index_of(demand@.take(i as int), id);
            }
            let held = self.find(id);
            if held.is_none() && e.size > 0 {
                let q = quantity_capped(demand, id, u16::MAX as u64);
                if q > u16::MAX as u64 {
                    proof {
                        lemma_quantity_unique(st, id);
                        assert(quantity(st, demand@[i as int].id()) + quantity(
                            demand@,
                            demand@[i as int].id(),
                        ) > u16::MAX);
                    }
                    return false;
                }
                if Self::first_of_type(demand, i) {
                    let m = e.item_type.max_stack as u64;
                    total = total + (q + m - 1) / m;
                    if total > self.slots as u64 {
                        return false;
                    }
                }
            }
            i = i + 1;
        }
        proof {
            assert forall|j: int| 0 <= j < demand@.len() implies quantity(st, #[trigger] demand@[j].id())
                + quantity(demand@, demand@[j].id()) <= u16::MAX by {
                let id = demand@[j].id();
                lemma_quantity_unique(st, id);
                lemma_index_of(st, id);
                if index_of(st, id) >= 0 {
                    assert(st[index_of(st, id)].id() == id);
                } else if quantity(demand@, id) > 0 {
                    lemma_quantity_witness(demand@, id);
                    let x = choose|x: int|
                        0 <= x < demand@.len() && #[trigger] demand@[x].id() == id && demand@[x].size > 0;
                    assert(index_of(st, demand@[x].id()) == -1);
                }
            }
        }
        true
    }

    /// Inserts all of `demand` or nothing: when it fits it is packed as
    /// `add` packs it, else the error is `InventoryFull` and nothing changes.
    /// Packing what fits leaves nothing over; were it ever to, the inventory
    /// would be put back and the error would be `PackingMismatch`.
    pub fn add_strict(&mut self, demand: &Vec<ItemStack>) -> (r: Result<(), InventoryError>)
        requires
            old(self).wf(),
            types_valid(demand@),
        ensures
            final(self).wf(),
            final(self).slots == old(self).slots,
            r is Ok <==> fits(old(self).stacks@, old(self).slots as int, demand@),
            r is Err ==> r == Err::<(), InventoryError>(InventoryError::InventoryFull),
            r is Ok ==> final(self).stacks@ == packed(
                old(self).stacks@,
                old(self).slots as int,
                demand@,
            ),
            r is Err ==> final(self).stacks@ == old(self).stacks@,
    {
        if !self.can_fit(demand) {
            return Err(InventoryError::InventoryFull);
        }
        proof {
            lemma_fits_packs_all(self.stacks@, self.slots as int, demand@);
        }
        let before = copy_stacks(&self.stacks);
        let rest = self.add(demand);
        if rest.len() > 0 {
            self.stacks = before;
            return Err(InventoryError::PackingMismatch);
        }
        Ok(())
    }

    /// Slots that the stacks fill completely.
    pub fn used_full_slots(&self) -> (r: u16)
        requires
            self.wf(),
        ensures
            r == full_slots_of(self.stacks@),
    {
        let mut total: u16 = 0;
        let mut i: usize = 0;
        while i < self.stacks.len()
            invariant
                self.wf(),
                0 <= i <= self.stacks.len(),
                total == full_slots_of(self.stacks@.take(i as int)),
            decreases self.stacks.len() - i,
        {
            proof {
                lemma_full_partial_prefix(self.stacks@, i as int);
                assert(self.stacks@[i as int].item_type.valid());
            }
            total = total + self.stacks[i].needed_full_slots();
            i = i + 1;
        }
        proof {
            assert(self.stacks@.take(self.stacks.len() as int) =~= self.stacks@);
        }
        total
    }

    /// Stacks that leave a slot partly filled.
    pub fn used_partial_slots(&self) -> (r: u16)
        requires
            self.wf(),
        ensures
            r == partial_slots_of(self.stacks@),
    {
        let mut total: u16 = 0;
        let mut i: usize = 0;
        while i < self.stacks.len()
            invariant
                self.wf(),
                0 <= i <= self.stacks.len(),
                total == partial_slots_of(self.stacks@.take(i as int)),
            decreases self.stacks.len() - i,
        {
            proof {
                lemma_full_partial_prefix(self.stacks@, i as int);
                assert(self.stacks@[i as int].item_type.valid());
            }
            total = total + self.stacks[i].needed_partial_slots();
            i = i + 1;
        }
        proof {
            assert(self.stacks@.take(self.stacks.len() as int) =~= self.stacks@);
        }
        total
    }

    /// Whether every item type of `demand` is held in at least the quantity
    /// that `demand` asks for in all.
    pub fn contains(&self, demand: &Vec<ItemStack>) -> (r: bool)
        requires
            self.wf(),
        ensures
            r == can_take(self.stacks@, demand@),
    {
        let mut i: usize = 0;
        while i < demand.len()
            invariant
                self.wf(),
                0 <= i <= demand.len(),
                forall|j: int|
                    0 <= j < i ==> quantity(demand@, #[trigger] demand@[j].id()) <= quantity(
                        self.stacks@,
                        demand@[j].id(),
                    ),
            decreases demand.len() - i,
        {
            let id = demand[i].item_type.id;
            let have = self.held(id);
            let want = quantity_capped(demand, id, have as u64);
            if want > have as u64 {
                proof {
                    assert(quantity(demand@, demand@[i as int].id()) > quantity(
                        self.stacks@,
                        demand@[i as int].id(),
                    ));
                }
                return false;
            }
            i = i + 1;
        }
        true
    }

    /// Takes `demand` out all at once or not at all. Returns whether every
    /// item type of `demand` was held in sufficient quantity; only then are
    /// the stacks changed, and stacks that become empty are dropped.
    pub fn remove(&mut self, demand: &Vec<ItemStack>) -> (r: bool)
        requires
            old(self).wf(),
        ensures
            final(self).wf(),
            final(self).slots == old(self).slots,
            r == can_take(old(self).stacks@, demand@),
            r ==> final(self).stacks@ == taken(old(self).stacks@, demand@),
            !r ==> final(self).stacks@ == old(self).stacks@,
    {
        if !self.contains(demand) {
            return false;
        }
        let mut kept: Vec<ItemStack> = Vec::new();
        let mut k: usize = 0;
        while k < self.stacks.len()
            invariant
                self.wf(),
                can_take(self.stacks@, demand@),
                0 <= k <= self.stacks.len(),
                kept@ == taken(self.stacks@.take(k as int), demand@),
            decreases self.stacks.len() - k,
        {
            let s = &self.stacks[k];
            let want = quantity_capped(demand, s.item_type.id, s.size as u64);
            proof {
                lemma_taken_step(self.stacks@, demand@, k as int);
                let id = s.id();
                if quantity(demand@, id) > 0 {
                    lemma_quantity_witness(demand@, id);
                    let j = choose|j: int| 0 <= j < demand@.len() && #[trigger] demand@[j].id() == id && demand@[j].size > 0;
                    assert(quantity(demand@, demand@[j].id()) <= quantity(self.stacks@, id));
                    lemma_quantity_unique(self.stacks@, id);
                    lemma_index_of(self.stacks@, id);
                    let x = index_of(self.stacks@, id);
                    if x != k {
                        assert(self.stacks@[x].id() != self.stacks@[k as int].id());
                    }
                }
            }
            if want < s.size as u64 {
                kept.push(s.resized(s.size - want as u16));
            }
            k = k + 1;
        }
        proof {
            assert(self.stacks@.take(self.stacks.len() as int) =~= self.stacks@);
            lemma_taken(self.stacks@, demand@);
        }
        self.stacks = kept;
        true
    }
}

} // verus!
