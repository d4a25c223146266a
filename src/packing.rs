//! Why a capacity check that passes leaves nothing over: packing the entries
//! one by one never runs short of the slots that the merged count allowed.

use vstd::prelude::*;
use crate::item::{ceil_div, lemma_ceil_div_bound, lemma_ceil_div_parts, ItemStack};
use crate::inventory::{
    add_one, fits, fresh_slots, grown_slots, index_of, leftover, lemma_fresh_mono,
    lemma_index_of, lemma_quantity_nonneg, lemma_quantity_unique, lemma_slots_push, lemma_slots_update, min_of, opens_stack, packed, placed_amount, quantity,
    slots_of, stacks_valid, types_valid,
};

verus! {

/// One stack's share of `grown_slots`.
pub open spec fn grown_term(s: ItemStack, demand: Seq<ItemStack>) -> int {
    ceil_div(s.size + quantity(demand, s.id()), s.max_stack())
}

proof fn lemma_types_valid_drop_last(stacks: Seq<ItemStack>)
    requires
        types_valid(stacks),
        stacks.len() > 0,
    ensures
        types_valid(stacks.drop_last()),
{
    assert forall|i: int| 0 <= i < stacks.len() - 1 implies #[trigger] stacks.drop_last()[i].item_type.valid() by {
        assert(stacks[i].item_type.valid());
    }
}

proof fn lemma_quantity_front(e: ItemStack, rest: Seq<ItemStack>, id: u16)
    ensures
        quantity(seq![e] + rest, id) == (if e.id() == id {
            e.size as int
        } else {
            0
        }) + quantity(rest, id),
    decreases rest.len(),
{
    let d = seq![e] + rest;
    if rest.len() == 0 {
        assert(d.drop_last() =~= Seq::<ItemStack>::empty());
        assert(d.last() == e);
        assert(quantity(d.drop_last(), id) == 0);
        assert(quantity(rest, id) == 0);
    } else {
        assert(d.drop_last() =~= seq![e] + rest.drop_last());
        assert(d.last() == rest.last());
        lemma_quantity_front(e, rest.drop_last(), id);
    }
}

proof fn lemma_quantity_update(stacks: Seq<ItemStack>, k: int, x: ItemStack, id: u16)
    requires
        0 <= k < stacks.len(),
    ensures
        quantity(stacks.update(k, x), id) == quantity(stacks, id) - (if stacks[k].id() == id {
            stacks[k].size as int
        } else {
            0
        }) + (if x.id() == id {
            x.size as int
        } else {
            0
        }),
    decreases stacks.len(),
{
    let u = stacks.update(k, x);
    if k == stacks.len() - 1 {
        assert(u.drop_last() =~= stacks.drop_last());
    } else {
        assert(u.drop_last() =~= stacks.drop_last().update(k, x));
        lemma_quantity_update(stacks.drop_last(), k, x, id);
    }
}

proof fn lemma_grown_pointwise(
    a: Seq<ItemStack>,
    da: Seq<ItemStack>,
    b: Seq<ItemStack>,
    db: Seq<ItemStack>,
)
    requires
        a.len() == b.len(),
        forall|j: int| 0 <= j < a.len() ==> grown_term(#[trigger] a[j], da) == grown_term(b[j], db),
    ensures
        grown_slots(a, da) == grown_slots(b, db),
    decreases a.len(),
{
    if a.len() > 0 {
        assert forall|j: int| 0 <= j < a.len() - 1 implies grown_term(#[trigger] a.drop_last()[j], da)
            == grown_term(b.drop_last()[j], db) by {
            assert(a.drop_last()[j] == a[j]);
            assert(b.drop_last()[j] == b[j]);
        }
        lemma_grown_pointwise(a.drop_last(), da, b.drop_last(), db);
        assert(grown_term(a[a.len() - 1], da) == grown_term(b[b.len() - 1], db));
    }
}

proof fn lemma_grown_term_ge(s: ItemStack, demand: Seq<ItemStack>)
    requires
        s.item_type.valid(),
    ensures
        grown_term(s, demand) >= s.slots_needed(),
{
    lemma_quantity_nonneg(demand, s.id());
    vstd::arithmetic::div_mod::lemma_div_is_ordered(
        s.size + s.max_stack() - 1,
        s.size + quantity(demand, s.id()) + s.max_stack() - 1,
        s.max_stack(),
    );
}

proof fn lemma_grown_ge_all(stacks: Seq<ItemStack>, demand: Seq<ItemStack>)
    requires
        types_valid(stacks),
    ensures
        grown_slots(stacks, demand) >= slots_of(stacks),
    decreases stacks.len(),
{
    if stacks.len() > 0 {
        lemma_types_valid_drop_last(stacks);
        lemma_grown_ge_all(stacks.drop_last(), demand);
        assert(stacks[stacks.len() - 1].item_type.valid());
        lemma_grown_term_ge(stacks.last(), demand);
    }
}

proof fn lemma_grown_ge(stacks: Seq<ItemStack>, demand: Seq<ItemStack>, k: int)
    requires
        types_valid(stacks),
        0 <= k < stacks.len(),
    ensures
        grown_slots(stacks, demand) >= slots_of(stacks) - stacks[k].slots_needed() + grown_term(
            stacks[k],
            demand,
        ),
    decreases stacks.len(),
{
    let n = stacks.len() - 1;
    lemma_types_valid_drop_last(stacks);
    if k == n {
        lemma_grown_ge_all(stacks.drop_last(), demand);
    } else {
        lemma_grown_ge(stacks.drop_last(), demand, k);
        assert(stacks.drop_last()[k] == stacks[k]);
        assert(stacks[n].item_type.valid());
        lemma_grown_term_ge(stacks.last(), demand);
    }
}

proof fn lemma_fresh_shift(
    stacks: Seq<ItemStack>,
    next: Seq<ItemStack>,
    e: ItemStack,
    rest: Seq<ItemStack>,
    n: int,
)
    requires
        0 <= n <= rest.len(),
        forall|id: u16|
            (#[trigger] index_of(next, id) == -1) == (index_of(stacks, id) == -1 && !(id == e.id()
                && e.size > 0)),
    ensures
        fresh_slots(stacks, seq![e] + rest, n + 1) == fresh_slots(next, rest, n) + (if e.size > 0
            && index_of(stacks, e.id()) == -1 {
            ceil_div(quantity(seq![e] + rest, e.id()), e.max_stack())
        } else {
            0
        }),
    decreases n,
{
    let d = seq![e] + rest;
    assert(d[0] == e);
    assert(fresh_slots(next, rest, 0) == 0);
    assert(fresh_slots(stacks, d, 0) == 0);
    if n == 0 {
        assert(opens_stack(stacks, d, 0) == (e.size > 0 && index_of(stacks, e.id()) == -1));
    } else {
        lemma_fresh_shift(stacks, next, e, rest, n - 1);
        let x = rest[n - 1];
        assert(d[n] == x);
        assert(opens_stack(stacks, d, n) == opens_stack(next, rest, n - 1)) by {
            if opens_stack(stacks, d, n) {
                assert(d[0].id() == x.id() ==> d[0].size == 0);
                assert forall|j: int|
                    0 <= j < n - 1 && #[trigger] rest[j].id() == x.id() implies rest[j].size == 0 by {
                    assert(d[j + 1] == rest[j]);
                }
            }
            if opens_stack(next, rest, n - 1) {
                assert forall|j: int|
                    0 <= j < n && #[trigger] d[j].id() == d[n].id() implies d[j].size == 0 by {
                    if j > 0 {
                        assert(d[j] == rest[j - 1]);
                    }
                }
            }
        }
        if opens_stack(stacks, d, n) {
            lemma_quantity_front(e, rest, x.id());
        }
    }
}

proof fn lemma_packed_front(stacks: Seq<ItemStack>, slots: int, d: Seq<ItemStack>)
    requires
        d.len() >= 1,
    ensures
        packed(stacks, slots, d) == packed(add_one(stacks, slots, d[0]), slots, d.skip(1)),
        leftover(stacks, slots, d).len() == (if placed_amount(stacks, slots, d[0]) < d[0].size {
            1int
        } else {
            0int
        }) + leftover(add_one(stacks, slots, d[0]), slots, d.skip(1)).len(),
    decreases d.len(),
{
    if d.len() == 1 {
        assert(d.drop_last() =~= Seq::<ItemStack>::empty());
        assert(d.skip(1) =~= Seq::<ItemStack>::empty());
        assert(d.last() == d[0]);
        assert(packed(stacks, slots, d.drop_last()) == stacks);
        assert(leftover(stacks, slots, d.drop_last()).len() == 0);
    } else {
        lemma_packed_front(stacks, slots, d.drop_last());
        assert(d.drop_last()[0] == d[0]);
        assert(d.drop_last().skip(1) =~= d.skip(1).drop_last());
        assert(d.skip(1).last() == d.last());
    }
}

pub(crate) proof fn lemma_add_one_valid(stacks: Seq<ItemStack>, slots: int, e: ItemStack)
    requires
        stacks_valid(stacks),
        slots_of(stacks) <= slots,
        e.item_type.valid(),
    ensures
        stacks_valid(add_one(stacks, slots, e)),
        slots_of(add_one(stacks, slots, e)) <= slots,
        placed_amount(stacks, slots, e) >= 0,
{
    let free = slots - slots_of(stacks);
    let k = index_of(stacks, e.id());
    let p = placed_amount(stacks, slots, e);
    lemma_index_of(stacks, e.id());
    lemma_ceil_div_parts(e.size as int, e.max_stack());
    if k >= 0 {
        let s = stacks[k];
        let m = s.max_stack();
        let need = s.slots_needed();
        assert(s.item_type.valid());
        lemma_ceil_div_parts(s.size as int, m);
        lemma_ceil_div_bound(s.size as int, m, need);
        assert((need + free) * m >= need * m) by (nonlinear_arith)
            requires
                free >= 0,
                m > 0,
        ;
        let grown = s.with_size((s.size + p) as u16);
        lemma_ceil_div_bound(s.size + p, m, need + free);
        lemma_slots_update(stacks, k, grown);
        let t = add_one(stacks, slots, e);
        assert(t == stacks.update(k, grown));
        assert forall|i: int, j: int| 0 <= i < j < t.len() implies #[trigger] t[i].id() != #[trigger] t[j].id() by {
            assert(stacks[i].id() != stacks[j].id());
        }
        assert forall|i: int| 0 <= i < t.len() implies #[trigger] t[i].item_type.valid() && t[i].size > 0 by {
            assert(stacks[i].item_type.valid() && stacks[i].size > 0);
        }
    } else {
        let m = e.max_stack();
        let n = min_of(free, e.slots_needed());
        assert(n * m >= 0) by (nonlinear_arith)
            requires
                n >= 0,
                m > 0,
        ;
        if p > 0 {
            let fresh = e.with_size(p as u16);
            lemma_ceil_div_bound(p, m, n);
            lemma_slots_push(stacks, fresh);
            let t = add_one(stacks, slots, e);
            assert(t == stacks.push(fresh));
            assert forall|i: int, j: int| 0 <= i < j < t.len() implies #[trigger] t[i].id() != #[trigger] t[j].id() by {
                if j < t.len() - 1 {
                    assert(stacks[i].id() != stacks[j].id());
                } else {
                    assert(stacks[i].id() != e.id());
                }
            }
            assert forall|i: int| 0 <= i < t.len() implies #[trigger] t[i].item_type.valid() && t[i].size > 0 by {
                if i < t.len() - 1 {
                    assert(stacks[i].item_type.valid() && stacks[i].size > 0);
                }
            }
        }
    }
}

/// When `demand` fits, packing it entry by entry, as `add` does, places every
/// unit: nothing is left over.
pub proof fn lemma_fits_packs_all(stacks: Seq<ItemStack>, slots: int, demand: Seq<ItemStack>)
    requires
        stacks_valid(stacks),
        slots_of(stacks) <= slots,
        types_valid(demand),
        fits(stacks, slots, demand),
    ensures
        leftover(stacks, slots, demand).len() == 0,
    decreases demand.len(),
{
    if demand.len() > 0 {
        let d = demand;
        let e = d[0];
        let rest = d.skip(1);
        assert(d =~= seq![e] + rest);
        let t = e.id();
        let free = slots - slots_of(stacks);
        let k = index_of(stacks, t);
        assert(e.item_type.valid());
        lemma_index_of(stacks, t);
        lemma_quantity_unique(stacks, t);
        lemma_quantity_front(e, rest, t);
        lemma_quantity_nonneg(rest, t);
        lemma_fresh_mono(stacks, d, 0, d.len() as int);
        lemma_fresh_mono(stacks, d, 1, d.len() as int);
        assert(fresh_slots(stacks, d, 0) == 0);
        assert(opens_stack(stacks, d, 0) == (e.size > 0 && k == -1));
        lemma_grown_ge_all(stacks, d);
        lemma_ceil_div_parts(e.size as int, e.max_stack());
        lemma_add_one_valid(stacks, slots, e);
        assert(quantity(stacks, d[0].id()) + quantity(d, d[0].id()) <= u16::MAX);
        if k >= 0 {
            let s = stacks[k];
            let m = s.max_stack();
            assert(s.item_type.valid());
            lemma_grown_ge(stacks, d, k);
            lemma_ceil_div_parts(s.size as int, m);
            vstd::arithmetic::div_mod::lemma_div_is_ordered(
                s.size + e.size + m - 1,
                s.size + quantity(d, t) + m - 1,
                m,
            );
            lemma_ceil_div_bound(s.size + e.size, m, s.slots_needed() + free);
        } else if e.size > 0 {
            vstd::arithmetic::div_mod::lemma_div_is_ordered(
                e.size + e.max_stack() - 1,
                quantity(d, t) + e.max_stack() - 1,
                e.max_stack(),
            );
            lemma_ceil_div_bound(e.size as int, e.max_stack(), e.slots_needed());
        } else {
            let n = min_of(free, e.slots_needed());
            assert(n * e.max_stack() >= 0) by (nonlinear_arith)
                requires
                    n >= 0,
                    e.max_stack() > 0,
            ;
        }
        assert(placed_amount(stacks, slots, e) == e.size);
        let next = add_one(stacks, slots, e);
        lemma_index_of(next, t);
        assert forall|id: u16|
            (#[trigger] index_of(next, id) == -1) == (index_of(stacks, id) == -1 && !(id == t
                && e.size > 0)) by {
            lemma_index_of(next, id);
            lemma_index_of(stacks, id);
            if k >= 0 {
                assert forall|j: int| 0 <= j < next.len() implies #[trigger] next[j].id() == stacks[j].id() by {}
                if index_of(stacks, id) >= 0 {
                    assert(next[index_of(stacks, id)].id() == id);
                }
                if index_of(next, id) >= 0 {
                    assert(stacks[index_of(next, id)].id() == id);
                }
            } else if e.size > 0 {
                assert(next == stacks.push(e.with_size(e.size)));
                if index_of(stacks, id) >= 0 {
                    assert(next[index_of(stacks, id)].id() == id);
                }
                if index_of(next, id) >= 0 && index_of(next, id) < stacks.len() {
                    assert(stacks[index_of(next, id)].id() == id);
                }
                if id == t {
                    assert(next[stacks.len() as int].id() == id);
                }
            }
        }
        lemma_fresh_shift(stacks, next, e, rest, rest.len() as int);
        if k >= 0 {
            let s = stacks[k];
            let grown = s.with_size((s.size + e.size) as u16);
            assert(next == stacks.update(k, grown));
            assert forall|j: int| 0 <= j < next.len() implies grown_term(#[trigger] next[j], rest)
                == grown_term(stacks[j], d) by {
                lemma_quantity_front(e, rest, stacks[j].id());
                if j != k {
                    assert(stacks[j].id() != stacks[k].id());
                }
            }
            lemma_grown_pointwise(next, rest, stacks, d);
        } else if e.size > 0 {
            assert(next == stacks.push(e.with_size(e.size)));
            assert(e.with_size(e.size) == e);
            assert(next.drop_last() =~= stacks);
            assert forall|j: int| 0 <= j < stacks.len() implies grown_term(#[trigger] stacks[j], rest)
                == grown_term(stacks[j], d) by {
                lemma_quantity_front(e, rest, stacks[j].id());
            }
            lemma_grown_pointwise(stacks, rest, stacks, d);
        } else {
            assert(next == stacks);
            assert forall|j: int| 0 <= j < stacks.len() implies grown_term(#[trigger] stacks[j], rest)
                == grown_term(stacks[j], d) by {
                lemma_quantity_front(e, rest, stacks[j].id());
            }
            lemma_grown_pointwise(stacks, rest, stacks, d);
        }
        assert forall|i: int| 0 <= i < rest.len() implies quantity(next, #[trigger] rest[i].id())
            + quantity(rest, rest[i].id()) <= u16::MAX by {
            let id = rest[i].id();
            assert(d[i + 1] == rest[i]);
            assert(quantity(stacks, d[i + 1].id()) + quantity(d, d[i + 1].id()) <= u16::MAX);
            lemma_quantity_front(e, rest, id);
            if k >= 0 {
                lemma_quantity_update(stacks, k, stacks[k].with_size((stacks[k].size + e.size) as u16), id);
            } else if e.size > 0 {
                assert(next.drop_last() =~= stacks);
            }
        }
        assert(types_valid(rest)) by {
            assert forall|i: int| 0 <= i < rest.len() implies #[trigger] rest[i].item_type.valid() by {
                assert(d[i + 1] == rest[i]);
            }
        }
        lemma_fits_packs_all(next, slots, rest);
        lemma_packed_front(stacks, slots, d);
    }
}

} // verus!
