//! Item types and stacks of items, with the slot arithmetic they need.

use vstd::prelude::*;

verus! {

/// Number of slots of `per_slot` units each needed to hold `amount` units,
/// that is `ceil(amount / per_slot)`.
pub open spec fn ceil_div(amount: int, per_slot: int) -> int
    recommends
        per_slot > 0,
{
    (amount + per_slot - 1) / per_slot
}

/// `ceil_div` split into whole slots and one partly filled slot.
pub proof fn lemma_ceil_div_parts(amount: int, per_slot: int)
    requires
        amount >= 0,
        per_slot > 0,
    ensures
        ceil_div(amount, per_slot) == amount / per_slot + (if amount % per_slot > 0 { 1int } else { 0int }),
        0 <= ceil_div(amount, per_slot) <= amount,
        amount == 0 ==> ceil_div(amount, per_slot) == 0,
{
    let q = amount / per_slot;
    let r = amount % per_slot;
    assert(amount == per_slot * q + r && 0 <= r < per_slot) by (nonlinear_arith)
        requires
            per_slot > 0,
            q == amount / per_slot,
            r == amount % per_slot,
    ;
    if r > 0 {
        assert((amount + per_slot - 1) / per_slot == q + 1) by (nonlinear_arith)
            requires
                per_slot > 0,
                amount == per_slot * q + r,
                0 < r < per_slot,
        ;
    } else {
        assert((amount + per_slot - 1) / per_slot == q) by (nonlinear_arith)
            requires
                per_slot > 0,
                amount == per_slot * q,
        ;
    }
    assert(q <= amount && (r > 0 ==> q + 1 <= amount)) by (nonlinear_arith)
        requires
            per_slot > 0,
            amount == per_slot * q + r,
            0 <= r < per_slot,
            amount >= 0,
    ;
}

/// `ceil_div(amount, per_slot) <= n` exactly when `n` slots hold `amount`.
pub proof fn lemma_ceil_div_bound(amount: int, per_slot: int, n: int)
    requires
        amount >= 0,
        per_slot > 0,
        n >= 0,
    ensures
        ceil_div(amount, per_slot) <= n <==> amount <= n * per_slot,
{
    lemma_ceil_div_parts(amount, per_slot);
    let q = amount / per_slot;
    let r = amount % per_slot;
    assert(amount == per_slot * q + r && 0 <= r < per_slot) by (nonlinear_arith)
        requires
            per_slot > 0,
            q == amount / per_slot,
            r == amount % per_slot,
    ;
    if r > 0 {
        assert(q + 1 <= n <==> amount <= n * per_slot) by (nonlinear_arith)
            requires
                per_slot > 0,
                amount == per_slot * q + r,
                0 < r < per_slot,
        ;
    } else {
        assert(q <= n <==> amount <= n * per_slot) by (nonlinear_arith)
            requires
                per_slot > 0,
                amount == per_slot * q,
        ;
    }
}

/// A kind of item from the catalog. Two item types are the same type exactly
/// when their ids are equal; `name` is for display only.
#[derive(Debug, Clone)]
pub struct ItemType {
    pub name: String,
    pub id: u16,
    /// Units of this item that one slot holds.
    pub max_stack: u16,
}

impl PartialEq for ItemType {
    fn eq(&self, other: &ItemType) -> (r: bool) {
        self.id == other.id
    }
}

impl vstd::std_specs::cmp::PartialEqSpecImpl for ItemType {
    open spec fn obeys_eq_spec() -> bool {
        true
    }

    open spec fn eq_spec(&self, other: &ItemType) -> bool {
        self.id == other.id
    }
}

impl Eq for ItemType {
}

impl ItemType {
    /// An item type with room for at least one unit per slot.
    pub open spec fn valid(&self) -> bool {
        self.max_stack > 0
    }

    /// A field-for-field copy.
    pub fn duplicate(&self) -> (r: ItemType)
        ensures
            r == *self,
    {
        ItemType { name: self.name.clone(), id: self.id, max_stack: self.max_stack }
    }
}

/// Why two stacks could not be compared or combined.
#[derive(Debug, Clone, Copy, PartialEq, Eq, Structural)]
pub enum StackError {
    /// The stacks hold different item types.
    IncomparableStacks,
    /// Subtracting would leave fewer than zero items.
    NegativeSize,
    /// The sum does not fit in a stack's size.
    SizeOverflow,
}

/// A quantity of one item type. `size` may exceed `max_stack`: the stack then
/// spans several slots.
#[derive(Debug, Clone)]
pub struct ItemStack {
    pub item_type: ItemType,
    pub size: u16,
}

impl PartialEq for ItemStack {
    fn eq(&self, other: &ItemStack) -> (r: bool) {
        self.item_type.id == other.item_type.id && self.size == other.size
    }
}

impl vstd::std_specs::cmp::PartialEqSpecImpl for ItemStack {
    open spec fn obeys_eq_spec() -> bool {
        true
    }

    open spec fn eq_spec(&self, other: &ItemStack) -> bool {
        self.item_type.id == other.item_type.id && self.size == other.size
    }
}

impl Eq for ItemStack {
}

impl ItemStack {
    pub open spec fn id(&self) -> u16 {
        self.item_type.id
    }

    pub open spec fn max_stack(&self) -> int {
        self.item_type.max_stack as int
    }

    /// Slots this stack occupies: `ceil(size / max_stack)`.
    pub open spec fn slots_needed(&self) -> int {
        ceil_div(self.size as int, self.max_stack())
    }

    /// The same item type with another size.
    pub open spec fn with_size(&self, size: u16) -> ItemStack {
        ItemStack { item_type: self.item_type, size }
    }

    /// A field-for-field copy.
    pub fn duplicate(&self) -> (r: ItemStack)
        ensures
            r == *self,
    {
        ItemStack { item_type: self.item_type.duplicate(), size: self.size }
    }

    /// This stack's item type with `size` units.
    pub fn resized(&self, size: u16) -> (r: ItemStack)
        ensures
            r == self.with_size(size),
    {
        ItemStack { item_type: self.item_type.duplicate(), size }
    }

    /// Slots that this stack fills completely.
    pub fn needed_full_slots(&self) -> (r: u16)
        requires
            self.item_type.valid(),
        ensures
            r == self.size / self.item_type.max_stack,
    {
        self.size / self.item_type.max_stack
    }

    /// 1 when a slot is left partly filled, else 0.
    pub fn needed_partial_slots(&self) -> (r: u16)
        requires
            self.item_type.valid(),
        ensures
            r == (if self.size % self.item_type.max_stack > 0 { 1u16 } else { 0u16 }),
    {
        if self.size % self.item_type.max_stack > 0 {
            1
        } else {
            0
        }
    }

    /// Slots needed to hold this stack: `ceil(size / max_stack)`, 0 when empty.
    pub fn needed_slots(&self) -> (r: u16)
        requires
            self.item_type.valid(),
        ensures
            r == self.slots_needed(),
            self.size == 0 ==> r == 0,
    {
        proof {
            lemma_ceil_div_parts(self.size as int, self.max_stack());
        }
        self.needed_full_slots() + self.needed_partial_slots()
    }

    /// Orders two stacks of one item type by size.
    pub fn compare(&self, other: &ItemStack) -> (r: Result<core::cmp::Ordering, StackError>)
        ensures
            self.id() != other.id() <==> r == Err::<core::cmp::Ordering, StackError>(
                StackError::IncomparableStacks,
            ),
            self.id() == other.id() ==> r == Ok::<core::cmp::Ordering, StackError>(
                if self.size < other.size {
                    core::cmp::Ordering::Less
                } else if self.size == other.size {
                    core::cmp::Ordering::Equal
                } else {
                    core::cmp::Ordering::Greater
                },
            ),
    {
        if self.item_type.id != other.item_type.id {
            Err(StackError::IncomparableStacks)
        } else if self.size < other.size {
            Ok(core::cmp::Ordering::Less)
        } else if self.size == other.size {
            Ok(core::cmp::Ordering::Equal)
        } else {
            Ok(core::cmp::Ordering::Greater)
        }
    }

    /// The two quantities together, as one stack of this stack's type.
    pub fn checked_add(&self, other: &ItemStack) -> (r: Result<ItemStack, StackError>)
        ensures
            self.id() != other.id() ==> r == Err::<ItemStack, StackError>(
                StackError::IncomparableStacks,
            ),
            self.id() == other.id() && self.size + other.size > u16::MAX ==> r == Err::<
                ItemStack,
                StackError,
            >(StackError::SizeOverflow),
            self.id() == other.id() && self.size + other.size <= u16::MAX ==> r == Ok::<
                ItemStack,
                StackError,
            >(self.with_size((self.size + other.size) as u16)),
    {
        if self.item_type.id != other.item_type.id {
            Err(StackError::IncomparableStacks)
        } else if self.size > u16::MAX - other.size {
            Err(StackError::SizeOverflow)
        } else {
            Ok(self.resized(self.size + other.size))
        }
    }

    /// This stack less `other`, of the same type and no larger.
    pub fn checked_sub(&self, other: &ItemStack) -> (r: Result<ItemStack, StackError>)
        ensures
            self.id() != other.id() ==> r == Err::<ItemStack, StackError>(
                StackError::IncomparableStacks,
            ),
            self.id() == other.id() && self.size < other.size ==> r == Err::<ItemStack, StackError>(
                StackError::NegativeSize,
            ),
            self.id() == other.id() && self.size >= other.size ==> r == Ok::<ItemStack, StackError>(
                self.with_size((self.size - other.size) as u16),
            ),
    {
        if self.item_type.id != other.item_type.id {
            Err(StackError::IncomparableStacks)
        } else if self.size < other.size {
            Err(StackError::NegativeSize)
        } else {
            Ok(self.resized(self.size - other.size))
        }
    }
}

} // verus!
