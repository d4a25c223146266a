use factory_sim::inventory::{Inventory, InventoryError};
use factory_sim::item::{ItemStack, ItemType, StackError};
use std::cmp::Ordering;

fn item(id: u16, max_stack: u16) -> ItemType {
    ItemType { name: format!("item{}", id), id, max_stack }
}

fn stack(id: u16, max_stack: u16, size: u16) -> ItemStack {
    ItemStack { item_type: item(id, max_stack), size }
}

fn sizes(inv: &Inventory) -> Vec<(u16, u16)> {
    inv.stacks.iter().map(|s| (s.item_type.id, s.size)).collect()
}

#[test]
fn needed_slots_is_ceiling() {
    assert_eq!(stack(1, 10, 0).needed_slots(), 0);
    assert_eq!(stack(1, 10, 1).needed_slots(), 1);
    assert_eq!(stack(1, 10, 10).needed_slots(), 1);
    assert_eq!(stack(1, 10, 11).needed_slots(), 2);
    assert_eq!(stack(1, 10, 25).needed_slots(), 3);
    assert_eq!(stack(1, 1, 65535).needed_slots(), 65535);
    assert_eq!(stack(1, 65535, 65535).needed_slots(), 1);
    assert_eq!(stack(1, 10, 25).needed_full_slots(), 2);
    assert_eq!(stack(1, 10, 25).needed_partial_slots(), 1);
    assert_eq!(stack(1, 10, 20).needed_partial_slots(), 0);
}

#[test]
fn stacks_of_different_types_are_incomparable() {
    let a = stack(1, 10, 5);
    let b = stack(2, 10, 5);
    assert_eq!(a.compare(&b), Err(StackError::IncomparableStacks));
    assert_eq!(a.checked_add(&b), Err(StackError::IncomparableStacks));
    assert_eq!(a.checked_sub(&b), Err(StackError::IncomparableStacks));
}

#[test]
fn stack_arithmetic_on_one_type() {
    let a = stack(1, 10, 5);
    let b = stack(1, 10, 3);
    assert_eq!(a.compare(&b), Ok(Ordering::Greater));
    assert_eq!(b.compare(&a), Ok(Ordering::Less));
    assert_eq!(a.compare(&a), Ok(Ordering::Equal));
    assert_eq!(a.checked_add(&b).unwrap().size, 8);
    assert_eq!(a.checked_sub(&b).unwrap().size, 2);
    assert_eq!(b.checked_sub(&a), Err(StackError::NegativeSize));
    assert_eq!(stack(1, 10, 65535).checked_add(&b), Err(StackError::SizeOverflow));
}

#[test]
fn scenario_add_overflows_single_slot() {
    let mut inv = Inventory::new(1);
    let rest = inv.add(&vec![stack(1, 10, 15)]);
    assert_eq!(sizes(&inv), vec![(1, 10)]);
    assert_eq!(inv.used_slots(), 1);
    assert_eq!(rest.len(), 1);
    assert_eq!(rest[0].item_type.id, 1);
    assert_eq!(rest[0].size, 5);
}

#[test]
fn add_tops_up_partial_stack_first() {
    let mut inv = Inventory::new(2);
    assert!(inv.add(&vec![stack(1, 10, 4)]).is_empty());
    assert_eq!(inv.used_slots(), 1);
    let rest = inv.add(&vec![stack(1, 10, 20)]);
    assert_eq!(sizes(&inv), vec![(1, 20)]);
    assert_eq!(rest.len(), 1);
    assert_eq!(rest[0].size, 4);
    assert_eq!(inv.used_slots(), 2);
}

#[test]
fn add_tops_up_with_no_free_slot() {
    let mut inv = Inventory::new(2);
    assert!(inv.add(&vec![stack(1, 10, 5), stack(2, 10, 10)]).is_empty());
    let rest = inv.add(&vec![stack(3, 10, 1), stack(1, 10, 5)]);
    assert_eq!(sizes(&inv), vec![(1, 10), (2, 10)]);
    assert_eq!(rest.len(), 1);
    assert_eq!(rest[0].item_type.id, 3);
    assert_eq!(rest[0].size, 1);
}

#[test]
fn add_never_exceeds_slots() {
    let mut inv = Inventory::new(3);
    let rest = inv.add(&vec![stack(1, 4, 9), stack(2, 5, 7), stack(3, 2, 1), stack(1, 4, 3)]);
    assert!(inv.used_slots() <= inv.slots);
    assert_eq!(sizes(&inv), vec![(1, 12)]);
    let left: Vec<(u16, u16)> = rest.iter().map(|s| (s.item_type.id, s.size)).collect();
    assert_eq!(left, vec![(2, 7), (3, 1)]);
    assert_eq!(inv.used_full_slots(), 3);
    assert_eq!(inv.used_partial_slots(), 0);
}

#[test]
fn add_of_empty_entry_adds_nothing() {
    let mut inv = Inventory::new(1);
    let rest = inv.add(&vec![stack(1, 10, 0)]);
    assert!(rest.is_empty());
    assert!(inv.stacks.is_empty());
}

#[test]
fn remove_failure_leaves_stacks_unchanged() {
    let mut inv = Inventory::new(4);
    assert!(inv.add(&vec![stack(1, 10, 7), stack(2, 10, 3)]).is_empty());
    let before = sizes(&inv);
    assert!(!inv.remove(&vec![stack(1, 10, 5), stack(2, 10, 4)]));
    assert_eq!(sizes(&inv), before);
    assert!(!inv.remove(&vec![stack(3, 10, 1)]));
    assert_eq!(sizes(&inv), before);
    assert!(!inv.remove(&vec![stack(1, 10, 4), stack(1, 10, 4)]));
    assert_eq!(sizes(&inv), before);
}

#[test]
fn remove_success_subtracts_and_prunes() {
    let mut inv = Inventory::new(4);
    assert!(inv.add(&vec![stack(1, 10, 7), stack(2, 10, 3)]).is_empty());
    assert!(inv.contains(&vec![stack(1, 10, 7)]));
    assert!(!inv.contains(&vec![stack(1, 10, 8)]));
    assert!(inv.remove(&vec![stack(1, 10, 2), stack(2, 10, 3), stack(1, 10, 1)]));
    assert_eq!(sizes(&inv), vec![(1, 4)]);
    assert_eq!(inv.held(2), 0);
}

#[test]
fn add_then_remove_restores_inventory() {
    let mut inv = Inventory::new(6);
    assert!(inv.add(&vec![stack(1, 10, 12), stack(2, 3, 2)]).is_empty());
    let before = sizes(&inv);
    let extra = vec![stack(7, 4, 9)];
    assert!(inv.add(&extra).is_empty());
    assert_eq!(inv.held(7), 9);
    assert!(inv.remove(&extra));
    assert_eq!(sizes(&inv), before);
}

#[test]
fn can_fit_counts_merged_slots() {
    let mut inv = Inventory::new(2);
    assert!(inv.add(&vec![stack(1, 10, 5)]).is_empty());
    assert!(inv.can_fit(&vec![stack(1, 10, 5), stack(2, 10, 10)]));
    assert!(!inv.can_fit(&vec![stack(1, 10, 6), stack(2, 10, 10)]));
    assert!(inv.can_fit(&vec![stack(2, 10, 4), stack(2, 10, 6)]));
    assert!(!inv.can_fit(&vec![stack(2, 10, 4), stack(2, 10, 7)]));
    assert!(!inv.can_fit(&vec![stack(1, 65535, 65535)]));
    assert_eq!(sizes(&inv), vec![(1, 5)]);
}

#[test]
fn add_strict_all_or_nothing() {
    let mut inv = Inventory::new(2);
    assert_eq!(inv.add_strict(&vec![stack(1, 10, 15)]), Ok(()));
    assert_eq!(sizes(&inv), vec![(1, 15)]);
    assert_eq!(inv.add_strict(&vec![stack(2, 10, 1)]), Err(InventoryError::InventoryFull));
    assert_eq!(sizes(&inv), vec![(1, 15)]);
    assert_eq!(inv.add_strict(&vec![stack(1, 10, 5)]), Ok(()));
    assert_eq!(sizes(&inv), vec![(1, 20)]);
}

#[test]
fn default_inventory_has_one_slot() {
    let inv = Inventory::default();
    assert_eq!(inv.slots, 1);
    assert!(inv.stacks.is_empty());
    assert_eq!(inv.used_slots(), 0);
}

#[test]
fn add_strict_succeeds_whenever_can_fit() {
    let mut inv = Inventory::new(3);
    assert!(inv.add(&vec![stack(1, 10, 5), stack(2, 4, 3)]).is_empty());
    let demand = vec![stack(3, 10, 0), stack(1, 10, 5), stack(3, 6, 6), stack(2, 4, 1), stack(3, 6, 0)];
    assert!(inv.can_fit(&demand));
    assert_eq!(inv.add_strict(&demand), Ok(()));
    assert_eq!(sizes(&inv), vec![(1, 10), (2, 4), (3, 6)]);
    assert_eq!(inv.used_slots(), 3);
}
