use factory_sim::inventory::Inventory;
use factory_sim::item::{ItemStack, ItemType};
use factory_sim::machine::{crafting_time, Machine, MachineError, MachineState, MachineTemplate};
use factory_sim::recipe::{ItemTypeList, Recipe, RecipeError, RecipeTemplate};
use factory_sim::state::AppState;
use std::collections::HashMap;

fn catalog() -> ItemTypeList {
    let mut m = HashMap::new();
    m.insert(1, ItemType { name: "ore".to_string(), id: 1, max_stack: 10 });
    m.insert(2, ItemType { name: "plate".to_string(), id: 2, max_stack: 5 });
    ItemTypeList(m)
}

fn template(duration_ms: u64) -> RecipeTemplate {
    RecipeTemplate {
        name: "smelt".to_string(),
        id: 1,
        duration_ms,
        inputs: vec![(1, 2)],
        outputs: vec![(2, 5)],
    }
}

fn machine(speed_percent: u32, input: Vec<(u16, u16)>, output_slots: u16) -> Machine {
    let types = catalog();
    let recipe = Recipe::from_template(&template(10_000), &types).unwrap();
    let mut inv = Inventory::new(4);
    let stacks: Vec<ItemStack> = input
        .iter()
        .map(|&(id, size)| ItemStack { item_type: types.0[&id].clone(), size })
        .collect();
    assert!(inv.add(&stacks).is_empty());
    let t = MachineTemplate { name: "furnace".to_string(), id: 1, speed_percent, valid_recipes: vec![1] };
    let mut m = Machine::new(t, inv, Inventory::new(output_slots));
    assert_eq!(m.set_recipe(recipe), Ok(()));
    m
}

fn held(inv: &Inventory) -> Vec<(u16, u16)> {
    inv.stacks.iter().map(|s| (s.item_type.id, s.size)).collect()
}

#[test]
fn resolve_recipe_against_catalog() {
    let r = Recipe::from_template(&template(10_000), &catalog()).unwrap();
    assert_eq!(r.id, 1);
    assert_eq!(r.name, "smelt");
    assert_eq!(r.inputs.len(), 1);
    assert_eq!(r.inputs[0].item_type.id, 1);
    assert_eq!(r.inputs[0].item_type.max_stack, 10);
    assert_eq!(r.inputs[0].size, 2);
    assert_eq!(r.outputs[0].item_type.name, "plate");
    assert_eq!(r.outputs[0].size, 5);
}

#[test]
fn resolve_recipe_unknown_item() {
    let mut t = template(1000);
    t.outputs = vec![(2, 1), (9, 1), (8, 1)];
    assert_eq!(Recipe::from_template(&t, &catalog()).err(), Some(RecipeError::UnknownItemType(9)));
    t.inputs = vec![(7, 1)];
    assert_eq!(Recipe::from_template(&t, &catalog()).err(), Some(RecipeError::UnknownItemType(7)));
}

#[test]
fn crafting_time_divides_by_speed() {
    assert_eq!(crafting_time(10_000, 200), 5_000);
    assert_eq!(crafting_time(10_000, 100), 10_000);
    assert_eq!(crafting_time(1_000, 300), 333);
    assert_eq!(crafting_time(u64::MAX, 50), u64::MAX);
}

#[test]
fn scenario_completes_exactly_at_craft_time() {
    let mut m = machine(200, vec![(1, 4)], 1);
    assert!(m.tick(0));
    assert_eq!(m.state, MachineState::Crafting);
    assert_eq!(m.remaining_ms, 5_000);
    assert_eq!(held(&m.input), vec![(1, 2)]);
    assert!(!m.tick(2_500));
    assert!(!m.tick(2_499));
    assert_eq!(m.state, MachineState::Crafting);
    assert!(m.tick(1));
    assert_eq!(m.state, MachineState::Complete);
    assert!(m.tick(0));
    assert_eq!(m.state, MachineState::Idle);
    assert_eq!(held(&m.output), vec![(2, 5)]);
}

#[test]
fn scenario_input_shortage_keeps_inputs() {
    let mut m = machine(100, vec![(1, 1)], 1);
    assert!(m.tick(16));
    assert_eq!(m.state, MachineState::InputShortage);
    assert_eq!(held(&m.input), vec![(1, 1)]);
    assert!(!m.tick(16));
    assert_eq!(m.state, MachineState::InputShortage);
    let more = vec![ItemStack { item_type: catalog().0[&1].clone(), size: 1 }];
    assert!(m.input.add(&more).is_empty());
    assert!(m.tick(16));
    assert_eq!(m.state, MachineState::Crafting);
    assert!(m.input.stacks.is_empty());
}

#[test]
fn scenario_output_full_then_recovers() {
    let mut m = machine(100, vec![(1, 2)], 1);
    let blocker = vec![ItemStack { item_type: catalog().0[&1].clone(), size: 3 }];
    assert!(m.output.add(&blocker).is_empty());
    m.state = MachineState::Complete;
    assert!(m.tick(16));
    assert_eq!(m.state, MachineState::OutputFull);
    assert_eq!(held(&m.output), vec![(1, 3)]);
    assert!(!m.tick(16));
    assert_eq!(m.state, MachineState::OutputFull);
    assert!(m.output.remove(&blocker));
    assert!(m.tick(16));
    assert_eq!(m.state, MachineState::Idle);
    assert_eq!(held(&m.output), vec![(2, 5)]);
}

#[test]
fn machine_without_recipe_stays_idle() {
    let t = MachineTemplate { name: "furnace".to_string(), id: 1, speed_percent: 100, valid_recipes: vec![1] };
    let mut m = Machine::new(t, Inventory::new(1), Inventory::new(1));
    assert!(!m.tick(1_000));
    assert_eq!(m.state, MachineState::Idle);
}

#[test]
fn set_recipe_rejects_recipe_not_allowed() {
    let t = MachineTemplate { name: "press".to_string(), id: 2, speed_percent: 100, valid_recipes: vec![3, 4] };
    let mut m = Machine::new(t, Inventory::new(1), Inventory::new(1));
    let r = Recipe::from_template(&template(1000), &catalog()).unwrap();
    assert_eq!(m.set_recipe(r), Err(MachineError::InvalidRecipe(1)));
    assert!(m.recipe.is_none());
    assert!(m.allows(4));
    assert!(!m.allows(1));
}

#[test]
fn session_starts_loading_folders() {
    assert_eq!(AppState::default(), AppState::LoadingAssetFolders);
}
