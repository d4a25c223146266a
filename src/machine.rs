//! Machines: a template, an assigned recipe, two inventories and a timer,
//! driven one tick at a time through the crafting cycle.

use std::collections::HashMap;
use vstd::prelude::*;
use crate::inventory::{can_take, fits, packed, taken, types_valid, Inventory};
use crate::recipe::Recipe;

verus! {

/// A kind of machine as loaded from the catalog.
pub struct MachineTemplate {
    pub name: String,
    pub id: u16,
    /// Crafting speed in percent: 200 crafts twice as fast as 100.
    pub speed_percent: u32,
    /// Ids of the recipes this machine may run.
    pub valid_recipes: Vec<u16>,
}

/// The catalog of machine templates, keyed by id.
pub struct MachineList(pub HashMap<u16, MachineTemplate>);

/// Where a machine is in its crafting cycle.
#[derive(Debug, Clone, Copy, PartialEq, Eq, Structural)]
pub enum MachineState {
    Idle,
    Crafting,
    Complete,
    InputShortage,
    OutputFull,
}

/// Why a machine refused a request.
#[derive(Debug, Clone, Copy, PartialEq, Eq, Structural)]
pub enum MachineError {
    /// The recipe with this id is not one the machine's template allows.
    InvalidRecipe(u16),
}

/// Crafting time of `duration_ms` at `speed_percent`, in milliseconds:
/// `duration_ms * 100 / speed_percent`, rounded down, at most `u64::MAX`.
pub open spec fn craft_time(duration_ms: u64, speed_percent: u32) -> int {
    let t = (duration_ms as int * 100) / speed_percent as int;
    if t > u64::MAX {
        u64::MAX as int
    } else {
        t
    }
}

/// `t` minus `elapsed`, or 0 when `elapsed` is larger.
pub open spec fn count_down(t: u64, elapsed: u64) -> u64 {
    if t > elapsed {
        (t - elapsed) as u64
    } else {
        0
    }
}

/// Time left on a timer set to `duration_ms` at `speed_percent`.
pub fn crafting_time(duration_ms: u64, speed_percent: u32) -> (r: u64)
    requires
        speed_percent > 0,
    ensures
        r == craft_time(duration_ms, speed_percent),
{
    let t: u128 = (duration_ms as u128 * 100) / speed_percent as u128;
    if t > u64::MAX as u128 {
        u64::MAX
    } else {
        t as u64
    }
}

/// A machine with its template, recipe, state, timer and inventories.
pub struct Machine {
    pub template: MachineTemplate,
    pub recipe: Option<Recipe>,
    pub state: MachineState,
    /// Milliseconds left of the craft under way.
    pub remaining_ms: u64,
    pub input: Inventory,
    pub output: Inventory,
}

/// Two inventories hold the same stacks in the same slots.
pub open spec fn same_inventory(a: Inventory, b: Inventory) -> bool {
    a.stacks@ == b.stacks@ && a.slots == b.slots
}

impl Machine {
    /// Inventories well formed, a positive speed, and a recipe, if any, made
    /// of usable item types.
    pub open spec fn wf(&self) -> bool {
        &&& self.input.wf()
        &&& self.output.wf()
        &&& self.template.speed_percent > 0
        &&& self.recipe matches Some(rc) ==> types_valid(rc.inputs@) && types_valid(rc.outputs@)
    }

    /// What one tick does to a machine in state `self`, giving `next`, with
    /// `elapsed_ms` passed and `r` returned. Only the step of the state the
    /// tick starts in is taken, so a craft never starts and ends in one tick.
    pub open spec fn stepped(self, next: Machine, elapsed_ms: u64, r: bool) -> bool {
        &&& next.template == self.template
        &&& next.recipe == self.recipe
        &&& match self.recipe {
            None => {
                &&& next.state == self.state
                &&& next.remaining_ms == self.remaining_ms
                &&& same_inventory(next.input, self.input)
                &&& same_inventory(next.output, self.output)
                &&& !r
            },
            Some(rc) => match self.state {
                MachineState::Idle | MachineState::InputShortage => {
                    &&& same_inventory(next.output, self.output)
                    &&& next.input.slots == self.input.slots
                    &&& if can_take(self.input.stacks@, rc.inputs@) {
                        &&& next.state == MachineState::Crafting
                        &&& next.remaining_ms == craft_time(rc.duration_ms, self.template.speed_percent)
                        &&& next.input.stacks@ == taken(self.input.stacks@, rc.inputs@)
                    } else {
                        &&& next.state == MachineState::InputShortage
                        &&& next.remaining_ms == self.remaining_ms
                        &&& next.input.stacks@ == self.input.stacks@
                    }
                    &&& r == (next.state != self.state)
                },
                MachineState::Crafting => {
                    &&& same_inventory(next.input, self.input)
                    &&& same_inventory(next.output, self.output)
                    &&& next.remaining_ms == count_down(self.remaining_ms, elapsed_ms)
                    &&& next.state == if next.remaining_ms == 0 {
                        MachineState::Complete
                    } else {
                        MachineState::Crafting
                    }
                    &&& r == (next.state != self.state)
                },
                MachineState::Complete | MachineState::OutputFull => {
                    let slots = self.output.slots as int;
                    &&& same_inventory(next.input, self.input)
                    &&& next.output.slots == self.output.slots
                    &&& next.remaining_ms == self.remaining_ms
                    &&& if fits(self.output.stacks@, slots, rc.outputs@) {
                        &&& next.state == MachineState::Idle
                        &&& next.output.stacks@ == packed(self.output.stacks@, slots, rc.outputs@)
                    } else {
                        &&& next.state == MachineState::OutputFull
                        &&& next.output.stacks@ == self.output.stacks@
                    }
                    &&& r == (next.state != self.state)
                },
            },
        }
    }

    /// A new machine, idle, with no recipe and the given inventories.
    pub fn new(template: MachineTemplate, input: Inventory, output: Inventory) -> (r: Machine)
        ensures
            r.template == template,
            r.recipe is None,
            r.state == MachineState::Idle,
            r.remaining_ms == 0,
            r.input == input,
            r.output == output,
    {
        Machine { template, recipe: None, state: MachineState::Idle, remaining_ms: 0, input, output }
    }

    /// Whether the template allows the recipe with id `id`.
    pub fn allows(&self, id: u16) -> (r: bool)
        ensures
            r == self.template.valid_recipes@.contains(id),
    {
        let mut i: usize = 0;
        while i < self.template.valid_recipes.len()
            invariant
                0 <= i <= self.template.valid_recipes.len(),
                forall|j: int| 0 <= j < i ==> self.template.valid_recipes@[j] != id,
            decreases self.template.valid_recipes.len() - i,
        {
            if self.template.valid_recipes[i] == id {
                proof {
                    assert(self.template.valid_recipes@[i as int] == id);
                }
                return true;
            }
            i = i + 1;
        }
        false
    }

    /// Assigns `recipe` when the template allows it; otherwise leaves the
    /// machine as it is and reports the recipe's id.
    pub fn set_recipe(&mut self, recipe: Recipe) -> (r: Result<(), MachineError>)
        ensures
            r is Ok <==> old(self).template.valid_recipes@.contains(recipe.id),
            r is Err ==> r == Err::<(), MachineError>(MachineError::InvalidRecipe(recipe.id))
                && *final(self) == *old(self),
            r is Ok ==> final(self).recipe == Some(recipe) && final(self).template == old(
                self,
            ).template && final(self).state == old(self).state && final(self).remaining_ms == old(
                self,
            ).remaining_ms && final(self).input == old(self).input && final(self).output == old(
                self,
            ).output,
    {
        if !self.allows(recipe.id) {
            return Err(MachineError::InvalidRecipe(recipe.id));
        }
        self.recipe = Some(recipe);
        Ok(())
    }

    /// Advances the machine by one tick of `elapsed_ms` milliseconds and
    /// returns whether its state changed. Idle or short of inputs, it tries to
    /// take the recipe's inputs and start the timer; crafting, it runs the
    /// timer down and completes at zero; complete or with a full output, it
    /// tries to deliver the recipe's outputs all at once. Without a recipe it
    /// does nothing.
    pub fn tick(&mut self, elapsed_ms: u64) -> (r: bool)
        requires
            old(self).wf(),
        ensures
            final(self).wf(),
            old(self).stepped(*final(self), elapsed_ms, r),
    {
        let state = self.state;
        match &self.recipe {
            None => false,
            Some(rc) => match state {
                MachineState::Idle | MachineState::InputShortage => {
                    if self.input.remove(&rc.inputs) {
                        self.remaining_ms = crafting_time(rc.duration_ms, self.template.speed_percent);
                        self.state = MachineState::Crafting;
                    } else {
                        self.state = MachineState::InputShortage;
                    }
                    self.state != state
                },
                MachineState::Crafting => {
                    if self.remaining_ms > elapsed_ms {
                        self.remaining_ms = self.remaining_ms - elapsed_ms;
                        false
                    } else {
                        self.remaining_ms = 0;
                        self.state = MachineState::Complete;
                        true
                    }
                },
                MachineState::Complete | MachineState::OutputFull => {
                    if self.output.add_strict(&rc.outputs).is_ok() {
                        self.state = MachineState::Idle;
                    } else {
                        self.state = MachineState::OutputFull;
                    }
                    self.state != state
                },
            },
        }
    }
}

} // verus!
