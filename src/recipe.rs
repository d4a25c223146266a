//! The item catalog, recipe definitions, and their resolution into stacks.

use std::collections::HashMap;
use vstd::prelude::*;
use crate::inventory::types_valid;
use crate::item::{ItemStack, ItemType};

verus! {

/// The catalog of item types, keyed by id.
pub struct ItemTypeList(pub HashMap<u16, ItemType>);

impl ItemTypeList {
    /// Every entry is a usable item type filed under its own id.
    pub open spec fn wf(&self) -> bool {
        forall|id: u16| #[trigger]
            self.0@.contains_key(id) ==> self.0@[id].id == id && self.0@[id].valid()
    }
}

/// A recipe as loaded: item types are given by id, with the amount of each.
pub struct RecipeTemplate {
    pub name: String,
    pub id: u16,
    /// Crafting time at speed 100%, in milliseconds.
    pub duration_ms: u64,
    pub inputs: Vec<(u16, u16)>,
    pub outputs: Vec<(u16, u16)>,
}

/// A recipe whose inputs and outputs are stacks of catalog item types.
pub struct Recipe {
    pub name: String,
    pub id: u16,
    /// Crafting time at speed 100%, in milliseconds.
    pub duration_ms: u64,
    pub inputs: Vec<ItemStack>,
    pub outputs: Vec<ItemStack>,
}

/// The catalog of resolved recipes, keyed by id.
pub struct RecipeList(pub HashMap<u16, Recipe>);

/// Why a recipe could not be resolved.
#[derive(Debug, Clone, Copy, PartialEq, Eq, Structural)]
pub enum RecipeError {
    /// The recipe names an item id that the catalog lacks.
    UnknownItemType(u16),
}

/// Every id of `pairs` is in `catalog`.
pub open spec fn all_known(pairs: Seq<(u16, u16)>, catalog: Map<u16, ItemType>) -> bool {
    forall|i: int| 0 <= i < pairs.len() ==> catalog.contains_key(#[trigger] pairs[i].0)
}

/// `id` is the first id of `pairs` that `catalog` lacks.
pub open spec fn first_unknown(pairs: Seq<(u16, u16)>, catalog: Map<u16, ItemType>, id: u16) -> bool {
    exists|i: int|
        0 <= i < pairs.len() && #[trigger] pairs[i].0 == id && !catalog.contains_key(id) && all_known(
            pairs.take(i),
            catalog,
        )
}

/// `stacks` are the pairs of `pairs` with each id looked up in `catalog`.
pub open spec fn resolves_to(
    pairs: Seq<(u16, u16)>,
    catalog: Map<u16, ItemType>,
    stacks: Seq<ItemStack>,
) -> bool {
    &&& stacks.len() == pairs.len()
    &&& forall|i: int|
        0 <= i < pairs.len() ==> #[trigger] stacks[i] == (ItemStack {
            item_type: catalog[pairs[i].0],
            size: pairs[i].1,
        })
}

/// Stacks resolved in a well-formed catalog have usable item types.
proof fn lemma_resolved_valid(pairs: Seq<(u16, u16)>, catalog: &ItemTypeList, stacks: Seq<ItemStack>)
    requires
        catalog.wf(),
        all_known(pairs, catalog.0@),
        resolves_to(pairs, catalog.0@, stacks),
    ensures
        types_valid(stacks),
{
    assert forall|i: int| 0 <= i < stacks.len() implies #[trigger] stacks[i].item_type.valid() by {
        assert(catalog.0@.contains_key(pairs[i].0));
    }
}

/// Looks up each `(id, amount)` pair in the catalog, in order.
fn resolve_stacks(pairs: &Vec<(u16, u16)>, catalog: &ItemTypeList) -> (r: Result<
    Vec<ItemStack>,
    RecipeError,
>)
    ensures
        r is Ok <==> all_known(pairs@, catalog.0@),
        r matches Ok(v) ==> resolves_to(pairs@, catalog.0@, v@),
        r matches Err(RecipeError::UnknownItemType(id)) ==> first_unknown(pairs@, catalog.0@, id),
{
    let mut out: Vec<ItemStack> = Vec::new();
    let mut i: usize = 0;
    while i < pairs.len()
        invariant
            0 <= i <= pairs.len(),
            all_known(pairs@.take(i as int), catalog.0@),
            resolves_to(pairs@.take(i as int), catalog.0@, out@),
        decreases pairs.len() - i,
    {
        let (id, amount) = pairs[i];
        match catalog.0.get(&id) {
            Some(t) => {
                out.push(ItemStack { item_type: t.duplicate(), size: amount });
                proof {
                    let p = pairs@.take(i + 1);
                    assert forall|j: int| 0 <= j < p.len() implies catalog.0@.contains_key(#[trigger] p[j].0) by {
                        if j < i {
                            assert(p[j] == pairs@.take(i as int)[j]);
                        }
                    }
                    assert forall|j: int| 0 <= j < p.len() implies #[trigger] out@[j] == (ItemStack {
                        item_type: catalog.0@[p[j].0],
                        size: p[j].1,
                    }) by {
                        if j < i {
                            assert(p[j] == pairs@.take(i as int)[j]);
                        }
                    }
                }
            },
            None => {
                proof {
                    assert(pairs@[i as int].0 == id);
                    assert(!all_known(pairs@, catalog.0@));
                }
                return Err(RecipeError::UnknownItemType(id));
            },
        }
        i = i + 1;
    }
    proof {
        assert(pairs@.take(pairs.len() as int) =~= pairs@);
    }
    Ok(out)
}

impl Recipe {
    /// Resolves a recipe definition against the item catalog. Fails with the
    /// first unknown item id, looking through the inputs before the outputs.
    pub fn from_template(template: &RecipeTemplate, item_types: &ItemTypeList) -> (r: Result<
        Recipe,
        RecipeError,
    >)
        ensures
            r is Ok <==> all_known(template.inputs@, item_types.0@) && all_known(
                template.outputs@,
                item_types.0@,
            ),
            r matches Ok(rc) ==> rc.name@ == template.name@ && rc.id == template.id
                && rc.duration_ms == template.duration_ms && resolves_to(
                template.inputs@,
                item_types.0@,
                rc.inputs@,
            ) && resolves_to(template.outputs@, item_types.0@, rc.outputs@),
            r matches Ok(rc) ==> (item_types.wf() ==> types_valid(rc.inputs@) && types_valid(
                rc.outputs@,
            )),
            r matches Err(RecipeError::UnknownItemType(id)) ==> if all_known(
                template.inputs@,
                item_types.0@,
            ) {
                first_unknown(template.outputs@, item_types.0@, id)
            } else {
                first_unknown(template.inputs@, item_types.0@, id)
            },
    {
        let inputs = match resolve_stacks(&template.inputs, item_types) {
            Ok(v) => v,
            Err(e) => {
                return Err(e);
            },
        };
        let outputs = match resolve_stacks(&template.outputs, item_types) {
            Ok(v) => v,
            Err(e) => {
                return Err(e);
            },
        };
        proof {
            if item_types.wf() {
                lemma_resolved_valid(template.inputs@, item_types, inputs@);
                lemma_resolved_valid(template.outputs@, item_types, outputs@);
            }
        }
        Ok(
            Recipe {
                name: template.name.clone(),
                id: template.id,
                duration_ms: template.duration_ms,
                inputs,
                outputs,
            },
        )
    }
}

} // verus!
