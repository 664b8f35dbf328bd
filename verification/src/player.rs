//! The player's start: a slot of every known item with a random quantity,
//! and the layout of the inventory grid.
use crate::inventory::{item_stack_slot, InventorySlot};
use crate::random::{random_range_u32, Seed};
use vstd::prelude::*;

verus! {

/// How many cells the inventory grid has, and how many per row.
pub const GRID_CELLS: u16 = 10;
pub const GRID_COLUMNS: u16 = 5;

/// A cell of the inventory grid: its column and row (from 1), and the item
/// whose icon it shows, if any.
#[derive(Clone, Copy, Debug, PartialEq, Eq, Structural)]
pub struct GridCell {
    pub column: u16,
    pub row: u16,
    pub item: Option<u64>,
}

/// The player starts with one slot per known item, holding a stack of it of
/// a random quantity below 100.
pub fn spawn_player(player: usize, items: &Vec<u64>, seed: &mut Seed) -> (slots: Vec<InventorySlot>)
    ensures
        slots@.len() == items@.len(),
        forall|i: int|
            0 <= i < items@.len() ==> (#[trigger] slots@[i]).owner == player && (slots@[i].stack matches Some(
                st,
            ) && st.item == items@[i] && st.quantity < 100),
{
    let mut slots: Vec<InventorySlot> = Vec::new();
    let mut i: usize = 0;
    while i < items.len()
        invariant
            i <= items@.len(),
            slots@.len() == i,
            forall|k: int|
                0 <= k < i ==> (#[trigger] slots@[k]).owner == player && (slots@[k].stack matches Some(st)
                    && st.item == items@[k] && st.quantity < 100),
        decreases items.len() - i,
    {
        let quantity = random_range_u32(&mut seed.0, 0, 100);
        slots.push(item_stack_slot(player, items[i], quantity));
        i = i + 1;
    }
    slots
}

/// The inventory grid: ten cells, five per row, filled in order with the
/// icons of the first items.
pub fn inventory_grid(items: &Vec<u64>) -> (cells: Vec<GridCell>)
    ensures
        cells@.len() == GRID_CELLS,
        forall|i: int|
            0 <= i < GRID_CELLS ==> {
                &&& (#[trigger] cells@[i]).column == i % (GRID_COLUMNS as int) + 1
                &&& cells@[i].row == i / (GRID_COLUMNS as int) + 1
                &&& cells@[i].item == if i < items@.len() {
                    Some(items@[i])
                } else {
                    None
                }
            },
{
    let mut cells: Vec<GridCell> = Vec::new();
    let mut i: u16 = 0;
    while i < GRID_CELLS
        invariant
            i <= GRID_CELLS,
            cells@.len() == i,
            forall|k: int|
                0 <= k < i ==> {
                    &&& (#[trigger] cells@[k]).column == k % (GRID_COLUMNS as int) + 1
                    &&& cells@[k].row == k / (GRID_COLUMNS as int) + 1
                    &&& cells@[k].item == if k < items@.len() {
                        Some(items@[k])
                    } else {
                        None
                    }
                },
        decreases GRID_CELLS - i,
    {
        let item = if (i as usize) < items.len() {
            Some(items[i as usize])
        } else {
            None
        };
        cells.push(GridCell { column: i % GRID_COLUMNS + 1, row: i / GRID_COLUMNS + 1, item });
        i = i + 1;
    }
    cells
}

} // verus!
