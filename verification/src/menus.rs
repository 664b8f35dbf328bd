//! The menus' state machines: compendium, inventory, debug mode, the tome
//! and its tabs, and the inspection menu.
use vstd::prelude::*;
use crate::manifest::IndexMap;

verus! {

/// Whether the item compendium is shown.
#[derive(Clone, Copy, Debug, PartialEq, Eq, Structural)]
pub enum CompendiumState {
    Closed,
    Item,
}

/// Whether the player's inventory panel is open.
#[derive(Clone, Copy, Debug, PartialEq, Eq, Structural)]
pub enum PlayerInventoryUiState {
    Closed,
    Open,
}

/// The inspection menu of a structure.
#[derive(Clone, Copy, Debug, PartialEq, Eq, Structural)]
pub enum InspectionMenuState {
    Closed,
    RecipeSelect,
    RecipeInspect,
}

/// The tabs of the tome.
#[derive(Clone, Copy, Debug, PartialEq, Eq, Structural)]
pub enum TomeTab {
    Items,
    People,
    Recipes,
    Inspect,
}

/// How a UI node is laid out, or that it is hidden.
#[derive(Clone, Copy, Debug, PartialEq, Eq, Structural)]
pub enum UiDisplay {
    Hidden,
    Flex,
    Grid,
}

/// A change to a radio button's checked mark.
#[derive(Clone, Copy, Debug, PartialEq, Eq, Structural)]
pub enum CheckChange {
    Check,
    Uncheck,
}

/// Pressing the compendium key opens a closed compendium and closes an open one.
pub fn toggle_compendium_state(state: CompendiumState) -> (next: CompendiumState)
    ensures
        next == (match state {
            CompendiumState::Closed => CompendiumState::Item,
            CompendiumState::Item => CompendiumState::Closed,
        }),
{
    match state {
        CompendiumState::Closed => CompendiumState::Item,
        CompendiumState::Item => CompendiumState::Closed,
    }
}

/// The inventory key, or a click on the inventory button, opens a closed
/// panel and closes an open one.
pub fn toggle_inventory_ui_state(state: PlayerInventoryUiState) -> (next: PlayerInventoryUiState)
    ensures
        next == (match state {
            PlayerInventoryUiState::Closed => PlayerInventoryUiState::Open,
            PlayerInventoryUiState::Open => PlayerInventoryUiState::Closed,
        }),
{
    match state {
        PlayerInventoryUiState::Closed => PlayerInventoryUiState::Open,
        PlayerInventoryUiState::Open => PlayerInventoryUiState::Closed,
    }
}

/// The inventory key acts only on the frame it was pressed.
pub fn on_inventory_hotkey(just_pressed: bool, state: PlayerInventoryUiState) -> (next: Option<
    PlayerInventoryUiState,
>)
    ensures
        just_pressed ==> next == Some(
            match state {
                PlayerInventoryUiState::Closed => PlayerInventoryUiState::Open,
                PlayerInventoryUiState::Open => PlayerInventoryUiState::Closed,
            },
        ),
        !just_pressed ==> next is None,
{
    if !just_pressed {
        return None;
    }
    Some(toggle_inventory_ui_state(state))
}

/// The inventory grid is laid out as a grid while the panel is open and
/// hidden otherwise.
pub fn inventory_grid_display(state: PlayerInventoryUiState) -> (d: UiDisplay)
    ensures
        d == (match state {
            PlayerInventoryUiState::Closed => UiDisplay::Hidden,
            PlayerInventoryUiState::Open => UiDisplay::Grid,
        }),
{
    match state {
        PlayerInventoryUiState::Closed => UiDisplay::Hidden,
        PlayerInventoryUiState::Open => UiDisplay::Grid,
    }
}

/// The debug key flips debug mode.
pub fn toggle_debug_mode(debug: bool) -> (next: bool)
    ensures
        next == !debug,
{
    !debug
}

/// The tome key opens a closed tome and closes an open one.
pub fn toggle_tome_open(open: bool) -> (next: bool)
    ensures
        next == !open,
{
    !open
}

/// The tome is laid out as a flex box while open and hidden otherwise.
pub fn tome_display(open: bool) -> (d: UiDisplay)
    ensures
        d == (if open {
            UiDisplay::Flex
        } else {
            UiDisplay::Hidden
        }),
{
    if open {
        UiDisplay::Flex
    } else {
        UiDisplay::Hidden
    }
}

/// Inspecting an entity from the world opens its recipe view when it has a
/// selected recipe, else the recipe selection.
pub fn on_inspect(has_selected_recipe: bool) -> (next: InspectionMenuState)
    ensures
        next == (if has_selected_recipe {
            InspectionMenuState::RecipeInspect
        } else {
            InspectionMenuState::RecipeSelect
        }),
{
    if has_selected_recipe {
        InspectionMenuState::RecipeInspect
    } else {
        InspectionMenuState::RecipeSelect
    }
}

/// Escape, or a click on "Close", closes the inspection menu.
pub fn close_menu() -> (next: InspectionMenuState)
    ensures
        next == InspectionMenuState::Closed,
{
    InspectionMenuState::Closed
}

/// A request that a structure's selected recipe become `recipe_id`.
#[derive(Clone, Debug)]
pub struct SelectRecipe {
    pub entity: usize,
    pub recipe_id: String,
}

/// A click on a recipe button of the selection: when the clicked entity is a
/// recipe button (carrying its recipe id), the inspected structure is asked
/// to select that recipe and the menu shows it; otherwise nothing happens.
pub fn on_recipe_click(inspected: usize, button: Option<&String>) -> (r: Option<
    (SelectRecipe, InspectionMenuState),
>)
    ensures
        button is None ==> r is None,
        button matches Some(id) ==> (r matches Some(p) && p.0.entity == inspected && p.0.recipe_id@ == id@
            && p.1 == InspectionMenuState::RecipeInspect),
{
    match button {
        None => None,
        Some(id) => Some(
            (SelectRecipe { entity: inspected, recipe_id: id.clone() }, InspectionMenuState::RecipeInspect),
        ),
    }
}

/// "Deselect" removes the inspected structure's selected recipe and goes back
/// to the selection.
pub fn on_deselect_recipe(selected_recipe: &mut Option<String>) -> (next: InspectionMenuState)
    ensures
        *final(selected_recipe) is None,
        next == InspectionMenuState::RecipeSelect,
{
    *selected_recipe = None;
    InspectionMenuState::RecipeSelect
}

/// Inspecting from the tome opens it on the inspection tab.
pub fn on_tome_inspect() -> (next: (bool, TomeTab))
    ensures
        next == (true, TomeTab::Inspect),
{
    (true, TomeTab::Inspect)
}

/// Keeps the tab buttons in step with the current tab: the current tab's
/// button is (re)checked, other checked buttons are unchecked, the rest are
/// left alone. Takes `(button, tab, checked)` per button.
pub fn refresh_tab_style(current: TomeTab, tabs: &Vec<(usize, TomeTab, bool)>) -> (changes: Vec<
    (usize, CheckChange),
>)
    ensures
        changes@ == refresh_spec(current, tabs@),
{
    let mut changes: Vec<(usize, CheckChange)> = Vec::new();
    let mut i: usize = 0;
    while i < tabs.len()
        invariant
            i <= tabs@.len(),
            changes@ == refresh_spec(current, tabs@.take(i as int)),
        decreases tabs.len() - i,
    {
        assert(tabs@.take(i + 1).drop_last() =~= tabs@.take(i as int));
        assert(tabs@.take(i + 1).last() == tabs@[i as int]);
        let (e, t, checked) = tabs[i];
        if t == current {
            changes.push((e, CheckChange::Check));
        } else if checked {
            changes.push((e, CheckChange::Uncheck));
        }
        i = i + 1;
    }
    assert(tabs@.take(tabs@.len() as int) =~= tabs@);
    changes
}

pub open spec fn refresh_spec(current: TomeTab, tabs: Seq<(usize, TomeTab, bool)>) -> Seq<
    (usize, CheckChange),
>
    decreases tabs.len(),
{
    if tabs.len() == 0 {
        Seq::empty()
    } else {
        let rest = refresh_spec(current, tabs.drop_last());
        let (e, t, checked) = tabs.last();
        if t == current {
            rest.push((e, CheckChange::Check))
        } else if checked {
            rest.push((e, CheckChange::Uncheck))
        } else {
            rest
        }
    }
}

/// A radio group's value changed to `chosen`: every checked button is
/// unchecked, then `chosen` is checked. Returns the changes in order.
pub fn radio_select(checked: &Vec<usize>, chosen: usize) -> (changes: Vec<(usize, CheckChange)>)
    ensures
        changes@.len() == checked@.len() + 1,
        forall|i: int|
            0 <= i < checked@.len() ==> #[trigger] changes@[i] == (checked@[i], CheckChange::Uncheck),
        changes@.last() == (chosen, CheckChange::Check),
{
    let mut changes: Vec<(usize, CheckChange)> = Vec::new();
    let mut i: usize = 0;
    while i < checked.len()
        invariant
            i <= checked@.len(),
            changes@.len() == i,
            forall|k: int| 0 <= k < i ==> #[trigger] changes@[k] == (checked@[k], CheckChange::Uncheck),
        decreases checked.len() - i,
    {
        changes.push((checked[i], CheckChange::Uncheck));
        i = i + 1;
    }
    changes.push((chosen, CheckChange::Check));
    changes
}

/// The inventory book key removes an open book and opens a closed one:
/// `true` when a book is to be spawned.
pub fn toggle_inventory_book(book_open: bool) -> (spawn: bool)
    ensures
        spawn == !book_open,
{
    !book_open
}

/// Every toggle undoes itself.
pub proof fn lemma_toggles_are_involutions(c: CompendiumState, p: PlayerInventoryUiState, b: bool)
    ensures
        (match (match c {
            CompendiumState::Closed => CompendiumState::Item,
            CompendiumState::Item => CompendiumState::Closed,
        }) {
            CompendiumState::Closed => CompendiumState::Item,
            CompendiumState::Item => CompendiumState::Closed,
        }) == c,
        (match (match p {
            PlayerInventoryUiState::Closed => PlayerInventoryUiState::Open,
            PlayerInventoryUiState::Open => PlayerInventoryUiState::Closed,
        }) {
            PlayerInventoryUiState::Closed => PlayerInventoryUiState::Open,
            PlayerInventoryUiState::Open => PlayerInventoryUiState::Closed,
        }) == p,
        !!b == b,
{
}

/// What the recipe view of an inspected structure shows: the recipe, how
/// long one run of it takes, the input stacks in the left column, the relic
/// held in the middle slot, and the output stacks in the right column.
pub struct RecipeMenu {
    pub recipe: u64,
    pub duration_nanos: u128,
    pub inputs: Vec<usize>,
    pub relic: Option<usize>,
    pub outputs: Vec<usize>,
}

/// The duration of the first loaded recipe asset that is `asset`.
pub open spec fn recipe_duration(recipes: Seq<(u64, u128)>, asset: u64) -> Option<u128>
    decreases recipes.len(),
{
    if recipes.len() == 0 {
        None
    } else if recipes[0].0 == asset {
        Some(recipes[0].1)
    } else {
        recipe_duration(recipes.drop_first(), asset)
    }
}

/// Lays out the recipe view of the inspected structure. `selected` is the id
/// of the structure's selected recipe, or `None` when the structure has no
/// recipe, inputs and outputs. Nothing is shown when the structure has none,
/// when no asset is indexed under the id, or when that asset is not loaded.
pub fn open_recipe_menu(
    selected: Option<&String>,
    inputs: Vec<usize>,
    outputs: Vec<usize>,
    held_relic: Option<usize>,
    recipe_index: &IndexMap,
    recipes: &Vec<(u64, u128)>,
) -> (menu: Option<RecipeMenu>)
    ensures
        match selected {
            None => menu is None,
            Some(id) => if !recipe_index@.contains_key(id@) {
                menu is None
            } else {
                match recipe_duration(recipes@, recipe_index@[id@]) {
                    None => menu is None,
                    Some(d) => menu matches Some(m) && m.recipe == recipe_index@[id@] && m.duration_nanos == d
                        && m.inputs@ == inputs@ && m.relic == held_relic && m.outputs@ == outputs@,
                }
            },
        },
{
    let id = match selected {
        None => {
            return None;
        },
        Some(id) => id,
    };
    let asset = match recipe_index.get(id) {
        None => {
            return None;
        },
        Some(a) => a,
    };
    let mut i: usize = 0;
    assert(recipes@.subrange(0, recipes@.len() as int) =~= recipes@);
    while i < recipes.len()
        invariant
            selected == Some(id),
            recipe_index@.contains_key(id@),
            asset == recipe_index@[id@],
            i <= recipes@.len(),
            recipe_duration(recipes@, asset) == recipe_duration(recipes@.subrange(i as int, recipes@.len() as int), asset),
        decreases recipes.len() - i,
    {
        let ghost rest = recipes@.subrange(i as int, recipes@.len() as int);
        assert(rest.drop_first() =~= recipes@.subrange(i + 1, recipes@.len() as int));
        assert(rest[0] == recipes@[i as int]);
        if recipes[i].0 == asset {
            return Some(RecipeMenu { recipe: asset, duration_nanos: recipes[i].1, inputs, relic: held_relic, outputs });
        }
        i = i + 1;
    }
    None
}

/// After a refresh, applying the changes leaves exactly the buttons of the
/// current tab checked.
pub proof fn lemma_refresh_checks_current_tab(current: TomeTab, tabs: Seq<(usize, TomeTab, bool)>)
    ensures
        forall|i: int|
            0 <= i < tabs.len() && (#[trigger] tabs[i]).1 == current ==> refresh_spec(current, tabs).contains(
                (tabs[i].0, CheckChange::Check),
            ),
        forall|i: int|
            0 <= i < tabs.len() && (#[trigger] tabs[i]).1 != current && tabs[i].2 ==> refresh_spec(
                current,
                tabs,
            ).contains((tabs[i].0, CheckChange::Uncheck)),
        forall|k: int|
            0 <= k < refresh_spec(current, tabs).len() ==> exists|i: int|
                0 <= i < tabs.len() && (#[trigger] refresh_spec(current, tabs)[k]).0 == tabs[i].0 && (
                refresh_spec(current, tabs)[k].1 == CheckChange::Check <==> tabs[i].1 == current),
    decreases tabs.len(),
{
    if tabs.len() > 0 {
        let init = tabs.drop_last();
        lemma_refresh_checks_current_tab(current, init);
        let rest = refresh_spec(current, init);
        let r = refresh_spec(current, tabs);
        assert forall|i: int|
            0 <= i < tabs.len() && (#[trigger] tabs[i]).1 == current implies r.contains(
                (tabs[i].0, CheckChange::Check),
            ) by {
            if i < tabs.len() - 1 {
                assert(init[i] == tabs[i]);
                let k = choose|k: int| 0 <= k < rest.len() && rest[k] == (init[i].0, CheckChange::Check);
                assert(r[k] == rest[k]);
            } else {
                assert(r[r.len() - 1] == (tabs[i].0, CheckChange::Check));
            }
        }
        assert forall|i: int|
            0 <= i < tabs.len() && (#[trigger] tabs[i]).1 != current && tabs[i].2 implies r.contains(
                (tabs[i].0, CheckChange::Uncheck),
            ) by {
            if i < tabs.len() - 1 {
                assert(init[i] == tabs[i]);
                let k = choose|k: int| 0 <= k < rest.len() && rest[k] == (init[i].0, CheckChange::Uncheck);
                assert(r[k] == rest[k]);
            } else {
                assert(r[r.len() - 1] == (tabs[i].0, CheckChange::Uncheck));
            }
        }
        assert forall|k: int| 0 <= k < r.len() implies exists|i: int|
            0 <= i < tabs.len() && (#[trigger] r[k]).0 == tabs[i].0 && (r[k].1 == CheckChange::Check
                <==> tabs[i].1 == current) by {
            if k < rest.len() {
                assert(r[k] == rest[k]);
                let i = choose|i: int|
                    0 <= i < init.len() && rest[k].0 == init[i].0 && (rest[k].1 == CheckChange::Check
                        <==> init[i].1 == current);
                assert(init[i] == tabs[i]);
            } else {
                assert(r[k].0 == tabs[tabs.len() - 1].0);
            }
        }
    }
}

} // verus!
