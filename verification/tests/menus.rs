use space_qud::menu::{
    craft_reselect, crafting_step, menu_step, reopen_selected, CraftAction, CraftKeys, CraftMenu, MenuAction, MenuKeys, MenuState,
    PauseMenu, NAV_INITIAL_DELAY,
};

fn no_keys() -> MenuKeys {
    MenuKeys {
        up_just: false,
        down_just: false,
        up_held: false,
        down_held: false,
        space: false,
        confirm: false,
        digit: None,
        tab: false,
        slash: false,
        shift_held: false,
    }
}

fn open_menu(n: usize, disabled: Vec<bool>) -> MenuState {
    let mut s = MenuState::new();
    s.open_list(n, disabled);
    s
}

#[test]
fn space_closes_the_list() {
    let mut s = open_menu(3, vec![]);
    let a = menu_step(&mut s, MenuKeys { space: true, ..no_keys() });
    assert_eq!(a, MenuAction::Nothing);
    assert!(!s.interact_open);
    assert!(s.space_consumed);
}

#[test]
fn down_moves_and_stops_at_the_last_option() {
    let mut s = open_menu(2, vec![]);
    menu_step(&mut s, MenuKeys { down_just: true, down_held: true, ..no_keys() });
    assert_eq!(s.selected, 1);
    assert!(s.dir_consumed);
    assert_eq!((s.nav_dir, s.nav_frames), (1, NAV_INITIAL_DELAY));
    menu_step(&mut s, MenuKeys { down_just: true, down_held: true, ..no_keys() });
    assert_eq!(s.selected, 1);
}

#[test]
fn held_key_repeats_after_the_delay() {
    let mut s = open_menu(20, vec![]);
    menu_step(&mut s, MenuKeys { down_just: true, down_held: true, ..no_keys() });
    assert_eq!(s.selected, 1);
    for _ in 0..NAV_INITIAL_DELAY {
        menu_step(&mut s, MenuKeys { down_held: true, ..no_keys() });
    }
    assert_eq!(s.selected, 1);
    assert_eq!(s.nav_frames, 0);
    menu_step(&mut s, MenuKeys { down_held: true, ..no_keys() });
    assert_eq!(s.selected, 2);
    menu_step(&mut s, no_keys());
    assert_eq!((s.nav_dir, s.nav_frames), (0, 0));
    menu_step(&mut s, MenuKeys { up_just: true, up_held: true, ..no_keys() });
    assert_eq!(s.selected, 1);
}

#[test]
fn confirm_chooses_the_highlighted_option() {
    let mut s = open_menu(3, vec![]);
    s.hover(2);
    let a = menu_step(&mut s, MenuKeys { confirm: true, ..no_keys() });
    assert_eq!(a, MenuAction::Choose(2));
    assert!(!s.interact_open);
    assert!(s.dir_consumed);
}

#[test]
fn greyed_out_options_are_not_chosen() {
    let mut s = open_menu(3, vec![false, true]);
    let a = menu_step(&mut s, MenuKeys { digit: Some(1), ..no_keys() });
    assert_eq!(a, MenuAction::Nothing);
    assert!(s.interact_open);
    let b = menu_step(&mut s, MenuKeys { digit: Some(2), ..no_keys() });
    assert_eq!(b, MenuAction::Choose(2));
}

#[test]
fn digits_past_the_list_fall_back_to_a_click() {
    let mut s = open_menu(2, vec![]);
    s.press(1);
    let a = menu_step(&mut s, MenuKeys { digit: Some(5), ..no_keys() });
    assert_eq!(a, MenuAction::Choose(1));
    assert_eq!(s.pending_click, None);
}

#[test]
fn clicks_wait_while_keys_are_handled() {
    let mut s = open_menu(4, vec![]);
    s.press(3);
    menu_step(&mut s, MenuKeys { down_just: true, down_held: true, ..no_keys() });
    assert_eq!(s.pending_click, Some(3));
    let a = menu_step(&mut s, no_keys());
    assert_eq!(a, MenuAction::Choose(3));
}

#[test]
fn stale_clicks_are_dropped_with_no_list() {
    let mut s = MenuState::new();
    s.press(0);
    menu_step(&mut s, no_keys());
    assert_eq!(s.pending_click, None);
}

#[test]
fn pause_menu_pages() {
    let mut s = MenuState::new();
    menu_step(&mut s, MenuKeys { tab: true, ..no_keys() });
    assert_eq!(s.pause, PauseMenu::Main);
    menu_step(&mut s, MenuKeys { digit: Some(1), ..no_keys() });
    assert_eq!(s.pause, PauseMenu::Controls);
    menu_step(&mut s, MenuKeys { space: true, ..no_keys() });
    assert_eq!(s.pause, PauseMenu::Main);
    assert!(s.space_consumed);
    let a = menu_step(&mut s, MenuKeys { digit: Some(2), ..no_keys() });
    assert_eq!(a, MenuAction::Quit);
    menu_step(&mut s, MenuKeys { digit: Some(0), ..no_keys() });
    assert_eq!(s.pause, PauseMenu::Closed);
    menu_step(&mut s, MenuKeys { slash: true, shift_held: true, ..no_keys() });
    assert_eq!(s.pause, PauseMenu::Controls);
}

#[test]
fn slash_without_shift_keeps_the_pause_menu_shut() {
    let mut s = MenuState::new();
    menu_step(&mut s, MenuKeys { slash: true, ..no_keys() });
    assert_eq!(s.pause, PauseMenu::Closed);
}

#[test]
fn reopened_list_keeps_the_highlight_in_range() {
    assert_eq!(reopen_selected(2, 5), 2);
    assert_eq!(reopen_selected(7, 5), 4);
    assert_eq!(reopen_selected(3, 0), 0);
}

fn craft_keys() -> CraftKeys {
    CraftKeys { up_just: false, down_just: false, up_held: false, down_held: false, space: false, switch_tab: false, enter: false }
}

fn craft_menu() -> CraftMenu {
    CraftMenu { open: true, tab: 1, selected: 0, scroll: 0, n_salvage: 2, craftable: vec![false, true, false] }
}

#[test]
fn crafting_menu_moves_and_crafts() {
    let mut menus = MenuState::new();
    let mut craft = craft_menu();
    assert_eq!(crafting_step(&mut menus, &mut craft, CraftKeys { enter: true, ..craft_keys() }), CraftAction::Nothing);
    assert!(!menus.dir_consumed);
    crafting_step(&mut menus, &mut craft, CraftKeys { down_just: true, down_held: true, ..craft_keys() });
    assert_eq!(craft.selected, 1);
    assert!(menus.dir_consumed);
    let a = crafting_step(&mut menus, &mut craft, CraftKeys { enter: true, ..craft_keys() });
    assert_eq!(a, CraftAction::Craft(1));
    assert!(!menus.dir_consumed);
}

#[test]
fn crafting_menu_switches_tab_and_salvages() {
    let mut menus = MenuState::new();
    let mut craft = craft_menu();
    craft.selected = 2;
    craft.scroll = 1;
    crafting_step(&mut menus, &mut craft, CraftKeys { switch_tab: true, ..craft_keys() });
    assert_eq!((craft.tab, craft.selected, craft.scroll), (0, 0, 0));
    crafting_step(&mut menus, &mut craft, CraftKeys { down_just: true, down_held: true, ..craft_keys() });
    crafting_step(&mut menus, &mut craft, CraftKeys { down_just: true, down_held: true, ..craft_keys() });
    assert_eq!(craft.selected, 1);
    let a = crafting_step(&mut menus, &mut craft, CraftKeys { enter: true, ..craft_keys() });
    assert_eq!(a, CraftAction::Salvage(1));
    crafting_step(&mut menus, &mut craft, CraftKeys { space: true, ..craft_keys() });
    assert!(!craft.open);
    assert!(menus.space_consumed);
}

#[test]
fn crafting_menu_scrolls_to_keep_the_highlight_in_view() {
    let mut menus = MenuState::new();
    let mut craft = CraftMenu { open: true, tab: 0, selected: 11, scroll: 0, n_salvage: 20, craftable: vec![] };
    crafting_step(&mut menus, &mut craft, CraftKeys { down_just: true, down_held: true, ..craft_keys() });
    assert_eq!((craft.selected, craft.scroll), (12, 1));
    assert_eq!(craft_reselect(12, 1, 5), (4, 1));
    assert_eq!(craft_reselect(3, 5, 10), (3, 3));
    assert_eq!(craft_reselect(3, 0, 0), (0, 0));
}
