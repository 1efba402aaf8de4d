//! The popup menus: the interaction list (cursor moves with key repeat, choosing by key, digit or
//! click) and the pause menu, as a step from the menu state and one frame's keys to the next
//! state and what the game should do.
use vstd::prelude::*;
use crate::crafting::{craft_scroll_for, CRAFT_VISIBLE_ROWS};

verus! {

/// Frames a held direction key waits before it starts repeating.
pub const NAV_INITIAL_DELAY: u32 = 8;
/// Frames between repeats of a held direction key.
pub const NAV_REPEAT_RATE: u32 = 1;

/// Which page of the pause menu is showing.
#[derive(Clone, Copy, Debug, PartialEq, Eq, Structural)]
pub enum PauseMenu {
    Closed,
    Main,
    Controls,
}

/// The menus' state between frames.
pub struct MenuState {
    pub pause: PauseMenu,
    /// Whether the interaction list is open.
    pub interact_open: bool,
    /// Number of options in the open list.
    pub n_options: usize,
    /// The highlighted option.
    pub selected: usize,
    /// Which options are greyed out (missing entries are enabled).
    pub disabled: Vec<bool>,
    /// An option clicked since the last frame, not yet acted on.
    pub pending_click: Option<usize>,
    /// Space closed a menu: the same press must not also start an interaction.
    pub space_consumed: bool,
    /// A direction key fed the menu this frame: it must not also move the player.
    pub dir_consumed: bool,
    /// Direction of the held navigation key (-1 up, 1 down, 0 none).
    pub nav_dir: i8,
    /// Frames left before the held key repeats.
    pub nav_frames: u32,
}

/// The keys of one frame that the menus read.
#[derive(Clone, Copy, Debug, PartialEq, Eq, Structural)]
pub struct MenuKeys {
    pub up_just: bool,
    pub down_just: bool,
    pub up_held: bool,
    pub down_held: bool,
    pub space: bool,
    /// A, D or Enter just pressed.
    pub confirm: bool,
    /// Index (from 0 for the key 1) of the lowest digit key just pressed.
    pub digit: Option<usize>,
    pub tab: bool,
    pub slash: bool,
    pub shift_held: bool,
}

/// What the game does after a menu step.
#[derive(Clone, Copy, Debug, PartialEq, Eq, Structural)]
pub enum MenuAction {
    Nothing,
    /// Carry out the option with this index of the list, which has just closed.
    Choose(usize),
    /// Leave the game.
    Quit,
}

/// One navigation key's repeat: whether it fires this frame, and the new direction and
/// countdown. A fresh press fires and starts the initial delay; a key still held in the same
/// direction fires when the countdown reaches zero, and counts down otherwise.
pub open spec fn repeat_step(just: bool, held: bool, want: i8, dir: i8, frames: u32) -> (bool, i8, u32) {
    if just {
        (true, want, NAV_INITIAL_DELAY)
    } else if held && dir == want {
        if frames == 0 { (true, dir, NAV_REPEAT_RATE) } else { (false, dir, (frames - 1) as u32) }
    } else {
        (false, dir, frames)
    }
}

/// The navigation of a frame with the list open: whether up fires, whether down fires, and the
/// repeat state after it (cleared when neither key is held).
pub open spec fn nav_step(dir: i8, frames: u32, k: MenuKeys) -> (bool, bool, i8, u32) {
    let up = repeat_step(k.up_just, k.up_held, -1i8, dir, frames);
    let down = repeat_step(k.down_just, k.down_held, 1i8, up.1, up.2);
    if !k.up_held && !k.down_held { (up.0, down.0, 0i8, 0u32) } else { (up.0, down.0, down.1, down.2) }
}

/// Whether option `i` is greyed out.
pub open spec fn spec_is_disabled(disabled: Seq<bool>, i: int) -> bool {
    0 <= i < disabled.len() && disabled[i]
}

/// The option a frame with the list open asks for, if any: the highlighted one on A, D or Enter,
/// else the digit's option when there is one, else the pending click when it names an option.
pub open spec fn exec_index(selected: usize, n: usize, click: Option<usize>, k: MenuKeys) -> Option<usize> {
    if k.confirm {
        Some(selected)
    } else if k.digit is Some && k.digit->0 < n {
        k.digit
    } else {
        match click {
            Some(i) => if i < n { Some(i) } else { None },
            None => None,
        }
    }
}

/// Whether the digit key names one of the `n` options.
pub open spec fn digit_hits(k: MenuKeys, n: usize) -> bool {
    k.digit matches Some(d) && d < n
}

/// The highlighted option after moving up.
pub open spec fn moved_up(sel: usize) -> usize {
    if sel >= 1 { (sel - 1) as usize } else { 0 }
}

/// The highlighted option after moving down, held at the last of `n` options.
pub open spec fn moved_down(sel: usize, n: usize) -> usize {
    let last: int = if n >= 1 { n - 1 } else { 0 };
    if sel + 1 <= last { (sel + 1) as usize } else { last as usize }
}

/// The pause page after a frame's keys, with the list closed.
pub open spec fn pause_next(p: PauseMenu, k: MenuKeys) -> PauseMenu {
    match p {
        PauseMenu::Closed => if k.tab || (k.slash && k.shift_held) {
            if k.slash { PauseMenu::Controls } else { PauseMenu::Main }
        } else {
            PauseMenu::Closed
        },
        PauseMenu::Main => if k.space || k.digit == Some(0usize) {
            PauseMenu::Closed
        } else if k.digit == Some(1usize) {
            PauseMenu::Controls
        } else {
            PauseMenu::Main
        },
        PauseMenu::Controls => if k.space { PauseMenu::Main } else { PauseMenu::Controls },
    }
}

/// Space closed a pause page this frame.
pub open spec fn pause_used_space(p: PauseMenu, k: MenuKeys) -> bool {
    match p {
        PauseMenu::Closed => false,
        PauseMenu::Main => k.space || k.digit == Some(0usize),
        PauseMenu::Controls => k.space,
    }
}

impl MenuState {
    /// Nothing open.
    pub fn new() -> (s: Self)
        ensures
            s.pause == PauseMenu::Closed,
            !s.interact_open,
            s.n_options == 0,
            s.selected == 0,
            s.disabled@.len() == 0,
            s.pending_click is None,
            !s.space_consumed,
            !s.dir_consumed,
            s.nav_dir == 0,
            s.nav_frames == 0,
    {
        MenuState {
            pause: PauseMenu::Closed,
            interact_open: false,
            n_options: 0,
            selected: 0,
            disabled: Vec::new(),
            pending_click: None,
            space_consumed: false,
            dir_consumed: false,
            nav_dir: 0,
            nav_frames: 0,
        }
    }

    /// Opens the interaction list on `n_options` options, the first highlighted.
    pub fn open_list(&mut self, n_options: usize, disabled: Vec<bool>)
        ensures
            final(self).interact_open,
            final(self).n_options == n_options,
            final(self).selected == 0,
            final(self).disabled@ == disabled@,
            final(self).pause == old(self).pause,
            final(self).pending_click == old(self).pending_click,
            final(self).space_consumed == old(self).space_consumed,
            final(self).dir_consumed == old(self).dir_consumed,
            final(self).nav_dir == old(self).nav_dir,
            final(self).nav_frames == old(self).nav_frames,
    {
        self.interact_open = true;
        self.n_options = n_options;
        self.selected = 0;
        self.disabled = disabled;
    }

    /// The pointer is over option `i`: it becomes the highlighted one while the list is open.
    pub fn hover(&mut self, i: usize)
        ensures
            final(self).selected == if old(self).interact_open { i } else { old(self).selected },
            final(self).interact_open == old(self).interact_open,
            final(self).n_options == old(self).n_options,
            final(self).disabled@ == old(self).disabled@,
            final(self).pause == old(self).pause,
            final(self).pending_click == old(self).pending_click,
            final(self).space_consumed == old(self).space_consumed,
            final(self).dir_consumed == old(self).dir_consumed,
            final(self).nav_dir == old(self).nav_dir,
            final(self).nav_frames == old(self).nav_frames,
    {
        if self.interact_open {
            self.selected = i;
        }
    }

    /// Option `i` was clicked: it waits for the next menu step.
    pub fn press(&mut self, i: usize)
        ensures
            final(self).pending_click == Some(i),
            final(self).selected == old(self).selected,
            final(self).interact_open == old(self).interact_open,
            final(self).n_options == old(self).n_options,
            final(self).disabled@ == old(self).disabled@,
            final(self).pause == old(self).pause,
            final(self).space_consumed == old(self).space_consumed,
            final(self).dir_consumed == old(self).dir_consumed,
            final(self).nav_dir == old(self).nav_dir,
            final(self).nav_frames == old(self).nav_frames,
    {
        self.pending_click = Some(i);
    }

    /// Whether option `i` is greyed out.
    pub fn is_disabled(&self, i: usize) -> (b: bool)
        ensures
            b == spec_is_disabled(self.disabled@, i as int),
    {
        i < self.disabled.len() && self.disabled[i]
    }
}

fn repeat_key(just: bool, held: bool, want: i8, dir: i8, frames: u32) -> (r: (bool, i8, u32))
    ensures
        r == repeat_step(just, held, want, dir, frames),
{
    if just {
        (true, want, NAV_INITIAL_DELAY)
    } else if held && dir == want {
        if frames == 0 { (true, dir, NAV_REPEAT_RATE) } else { (false, dir, frames - 1) }
    } else {
        (false, dir, frames)
    }
}

/// One frame of the menus. With the interaction list open: Space closes it; otherwise a firing
/// up or down key moves the highlight; otherwise A, D or Enter, a digit naming an option, or
/// else a pending click naming one, chooses that option unless it is greyed out, closing the
/// list. With it closed, pending clicks are dropped and the pause menu reacts: Tab opens it, `?`
/// opens its controls page; on the main page Space or 1 resumes, 2 shows the controls and 3
/// quits; on the controls page Space goes back.
pub fn menu_step(state: &mut MenuState, keys: MenuKeys) -> (a: MenuAction)
    ensures
        final(state).n_options == old(state).n_options,
        final(state).disabled@ == old(state).disabled@,
        old(state).interact_open ==> {
            let o = *old(state);
            let f = *final(state);
            let nav = nav_step(o.nav_dir, o.nav_frames, keys);
            &&& f.nav_dir == nav.2
            &&& f.nav_frames == nav.3
            &&& f.pause == o.pause
            &&& if keys.space {
                &&& !f.interact_open
                &&& f.space_consumed
                &&& !f.dir_consumed
                &&& f.selected == o.selected
                &&& f.pending_click == o.pending_click
                &&& a == MenuAction::Nothing
            } else if nav.0 || nav.1 {
                &&& f.interact_open
                &&& f.selected == if nav.0 { moved_up(o.selected) } else { moved_down(o.selected, o.n_options) }
                &&& f.dir_consumed
                &&& f.space_consumed == o.space_consumed
                &&& f.pending_click == o.pending_click
                &&& a == MenuAction::Nothing
            } else {
                let e = exec_index(o.selected, o.n_options, o.pending_click, keys);
                let chosen = e matches Some(i) && i < o.n_options && !spec_is_disabled(o.disabled@, i as int);
                &&& f.dir_consumed == keys.confirm
                &&& f.space_consumed == o.space_consumed
                &&& f.selected == o.selected
                &&& f.pending_click == if keys.confirm || digit_hits(keys, o.n_options) { o.pending_click } else { None }
                &&& f.interact_open == !chosen
                &&& a == if chosen { MenuAction::Choose(e->0) } else { MenuAction::Nothing }
            }
        },
        !old(state).interact_open ==> {
            let o = *old(state);
            let f = *final(state);
            &&& !f.interact_open
            &&& f.pending_click is None
            &&& !f.dir_consumed
            &&& f.selected == o.selected
            &&& f.nav_dir == o.nav_dir
            &&& f.nav_frames == o.nav_frames
            &&& f.pause == pause_next(o.pause, keys)
            &&& f.space_consumed == (o.space_consumed || pause_used_space(o.pause, keys))
            &&& a == if o.pause == PauseMenu::Main && !keys.space && keys.digit == Some(2usize) { MenuAction::Quit } else { MenuAction::Nothing }
        },
{
    state.dir_consumed = false;
    if state.interact_open {
        let n = state.n_options;
        let cur = state.selected;
        let up = repeat_key(keys.up_just, keys.up_held, -1, state.nav_dir, state.nav_frames);
        let down = repeat_key(keys.down_just, keys.down_held, 1, up.1, up.2);
        if !keys.up_held && !keys.down_held {
            state.nav_dir = 0;
            state.nav_frames = 0;
        } else {
            state.nav_dir = down.1;
            state.nav_frames = down.2;
        }
        if keys.space {
            state.interact_open = false;
            state.space_consumed = true;
            MenuAction::Nothing
        } else if up.0 {
            state.selected = if cur >= 1 { cur - 1 } else { 0 };
            state.dir_consumed = true;
            MenuAction::Nothing
        } else if down.0 {
            let last = if n >= 1 { n - 1 } else { 0 };
            state.selected = if cur < last { cur + 1 } else { last };
            state.dir_consumed = true;
            MenuAction::Nothing
        } else {
            let exec: Option<usize> = if keys.confirm {
                state.dir_consumed = true;
                Some(cur)
            } else if keys.digit.is_some() && keys.digit.unwrap() < n {
                keys.digit
            } else {
                let click = state.pending_click;
                state.pending_click = None;
                match click {
                    Some(i) => if i < n { Some(i) } else { None },
                    None => None,
                }
            };
            match exec {
                Some(i) => {
                    if i < n && !state.is_disabled(i) {
                        state.interact_open = false;
                        MenuAction::Choose(i)
                    } else {
                        MenuAction::Nothing
                    }
                },
                None => MenuAction::Nothing,
            }
        }
    } else {
        state.pending_click = None;
        match state.pause {
            PauseMenu::Closed => {
                if keys.tab || (keys.slash && keys.shift_held) {
                    state.pause = if keys.slash { PauseMenu::Controls } else { PauseMenu::Main };
                }
                MenuAction::Nothing
            },
            PauseMenu::Main => {
                if keys.space || keys.digit == Some(0usize) {
                    state.pause = PauseMenu::Closed;
                    state.space_consumed = true;
                    MenuAction::Nothing
                } else if keys.digit == Some(1usize) {
                    state.pause = PauseMenu::Controls;
                    MenuAction::Nothing
                } else if keys.digit == Some(2usize) {
                    MenuAction::Quit
                } else {
                    MenuAction::Nothing
                }
            },
            PauseMenu::Controls => {
                if keys.space {
                    state.pause = PauseMenu::Main;
                    state.space_consumed = true;
                }
                MenuAction::Nothing
            },
        }
    }
}

/// The highlighted option when the list reopens on `n` options after a change of loadout: the
/// one highlighted before, held at the last option.
pub fn reopen_selected(cur: usize, n: usize) -> (r: usize)
    ensures
        r == if n == 0 { 0 } else if cur < n { cur } else { (n - 1) as usize },
{
    let last = if n >= 1 { n - 1 } else { 0 };
    if cur < last { cur } else { last }
}

/// The crafting menu: whether it is open, its tab (0 salvage, 1 craft), the highlighted entry and
/// the first entry shown, and for each tab how many entries it lists and which can be made.
pub struct CraftMenu {
    pub open: bool,
    pub tab: usize,
    pub selected: usize,
    pub scroll: usize,
    pub n_salvage: usize,
    /// Which recipes of the craft tab the inventory can make.
    pub craftable: Vec<bool>,
}

/// The keys of one frame that the crafting menu reads.
#[derive(Clone, Copy, Debug, PartialEq, Eq, Structural)]
pub struct CraftKeys {
    pub up_just: bool,
    pub down_just: bool,
    pub up_held: bool,
    pub down_held: bool,
    pub space: bool,
    /// A, D, Left or Right just pressed.
    pub switch_tab: bool,
    pub enter: bool,
}

/// What the game does after a crafting-menu step.
#[derive(Clone, Copy, Debug, PartialEq, Eq, Structural)]
pub enum CraftAction {
    Nothing,
    /// Salvage the item of the salvage tab's entry with this index.
    Salvage(usize),
    /// Craft the recipe with this index.
    Craft(usize),
}

/// Entries on the crafting menu's current tab.
pub open spec fn tab_len(m: CraftMenu) -> int {
    if m.tab == 0 { m.n_salvage as int } else { m.craftable@.len() as int }
}

/// The highlighted entry can be acted on: every salvage entry can, a recipe when the inventory
/// can make it.
pub open spec fn entry_ready(m: CraftMenu) -> bool {
    if m.tab == 0 { true } else { m.selected < m.craftable@.len() && m.craftable@[m.selected as int] }
}

/// The scroll that keeps entry `sel` in view, from `scroll`.
pub open spec fn scroll_to(sel: int, scroll: int) -> int {
    if sel < scroll { sel } else if sel >= scroll + CRAFT_VISIBLE_ROWS { sel + 1 - CRAFT_VISIBLE_ROWS } else { scroll }
}

/// One frame of the crafting menu, which shares the key repeat and the consumed-key flags of
/// `menus`. Space closes it; otherwise A, D, Left or Right switches tab (back to the top), a
/// firing up or down key moves the highlight (scrolling to keep it in view), and Enter on an
/// entry that can be acted on asks for its salvage or craft. Frames that do none of these leave
/// the consumed-direction flag as it was.
pub fn crafting_step(menus: &mut MenuState, craft: &mut CraftMenu, keys: CraftKeys) -> (a: CraftAction)
    requires
        old(craft).scroll + CRAFT_VISIBLE_ROWS <= usize::MAX,
    ensures
        final(craft).open == (old(craft).open && !keys.space),
        final(craft).n_salvage == old(craft).n_salvage,
        final(craft).craftable@ == old(craft).craftable@,
        final(menus).pause == old(menus).pause,
        final(menus).interact_open == old(menus).interact_open,
        final(menus).n_options == old(menus).n_options,
        final(menus).selected == old(menus).selected,
        final(menus).disabled@ == old(menus).disabled@,
        final(menus).pending_click == old(menus).pending_click,
        !old(craft).open || keys.space ==> {
            &&& final(craft).tab == old(craft).tab
            &&& final(craft).selected == old(craft).selected
            &&& final(craft).scroll == old(craft).scroll
            &&& final(menus).nav_dir == old(menus).nav_dir
            &&& final(menus).nav_frames == old(menus).nav_frames
            &&& final(menus).dir_consumed == old(menus).dir_consumed
            &&& final(menus).space_consumed == (old(menus).space_consumed || (old(craft).open && keys.space))
            &&& a == CraftAction::Nothing
        },
        old(craft).open && !keys.space ==> {
            let o = *old(craft);
            let f = *final(craft);
            let mk = MenuKeys {
                up_just: keys.up_just,
                down_just: keys.down_just,
                up_held: keys.up_held,
                down_held: keys.down_held,
                space: false,
                confirm: false,
                digit: None,
                tab: false,
                slash: false,
                shift_held: false,
            };
            let nav = nav_step(old(menus).nav_dir, old(menus).nav_frames, mk);
            let n = tab_len(o);
            &&& final(menus).nav_dir == nav.2
            &&& final(menus).nav_frames == nav.3
            &&& final(menus).space_consumed == old(menus).space_consumed
            &&& if keys.switch_tab {
                &&& f.tab == (if o.tab == 0 { 1usize } else { 0usize }) && f.selected == 0 && f.scroll == 0
                &&& final(menus).dir_consumed
                &&& a == CraftAction::Nothing
            } else if nav.0 || nav.1 {
                let sel = if nav.0 { moved_up(o.selected) } else { moved_down(o.selected, n as usize) };
                &&& f.tab == o.tab && f.selected == sel && f.scroll == scroll_to(sel as int, o.scroll as int)
                &&& final(menus).dir_consumed
                &&& a == CraftAction::Nothing
            } else {
                &&& f.tab == o.tab && f.selected == o.selected && f.scroll == o.scroll
                &&& if keys.enter && n > 0 && o.selected < n && entry_ready(o) {
                    &&& !final(menus).dir_consumed
                    &&& a == (if o.tab == 0 { CraftAction::Salvage(o.selected) } else { CraftAction::Craft(o.selected) })
                } else {
                    &&& final(menus).dir_consumed == old(menus).dir_consumed
                    &&& a == CraftAction::Nothing
                }
            }
        },
{
    if !craft.open {
        return CraftAction::Nothing;
    }
    if keys.space {
        craft.open = false;
        menus.space_consumed = true;
        return CraftAction::Nothing;
    }
    let up = repeat_key(keys.up_just, keys.up_held, -1, menus.nav_dir, menus.nav_frames);
    let down = repeat_key(keys.down_just, keys.down_held, 1, up.1, up.2);
    if !keys.up_held && !keys.down_held {
        menus.nav_dir = 0;
        menus.nav_frames = 0;
    } else {
        menus.nav_dir = down.1;
        menus.nav_frames = down.2;
    }
    let n = if craft.tab == 0 { craft.n_salvage } else { craft.craftable.len() };
    let cur = craft.selected;
    if keys.switch_tab {
        craft.tab = if craft.tab == 0 { 1 } else { 0 };
        craft.selected = 0;
        craft.scroll = 0;
        menus.dir_consumed = true;
        CraftAction::Nothing
    } else if up.0 || down.0 {
        let sel = if up.0 {
            if cur >= 1 { cur - 1 } else { 0 }
        } else {
            let last = if n >= 1 { n - 1 } else { 0 };
            if cur < last { cur + 1 } else { last }
        };
        craft.scroll = craft_scroll_for(sel, craft.scroll);
        craft.selected = sel;
        menus.dir_consumed = true;
        CraftAction::Nothing
    } else if keys.enter && n > 0 && cur < n {
        let ready = if craft.tab == 0 { true } else { cur < craft.craftable.len() && craft.craftable[cur] };
        if ready {
            menus.dir_consumed = false;
            if craft.tab == 0 { CraftAction::Salvage(cur) } else { CraftAction::Craft(cur) }
        } else {
            CraftAction::Nothing
        }
    } else {
        CraftAction::Nothing
    }
}

/// The highlight and scroll when the crafting menu's lists are rebuilt with `n` entries on the
/// current tab: the same entry, held at the last, kept in view.
pub fn craft_reselect(selected: usize, scroll: usize, n: usize) -> (r: (usize, usize))
    requires
        scroll + CRAFT_VISIBLE_ROWS <= usize::MAX,
    ensures
        r.0 == (if n == 0 { 0 } else if selected < n { selected as int } else { n - 1 }),
        r.1 == scroll_to(r.0 as int, scroll as int),
{
    let sel = reopen_selected(selected, n);
    (sel, craft_scroll_for(sel, scroll))
}

} // verus!
