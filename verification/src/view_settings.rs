//! Settings and small decisions of the viewer's interface: render colours and
//! grids, the mobile web layout, badge colours and the first window size.
use vstd::prelude::*;

verus! {

/// The preview's background colour unless changed, RGBA.
pub const PREVIEW_BG_DEFAULT: [u8; 4] = [26, 26, 38, 255];

/// The preview grid's colour unless changed, RGBA.
pub const PREVIEW_GRID_DEFAULT: [u8; 4] = [160, 160, 160, 96];

/// The world grid's colour unless changed, RGBA.
pub const WORLD_GRID_DEFAULT: [u8; 4] = [255, 255, 255, 255];

/// How the preview is drawn.
#[derive(Clone, Copy, Debug)]
pub struct RenderSettingsState {
    /// The background colour, RGBA.
    pub preview_background: [u8; 4],
    /// Whether the tile grid of each map is drawn.
    pub show_preview_grid: bool,
    /// The colour of the tile grid, RGBA.
    pub preview_grid_color: [u8; 4],
    /// Whether the outline of each map of a world is drawn.
    pub show_world_grid: bool,
    /// The colour of the world outlines, RGBA.
    pub world_grid_color: [u8; 4],
}

impl Default for RenderSettingsState {
    fn default() -> (s: Self)
        ensures
            s.preview_background@ == seq![26u8, 26, 38, 255],
            s.show_preview_grid,
            s.preview_grid_color@ == seq![160u8, 160, 160, 96],
            s.show_world_grid,
            s.world_grid_color@ == seq![255u8, 255, 255, 255],
    {
        let s = RenderSettingsState {
            preview_background: PREVIEW_BG_DEFAULT,
            show_preview_grid: true,
            preview_grid_color: PREVIEW_GRID_DEFAULT,
            show_world_grid: true,
            world_grid_color: WORLD_GRID_DEFAULT,
        };
        assert(s.preview_background@ =~= seq![26u8, 26, 38, 255]);
        assert(s.preview_grid_color@ =~= seq![160u8, 160, 160, 96]);
        assert(s.world_grid_color@ =~= seq![255u8, 255, 255, 255]);
        s
    }
}

/// The state of the mobile web layout: whether it is in use, and whether the
/// grids were switched off and the panels arranged for it since it came into use.
#[derive(Clone, Copy, Debug)]
pub struct MobileWebUiState {
    pub active: bool,
    pub grid_defaults_applied: bool,
    pub layout_applied: bool,
}

impl Default for MobileWebUiState {
    fn default() -> (s: Self)
        ensures
            !s.active && !s.grid_defaults_applied && !s.layout_applied,
    {
        MobileWebUiState { active: false, grid_defaults_applied: false, layout_applied: false }
    }
}

/// Whether the grids are to be switched off now: the mobile layout applies
/// and they were not switched off since it came into use.
pub open spec fn grid_defaults_due(s: MobileWebUiState, active: bool) -> bool {
    active && !(s.active == active && s.grid_defaults_applied)
}

impl MobileWebUiState {
    /// Takes in whether the mobile layout applies now. A change starts it
    /// over. While it applies, the grids are switched off once (the user may
    /// switch them on again). Returns whether the panels still have to be
    /// arranged for it; the caller reports success with `layout_done`.
    pub fn observe(&mut self, active: bool, settings: &mut RenderSettingsState) -> (arrange: bool)
        ensures
            final(self).active == active,
            final(self).grid_defaults_applied == (active || (old(self).active == active
                && old(self).grid_defaults_applied)),
            final(self).layout_applied == (old(self).active == active && old(self).layout_applied),
            arrange == (active && !final(self).layout_applied),
            grid_defaults_due(*old(self), active) ==> !final(settings).show_preview_grid
                && !final(settings).show_world_grid,
            !grid_defaults_due(*old(self), active) ==> final(settings).show_preview_grid == old(
                settings,
            ).show_preview_grid && final(settings).show_world_grid == old(settings).show_world_grid,
            final(settings).preview_background == old(settings).preview_background,
            final(settings).preview_grid_color == old(settings).preview_grid_color,
            final(settings).world_grid_color == old(settings).world_grid_color,
    {
        if self.active != active {
            self.active = active;
            self.layout_applied = false;
            self.grid_defaults_applied = false;
        }
        if !self.active {
            return false;
        }
        if !self.grid_defaults_applied {
            settings.show_preview_grid = false;
            settings.show_world_grid = false;
            self.grid_defaults_applied = true;
        }
        !self.layout_applied
    }

    /// Records that the panels were arranged for the mobile layout.
    pub fn layout_done(&mut self)
        ensures
            final(self).layout_applied,
            final(self).active == old(self).active,
            final(self).grid_defaults_applied == old(self).grid_defaults_applied,
    {
        self.layout_applied = true;
    }
}

/// The colour of a badge's tone, RGB; none for an unknown or missing tone,
/// which is shown light grey.
pub open spec fn tone_color(tone: Option<Seq<char>>) -> Option<(u8, u8, u8)> {
    match tone {
        Some(t) => if t == "success"@ {
            Some((80u8, 190u8, 120u8))
        } else if t == "info"@ {
            Some((80u8, 170u8, 220u8))
        } else if t == "warning"@ {
            Some((235u8, 180u8, 70u8))
        } else if t == "danger"@ {
            Some((230u8, 100u8, 100u8))
        } else if t == "muted"@ {
            Some((150u8, 150u8, 150u8))
        } else if t == "accent"@ {
            Some((180u8, 120u8, 230u8))
        } else {
            None
        },
        None => None,
    }
}

/// The colour of a badge with the given tone (see `tone_color`).
pub fn badge_color(tone: Option<&str>) -> (c: Option<(u8, u8, u8)>)
    ensures
        c == tone_color(
            match tone {
                Some(t) => Some(t@),
                None => None,
            },
        ),
{
    match tone {
        None => None,
        Some(t) => {
            proof {
                reveal_strlit("success");
                reveal_strlit("info");
                reveal_strlit("warning");
                reveal_strlit("danger");
                reveal_strlit("muted");
                reveal_strlit("accent");
            }
            let v = crate::text::chars_of(t);
            if crate::text::chars_eq(&v, "success") {
                Some((80, 190, 120))
            } else if crate::text::chars_eq(&v, "info") {
                Some((80, 170, 220))
            } else if crate::text::chars_eq(&v, "warning") {
                Some((235, 180, 70))
            } else if crate::text::chars_eq(&v, "danger") {
                Some((230, 100, 100))
            } else if crate::text::chars_eq(&v, "muted") {
                Some((150, 150, 150))
            } else if crate::text::chars_eq(&v, "accent") {
                Some((180, 120, 230))
            } else {
                None
            }
        },
    }
}

/// The size of the window at start: the requested size, each side cut to the
/// viewport's when the viewport's size is known.
pub fn initial_window_resolution(requested: (u32, u32), viewport: Option<(u32, u32)>) -> (r: (u32, u32))
    ensures
        r == match viewport {
            Some((w, h)) => (
                if requested.0 <= w { requested.0 } else { w },
                if requested.1 <= h { requested.1 } else { h },
            ),
            None => requested,
        },
{
    match viewport {
        Some((w, h)) => (
            if requested.0 <= w { requested.0 } else { w },
            if requested.1 <= h { requested.1 } else { h },
        ),
        None => requested,
    }
}

/// The label of a menu item that shows or hides a panel: a check mark and a
/// space before the name when the panel is visible, two spaces otherwise.
pub open spec fn toggle_label(visible: bool, name: Seq<char>) -> Seq<char> {
    (if visible {
        seq!['\u{2713}', ' ']
    } else {
        seq![' ', ' ']
    }) + name
}

/// The label of the menu item for a panel named `name`.
pub fn menu_item_label(visible: bool, name: &str) -> (s: String)
    ensures
        s@ == toggle_label(visible, name@),
{
    let mut v: Vec<char> = Vec::new();
    if visible {
        v.push('\u{2713}');
    } else {
        v.push(' ');
    }
    v.push(' ');
    let mut s = crate::text::string_of(&v);
    s.append(name);
    s
}

/// A panel of the dock, by its number and its name.
pub struct DockPanel {
    pub number: usize,
    pub name: String,
}

/// The numbers of the panels whose names contain `pattern`, in the order given.
pub open spec fn numbers_containing(panels: Seq<DockPanel>, pattern: Seq<char>) -> Seq<usize>
    decreases panels.len(),
{
    if panels.len() == 0 {
        Seq::empty()
    } else if crate::text::occurs_in(panels.last().name@, pattern) {
        numbers_containing(panels.drop_last(), pattern).push(panels.last().number)
    } else {
        numbers_containing(panels.drop_last(), pattern)
    }
}

/// Whether the numbers ascend.
pub open spec fn ascending(s: Seq<usize>) -> bool {
    forall|i: int, j: int| 0 <= i < j < s.len() ==> s[i] <= s[j]
}

/// The numbers of the panels whose names contain `pattern`, in ascending order.
pub fn panel_ids_containing(panels: &Vec<DockPanel>, pattern: &str) -> (r: Vec<usize>)
    ensures
        ascending(r@),
        r@.to_multiset() =~= numbers_containing(panels@, pattern@).to_multiset(),
{
    broadcast use vstd::seq_lib::group_to_multiset_ensures, vstd::multiset::group_multiset_axioms;

    let pat = crate::text::chars_of(pattern);
    let mut r: Vec<usize> = Vec::new();
    let mut i: usize = 0;
    while i < panels.len()
        invariant
            i <= panels.len(),
            pat@ == pattern@,
            ascending(r@),
            r@.to_multiset() =~= numbers_containing(panels@.take(i as int), pattern@).to_multiset(),
        decreases panels.len() - i,
    {
        let p = &panels[i];
        assert(panels@.take(i + 1).drop_last() =~= panels@.take(i as int));
        assert(panels@.take(i + 1).last() == *p);
        let name = crate::text::chars_of(p.name.as_str());
        if crate::text::contains_chars(&name, &pat) {
            let x = p.number;
            let mut k: usize = r.len();
            while k > 0 && x < r[k - 1]
                invariant
                    k <= r.len(),
                    ascending(r@),
                    forall|m: int| k <= m < r.len() ==> x < #[trigger] r@[m],
                decreases k,
            {
                k = k - 1;
            }
            let ghost before = r@;
            r.insert(k, x);
            assert(r@ =~= before.insert(k as int, x));
            assert forall|a: int, b: int| 0 <= a < b < r@.len() implies r@[a] <= r@[b] by {
                if b < k {
                    assert(r@[a] == before[a] && r@[b] == before[b]);
                } else if b == k {
                    assert(r@[a] == before[a]);
                } else if a == k {
                    assert(r@[b] == before[b - 1]);
                } else if a < k {
                    assert(r@[a] == before[a] && r@[b] == before[b - 1]);
                } else {
                    assert(r@[a] == before[a - 1] && r@[b] == before[b - 1]);
                }
            }
            proof {
                vstd::seq_lib::to_multiset_insert(before, k as int, x);
                let prev = numbers_containing(panels@.take(i as int), pattern@);
                assert(numbers_containing(panels@.take(i + 1), pattern@) == prev.push(x));
                prev.to_multiset_ensures();
                assert(prev.push(x).to_multiset() =~= prev.to_multiset().insert(x));
            }
        } else {
            assert(numbers_containing(panels@.take(i + 1), pattern@) == numbers_containing(panels@.take(i as int), pattern@));
        }
        i = i + 1;
    }
    assert(panels@.take(panels.len() as int) =~= panels@);
    r
}

/// The number of the first panel, in the order given, named `name`.
pub fn panel_id_named(panels: &Vec<DockPanel>, name: &str) -> (r: Option<usize>)
    ensures
        match r {
            Some(n) => exists|i: int| 0 <= i < panels@.len() && panels@[i].name@ == name@ && panels@[i].number == n
                && forall|j: int| 0 <= j < i ==> #[trigger] panels@[j].name@ != name@,
            None => forall|j: int| 0 <= j < panels@.len() ==> #[trigger] panels@[j].name@ != name@,
        },
{
    let key = name.to_string();
    let mut i: usize = 0;
    while i < panels.len()
        invariant
            i <= panels.len(),
            key@ == name@,
            forall|j: int| 0 <= j < i ==> #[trigger] panels@[j].name@ != name@,
        decreases panels.len() - i,
    {
        if panels[i].name.eq(&key) {
            return Some(panels[i].number);
        }
        i = i + 1;
    }
    None
}

/// The panel that a developer-menu action shows or hides: the inspector for
/// `toggle_inspector`, the console for `toggle_console`, none for any other.
pub open spec fn menu_action_panel(action: Seq<char>) -> Option<Seq<char>> {
    if action == "toggle_inspector"@ {
        Some("workbench_inspector"@)
    } else if action == "toggle_console"@ {
        Some("workbench_console"@)
    } else {
        None
    }
}

/// The panel that the developer-menu action `action` toggles, if any.
pub fn panel_for_menu_action(action: &str) -> (r: Option<&'static str>)
    ensures
        match r {
            Some(p) => menu_action_panel(action@) == Some(p@),
            None => menu_action_panel(action@) is None,
        },
{
    proof {
        reveal_strlit("toggle_inspector");
        reveal_strlit("toggle_console");
        reveal_strlit("workbench_inspector");
        reveal_strlit("workbench_console");
    }
    let v = crate::text::chars_of(action);
    if crate::text::chars_eq(&v, "toggle_inspector") {
        Some("workbench_inspector")
    } else if crate::text::chars_eq(&v, "toggle_console") {
        Some("workbench_console")
    } else {
        None
    }
}

/// Whether the render settings panel has been given its own dock below the
/// details panel, on the desktop layout.
#[derive(Clone, Copy, Debug)]
pub struct RenderDockLayoutState {
    pub applied: bool,
}

impl Default for RenderDockLayoutState {
    fn default() -> (s: Self)
        ensures
            !s.applied,
    {
        RenderDockLayoutState { applied: false }
    }
}

impl RenderDockLayoutState {
    /// Whether the dock is still to be arranged: not on the mobile layout,
    /// and not arranged before.
    pub fn due(&self, mobile: bool) -> (b: bool)
        ensures
            b == (!mobile && !self.applied),
    {
        !mobile && !self.applied
    }

    /// Records that the dock was arranged; it is not arranged again.
    pub fn done(&mut self)
        ensures
            final(self).applied,
    {
        self.applied = true;
    }
}

} // verus!
