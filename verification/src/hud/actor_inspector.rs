//! Which bot is hovered and selected, and what the side panel shows of the selected one.
use vstd::prelude::*;

verus! {

/// Which tab is active in the actor inspector panel.
#[derive(Debug, Clone, Copy, PartialEq, Eq, Structural)]
pub enum InspectorTab {
    Status,
    Systems,
    Route,
    Inventory,
    Memory,
    Debug,
}

impl Default for InspectorTab {
    fn default() -> (tab: Self)
        ensures
            tab == InspectorTab::Status,
    {
        InspectorTab::Status
    }
}

/// The hovered actor and the mesh under the cursor.
#[derive(Debug, Clone, Copy, PartialEq, Eq, Structural)]
pub struct HoveredActor {
    pub root: Option<u64>,
    pub pick_mesh: Option<u64>,
}

impl Default for HoveredActor {
    fn default() -> (hovered: Self)
        ensures
            hovered.root is None,
            hovered.pick_mesh is None,
    {
        HoveredActor { root: None, pick_mesh: None }
    }
}

/// Index of the first ancestor that can be inspected.
pub open spec fn first_inspectable(ancestry: Seq<(u64, bool)>, i: int) -> bool {
    0 <= i < ancestry.len() && ancestry[i].1 && forall|j: int| 0 <= j < i ==> !(#[trigger]
    ancestry[j]).1
}

/// The nearest inspectable one among an entity and its ancestors, which are listed from the
/// entity upwards with a mark on those that can be inspected.
pub fn find_actor_root(ancestry: &Vec<(u64, bool)>) -> (root: Option<u64>)
    ensures
        match root {
            Some(r) => exists|i: int| #[trigger]
                first_inspectable(ancestry@, i) && ancestry@[i].0 == r,
            None => forall|i: int| 0 <= i < ancestry@.len() ==> !(#[trigger] ancestry@[i]).1,
        },
{
    let mut i: usize = 0;
    while i < ancestry.len()
        invariant
            i <= ancestry@.len(),
            forall|j: int| 0 <= j < i ==> !(#[trigger] ancestry@[j]).1,
        decreases ancestry@.len() - i,
    {
        if ancestry[i].1 {
            assert(first_inspectable(ancestry@, i as int));
            return Some(ancestry[i].0);
        }
        i += 1;
    }
    None
}

impl HoveredActor {
    /// The cursor came over a mesh, whose actor is `root`.
    pub fn pointer_over(&mut self, mesh: u64, is_pick_mesh: bool, root: Option<u64>)
        ensures
            *final(self) == if is_pick_mesh && root is Some {
                HoveredActor { root, pick_mesh: Some(mesh) }
            } else {
                *old(self)
            },
    {
        if !is_pick_mesh {
            return;
        }
        if root.is_some() {
            self.root = root;
            self.pick_mesh = Some(mesh);
        }
    }

    /// The cursor left a mesh.
    pub fn pointer_out(&mut self, mesh: u64, is_pick_mesh: bool)
        ensures
            *final(self) == if is_pick_mesh && old(self).pick_mesh == Some(mesh) {
                HoveredActor { root: None, pick_mesh: None }
            } else {
                *old(self)
            },
    {
        if !is_pick_mesh {
            return;
        }
        if let Some(held) = self.pick_mesh {
            if held == mesh {
                self.root = None;
                self.pick_mesh = None;
            }
        }
    }
}

/// What the hover label does.
#[derive(Debug, Clone, Copy, PartialEq, Eq, Structural)]
pub enum TooltipStep {
    Hide,
    Keep,
    Show,
}

/// Whether the hover label is shown: for a hovered actor with a name and a mesh, with the
/// cursor over the playfield, where the camera sees it. Without a camera nothing changes.
pub fn tooltip_step(
    hovered: bool,
    in_playfield: bool,
    named: bool,
    has_mesh: bool,
    has_camera: bool,
    in_view: bool,
) -> (step: TooltipStep)
    ensures
        step is Show <==> hovered && in_playfield && named && has_mesh && has_camera && in_view,
        step is Keep <==> hovered && in_playfield && named && has_mesh && !has_camera,
{
    if !hovered || !in_playfield || !named || !has_mesh {
        return TooltipStep::Hide;
    }
    if !has_camera {
        return TooltipStep::Keep;
    }
    if !in_view {
        return TooltipStep::Hide;
    }
    TooltipStep::Show
}

/// The selected actor, which the side panel shows. `None` closes the panel.
#[derive(Debug, Clone, Copy, PartialEq, Eq, Structural)]
pub struct SelectedActor {
    pub entity: Option<u64>,
    /// Changed when the panel must be built again while the same actor stays selected.
    pub content_stamp: u32,
}

impl Default for SelectedActor {
    fn default() -> (selection: Self)
        ensures
            selection.entity is None,
            selection.content_stamp == 0,
    {
        SelectedActor { entity: None, content_stamp: 0 }
    }
}

/// The stamp after another change.
pub open spec fn next_stamp(stamp: u32) -> u32 {
    if stamp == u32::MAX {
        0
    } else {
        (stamp + 1) as u32
    }
}

impl SelectedActor {
    pub fn is_some(&self) -> (some: bool)
        ensures
            some == (self.entity is Some),
    {
        self.entity.is_some()
    }

    /// Asks for the panel to be built again.
    pub fn touch(&mut self)
        ensures
            final(self).entity == old(self).entity,
            final(self).content_stamp == next_stamp(old(self).content_stamp),
    {
        self.content_stamp = self.content_stamp.wrapping_add(1);
    }

    /// An actor was clicked. With the kill tool it is taken out of the world, and its selection
    /// with it; otherwise it is selected in place of another.
    pub fn click(&mut self, root: u64, kill: bool) -> (despawn: bool)
        ensures
            despawn == kill,
            final(self).content_stamp == old(self).content_stamp,
            final(self).entity == if !kill {
                Some(root)
            } else if old(self).entity == Some(root) {
                None
            } else {
                old(self).entity
            },
    {
        if kill {
            if let Some(held) = self.entity {
                if held == root {
                    self.entity = None;
                }
            }
            return true;
        }
        self.entity = Some(root);
        false
    }

    /// Drops the selection when the selected actor no longer exists.
    pub fn clear_dead_selection(&mut self, present: bool)
        ensures
            final(self).content_stamp == old(self).content_stamp,
            final(self).entity == if present {
                old(self).entity
            } else {
                None
            },
    {
        if !present {
            self.entity = None;
        }
    }

    /// The close button or Escape was pressed.
    pub fn close(&mut self)
        ensures
            final(self).entity is None,
            final(self).content_stamp == old(self).content_stamp,
    {
        self.entity = None;
    }

    /// The delete button was pressed: the actor to take out of the world.
    pub fn delete(&mut self) -> (despawn: Option<u64>)
        ensures
            despawn == old(self).entity,
            final(self).entity is None,
            final(self).content_stamp == old(self).content_stamp,
    {
        let actor = self.entity;
        self.entity = None;
        actor
    }

    /// A tab was pressed: another tab is shown and the panel built again.
    pub fn press_tab(&mut self, current: &mut InspectorTab, pressed: InspectorTab)
        ensures
            *final(current) == pressed,
            final(self).entity == old(self).entity,
            final(self).content_stamp == if *old(current) == pressed {
                old(self).content_stamp
            } else {
                next_stamp(old(self).content_stamp)
            },
    {
        if *current != pressed {
            *current = pressed;
            self.touch();
        }
    }

    /// A switch of the selected actor was pressed: it flips and the panel is built again.
    /// Without a selected actor that has the switch nothing happens.
    pub fn press_actor_switch(&mut self, switch: Option<bool>) -> (flipped: Option<bool>)
        ensures
            final(self).entity == old(self).entity,
            flipped == if old(self).entity is Some && switch is Some {
                Some(!switch.unwrap())
            } else {
                None
            },
            final(self).content_stamp == if flipped is Some {
                next_stamp(old(self).content_stamp)
            } else {
                old(self).content_stamp
            },
    {
        if self.entity.is_none() {
            return None;
        }
        match switch {
            Some(on) => {
                self.touch();
                Some(!on)
            },
            None => None,
        }
    }

    /// The reset button was pressed: whether the selected actor's route is reset, which needs
    /// an actor that has one.
    pub fn press_reset(&mut self, has_brain: bool) -> (reset: bool)
        ensures
            final(self).entity == old(self).entity,
            reset == (old(self).entity is Some && has_brain),
            final(self).content_stamp == if reset {
                next_stamp(old(self).content_stamp)
            } else {
                old(self).content_stamp
            },
    {
        if self.entity.is_none() || !has_brain {
            return false;
        }
        self.touch();
        true
    }

    /// The subtile map button was pressed.
    pub fn press_subtile_debug(&mut self, enabled: &mut bool)
        ensures
            *final(enabled) == !*old(enabled),
            final(self).entity == old(self).entity,
            final(self).content_stamp == next_stamp(old(self).content_stamp),
    {
        *enabled = !*enabled;
        self.touch();
    }
}

/// What the panel was last built for.
#[derive(Debug, Clone, Copy, PartialEq, Eq, Structural)]
pub struct PanelBuildState {
    pub last_stamp: u32,
    pub last_actor: Option<u64>,
}

impl Default for PanelBuildState {
    fn default() -> (state: Self)
        ensures
            state.last_stamp == 0,
            state.last_actor is None,
    {
        PanelBuildState { last_stamp: 0, last_actor: None }
    }
}

/// What the panel does next.
#[derive(Debug, Clone, Copy, PartialEq, Eq, Structural)]
pub enum PanelStep {
    /// Hide it and drop its rows.
    Hide,
    /// Show it as it is.
    Keep,
    /// Show it, built again for this actor.
    Rebuild(u64),
}

/// Whether the panel's content must change.
pub open spec fn content_changed(
    state: PanelBuildState,
    selection: SelectedActor,
    ticked: bool,
    selection_changed: bool,
    tab_changed: bool,
) -> bool {
    ticked || selection_changed || tab_changed || state.last_stamp != selection.content_stamp
        || state.last_actor != selection.entity
}

fn same_actor(a: Option<u64>, b: Option<u64>) -> (same: bool)
    ensures
        same == (a == b),
{
    match a {
        Some(x) => match b {
            Some(y) => x == y,
            None => false,
        },
        None => b.is_none(),
    }
}

impl PanelBuildState {
    /// Decides what the panel does this frame.
    pub fn step(
        &mut self,
        selection: &SelectedActor,
        ticked: bool,
        selection_changed: bool,
        tab_changed: bool,
    ) -> (step: PanelStep)
        ensures
            selection.entity is None ==> step is Hide && *final(self) == (PanelBuildState {
                last_stamp: 0,
                last_actor: None,
            }),
            selection.entity matches Some(actor) ==> {
                if content_changed(
                    *old(self),
                    *selection,
                    ticked,
                    selection_changed,
                    tab_changed,
                ) {
                    &&& step == PanelStep::Rebuild(actor)
                    &&& final(self).last_stamp == selection.content_stamp
                    &&& final(self).last_actor == selection.entity
                } else {
                    step is Keep && *final(self) == *old(self)
                }
            },
    {
        match selection.entity {
            None => {
                self.last_stamp = 0;
                self.last_actor = None;
                PanelStep::Hide
            },
            Some(actor) => {
                let changed: bool = ticked || selection_changed || tab_changed || self.last_stamp
                    != selection.content_stamp || !same_actor(self.last_actor, selection.entity);
                if !changed {
                    return PanelStep::Keep;
                }
                self.last_stamp = selection.content_stamp;
                self.last_actor = selection.entity;
                PanelStep::Rebuild(actor)
            },
        }
    }
}

/// One property of the selected actor.
#[derive(Debug)]
pub struct PanelRow {
    pub label: String,
    pub value: String,
    /// A line under the row separates it from the next.
    pub divider: bool,
}

/// What the panel shows.
#[derive(Debug)]
pub struct PanelBody {
    pub badge: String,
    pub title: String,
    /// Labels and states of the switches above the rows.
    pub switches: Vec<(String, bool)>,
    pub rows: Vec<PanelRow>,
    /// Shown in place of rows.
    pub note: Option<String>,
}

/// The label of the log switch.
pub open spec fn force_logs_label(on: bool) -> Seq<char> {
    if on {
        "Force logs: ON"@
    } else {
        "Force logs: OFF"@
    }
}

/// The label of the subtile map switch.
pub open spec fn subtile_map_label(on: bool) -> Seq<char> {
    if on {
        "Subtile map: ON"@
    } else {
        "Subtile map: OFF"@
    }
}

/// Puts the panel of a bot together: its name, the two switches of the debug tab, and the
/// tab's rows, all but the last with a divider; a tab without rows says so.
pub fn compose_panel(
    tab: InspectorTab,
    name: Option<&str>,
    properties: &Vec<(String, String)>,
    force_logs: bool,
    subtile_map: bool,
) -> (body: PanelBody)
    ensures
        body.badge@ == "BlackBot"@,
        body.title@ == match name {
            Some(n) => n@,
            None => "(unnamed)"@,
        },
        tab == InspectorTab::Debug ==> body.switches@.len() == 2 && body.switches@[0].0@
            == force_logs_label(force_logs) && body.switches@[0].1 == force_logs
            && body.switches@[1].0@ == subtile_map_label(subtile_map) && body.switches@[1].1
            == subtile_map,
        tab != InspectorTab::Debug ==> body.switches@.len() == 0,
        body.rows@.len() == properties@.len(),
        forall|i: int|
            0 <= i < properties@.len() ==> (#[trigger] body.rows@[i]).label@
                == properties@[i].0@ && body.rows@[i].value@ == properties@[i].1@
                && body.rows@[i].divider == (i + 1 < properties@.len()),
        body.note is Some <==> properties@.len() == 0,
        body.note matches Some(note) ==> note@ == "No data for this tab."@,
{
    let title: String = match name {
        Some(n) => n.to_owned(),
        None => "(unnamed)".to_owned(),
    };
    let mut switches: Vec<(String, bool)> = Vec::new();
    if tab == InspectorTab::Debug {
        let logs: &str = if force_logs {
            "Force logs: ON"
        } else {
            "Force logs: OFF"
        };
        let map: &str = if subtile_map {
            "Subtile map: ON"
        } else {
            "Subtile map: OFF"
        };
        switches.push((logs.to_owned(), force_logs));
        switches.push((map.to_owned(), subtile_map));
    }
    let mut rows: Vec<PanelRow> = Vec::new();
    let mut i: usize = 0;
    while i < properties.len()
        invariant
            i <= properties@.len(),
            rows@.len() == i,
            forall|k: int|
                0 <= k < i ==> (#[trigger] rows@[k]).label@ == properties@[k].0@
                    && rows@[k].value@ == properties@[k].1@ && rows@[k].divider == (k + 1
                    < properties@.len()),
        decreases properties@.len() - i,
    {
        rows.push(
            PanelRow {
                label: properties[i].0.clone(),
                value: properties[i].1.clone(),
                divider: i < properties.len() - 1,
            },
        );
        i += 1;
    }
    let note: Option<String> = if rows.len() == 0 {
        Some("No data for this tab.".to_owned())
    } else {
        None
    };
    PanelBody { badge: "BlackBot".to_owned(), title, switches, rows, note }
}

} // verus!
