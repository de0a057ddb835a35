//! The panel that collects the visibility switches.
use vstd::prelude::*;

verus! {

/// Whether the panel is open.
#[derive(Debug, Clone, Copy, PartialEq, Eq, Structural)]
pub struct OverlaysPanel {
    pub open: bool,
}

impl Default for OverlaysPanel {
    fn default() -> (panel: Self)
        ensures
            !panel.open,
    {
        OverlaysPanel { open: false }
    }
}

impl OverlaysPanel {
    /// The panel's button was pressed.
    pub fn toggle(&mut self)
        ensures
            final(self).open == !old(self).open,
    {
        self.open = !self.open;
    }

    /// The close button, the scrim or Escape was pressed.
    pub fn close(&mut self)
        ensures
            !final(self).open,
    {
        self.open = false;
    }

    /// The label of the panel's button.
    pub fn button_label(&self) -> (label: &'static str)
        ensures
            label@ == if self.open {
                "Overlays *"@
            } else {
                "Overlays"@
            },
    {
        if self.open {
            "Overlays *"
        } else {
            "Overlays"
        }
    }
}

/// The switches of the panel.
#[derive(Debug, Clone, Copy, PartialEq, Eq, Structural)]
pub enum OverlaySwitch {
    Ambient,
    Sun,
    Occupancy,
    Heat,
    Path,
    Water,
    Log,
}

/// What a switch controls, as its label calls it.
pub open spec fn switch_name(switch: OverlaySwitch) -> Seq<char> {
    match switch {
        OverlaySwitch::Ambient => "Ambient"@,
        OverlaySwitch::Sun => "Sun"@,
        OverlaySwitch::Occupancy => "Occ"@,
        OverlaySwitch::Heat => "Heat"@,
        OverlaySwitch::Path => "Path"@,
        OverlaySwitch::Water => "Water"@,
        OverlaySwitch::Log => "Log"@,
    }
}

/// The label of a switch.
pub open spec fn switch_text(switch: OverlaySwitch, on: bool) -> Seq<char> {
    switch_name(switch) + if on {
        ": On"@
    } else {
        ": Off"@
    }
}

pub fn switch_label(switch: OverlaySwitch, on: bool) -> (label: String)
    ensures
        label@ == switch_text(switch, on),
{
    let name: &str = match switch {
        OverlaySwitch::Ambient => "Ambient",
        OverlaySwitch::Sun => "Sun",
        OverlaySwitch::Occupancy => "Occ",
        OverlaySwitch::Heat => "Heat",
        OverlaySwitch::Path => "Path",
        OverlaySwitch::Water => "Water",
        OverlaySwitch::Log => "Log",
    };
    let mut label = name.to_owned();
    if on {
        label.append(": On");
    } else {
        label.append(": Off");
    }
    label
}

/// The log switch's new label, if it shows another state than before.
pub fn sync_log_toggle_label(last: &mut Option<bool>, enabled: bool) -> (label: Option<String>)
    ensures
        *final(last) == Some(enabled),
        label is None <==> *old(last) == Some(enabled),
        label matches Some(text) ==> text@ == switch_text(OverlaySwitch::Log, enabled),
{
    let unchanged: bool = match *last {
        Some(shown) => shown == enabled,
        None => false,
    };
    if unchanged {
        return None;
    }
    *last = Some(enabled);
    Some(switch_label(OverlaySwitch::Log, enabled))
}

} // verus!
