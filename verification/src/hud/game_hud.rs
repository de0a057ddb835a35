//! The bottom bar: map view, floors, pause, redraw and the frame counter.
use vstd::prelude::*;

use crate::map::dirt::DirtLedger;
use crate::map::hypermap::ChunkCoord;
use crate::map::hypermap_world::streaming::{note_chunk, HypermapChunkRemeshQueue};
use crate::text::{decimal, decimal_nat, push_decimal, push_unsigned};

verus! {

/// Topmost floor.
pub const HYPERMAP_FLOOR_MAX: i32 = 9;

/// The floor that is shown.
#[derive(Debug, Clone, Copy, PartialEq, Eq, Structural)]
pub struct ActiveFloorLevel(pub i32);

impl ActiveFloorLevel {
    /// One floor down, but not below the ground floor.
    pub fn down(&mut self)
        ensures
            final(self).0 == if old(self).0 - 1 > 0 {
                old(self).0 - 1
            } else {
                0
            },
    {
        if self.0 > 0 {
            self.0 = self.0 - 1;
        } else {
            self.0 = 0;
        }
    }

    /// One floor up, but not above the topmost.
    pub fn up(&mut self)
        ensures
            final(self).0 == if old(self).0 + 1 < HYPERMAP_FLOOR_MAX {
                old(self).0 + 1
            } else {
                HYPERMAP_FLOOR_MAX as int
            },
    {
        if self.0 < HYPERMAP_FLOOR_MAX {
            self.0 = self.0 + 1;
        } else {
            self.0 = HYPERMAP_FLOOR_MAX;
        }
    }

    /// The text next to the floor buttons.
    pub fn readout(&self) -> (text: String)
        ensures
            text@ == "Floor "@ + decimal(self.0 as int),
    {
        let mut text = "Floor ".to_owned();
        push_decimal(&mut text, self.0);
        text
    }
}

/// How the camera looks at the world.
#[derive(Debug, Clone, Copy, PartialEq, Eq, Structural)]
pub enum StrategyCameraViewMode {
    Strategy,
    TopDown,
}

/// The other way to look at the world.
pub fn toggle_strategy_camera_view(mode: StrategyCameraViewMode) -> (next: StrategyCameraViewMode)
    ensures
        next != mode,
{
    match mode {
        StrategyCameraViewMode::Strategy => StrategyCameraViewMode::TopDown,
        StrategyCameraViewMode::TopDown => StrategyCameraViewMode::Strategy,
    }
}

/// How the cursor meets a button.
#[derive(Debug, Clone, Copy, PartialEq, Eq, Structural)]
pub enum ButtonState {
    Pressed,
    Hovered,
    Idle,
}

/// Background and border of a button, each as red, green, blue and opacity in hundredths.
pub open spec fn button_style(state: ButtonState) -> (Seq<u8>, Seq<u8>) {
    match state {
        ButtonState::Pressed => (seq![10, 12, 16, 88], seq![90, 92, 96, 65]),
        ButtonState::Hovered => (seq![26, 29, 35, 72], seq![90, 92, 96, 65]),
        ButtonState::Idle => (seq![18, 20, 24, 55], seq![90, 92, 96, 35]),
    }
}

pub fn button_visuals(state: ButtonState) -> (style: ([u8; 4], [u8; 4]))
    ensures
        style.0@ == button_style(state).0,
        style.1@ == button_style(state).1,
{
    let style: ([u8; 4], [u8; 4]) = match state {
        ButtonState::Pressed => ([10, 12, 16, 88], [90, 92, 96, 65]),
        ButtonState::Hovered => ([26, 29, 35, 72], [90, 92, 96, 65]),
        ButtonState::Idle => ([18, 20, 24, 55], [90, 92, 96, 35]),
    };
    assert(style.0@ =~= button_style(state).0);
    assert(style.1@ =~= button_style(state).1);
    style
}

/// Whether the game is paused.
#[derive(Debug, Clone, Copy, PartialEq, Eq, Structural)]
pub struct Paused(pub bool);

impl Paused {
    /// The pause button was pressed.
    pub fn toggle(&mut self)
        ensures
            final(self).0 == !old(self).0,
    {
        self.0 = !self.0;
    }

    /// The label of the pause button.
    pub fn label(&self) -> (label: &'static str)
        ensures
            label@ == if self.0 {
                "Resume"@
            } else {
                "Pause"@
            },
    {
        if self.0 {
            "Resume"
        } else {
            "Pause"
        }
    }
}

/// Asks for every desired chunk's dirt and heat to be drawn again and its meshes to be built
/// again.
pub fn redraw_all(
    desired: &Vec<ChunkCoord>,
    dirt: &mut DirtLedger,
    heat: &mut DirtLedger,
    remesh: &mut HypermapChunkRemeshQueue,
)
    ensures
        forall|c: ChunkCoord| #[trigger]
            final(dirt).dirty_chunks@.contains(c) <==> old(dirt).dirty_chunks@.contains(c)
                || desired@.contains(c),
        forall|c: ChunkCoord| #[trigger]
            final(heat).dirty_chunks@.contains(c) <==> old(heat).dirty_chunks@.contains(c)
                || desired@.contains(c),
        forall|c: ChunkCoord| #[trigger]
            final(remesh).0@.contains(c) <==> old(remesh).0@.contains(c) || desired@.contains(c),
        final(dirt).seeded_chunks == old(dirt).seeded_chunks,
        final(dirt).hydrated_level == old(dirt).hydrated_level,
        final(heat).seeded_chunks == old(heat).seeded_chunks,
        final(heat).hydrated_level == old(heat).hydrated_level,
{
    let mut i: usize = 0;
    while i < desired.len()
        invariant
            i <= desired@.len(),
            forall|c: ChunkCoord| #[trigger]
                dirt.dirty_chunks@.contains(c) <==> old(dirt).dirty_chunks@.contains(c)
                    || desired@.take(i as int).contains(c),
            forall|c: ChunkCoord| #[trigger]
                heat.dirty_chunks@.contains(c) <==> old(heat).dirty_chunks@.contains(c)
                    || desired@.take(i as int).contains(c),
            forall|c: ChunkCoord| #[trigger]
                remesh.0@.contains(c) <==> old(remesh).0@.contains(c) || desired@.take(
                    i as int,
                ).contains(c),
            dirt.seeded_chunks == old(dirt).seeded_chunks,
            dirt.hydrated_level == old(dirt).hydrated_level,
            heat.seeded_chunks == old(heat).seeded_chunks,
            heat.hydrated_level == old(heat).hydrated_level,
        decreases desired@.len() - i,
    {
        let coord = desired[i];
        let ghost (d, h, r) = (dirt.dirty_chunks@, heat.dirty_chunks@, remesh.0@);
        dirt.mark_dirty(coord);
        heat.mark_dirty(coord);
        note_chunk(&mut remesh.0, coord);
        proof {
            lemma_listed_or_added(d, coord);
            lemma_listed_or_added(h, coord);
            lemma_listed_or_added(r, coord);
            assert(desired@.take(i + 1) =~= desired@.take(i as int).push(coord));
            lemma_listed_or_added(desired@.take(i as int), coord);
        }
        i += 1;
    }
    assert(desired@.take(i as int) =~= desired@);
}

proof fn lemma_listed_or_added(list: Seq<ChunkCoord>, coord: ChunkCoord)
    ensures
        forall|c: ChunkCoord| #[trigger]
            list.push(coord).contains(c) <==> list.contains(c) || c == coord,
{
    let after = list.push(coord);
    assert(after[list.len() as int] == coord);
    assert forall|c: ChunkCoord| #[trigger] after.contains(c) <==> list.contains(c) || c
        == coord by {
        if list.contains(c) {
            let m = choose|m: int| 0 <= m < list.len() && list[m] == c;
            assert(after[m] == c);
        }
        if after.contains(c) && c != coord {
            let m = choose|m: int| 0 <= m < after.len() && after[m] == c;
            assert(list[m] == c);
        }
    }
}

/// Frames per second at a frame of `nanos` nanoseconds, rounded half up.
pub open spec fn frame_rate(nanos: int) -> int {
    (2_000_000_000 + nanos) / (2 * nanos)
}

/// The counter's new text after a frame of `nanos` nanoseconds, if the number shown changes.
pub fn update_fps_counter(last_fps: &mut u32, nanos: u64) -> (text: Option<String>)
    ensures
        text is Some <==> nanos > 0 && frame_rate(nanos as int) != *old(last_fps),
        text matches Some(t) ==> t@ == decimal_nat(frame_rate(nanos as int) as nat) + " fps"@
            && *final(last_fps) == frame_rate(nanos as int),
        text is None ==> *final(last_fps) == *old(last_fps),
{
    if nanos == 0 {
        return None;
    }
    let frame: u128 = nanos as u128;
    let fps: u128 = (2_000_000_000 + frame) / (2 * frame);
    proof {
        assert(fps <= 1_000_000_001) by (nonlinear_arith)
            requires
                frame > 0,
                fps == (2_000_000_000 + frame) / (2 * frame),
        ;
    }
    if fps == *last_fps as u128 {
        return None;
    }
    *last_fps = fps as u32;
    let mut text = String::new();
    push_unsigned(&mut text, fps as u32);
    text.append(" fps");
    assert(text@ =~= decimal_nat(fps as nat) + " fps"@);
    Some(text)
}

} // verus!
