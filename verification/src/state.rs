//! Pointer interaction of the plot: how each pointer event moves the
//! interaction state and what it asks the plot to do.

use vstd::prelude::*;

verus! {

/// The plot's interaction state.
#[derive(Clone, Copy, Debug, PartialEq, Eq, Structural)]
pub enum Interaction {
    /// No button held.
    Idle,
    /// The left button is held: cursor moves drag the view.
    Panning,
}

impl Default for Interaction {
    fn default() -> (r: Self)
        ensures
            r == Interaction::Idle,
    {
        Interaction::Idle
    }
}

/// The axes an operation applies to.
#[derive(Clone, Copy, Debug, PartialEq, Eq, Structural)]
pub enum Axis {
    Both,
    X,
    Y,
}

/// The pointer events the plot tells apart.
#[derive(Clone, Copy, Debug, PartialEq, Eq, Structural)]
pub enum PointerEvent {
    /// The wheel turned.
    WheelScrolled,
    /// The left button went down.
    LeftPressed,
    /// The left button went up.
    LeftReleased,
    /// The cursor moved.
    CursorMoved,
    /// Anything else.
    Other,
}

/// What happens to the remembered cursor position.
#[derive(Clone, Copy, Debug, PartialEq, Eq, Structural)]
pub enum CursorMemory {
    /// Left as it was.
    Keep,
    /// Set to the current cursor position.
    Record,
    /// Cleared, together with the hovered data point.
    Forget,
}

/// What one pointer event asks of the plot.
#[derive(Clone, Copy, Debug, PartialEq, Eq, Structural)]
pub struct Reaction {
    /// The interaction state after the event.
    pub interaction: Interaction,
    /// Zoom the view by the wheel's turn.
    pub zoom: bool,
    /// Drag the view by the cursor's move since the remembered position.
    pub pan: bool,
    /// Work out again which data point, if any, is under the cursor.
    pub hit_test: bool,
    /// What happens to the remembered cursor position.
    pub cursor: CursorMemory,
    /// Ask for the plot to be drawn again.
    pub redraw: bool,
}

/// The reaction to `event` in state `interaction`, with or without a
/// remembered cursor position, and with the cursor over the plot or not.
pub open spec fn reaction(
    interaction: Interaction,
    has_last_position: bool,
    cursor_present: bool,
    event: PointerEvent,
) -> Reaction {
    let quiet = Reaction {
        interaction,
        zoom: false,
        pan: false,
        hit_test: false,
        cursor: CursorMemory::Keep,
        redraw: false,
    };
    if !cursor_present {
        Reaction { interaction: Interaction::Idle, cursor: CursorMemory::Forget, ..quiet }
    } else {
        match event {
            PointerEvent::WheelScrolled => Reaction { zoom: true, redraw: true, ..quiet },
            PointerEvent::LeftPressed => Reaction {
                interaction: Interaction::Panning,
                cursor: CursorMemory::Record,
                ..quiet
            },
            PointerEvent::CursorMoved => Reaction {
                pan: interaction == Interaction::Panning && has_last_position,
                hit_test: true,
                cursor: CursorMemory::Record,
                redraw: true,
                ..quiet
            },
            PointerEvent::LeftReleased => Reaction {
                interaction: Interaction::Idle,
                cursor: CursorMemory::Record,
                ..quiet
            },
            PointerEvent::Other => quiet,
        }
    }
}

/// Decide how the plot reacts to one pointer event.
pub fn react(
    interaction: Interaction,
    has_last_position: bool,
    cursor_present: bool,
    event: PointerEvent,
) -> (r: Reaction)
    ensures
        r == reaction(interaction, has_last_position, cursor_present, event),
        cursor_present && event != PointerEvent::LeftPressed && event
            != PointerEvent::LeftReleased ==> r.interaction == interaction,
        !cursor_present || event == PointerEvent::LeftReleased ==> r.interaction
            == Interaction::Idle,
        cursor_present && event == PointerEvent::LeftPressed ==> r.interaction
            == Interaction::Panning,
{
    let quiet = Reaction {
        interaction,
        zoom: false,
        pan: false,
        hit_test: false,
        cursor: CursorMemory::Keep,
        redraw: false,
    };
    if !cursor_present {
        return Reaction { interaction: Interaction::Idle, cursor: CursorMemory::Forget, ..quiet };
    }
    match event {
        PointerEvent::WheelScrolled => Reaction { zoom: true, redraw: true, ..quiet },
        PointerEvent::LeftPressed => Reaction {
            interaction: Interaction::Panning,
            cursor: CursorMemory::Record,
            ..quiet
        },
        PointerEvent::CursorMoved => {
            let panning = match interaction {
                Interaction::Panning => true,
                Interaction::Idle => false,
            };
            Reaction {
                pan: panning && has_last_position,
                hit_test: true,
                cursor: CursorMemory::Record,
                redraw: true,
                ..quiet
            }
        },
        PointerEvent::LeftReleased => Reaction {
            interaction: Interaction::Idle,
            cursor: CursorMemory::Record,
            ..quiet
        },
        PointerEvent::Other => quiet,
    }
}

/// The view is dragged only by a cursor move while panning from a remembered
/// position over the plot.
pub proof fn lemma_pan_only_while_panning(
    interaction: Interaction,
    has_last_position: bool,
    cursor_present: bool,
    event: PointerEvent,
)
    ensures
        reaction(interaction, has_last_position, cursor_present, event).pan <==> (interaction
            == Interaction::Panning && has_last_position && cursor_present && event
            == PointerEvent::CursorMoved),
{
}

/// Pressing the left button and then moving the cursor drags the view.
pub proof fn lemma_press_then_move_pans(interaction: Interaction, has_last_position: bool)
    ensures
        ({
            let pressed = reaction(interaction, has_last_position, true, PointerEvent::LeftPressed);
            pressed.cursor == CursorMemory::Record && reaction(
                pressed.interaction,
                true,
                true,
                PointerEvent::CursorMoved,
            ).pan
        }),
{
}

/// Releasing the button, or the cursor leaving the plot, ends panning: no
/// later cursor move drags the view until the button is pressed again.
pub proof fn lemma_release_ends_panning(
    interaction: Interaction,
    has_last_position: bool,
    cursor_present: bool,
    later_has_last_position: bool,
)
    ensures
        ({
            let r = reaction(
                interaction,
                has_last_position,
                cursor_present,
                PointerEvent::LeftReleased,
            );
            r.interaction == Interaction::Idle && !reaction(
                r.interaction,
                later_has_last_position,
                true,
                PointerEvent::CursorMoved,
            ).pan
        }),
{
}

/// The wheel zooms and redraws, and leaves the interaction state as it was.
pub proof fn lemma_wheel_keeps_state(interaction: Interaction, has_last_position: bool)
    ensures
        ({
            let r = reaction(interaction, has_last_position, true, PointerEvent::WheelScrolled);
            r.zoom && r.redraw && r.interaction == interaction && r.cursor == CursorMemory::Keep
        }),
{
}

/// Only the left button changes the interaction state while the cursor is over
/// the plot: a cursor move, the wheel or any other event leaves it as it was.
pub proof fn lemma_interaction_changes_only_by_left_button(
    interaction: Interaction,
    has_last_position: bool,
    event: PointerEvent,
)
    requires
        event != PointerEvent::LeftPressed,
        event != PointerEvent::LeftReleased,
    ensures
        reaction(interaction, has_last_position, true, event).interaction == interaction,
{
}

/// A cursor move never starts or ends panning: it keeps the interaction state,
/// records the cursor, looks for the hovered point and redraws, and it drags
/// the view exactly when panning from a remembered position.
pub proof fn lemma_cursor_move_keeps_interaction(
    interaction: Interaction,
    has_last_position: bool,
)
    ensures
        ({
            let r = reaction(interaction, has_last_position, true, PointerEvent::CursorMoved);
            &&& r.interaction == interaction
            &&& r.cursor == CursorMemory::Record
            &&& r.hit_test && r.redraw && !r.zoom
            &&& r.pan == (interaction == Interaction::Panning && has_last_position)
        }),
{
}

/// An event the plot does not handle leaves everything as it was: no state
/// change, no zoom, pan or hit test, the cursor position kept, no redraw.
pub proof fn lemma_other_event_changes_nothing(interaction: Interaction, has_last_position: bool)
    ensures
        ({
            let r = reaction(interaction, has_last_position, true, PointerEvent::Other);
            &&& r.interaction == interaction
            &&& r.cursor == CursorMemory::Keep
            &&& !r.zoom && !r.pan && !r.hit_test && !r.redraw
        }),
{
}

/// Only a press of the left button over the plot starts panning.
pub proof fn lemma_only_press_starts_panning(
    has_last_position: bool,
    cursor_present: bool,
    event: PointerEvent,
)
    ensures
        reaction(Interaction::Idle, has_last_position, cursor_present, event).interaction
            == Interaction::Panning <==> cursor_present && event == PointerEvent::LeftPressed,
{
}

/// With the cursor away from the plot every event resets it: the interaction
/// goes idle, the remembered cursor and hovered point are forgotten, and
/// nothing is zoomed, dragged, hit-tested or redrawn.
pub proof fn lemma_leaving_resets(
    interaction: Interaction,
    has_last_position: bool,
    event: PointerEvent,
)
    ensures
        ({
            let r = reaction(interaction, has_last_position, false, event);
            &&& r.interaction == Interaction::Idle
            &&& r.cursor == CursorMemory::Forget
            &&& !r.zoom && !r.pan && !r.hit_test && !r.redraw
        }),
{
}

/// Pressing or releasing the left button over the plot sets the interaction
/// (panning, or idle) and records the cursor, and does nothing else.
pub proof fn lemma_button_sets_interaction(interaction: Interaction, has_last_position: bool)
    ensures
        ({
            let p = reaction(interaction, has_last_position, true, PointerEvent::LeftPressed);
            &&& p.interaction == Interaction::Panning
            &&& p.cursor == CursorMemory::Record
            &&& !p.zoom && !p.pan && !p.hit_test && !p.redraw
        }),
        ({
            let u = reaction(interaction, has_last_position, true, PointerEvent::LeftReleased);
            &&& u.interaction == Interaction::Idle
            &&& u.cursor == CursorMemory::Record
            &&& !u.zoom && !u.pan && !u.hit_test && !u.redraw
        }),
{
}

} // verus!
