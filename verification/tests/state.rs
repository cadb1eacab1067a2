use iced_waveform::curve::YAxis;
use iced_waveform::state::{react, CursorMemory, Interaction, PointerEvent};
use iced_waveform::viewport::scissor_rect;

#[test]
fn leaving_the_plot_resets() {
    for ev in [PointerEvent::WheelScrolled, PointerEvent::CursorMoved, PointerEvent::Other] {
        let r = react(Interaction::Panning, true, false, ev);
        assert_eq!(r.interaction, Interaction::Idle);
        assert_eq!(r.cursor, CursorMemory::Forget);
        assert!(!r.pan && !r.zoom && !r.hit_test && !r.redraw);
    }
}

#[test]
fn press_move_release() {
    let r = react(Interaction::Idle, false, true, PointerEvent::LeftPressed);
    assert_eq!(r.interaction, Interaction::Panning);
    assert_eq!(r.cursor, CursorMemory::Record);
    assert!(!r.redraw);
    let m = react(r.interaction, true, true, PointerEvent::CursorMoved);
    assert!(m.pan && m.hit_test && m.redraw);
    assert_eq!(m.interaction, Interaction::Panning);
    let u = react(m.interaction, true, true, PointerEvent::LeftReleased);
    assert_eq!(u.interaction, Interaction::Idle);
    assert_eq!(u.cursor, CursorMemory::Record);
    let h = react(u.interaction, true, true, PointerEvent::CursorMoved);
    assert!(!h.pan && h.hit_test && h.redraw);
}

#[test]
fn move_without_position_does_not_pan() {
    let m = react(Interaction::Panning, false, true, PointerEvent::CursorMoved);
    assert!(!m.pan);
    assert_eq!(m.cursor, CursorMemory::Record);
}

#[test]
fn wheel_zooms_and_keeps_state() {
    let r = react(Interaction::Panning, true, true, PointerEvent::WheelScrolled);
    assert!(r.zoom && r.redraw && !r.pan);
    assert_eq!(r.interaction, Interaction::Panning);
    assert_eq!(r.cursor, CursorMemory::Keep);
    let o = react(Interaction::Idle, false, true, PointerEvent::Other);
    assert!(!o.zoom && !o.redraw);
    assert_eq!(o.cursor, CursorMemory::Keep);
}

#[test]
fn defaults() {
    assert_eq!(Interaction::default(), Interaction::Idle);
    assert_eq!(YAxis::default(), YAxis::Left);
}

#[test]
fn y_axis_picks_range() {
    assert_eq!(YAxis::Left.pick((0, 1), Some((5, 6))), (0, 1));
    assert_eq!(YAxis::Right.pick((0, 1), Some((5, 6))), (5, 6));
    assert_eq!(YAxis::Right.pick((0, 1), None), (0, 1));
}

#[test]
fn scissor_is_never_empty() {
    assert_eq!(scissor_rect(30, 30, 979, 569), (30, 30, 950, 540));
    assert_eq!(scissor_rect(50, 40, 10, 20), (50, 40, 1, 1));
    assert_eq!(scissor_rect(10, 10, 9, 9), (10, 10, 1, 1));
}
