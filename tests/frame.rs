use rust_physics::frame::{check_frame, pixel_count, FrameError};

#[test]
fn pixel_count_fits() {
    assert_eq!(pixel_count(4, 3), Some(12));
    assert_eq!(pixel_count(0, 7), Some(0));
}

#[test]
fn pixel_count_overflows() {
    assert_eq!(pixel_count(usize::MAX, 2), None);
}

#[test]
fn frame_without_motion() {
    assert_eq!(check_frame(12, 12, 0, 2, 2), Ok(12));
}

#[test]
fn frame_with_motion() {
    assert_eq!(check_frame(12, 12, 8, 2, 2), Ok(12));
}

#[test]
fn frame_dimensions_overflow() {
    assert_eq!(check_frame(0, 0, 0, usize::MAX, 2), Err(FrameError::DimensionsOverflow));
}

#[test]
fn frame_rgb_overflow() {
    assert_eq!(check_frame(0, 0, 0, usize::MAX / 2, 1), Err(FrameError::RgbOverflow));
}

#[test]
fn frame_current_length() {
    assert_eq!(
        check_frame(11, 12, 0, 2, 2),
        Err(FrameError::CurrentLength { expected: 12, got: 11 })
    );
}

#[test]
fn frame_previous_length() {
    assert_eq!(
        check_frame(12, 13, 0, 2, 2),
        Err(FrameError::PreviousLength { expected: 12, got: 13 })
    );
}

#[test]
fn frame_motion_length() {
    assert_eq!(
        check_frame(12, 12, 7, 2, 2),
        Err(FrameError::MotionLength { expected: 8, got: 7 })
    );
}
