use vstd::prelude::*;

verus! {

/// Why a pair of colour buffers cannot be blended as a `w` by `h` image.
#[derive(Debug, Clone, Copy, PartialEq, Eq, Structural)]
pub enum FrameError {
    /// `w * h` does not fit in `usize`.
    DimensionsOverflow,
    /// Three channels per pixel do not fit in `usize`.
    RgbOverflow,
    /// The current buffer does not hold three values per pixel.
    CurrentLength { expected: usize, got: usize },
    /// The previous buffer does not hold three values per pixel.
    PreviousLength { expected: usize, got: usize },
    /// A non-empty motion buffer does not hold two values per pixel.
    MotionLength { expected: usize, got: usize },
}

/// Number of pixels of a `w` by `h` image, if it fits in `usize`.
pub fn pixel_count(w: usize, h: usize) -> (r: Option<usize>)
    ensures
        r == (if w * h <= usize::MAX {
            Some((w * h) as usize)
        } else {
            None::<usize>
        }),
{
    w.checked_mul(h)
}

/// What `check_frame` owes for buffers of the given lengths: the length of
/// an RGB buffer on success, else the first problem found, in the order
/// dimensions, current, previous, motion.
pub open spec fn frame_result(
    curr_len: int,
    prev_len: int,
    motion_len: int,
    w: int,
    h: int,
) -> Result<usize, FrameError> {
    let px = w * h;
    if px > usize::MAX {
        Err(FrameError::DimensionsOverflow)
    } else if 3 * px > usize::MAX {
        Err(FrameError::RgbOverflow)
    } else if curr_len != 3 * px {
        Err(FrameError::CurrentLength { expected: (3 * px) as usize, got: curr_len as usize })
    } else if prev_len != 3 * px {
        Err(FrameError::PreviousLength { expected: (3 * px) as usize, got: prev_len as usize })
    } else if motion_len != 0 && motion_len != 2 * px {
        Err(FrameError::MotionLength { expected: (2 * px) as usize, got: motion_len as usize })
    } else {
        Ok((3 * px) as usize)
    }
}

/// Checks that a current and a previous RGB buffer, and an optional motion
/// buffer (empty when absent), fit a `w` by `h` image; returns the RGB length.
pub fn check_frame(curr_len: usize, prev_len: usize, motion_len: usize, w: usize, h: usize) -> (r:
    Result<usize, FrameError>)
    ensures
        r == frame_result(curr_len as int, prev_len as int, motion_len as int, w as int, h as int),
{
    let px = match pixel_count(w, h) {
        Some(p) => p,
        None => return Err(FrameError::DimensionsOverflow),
    };
    let rgb = match px.checked_mul(3) {
        Some(n) => n,
        None => return Err(FrameError::RgbOverflow),
    };
    if curr_len != rgb {
        return Err(FrameError::CurrentLength { expected: rgb, got: curr_len });
    }
    if prev_len != rgb {
        return Err(FrameError::PreviousLength { expected: rgb, got: prev_len });
    }
    if motion_len != 0 {
        // three values per pixel fit, so two do as well
        let motion = px * 2;
        if motion_len != motion {
            return Err(FrameError::MotionLength { expected: motion, got: motion_len });
        }
    }
    Ok(rgb)
}

} // verus!
