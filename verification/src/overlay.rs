//! Reference thumbnails over the render of a recorded camera path.
use vstd::prelude::*;

use crate::buffers::{pad_row_bytes, pad_rows};

verus! {

/// Grayscale keyframe thumbnail, the top row first.
pub struct ThumbImage {
    pub width: u32,
    pub height: u32,
    pub gray: Vec<u8>,
}

#[derive(Clone, Copy, PartialEq, Eq, Debug, Structural)]
pub enum OverlayMode {
    Off,
    /// Picture in picture, bottom right.
    Pip,
    /// Semi-transparent, fit to the window height.
    Blend,
}

impl OverlayMode {
    pub open spec fn after(self) -> OverlayMode {
        match self {
            OverlayMode::Off => OverlayMode::Pip,
            OverlayMode::Pip => OverlayMode::Blend,
            OverlayMode::Blend => OverlayMode::Off,
        }
    }

    pub fn next(self) -> (m: OverlayMode)
        ensures
            m == self.after(),
            self is Off ==> m is Pip,
            self is Pip ==> m is Blend,
            self is Blend ==> m is Off,
    {
        match self {
            OverlayMode::Off => OverlayMode::Pip,
            OverlayMode::Pip => OverlayMode::Blend,
            OverlayMode::Blend => OverlayMode::Off,
        }
    }
}

/// Three switches lead back, and no fewer.
pub proof fn overlay_modes_form_a_cycle(m: OverlayMode)
    ensures
        m.after().after().after() == m,
        m.after() != m,
        m.after().after() != m,
{
}

/// A thumbnail as it is uploaded.
pub struct ThumbUpload {
    pub bytes_per_row: usize,
    pub rows: Vec<u8>,
}

/// Pads the rows of a thumbnail for upload.
pub fn thumb_upload(img: &ThumbImage) -> (u: ThumbUpload)
    requires
        img.width * img.height <= img.gray@.len(),
        crate::buffers::padded_row(img.width as int) * img.height <= usize::MAX,
        img.width + 255 <= usize::MAX,
    ensures
        u.bytes_per_row == crate::buffers::padded_row(img.width as int),
        u.rows@ == crate::buffers::padded_rows(
            img.gray@,
            img.width as int,
            crate::buffers::padded_row(img.width as int),
            img.height as int,
        ),
{
    proof {
        vstd::arithmetic::mul::lemma_mul_is_commutative(img.width as int, img.height as int);
        vstd::arithmetic::mul::lemma_mul_is_commutative(
            crate::buffers::padded_row(img.width as int),
            img.height as int,
        );
    }
    ThumbUpload {
        bytes_per_row: pad_row_bytes(img.width as usize),
        rows: pad_rows(img.gray.as_slice(), img.width as usize, img.height as usize),
    }
}

} // verus!
