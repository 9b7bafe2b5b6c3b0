//! The one-time correction of the globe's normal map.
//!
//! The image loader hands the normal map over in a texture format that normal
//! shaders cannot use. Once the image is there its format is corrected, and
//! never again after that.

use vstd::prelude::*;

verus! {

/// What the asset store holds for the normal map in one frame.
#[derive(Clone, Copy, Debug, PartialEq, Eq, Structural)]
pub enum NormalImage {
    /// No handle to the image has been stored yet.
    Unset,
    /// A handle is stored, the image behind it has not arrived.
    Loading,
    /// The image is in the asset store.
    Loaded,
}

/// Whether a frame that finds the normal map as `image` corrects its format.
pub open spec fn patch_due(already_ran: bool, image: NormalImage) -> bool {
    !already_ran && image == NormalImage::Loaded
}

/// How many frames of `frames`, taken in order, correct the format.
pub open spec fn patches(already_ran: bool, frames: Seq<NormalImage>) -> nat
    decreases frames.len(),
{
    if frames.len() == 0 {
        0
    } else if patch_due(already_ran, frames[0]) {
        1 + patches(true, frames.drop_first())
    } else {
        patches(already_ran, frames.drop_first())
    }
}

/// One frame of the correction. Returns whether the caller must set the
/// image's format now, and remembers that it did.
pub fn update_normal(already_ran: &mut bool, image: NormalImage) -> (patch: bool)
    ensures
        patch == patch_due(*old(already_ran), image),
        *final(already_ran) == (*old(already_ran) || patch),
{
    if *already_ran {
        return false;
    }
    match image {
        NormalImage::Loaded => {
            *already_ran = true;
            true
        },
        _ => false,
    }
}

/// The format is corrected at most once, however many frames pass: never
/// once it has been, and otherwise exactly once if some frame finds the
/// image loaded.
pub proof fn lemma_patch_at_most_once(already_ran: bool, frames: Seq<NormalImage>)
    ensures
        patches(already_ran, frames) <= 1,
        already_ran ==> patches(already_ran, frames) == 0,
        !already_ran ==> (patches(already_ran, frames) == 1 <==> frames.contains(
            NormalImage::Loaded,
        )),
    decreases frames.len(),
{
    if frames.len() > 0 {
        let rest = frames.drop_first();
        lemma_patch_at_most_once(true, rest);
        lemma_patch_at_most_once(already_ran, rest);
        if !already_ran {
            if frames[0] == NormalImage::Loaded {
                assert(frames.contains(NormalImage::Loaded));
            } else if rest.contains(NormalImage::Loaded) {
                let i = choose|i: int| 0 <= i < rest.len() && rest[i] == NormalImage::Loaded;
                assert(frames[i + 1] == NormalImage::Loaded);
            } else if frames.contains(NormalImage::Loaded) {
                let i = choose|i: int| 0 <= i < frames.len() && frames[i] == NormalImage::Loaded;
                assert(rest[i - 1] == NormalImage::Loaded);
            }
        }
    }
}

} // verus!
