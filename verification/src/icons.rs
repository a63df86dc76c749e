//! Choosing the running icon: the first custom icon file that decodes, else
//! the bundled icon, else a blank image, brought to the size asked for.
//!
//! Files are found and read by the caller; decoding and resampling are the
//! `image` crate's.

use vstd::prelude::*;

use crate::overlay::RgbaCanvas;

verus! {

/// What `image::load_from_memory` followed by `to_rgba8` makes of `bytes`:
/// the width, height and RGBA bytes of the image, or `None` when the bytes
/// are no image of a supported format.
pub uninterp spec fn spec_image_load(bytes: Seq<u8>) -> Option<(u32, u32, Seq<u8>)>;

/// Calls `image::load_from_memory` and converts the image to 8-bit RGBA.
/// The outcome is the named function of the bytes; the RGBA buffer that
/// `to_rgba8` allocates holds exactly four bytes per pixel.
#[verifier::external_body]
fn image_load_rgba(bytes: &[u8]) -> (r: Option<(u32, u32, Vec<u8>)>)
    ensures
        match r {
            Some((w, h, p)) => spec_image_load(bytes@) == Some((w, h, p@)) && p@.len() == 4 * w * h,
            None => spec_image_load(bytes@) is None,
        },
{
    let img = image::load_from_memory(bytes).ok()?.to_rgba8();
    let (w, h) = img.dimensions();
    Some((w, h, img.into_raw()))
}

/// Calls `image::imageops::resize` with the Lanczos3 filter to bring a
/// `w` x `h` RGBA image to `size` x `size`. The result holds four bytes per
/// pixel of the new size. Its pixel values come from floating-point
/// sampling through the platform's sine, so nothing more is claimed of them.
#[verifier::external_body]
fn image_resize(w: u32, h: u32, pixels: &Vec<u8>, size: u32) -> (r: Vec<u8>)
    requires
        w >= 1,
        h >= 1,
        pixels@.len() == 4 * w * h,
        4 * w * size <= usize::MAX,
        4 * size * size <= usize::MAX,
    ensures
        r@.len() == 4 * size * size,
{
    match image::RgbaImage::from_raw(w, h, pixels.clone()) {
        Some(img) => image::imageops::resize(&img, size, size, image::imageops::FilterType::Lanczos3)
            .into_raw(),
        None => Vec::new(),
    }
}

/// A decoded image that can be used as an icon of `size`: not empty, four
/// bytes per pixel, and small enough to be resampled to `size`.
pub open spec fn usable_image(img: Option<(u32, u32, Seq<u8>)>, size: u32) -> bool {
    match img {
        Some((w, h, p)) => w >= 1 && h >= 1 && p.len() == 4 * w * h && 4 * w * size <= usize::MAX,
        None => false,
    }
}

/// The first of `candidates` that decodes to a usable image.
pub open spec fn first_usable(candidates: Seq<Seq<u8>>, size: u32) -> Option<(u32, u32, Seq<u8>)>
    decreases candidates.len(),
{
    if candidates.len() == 0 {
        None
    } else if usable_image(spec_image_load(candidates[0]), size) {
        spec_image_load(candidates[0])
    } else {
        first_usable(candidates.drop_first(), size)
    }
}

/// The image an icon is made from: the first usable candidate, else the
/// bundled image when it is usable.
pub open spec fn icon_source(candidates: Seq<Seq<u8>>, bundled: Seq<u8>, size: u32) -> Option<
    (u32, u32, Seq<u8>),
> {
    match first_usable(candidates, size) {
        Some(img) => Some(img),
        None => if usable_image(spec_image_load(bundled), size) {
            spec_image_load(bundled)
        } else {
            None
        },
    }
}

/// The icon comes from the earliest candidate that decodes to a usable
/// image: every candidate before it does not, and when no candidate does,
/// none of them is used.
pub proof fn lemma_first_usable_is_earliest(candidates: Seq<Seq<u8>>, size: u32)
    ensures
        match first_usable(candidates, size) {
            Some(img) => exists|i: int|
                0 <= i < candidates.len() && spec_image_load(#[trigger] candidates[i]) == Some(img)
                    && usable_image(Some(img), size) && forall|j: int|
                    0 <= j < i ==> !usable_image(spec_image_load(#[trigger] candidates[j]), size),
            None => forall|j: int|
                0 <= j < candidates.len() ==> !usable_image(spec_image_load(#[trigger] candidates[j]), size),
        },
    decreases candidates.len(),
{
    if candidates.len() > 0 {
        let rest = candidates.drop_first();
        lemma_first_usable_is_earliest(rest, size);
        if usable_image(spec_image_load(candidates[0]), size) {
            assert(spec_image_load(candidates[0]) == first_usable(candidates, size));
        } else {
            match first_usable(rest, size) {
                Some(img) => {
                    let i = choose|i: int|
                        0 <= i < rest.len() && spec_image_load(#[trigger] rest[i]) == Some(img)
                            && usable_image(Some(img), size) && forall|j: int|
                            0 <= j < i ==> !usable_image(spec_image_load(#[trigger] rest[j]), size);
                    assert(candidates[i + 1] == rest[i]);
                    assert forall|j: int| 0 <= j < i + 1 implies !usable_image(
                        spec_image_load(#[trigger] candidates[j]),
                        size,
                    ) by {
                        if j > 0 {
                            assert(candidates[j] == rest[j - 1]);
                        }
                    }
                },
                None => {
                    assert forall|j: int| 0 <= j < candidates.len() implies !usable_image(
                        spec_image_load(#[trigger] candidates[j]),
                        size,
                    ) by {
                        if j > 0 {
                            assert(candidates[j] == rest[j - 1]);
                        }
                    }
                },
            }
        }
    }
}

pub open spec fn byte_views(vs: Seq<Vec<u8>>) -> Seq<Seq<u8>> {
    vs.map_values(|v: Vec<u8>| v@)
}

/// Decodes `bytes` and keeps the image when it is usable for `size`.
fn load_usable(bytes: &[u8], size: u32) -> (r: Option<(u32, u32, Vec<u8>)>)
    ensures
        match r {
            Some((w, h, p)) => usable_image(spec_image_load(bytes@), size) && spec_image_load(bytes@)
                == Some((w, h, p@)),
            None => !usable_image(spec_image_load(bytes@), size),
        },
{
    match image_load_rgba(bytes) {
        Some((w, h, p)) => {
            let wide: u64 = w as u64;
            let high: u64 = h as u64;
            let side: u64 = size as u64;
            assert(wide * high <= 0xffff_ffff * 0xffff_ffff) by (nonlinear_arith)
                requires
                    wide <= 0xffff_ffff,
                    high <= 0xffff_ffff,
            ;
            assert(wide * side <= 0xffff_ffff * 0xffff_ffff) by (nonlinear_arith)
                requires
                    wide <= 0xffff_ffff,
                    side <= 0xffff_ffff,
            ;
            let area = wide * high;
            let strip = wide * side;
            assert(4 * w * h == 4 * area && 4 * w * size == 4 * strip) by (nonlinear_arith)
                requires
                    area == wide * high,
                    strip == wide * side,
                    wide == w,
                    high == h,
                    side == size,
            ;
            if w >= 1 && h >= 1 && strip <= (usize::MAX as u64) / 4 {
                assert(4 * w * size <= usize::MAX);
                Some((w, h, p))
            } else {
                None
            }
        },
        None => None,
    }
}

/// The running icon at `size` x `size`: made from the first of
/// `candidates` (the bytes of the custom icon files, in order of
/// preference) that decodes to a usable image, else from the `bundled`
/// icon, else blank (fully transparent). An image of the right size is used
/// as it is; any other is resampled to `size`.
pub fn choose_icon(candidates: &Vec<Vec<u8>>, bundled: &[u8], size: u32) -> (r: RgbaCanvas)
    requires
        4 * size * size <= usize::MAX,
    ensures
        r.spec_width() == size,
        r.spec_height() == size,
        match icon_source(byte_views(candidates@), bundled@, size) {
            None => r.bytes() == Seq::new((4 * size * size) as nat, |i: int| 0u8),
            Some((w, h, p)) => w == size && h == size ==> r.bytes() == p,
        },
{
    let ghost cs = byte_views(candidates@);
    let mut found: Option<(u32, u32, Vec<u8>)> = None;
    let mut i: usize = 0;
    assert(cs.skip(0) =~= cs);
    while i < candidates.len() && found.is_none()
        invariant
            cs == byte_views(candidates@),
            i <= candidates@.len(),
            match found {
                None => first_usable(cs, size) == first_usable(cs.skip(i as int), size),
                Some((w, h, p)) => first_usable(cs, size) == Some((w, h, p@)) && usable_image(
                    Some((w, h, p@)),
                    size,
                ),
            },
        decreases candidates@.len() - i,
    {
        let ghost rest = cs.skip(i as int);
        assert(rest[0] == candidates@[i as int]@);
        assert(rest.drop_first() =~= cs.skip(i + 1));
        found = load_usable(candidates[i].as_slice(), size);
        i = i + 1;
    }
    proof {
        if found is None {
            assert(cs.skip(cs.len() as int) =~= Seq::<Seq<u8>>::empty());
        }
    }
    if found.is_none() {
        found = load_usable(bundled, size);
    }
    match found {
        None => RgbaCanvas::new(size, size),
        Some((w, h, p)) => {
            if w == size && h == size {
                match RgbaCanvas::from_raw(w, h, p) {
                    Some(c) => c,
                    None => RgbaCanvas::new(size, size),
                }
            } else {
                let resized = image_resize(w, h, &p, size);
                match RgbaCanvas::from_raw(size, size, resized) {
                    Some(c) => c,
                    None => RgbaCanvas::new(size, size),
                }
            }
        },
    }
}

} // verus!
