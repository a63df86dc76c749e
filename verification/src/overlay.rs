//! Integer parts of the badge icons: the RGBA canvas, the unread-count
//! digits stamped on the taskbar badge, and the pixel and mask layout handed
//! to the Windows icon API. The anti-aliased circle itself is drawn in
//! floating point and is not part of this module.

use vstd::prelude::*;

use crate::text::{decimal, decimal_string};

verus! {

// ---------------------------------------------------------------------------
// The count stamped on the badge
// ---------------------------------------------------------------------------

/// The text stamped on the taskbar badge for an unread count: nothing
/// without a positive count, the number up to 99, `+` beyond.
pub open spec fn badge_count_text(count: Option<u32>) -> Option<Seq<char>> {
    match count {
        Some(n) => if n >= 1 {
            if n <= 99 {
                Some(decimal(n as nat))
            } else {
                Some(seq!['+'])
            }
        } else {
            None
        },
        None => None,
    }
}

/// The badge shows nothing without a positive count, the count's decimal
/// digits from 1 to 99, and a single `+` from 100 on.
pub proof fn lemma_badge_count_text(n: u32)
    ensures
        badge_count_text(None) is None,
        n == 0 ==> badge_count_text(Some(n)) is None,
        1 <= n <= 99 ==> (badge_count_text(Some(n)) matches Some(t) && 1 <= t.len() <= 2
            && crate::text::numeral_value(t) == n),
        n >= 100 ==> badge_count_text(Some(n)) == Some(seq!['+']),
{
    crate::text::lemma_decimal_reads_back(n as nat);
    if 1 <= n <= 99 {
        if n >= 10 {
            assert(decimal((n / 10) as nat).len() == 1);
        }
    }
}

pub fn overlay_count_text(count: Option<u32>) -> (r: Option<String>)
    ensures
        match r {
            Some(s) => badge_count_text(count) == Some(s@),
            None => badge_count_text(count) is None,
        },
{
    match count {
        Some(n) => {
            if n >= 1 {
                if n <= 99 {
                    Some(decimal_string(n as u64))
                } else {
                    let mut s = String::new();
                    crate::text::push_char(&mut s, '+');
                    assert(s@ =~= seq!['+']);
                    Some(s)
                }
            } else {
                None
            }
        },
        None => None,
    }
}

// ---------------------------------------------------------------------------
// Pixel layout for the Windows icon API
// ---------------------------------------------------------------------------

/// RGBA bytes reordered to BGRA: in every complete four-byte pixel the first
/// and third bytes trade places; anything after the last complete pixel is
/// kept.
pub open spec fn swapped_red_blue(p: Seq<u8>) -> Seq<u8> {
    Seq::new(
        p.len(),
        |i: int|
            if i < p.len() - p.len() % 4 {
                if i % 4 == 0 {
                    p[i + 2]
                } else if i % 4 == 2 {
                    p[i - 2]
                } else {
                    p[i]
                }
            } else {
                p[i]
            },
    )
}

/// Reorders RGBA pixels to the BGRA order of a 32-bit DIB section.
pub fn rgba_to_bgra(rgba: &[u8]) -> (out: Vec<u8>)
    ensures
        out@ == swapped_red_blue(rgba@),
{
    let n = rgba.len();
    let mut out: Vec<u8> = Vec::new();
    let mut k: usize = 0;
    while k < n
        invariant
            n == rgba@.len(),
            k <= n,
            out@ == rgba@.take(k as int),
        decreases n - k,
    {
        out.push(rgba[k]);
        assert(rgba@.take(k + 1) =~= rgba@.take(k as int).push(rgba@[k as int]));
        k = k + 1;
    }
    assert(rgba@.take(n as int) =~= rgba@);
    let mut i: usize = 0;
    while i + 3 < n
        invariant
            n == rgba@.len(),
            out@.len() == n,
            i % 4 == 0,
            i <= n,
            forall|j: int|
                0 <= j < n ==> #[trigger] out@[j] == if j < i {
                    swapped_red_blue(rgba@)[j]
                } else {
                    rgba@[j]
                },
        decreases n - i,
    {
        let r = rgba[i];
        let b = rgba[i + 2];
        out.set(i, b);
        out.set(i + 2, r);
        i = i + 4;
    }
    assert(out@ =~= swapped_red_blue(rgba@));
    out
}

/// Reordering twice gives the pixels back.
pub proof fn lemma_swap_red_blue_involutive(p: Seq<u8>)
    ensures
        swapped_red_blue(swapped_red_blue(p)) == p,
{
    assert(swapped_red_blue(swapped_red_blue(p)) =~= p);
}

/// The byte length of the all-zero monochrome AND mask of a `w` x `h`
/// icon: rows padded to a multiple of 16 bits.
pub open spec fn icon_mask_bytes(w: nat, h: nat) -> nat {
    (w + 15) / 16 * 2 * h
}

pub fn icon_mask_len(w: u32, h: u32) -> (n: usize)
    requires
        w <= u32::MAX - 15,
        (w + 15) / 16 * 2 * h <= u32::MAX,
    ensures
        n == icon_mask_bytes(w as nat, h as nat),
{
    let w15: u32 = w + 15;
    let padded = w15 & !15u32;
    assert((w15 & !15u32) == w15 / 16 * 16) by (bit_vector);
    let row = padded / 8;
    assert(row == (w + 15) / 16 * 2);
    assert(row * h <= u32::MAX);
    (row * h) as usize
}

// ---------------------------------------------------------------------------
// The RGBA canvas
// ---------------------------------------------------------------------------

/// An RGBA image held as rows of four-byte pixels, top row first.
pub struct RgbaCanvas {
    width: u32,
    height: u32,
    pixels: Vec<u8>,
}

/// Where the pixel `(x, y)` starts in the bytes of a `w`-wide image.
pub open spec fn pixel_offset(w: int, x: int, y: int) -> int {
    4 * (y * w + x)
}

proof fn lemma_pixel_offsets(w: int, h: int, x1: int, y1: int, x2: int, y2: int)
    requires
        0 <= x1 < w,
        0 <= y1 < h,
        0 <= x2 < w,
        0 <= y2 < h,
    ensures
        0 <= pixel_offset(w, x1, y1),
        pixel_offset(w, x1, y1) + 4 <= 4 * w * h,
        (x1 != x2 || y1 != y2) ==> (pixel_offset(w, x1, y1) + 4 <= pixel_offset(w, x2, y2)
            || pixel_offset(w, x2, y2) + 4 <= pixel_offset(w, x1, y1)),
{
    assert(0 <= y1 * w + x1 < w * h) by (nonlinear_arith)
        requires
            0 <= x1 < w,
            0 <= y1 < h,
    ;
    assert(4 * (y1 * w + x1) + 4 <= 4 * w * h) by (nonlinear_arith)
        requires
            y1 * w + x1 < w * h,
    ;
    if x1 != x2 || y1 != y2 {
        assert(y1 * w + x1 != y2 * w + x2) by (nonlinear_arith)
            requires
                0 <= x1 < w,
                0 <= x2 < w,
                x1 != x2 || y1 != y2,
        {
            if y1 == y2 {
            } else if y1 < y2 {
                assert(y1 * w + w <= y2 * w);
            } else {
                assert(y2 * w + w <= y1 * w);
            }
        }
    }
}

impl RgbaCanvas {
    #[verifier::type_invariant]
    spec fn well_sized(self) -> bool {
        self.pixels@.len() == 4 * self.width * self.height
    }

    pub closed spec fn spec_width(&self) -> nat {
        self.width as nat
    }

    pub closed spec fn spec_height(&self) -> nat {
        self.height as nat
    }

    pub closed spec fn bytes(&self) -> Seq<u8> {
        self.pixels@
    }

    /// The four bytes of pixel `(x, y)`.
    pub open spec fn pixel(&self, x: int, y: int) -> Seq<u8> {
        self.bytes().subrange(
            pixel_offset(self.spec_width() as int, x, y),
            pixel_offset(self.spec_width() as int, x, y) + 4,
        )
    }

    /// A fully transparent `width` x `height` image.
    pub fn new(width: u32, height: u32) -> (r: Self)
        requires
            4 * width * height <= usize::MAX,
        ensures
            r.spec_width() == width,
            r.spec_height() == height,
            r.bytes() == Seq::new((4 * width * height) as nat, |i: int| 0u8),
    {
        assert(4 * width * height == 4 * (width * height)) by (nonlinear_arith);
        assert((width as usize) * (height as usize) <= usize::MAX / 4) by (nonlinear_arith)
            requires
                4 * width * height <= usize::MAX,
        ;
        let wh: usize = (width as usize) * (height as usize);
        let n: usize = 4 * wh;
        let mut pixels: Vec<u8> = Vec::new();
        let mut i: usize = 0;
        while i < n
            invariant
                i <= n,
                pixels@ == Seq::new(i as nat, |j: int| 0u8),
            decreases n - i,
        {
            pixels.push(0);
            assert(pixels@ =~= Seq::new((i + 1) as nat, |j: int| 0u8));
            i = i + 1;
        }
        RgbaCanvas { width, height, pixels }
    }

    /// An image over the given bytes, if there are exactly four per pixel.
    pub fn from_raw(width: u32, height: u32, pixels: Vec<u8>) -> (r: Option<Self>)
        ensures
            match r {
                Some(c) => c.spec_width() == width && c.spec_height() == height && c.bytes()
                    == pixels@,
                None => pixels@.len() != 4 * width * height,
            },
    {
        let w = width as u64;
        let h = height as u64;
        assert(w * h <= u32::MAX * u32::MAX) by (nonlinear_arith)
            requires
                w <= u32::MAX,
                h <= u32::MAX,
        ;
        let plen = pixels.len();
        let area = w * h;
        assert(4 * width * height == 4 * area) by (nonlinear_arith)
            requires
                area == w * h,
                w == width,
                h == height,
        ;
        if area <= u64::MAX / 4 && plen as u64 == 4 * area {
            assert(pixels@.len() == 4 * width * height);
            Some(RgbaCanvas { width, height, pixels })
        } else {
            assert(pixels@.len() != 4 * width * height);
            None
        }
    }

    pub fn width(&self) -> (r: u32)
        ensures
            r == self.spec_width(),
    {
        self.width
    }

    pub fn height(&self) -> (r: u32)
        ensures
            r == self.spec_height(),
    {
        self.height
    }

    /// The bytes of the image.
    pub fn into_raw(self) -> (r: Vec<u8>)
        ensures
            r@ == self.bytes(),
    {
        self.pixels
    }

    /// Overwrites pixel `(x, y)`.
    pub fn put_pixel(&mut self, x: u32, y: u32, px: [u8; 4])
        requires
            x < old(self).spec_width(),
            y < old(self).spec_height(),
        ensures
            final(self).spec_width() == old(self).spec_width(),
            final(self).spec_height() == old(self).spec_height(),
            final(self).pixel(x as int, y as int) == px@,
            forall|x2: int, y2: int|
                0 <= x2 < old(self).spec_width() && 0 <= y2 < old(self).spec_height() && (x2 != x
                    || y2 != y) ==> #[trigger] final(self).pixel(x2, y2) == old(self).pixel(x2, y2),
    {
        proof {
            use_type_invariant(&*self);
            lemma_pixel_offsets(self.width as int, self.height as int, x as int, y as int, 0, 0);
        }
        let ghost before = self.pixels@;
        let ghost w = self.width as int;
        let ghost h = self.height as int;
        let plen = self.pixels.len();
        assert((y as int) * w + (x as int) < w * h) by (nonlinear_arith)
            requires
                0 <= x < w,
                0 <= y < h,
        ;
        assert((y as int) * w + (x as int) <= usize::MAX / 4) by (nonlinear_arith)
            requires
                (y as int) * w + (x as int) < w * h,
                4 * w * h <= usize::MAX,
        ;
        let base: usize = 4 * ((y as usize) * (self.width as usize) + (x as usize));
        assert(base == pixel_offset(w, x as int, y as int)) by (nonlinear_arith)
            requires
                base == 4 * ((y as int) * w + (x as int)),
        ;
        let empty: Vec<u8> = Vec::new();
        assert(empty@.len() == 4 * (0u32 as int) * (0u32 as int));
        let mut taken = RgbaCanvas { width: 0, height: 0, pixels: empty };
        std::mem::swap(&mut taken, self);
        let RgbaCanvas { width, height, mut pixels } = taken;
        assert(pixels@ == before);
        pixels.set(base, px[0]);
        pixels.set(base + 1, px[1]);
        pixels.set(base + 2, px[2]);
        pixels.set(base + 3, px[3]);
        assert(pixels@ == before.update(base as int, px[0]).update(base + 1, px[1]).update(
            base + 2,
            px[2],
        ).update(base + 3, px[3]));
        *self = RgbaCanvas { width, height, pixels };
        proof {
            assert(self.pixel(x as int, y as int) =~= px@);
            assert forall|x2: int, y2: int|
                0 <= x2 < w && 0 <= y2 < h && (x2 != x || y2 != y) implies #[trigger] self.pixel(
                x2,
                y2,
            ) == old(self).pixel(x2, y2) by {
                lemma_pixel_offsets(w, h, x as int, y as int, x2, y2);
                lemma_pixel_offsets(w, h, x2, y2, x as int, y as int);
                assert(self.pixel(x2, y2) =~= old(self).pixel(x2, y2));
            }
        }
    }
}

// ---------------------------------------------------------------------------
// Digits on the taskbar badge
// ---------------------------------------------------------------------------

/// The 3x5 glyph of a digit or `+`, one row of three bits per entry, the
/// leftmost column in the highest bit.
pub open spec fn glyph_rows(c: char) -> Seq<u8> {
    if c == '+' {
        seq![0b000u8, 0b010u8, 0b111u8, 0b010u8, 0b000u8]
    } else if c == '0' {
        seq![0b111u8, 0b101u8, 0b101u8, 0b101u8, 0b111u8]
    } else if c == '1' {
        seq![0b010u8, 0b110u8, 0b010u8, 0b010u8, 0b111u8]
    } else if c == '2' {
        seq![0b111u8, 0b001u8, 0b111u8, 0b100u8, 0b111u8]
    } else if c == '3' {
        seq![0b111u8, 0b001u8, 0b111u8, 0b001u8, 0b111u8]
    } else if c == '4' {
        seq![0b101u8, 0b101u8, 0b111u8, 0b001u8, 0b001u8]
    } else if c == '5' {
        seq![0b111u8, 0b100u8, 0b111u8, 0b001u8, 0b111u8]
    } else if c == '6' {
        seq![0b111u8, 0b100u8, 0b111u8, 0b101u8, 0b111u8]
    } else if c == '7' {
        seq![0b111u8, 0b001u8, 0b010u8, 0b010u8, 0b010u8]
    } else if c == '8' {
        seq![0b111u8, 0b101u8, 0b111u8, 0b101u8, 0b111u8]
    } else {
        seq![0b111u8, 0b101u8, 0b111u8, 0b001u8, 0b111u8]
    }
}

fn glyph_rows_of(c: char) -> (r: [u8; 5])
    ensures
        r@ == glyph_rows(c),
{
    let r: [u8; 5] = if c == '+' {
        [0b000, 0b010, 0b111, 0b010, 0b000]
    } else if c == '0' {
        [0b111, 0b101, 0b101, 0b101, 0b111]
    } else if c == '1' {
        [0b010, 0b110, 0b010, 0b010, 0b111]
    } else if c == '2' {
        [0b111, 0b001, 0b111, 0b100, 0b111]
    } else if c == '3' {
        [0b111, 0b001, 0b111, 0b001, 0b111]
    } else if c == '4' {
        [0b101, 0b101, 0b111, 0b001, 0b001]
    } else if c == '5' {
        [0b111, 0b100, 0b111, 0b001, 0b111]
    } else if c == '6' {
        [0b111, 0b100, 0b111, 0b101, 0b111]
    } else if c == '7' {
        [0b111, 0b001, 0b010, 0b010, 0b010]
    } else if c == '8' {
        [0b111, 0b101, 0b111, 0b101, 0b111]
    } else {
        [0b111, 0b101, 0b111, 0b001, 0b111]
    };
    assert(r@ =~= glyph_rows(c));
    r
}

/// Whether a glyph row lights column `col` (0 is the leftmost).
pub open spec fn row_lights(row: u8, col: u32) -> bool {
    (row >> ((2 - col) as u32)) & 1u8 == 1u8
}

/// A character the badge can draw: an ASCII digit or `+`.
pub open spec fn is_badge_char(c: char) -> bool {
    ('0' <= c && c <= '9') || c == '+'
}

/// The characters of `s` the badge can draw, in order.
pub open spec fn badge_chars(s: Seq<char>) -> Seq<char>
    decreases s.len(),
{
    if s.len() == 0 {
        s
    } else if is_badge_char(s.last()) {
        badge_chars(s.drop_last()).push(s.last())
    } else {
        badge_chars(s.drop_last())
    }
}

/// Integer halving rounded toward zero, as `i32` division by 2 does.
pub open spec fn half_toward_zero(a: int) -> int {
    if a >= 0 {
        a / 2
    } else {
        -((-a) / 2)
    }
}

/// Each glyph cell is a `scale` x `scale` square: 5 for a single character,
/// 3 for more.
pub open spec fn glyph_scale(n: nat) -> int {
    if n <= 1 {
        5
    } else {
        3
    }
}

/// The left edge of the first glyph: the text is centred in `size`.
pub open spec fn text_left(n: nat, size: int) -> int {
    let s = glyph_scale(n);
    half_toward_zero(size - (n * (3 * s) + (n - 1) * s))
}

/// The top edge of the glyphs.
pub open spec fn text_top(n: nat, size: int) -> int {
    half_toward_zero(size - 5 * glyph_scale(n))
}

/// The width of `n` glyphs with their gaps.
pub open spec fn text_width(n: nat) -> int {
    let s = glyph_scale(n);
    n * (3 * s) + (n - 1) * s
}

/// The drawing of `n` glyphs centred in `size` stays within `i32`: the text
/// width, the offsets from `size`, and the left edge after the last glyph
/// are representable (nothing is computed when there is no glyph).
pub open spec fn overlay_arith_fits(n: nat, size: int) -> bool {
    n == 0 || {
        &&& text_width(n) <= i32::MAX
        &&& size - text_width(n) >= i32::MIN
        &&& size - 5 * glyph_scale(n) >= i32::MIN
        &&& text_left(n, size) + n * (4 * glyph_scale(n)) <= i32::MAX
    }
}

/// A cell of the drawing: glyph `k`, glyph row `ry`, glyph column `col`, and
/// the pixel `(sx, sy)` inside the cell.
pub type Cell = (int, int, int, int, int);

pub open spec fn cell_x(chars: Seq<char>, size: int, c: Cell) -> int {
    let s = glyph_scale(chars.len());
    text_left(chars.len(), size) + c.0 * (4 * s) + c.2 * s + c.4
}

pub open spec fn cell_y(chars: Seq<char>, size: int, c: Cell) -> int {
    text_top(chars.len(), size) + c.1 * glyph_scale(chars.len()) + c.3
}

/// A cell that the drawing paints white: inside the glyph grid, lit in its
/// glyph, and inside the `size` x `size` square.
pub open spec fn cell_painted(chars: Seq<char>, size: int, c: Cell) -> bool {
    let s = glyph_scale(chars.len());
    &&& 0 <= c.0 < chars.len()
    &&& 0 <= c.1 < 5
    &&& 0 <= c.2 < 3
    &&& 0 <= c.3 < s
    &&& 0 <= c.4 < s
    &&& row_lights(glyph_rows(chars[c.0])[c.1], c.2 as u32)
    &&& 0 <= cell_x(chars, size, c) < size
    &&& 0 <= cell_y(chars, size, c) < size
}

/// Whether the digits of `text` light pixel `(x, y)` of a `size`-square badge.
pub open spec fn overlay_lit(text: Seq<char>, size: int, x: int, y: int) -> bool {
    let chars = badge_chars(text);
    exists|c: Cell|
        #[trigger] cell_painted(chars, size, c) && cell_x(chars, size, c) == x && cell_y(
            chars,
            size,
            c,
        ) == y
}

/// The painted pixels fit in a `w` x `h` image.
pub open spec fn overlay_fits(text: Seq<char>, size: int, w: nat, h: nat) -> bool {
    let chars = badge_chars(text);
    forall|c: Cell|
        #[trigger] cell_painted(chars, size, c) ==> cell_x(chars, size, c) < w && cell_y(
            chars,
            size,
            c,
        ) < h
}

pub open spec fn white() -> Seq<u8> {
    seq![255u8, 255u8, 255u8, 255u8]
}

/// Cell `a` comes before cell `b` in drawing order.
pub open spec fn cell_before(a: Cell, b: Cell) -> bool {
    a.0 < b.0 || (a.0 == b.0 && (a.1 < b.1 || (a.1 == b.1 && (a.2 < b.2 || (a.2 == b.2 && (a.3
        < b.3 || (a.3 == b.3 && a.4 < b.4)))))))
}

/// Whether a cell drawn before `t` painted pixel `(x, y)`.
pub open spec fn painted_before(chars: Seq<char>, size: int, t: Cell, x: int, y: int) -> bool {
    exists|c: Cell|
        #[trigger] cell_painted(chars, size, c) && cell_before(c, t) && cell_x(chars, size, c) == x
            && cell_y(chars, size, c) == y
}

/// The canvas holds `old` with exactly the pixels painted before `t` white.
pub open spec fn drawn_up_to(
    img: &RgbaCanvas,
    old: &RgbaCanvas,
    chars: Seq<char>,
    size: int,
    t: Cell,
) -> bool {
    &&& img.spec_width() == old.spec_width()
    &&& img.spec_height() == old.spec_height()
    &&& forall|x: int, y: int|
        0 <= x < img.spec_width() && 0 <= y < img.spec_height() ==> #[trigger] img.pixel(x, y)
            == if painted_before(chars, size, t, x, y) {
            white()
        } else {
            old.pixel(x, y)
        }
}

proof fn lemma_same_painted(chars: Seq<char>, size: int, t1: Cell, t2: Cell)
    requires
        forall|c: Cell|
            #[trigger] cell_painted(chars, size, c) ==> (cell_before(c, t1) == cell_before(c, t2)),
    ensures
        forall|x: int, y: int|
            #[trigger] painted_before(chars, size, t1, x, y) == painted_before(chars, size, t2, x, y),
{
    assert forall|x: int, y: int|
        #[trigger] painted_before(chars, size, t1, x, y) == painted_before(chars, size, t2, x, y) by {
        if painted_before(chars, size, t1, x, y) {
            let c = choose|c: Cell|
                #[trigger] cell_painted(chars, size, c) && cell_before(c, t1) && cell_x(chars, size, c)
                    == x && cell_y(chars, size, c) == y;
            assert(cell_before(c, t2));
        }
        if painted_before(chars, size, t2, x, y) {
            let c = choose|c: Cell|
                #[trigger] cell_painted(chars, size, c) && cell_before(c, t2) && cell_x(chars, size, c)
                    == x && cell_y(chars, size, c) == y;
            assert(cell_before(c, t1));
        }
    }
}

fn badge_chars_of(text: &str) -> (v: Vec<char>)
    ensures
        v@ == badge_chars(text@),
{
    let all = crate::text::chars_of(text);
    let mut v: Vec<char> = Vec::new();
    let mut i: usize = 0;
    while i < all.len()
        invariant
            all@ == text@,
            i <= all@.len(),
            v@ == badge_chars(all@.take(i as int)),
        decreases all@.len() - i,
    {
        let c = all[i];
        if ('0' <= c && c <= '9') || c == '+' {
            v.push(c);
        }
        assert(all@.take(i + 1).drop_last() =~= all@.take(i as int));
        i = i + 1;
    }
    assert(all@.take(all@.len() as int) =~= all@);
    v
}

/// Stamps the digits (and `+`) of `text` in white, centred in the
/// `size` x `size` square at the top left of `img`; other characters of
/// `text` are ignored, and cells outside the square are not drawn.
pub fn draw_overlay_digits(img: &mut RgbaCanvas, text: &str, size: i32)
    requires
        overlay_arith_fits(badge_chars(text@).len(), size as int),
        overlay_fits(text@, size as int, old(img).spec_width(), old(img).spec_height()),
    ensures
        final(img).spec_width() == old(img).spec_width(),
        final(img).spec_height() == old(img).spec_height(),
        forall|x: int, y: int|
            0 <= x < old(img).spec_width() && 0 <= y < old(img).spec_height() ==> #[trigger] final(img).pixel(x, y) == if overlay_lit(text@, size as int, x, y) {
                white()
            } else {
                old(img).pixel(x, y)
            },
{
    let chars = badge_chars_of(text);
    let ghost cs = chars@;
    let ghost sz = size as int;
    if chars.len() == 0 {
        assert forall|x: int, y: int| !overlay_lit(text@, size as int, x, y) by {
            if overlay_lit(text@, size as int, x, y) {
                let c = choose|c: Cell|
                    #[trigger] cell_painted(cs, sz, c) && cell_x(cs, sz, c) == x && cell_y(cs, sz, c) == y;
            }
        }
        return;
    }
    assert(cs.len() <= i32::MAX && cs.len() * (3 * glyph_scale(cs.len())) <= i32::MAX) by (nonlinear_arith)
        requires
            cs.len() >= 1,
            glyph_scale(cs.len()) == 3 || glyph_scale(cs.len()) == 5,
            cs.len() * (3 * glyph_scale(cs.len())) + (cs.len() - 1) * glyph_scale(cs.len()) <= i32::MAX,
    ;
    let n: i32 = chars.len() as i32;
    let scale: i32 = if chars.len() <= 1 {
        5
    } else {
        3
    };
    let glyph_w = 3 * scale;
    let spacing = scale;
    assert(0 <= n * glyph_w && 0 <= (n - 1) * spacing && n * glyph_w + (n - 1) * spacing
        == text_width(cs.len())) by (nonlinear_arith)
        requires
            1 <= n,
            n == cs.len(),
            glyph_w == 3 * scale,
            spacing == scale,
            scale == glyph_scale(cs.len()),
            scale == 3 || scale == 5,
    ;
    let total_w = n * glyph_w + (n - 1) * spacing;
    let total_h = 5 * scale;
    let mut x0 = (size - total_w) / 2;
    let y0 = (size - total_h) / 2;
    assert(scale == glyph_scale(cs.len()));
    assert(x0 == text_left(cs.len(), sz));
    assert(y0 == text_top(cs.len(), sz));
    let ghost old_img = *img;
    let mut k: usize = 0;
    assert forall|x: int, y: int| !#[trigger] painted_before(cs, sz, (0, 0, 0, 0, 0), x, y) by {}
    assert(drawn_up_to(img, &old_img, cs, sz, (0, 0, 0, 0, 0)));
    while k < chars.len()
        invariant
            cs == chars@,
            cs == badge_chars(text@),
            1 <= cs.len(),
                overlay_arith_fits(cs.len(), sz),
            n == cs.len(),
            glyph_w == 3 * scale,
            spacing == scale,
            sz == size,
                        scale == glyph_scale(cs.len()),
            y0 == text_top(cs.len(), sz),
            k <= cs.len(),
            x0 == text_left(cs.len(), sz) + k * (4 * scale),
            overlay_fits(text@, sz, old_img.spec_width(), old_img.spec_height()),
            drawn_up_to(img, &old_img, cs, sz, (k as int, 0, 0, 0, 0)),
        decreases cs.len() - k,
    {
        let rows = glyph_rows_of(chars[k]);
        let mut ry: usize = 0;
        while ry < 5
            invariant
                cs == chars@,
                cs == badge_chars(text@),
                1 <= cs.len(),
                overlay_arith_fits(cs.len(), sz),
                sz == size,
                                scale == glyph_scale(cs.len()),
                y0 == text_top(cs.len(), sz),
                k < cs.len(),
                ry <= 5,
                rows@ == glyph_rows(cs[k as int]),
                x0 == text_left(cs.len(), sz) + k * (4 * scale),
                overlay_fits(text@, sz, old_img.spec_width(), old_img.spec_height()),
                drawn_up_to(img, &old_img, cs, sz, (k as int, ry as int, 0, 0, 0)),
            decreases 5 - ry,
        {
            let bits = rows[ry];
            let mut col: u32 = 0;
            while col < 3
                invariant
                    cs == chars@,
                    cs == badge_chars(text@),
                    1 <= cs.len(),
                overlay_arith_fits(cs.len(), sz),
                    sz == size,
                                        scale == glyph_scale(cs.len()),
                    y0 == text_top(cs.len(), sz),
                    k < cs.len(),
                    ry < 5,
                    col <= 3,
                    bits == glyph_rows(cs[k as int])[ry as int],
                    x0 == text_left(cs.len(), sz) + k * (4 * scale),
                    overlay_fits(text@, sz, old_img.spec_width(), old_img.spec_height()),
                    drawn_up_to(img, &old_img, cs, sz, (k as int, ry as int, col as int, 0, 0)),
                decreases 3 - col,
            {
                if (bits >> (2 - col)) & 1 == 1 {
                    assert(row_lights(bits, col));
                    let mut sy: i32 = 0;
                    while sy < scale
                        invariant
                            cs == chars@,
                            1 <= cs.len(),
                overlay_arith_fits(cs.len(), sz),
                            sz == size,
                                                        scale == glyph_scale(cs.len()),
                            y0 == text_top(cs.len(), sz),
                            k < cs.len(),
                            ry < 5,
                            col < 3,
                            0 <= sy <= scale,
                            row_lights(glyph_rows(cs[k as int])[ry as int], col),
                            x0 == text_left(cs.len(), sz) + k * (4 * scale),
                            overlay_fits(text@, sz, old_img.spec_width(), old_img.spec_height()),
                            cs == badge_chars(text@),
                            drawn_up_to(
                                img,
                                &old_img,
                                cs,
                                sz,
                                (k as int, ry as int, col as int, sy as int, 0),
                            ),
                        decreases scale - sy,
                    {
                        let mut sx: i32 = 0;
                        while sx < scale
                            invariant
                                cs == chars@,
                                1 <= cs.len(),
                overlay_arith_fits(cs.len(), sz),
                                sz == size,
                                                                scale == glyph_scale(cs.len()),
                                y0 == text_top(cs.len(), sz),
                                k < cs.len(),
                                ry < 5,
                                col < 3,
                                0 <= sy < scale,
                                0 <= sx <= scale,
                                row_lights(glyph_rows(cs[k as int])[ry as int], col),
                                x0 == text_left(cs.len(), sz) + k * (4 * scale),
                                overlay_fits(text@, sz, old_img.spec_width(), old_img.spec_height()),
                                cs == badge_chars(text@),
                                drawn_up_to(
                                    img,
                                    &old_img,
                                    cs,
                                    sz,
                                    (k as int, ry as int, col as int, sy as int, sx as int),
                                ),
                            decreases scale - sx,
                        {
                            let ghost cell: Cell = (k as int, ry as int, col as int, sy as int, sx as int);
                            let ghost next: Cell = (k as int, ry as int, col as int, sy as int, sx + 1);
                            proof {
                                lemma_cell_bounds(cs.len(), sz, k as int, x0 as int);
                            }
                            let px = x0 + (col as i32) * scale + sx;
                            let py = y0 + (ry as i32) * scale + sy;
                            assert(px == cell_x(cs, sz, cell));
                            assert(py == cell_y(cs, sz, cell));
                            if px >= 0 && py >= 0 && px < size && py < size {
                                assert(cell_painted(cs, sz, cell));
                                img.put_pixel(px as u32, py as u32, [255, 255, 255, 255]);
                                proof {
                                    assert forall|x: int, y: int|
                                        0 <= x < img.spec_width() && 0 <= y < img.spec_height()
                                            implies #[trigger] img.pixel(x, y) == if painted_before(
                                        cs,
                                        sz,
                                        next,
                                        x,
                                        y,
                                    ) {
                                        white()
                                    } else {
                                        old_img.pixel(x, y)
                                    } by {
                                        if x == px && y == py {
                                            assert(painted_before(cs, sz, next, x, y));
                                            assert(img.pixel(x, y) =~= white());
                                        } else {
                                            assert(painted_before(cs, sz, next, x, y)
                                                == painted_before(cs, sz, cell, x, y)) by {
                                                if painted_before(cs, sz, next, x, y) {
                                                    let c = choose|c: Cell|
                                                        #[trigger] cell_painted(cs, sz, c)
                                                            && cell_before(c, next) && cell_x(cs, sz, c)
                                                            == x && cell_y(cs, sz, c) == y;
                                                    assert(cell_before(c, cell));
                                                }
                                                if painted_before(cs, sz, cell, x, y) {
                                                    let c = choose|c: Cell|
                                                        #[trigger] cell_painted(cs, sz, c)
                                                            && cell_before(c, cell) && cell_x(cs, sz, c)
                                                            == x && cell_y(cs, sz, c) == y;
                                                    assert(cell_before(c, next));
                                                }
                                            }
                                        }
                                    }
                                }
                            } else {
                                assert(!cell_painted(cs, sz, cell));
                                proof {
                                    lemma_same_painted(cs, sz, cell, next);
                                }
                            }
                            sx = sx + 1;
                        }
                        proof {
                            lemma_same_painted(
                                cs,
                                sz,
                                (k as int, ry as int, col as int, sy as int, scale as int),
                                (k as int, ry as int, col as int, sy + 1, 0),
                            );
                        }
                        sy = sy + 1;
                    }
                    proof {
                        lemma_same_painted(
                            cs,
                            sz,
                            (k as int, ry as int, col as int, scale as int, 0),
                            (k as int, ry as int, col + 1, 0, 0),
                        );
                    }
                } else {
                    assert(!row_lights(bits, col));
                    proof {
                        lemma_same_painted(
                            cs,
                            sz,
                            (k as int, ry as int, col as int, 0, 0),
                            (k as int, ry as int, col + 1, 0, 0),
                        );
                    }
                }
                col = col + 1;
            }
            proof {
                lemma_same_painted(cs, sz, (k as int, ry as int, 3, 0, 0), (k as int, ry + 1, 0, 0, 0));
            }
            ry = ry + 1;
        }
        proof {
            lemma_same_painted(cs, sz, (k as int, 5, 0, 0, 0), (k + 1, 0, 0, 0, 0));
            assert((k + 1) * (4 * scale) == k * (4 * scale) + 4 * scale) by (nonlinear_arith);
            lemma_cell_bounds(cs.len(), sz, k as int, x0 as int);
        }
        assert(x0 + glyph_w + spacing <= i32::MAX);
        x0 = x0 + glyph_w + spacing;
        k = k + 1;
    }
    proof {
        assert forall|x: int, y: int|
            #[trigger] painted_before(cs, sz, (cs.len() as int, 0, 0, 0, 0), x, y) == overlay_lit(
                text@,
                sz,
                x,
                y,
            ) by {
            if overlay_lit(text@, sz, x, y) {
                let c = choose|c: Cell|
                    #[trigger] cell_painted(cs, sz, c) && cell_x(cs, sz, c) == x && cell_y(cs, sz, c) == y;
                assert(cell_before(c, (cs.len() as int, 0, 0, 0, 0)));
            }
        }
    }
}

proof fn lemma_badge_chars_only(s: Seq<char>)
    ensures
        forall|i: int| 0 <= i < badge_chars(s).len() ==> is_badge_char(#[trigger] badge_chars(s)[i]),
    decreases s.len(),
{
    if s.len() > 0 {
        lemma_badge_chars_only(s.drop_last());
        let r = badge_chars(s.drop_last());
        if is_badge_char(s.last()) {
            assert forall|i: int| 0 <= i < r.push(s.last()).len() implies is_badge_char(
                #[trigger] r.push(s.last())[i],
            ) by {
                if i < r.len() {
                    assert(r.push(s.last())[i] == r[i]);
                }
            }
        }
    }
}

proof fn lemma_badge_chars_keep(t: Seq<char>)
    requires
        forall|i: int| 0 <= i < t.len() ==> is_badge_char(#[trigger] t[i]),
    ensures
        badge_chars(t) == t,
    decreases t.len(),
{
    if t.len() > 0 {
        let init = t.drop_last();
        assert forall|i: int| 0 <= i < init.len() implies is_badge_char(#[trigger] init[i]) by {
            assert(init[i] == t[i]);
        }
        lemma_badge_chars_keep(init);
        assert(is_badge_char(t[t.len() - 1]));
        assert(init.push(t.last()) =~= t);
    }
}

/// Drawing a text is drawing its digits and `+` alone: filtering the text
/// first changes neither what is lit nor what must fit, and a text with no
/// digit and no `+` lights nothing, so the image stays as it was.
pub proof fn lemma_overlay_filter_first(text: Seq<char>, size: int)
    ensures
        badge_chars(badge_chars(text)) == badge_chars(text),
        forall|x: int, y: int|
            #[trigger] overlay_lit(badge_chars(text), size, x, y) == overlay_lit(text, size, x, y),
        forall|w: nat, h: nat|
            #[trigger] overlay_fits(badge_chars(text), size, w, h) == overlay_fits(text, size, w, h),
        badge_chars(text).len() == 0 ==> forall|x: int, y: int| !#[trigger] overlay_lit(text, size, x, y),
{
    lemma_badge_chars_only(text);
    lemma_badge_chars_keep(badge_chars(text));
    if badge_chars(text).len() == 0 {
        assert forall|x: int, y: int| !#[trigger] overlay_lit(text, size, x, y) by {
            let cs = badge_chars(text);
            if overlay_lit(text, size, x, y) {
                let c = choose|c: Cell|
                    #[trigger] cell_painted(cs, size, c) && cell_x(cs, size, c) == x && cell_y(cs, size, c) == y;
            }
        }
    }
}

/// The 3x5 badge font, row by row from the top, each row read as a number
/// whose bits from high to low are the columns from left to right:
/// `0` is a box, `1` a stem with a foot, `+` a cross, and so on.
pub proof fn lemma_badge_font()
    ensures
        glyph_rows('0') == seq![7u8, 5u8, 5u8, 5u8, 7u8],
        glyph_rows('1') == seq![2u8, 6u8, 2u8, 2u8, 7u8],
        glyph_rows('2') == seq![7u8, 1u8, 7u8, 4u8, 7u8],
        glyph_rows('3') == seq![7u8, 1u8, 7u8, 1u8, 7u8],
        glyph_rows('4') == seq![5u8, 5u8, 7u8, 1u8, 1u8],
        glyph_rows('5') == seq![7u8, 4u8, 7u8, 1u8, 7u8],
        glyph_rows('6') == seq![7u8, 4u8, 7u8, 5u8, 7u8],
        glyph_rows('7') == seq![7u8, 1u8, 2u8, 2u8, 2u8],
        glyph_rows('8') == seq![7u8, 5u8, 7u8, 5u8, 7u8],
        glyph_rows('9') == seq![7u8, 5u8, 7u8, 1u8, 7u8],
        glyph_rows('+') == seq![0u8, 2u8, 7u8, 2u8, 0u8],
{
}

/// A glyph row lights its left column for the value 4, its middle column
/// for 2 and its right column for 1.
pub proof fn lemma_row_lights_columns(r: u8)
    requires
        r < 8,
    ensures
        row_lights(r, 0) == (r >= 4),
        row_lights(r, 1) == (r % 4 >= 2),
        row_lights(r, 2) == (r % 2 == 1),
{
    assert(((r >> 2u32) & 1u8 == 1u8) == (r >= 4)) by (bit_vector)
        requires
            r < 8,
    ;
    assert(((r >> 1u32) & 1u8 == 1u8) == (r % 4 >= 2)) by (bit_vector)
        requires
            r < 8,
    ;
    assert(((r >> 0u32) & 1u8 == 1u8) == (r % 2 == 1)) by (bit_vector)
        requires
            r < 8,
    ;
}

/// A glyph read as one number, five rows of three bits.
pub open spec fn glyph_key(g: Seq<u8>) -> int {
    g[0] * 4096 + g[1] * 512 + g[2] * 64 + g[3] * 8 + g[4]
}

/// No two characters the badge draws share a glyph, so no count is drawn
/// as another.
pub proof fn lemma_badge_glyphs_distinct(c1: char, c2: char)
    requires
        is_badge_char(c1),
        is_badge_char(c2),
        c1 != c2,
    ensures
        glyph_rows(c1) != glyph_rows(c2),
{
    lemma_badge_font();
    assert(glyph_key(glyph_rows(c1)) != glyph_key(glyph_rows(c2)));
}

/// The layout of the badge text: one character is drawn in cells of 5
/// pixels, more in cells of 3; glyphs are 3 cells wide and 5 tall, one cell
/// apart; the text is centred in the square (to within the pixel lost to
/// rounding toward zero).
pub proof fn lemma_overlay_layout(chars: Seq<char>, size: int, k: int, r: int)
    requires
        chars.len() >= 1,
    ensures
        chars.len() == 1 ==> glyph_scale(chars.len()) == 5,
        chars.len() >= 2 ==> glyph_scale(chars.len()) == 3,
        ({
            let s = glyph_scale(chars.len());
            let w = chars.len() * 3 * s + (chars.len() - 1) * s;
            &&& -1 <= 2 * text_left(chars.len(), size) + w - size <= 1
            &&& -1 <= 2 * text_top(chars.len(), size) + 5 * s - size <= 1
            &&& cell_x(chars, size, (k + 1, r, 0, 0, 0)) - cell_x(chars, size, (k, r, 2, 0, s - 1)) == s + 1
            &&& cell_y(chars, size, (k, r + 1, 0, 0, 0)) - cell_y(chars, size, (k, r, 0, s - 1, 0)) == 1
        }),
{
    let n = chars.len();
    let s = glyph_scale(n);
    assert(n * (3 * s) == n * 3 * s) by (nonlinear_arith);
    assert((k + 1) * (4 * s) == k * (4 * s) + 4 * s) by (nonlinear_arith);
    assert((r + 1) * s == r * s + s) by (nonlinear_arith);
}

/// In BGRA order each complete pixel keeps its green and alpha bytes and
/// trades red and blue; bytes after the last complete pixel stay.
pub proof fn lemma_bgra_pixels(p: Seq<u8>, i: int)
    ensures
        swapped_red_blue(p).len() == p.len(),
        0 <= i && 4 * i + 3 < p.len() ==> {
            let q = swapped_red_blue(p);
            q[4 * i] == p[4 * i + 2] && q[4 * i + 1] == p[4 * i + 1] && q[4 * i + 2] == p[4 * i]
                && q[4 * i + 3] == p[4 * i + 3]
        },
        0 <= i < p.len() && i >= p.len() - p.len() % 4 ==> swapped_red_blue(p)[i] == p[i],
{
    if 0 <= i && 4 * i + 3 < p.len() {
        assert(4 * i + 3 < p.len() - p.len() % 4);
        assert((4 * i) % 4 == 0 && (4 * i + 1) % 4 == 1 && (4 * i + 2) % 4 == 2 && (4 * i + 3) % 4 == 3);
    }
}

/// Each row of the icon mask takes whole 16-bit words, as few as hold one
/// bit per pixel.
pub proof fn lemma_icon_mask_rows(w: nat, h: nat)
    requires
        h >= 1,
    ensures
        ({
            let row = icon_mask_bytes(w, h) / h;
            &&& icon_mask_bytes(w, h) == row * h
            &&& row % 2 == 0
            &&& 8 * row >= w
            &&& 8 * row < w + 16
        }),
{
    let row = (w + 15) / 16 * 2;
    assert(icon_mask_bytes(w, h) == row * h);
    assert(row * h / h == row) by (nonlinear_arith)
        requires
            h >= 1,
    ;
}

/// The digits always fit an image as large as the square they are centred
/// in: cells outside the square are not drawn.
pub proof fn lemma_overlay_fits_square(text: Seq<char>, size: int)
    requires
        size >= 0,
    ensures
        overlay_fits(text, size, size as nat, size as nat),
{
}

proof fn lemma_cell_bounds(n: nat, size: int, k: int, x0: int)
    requires
        1 <= n,
        0 <= k < n,
        i32::MIN <= size <= i32::MAX,
        overlay_arith_fits(n, size),
        x0 == text_left(n, size) + k * (4 * glyph_scale(n)),
    ensures
        i32::MIN / 2 - 1 <= text_left(n, size) <= i32::MAX / 2 + 1,
        i32::MIN / 2 - 1 <= x0,
        x0 + 4 * glyph_scale(n) <= i32::MAX,
        i32::MIN / 2 - 1 <= text_top(n, size) <= i32::MAX / 2 + 1,
{
    let s = glyph_scale(n);
    assert(0 <= k * (4 * s) && k * (4 * s) + 4 * s <= n * (4 * s)) by (nonlinear_arith)
        requires
            0 <= k < n,
            s == 3 || s == 5,
    ;
    assert(text_width(n) >= 0) by (nonlinear_arith)
        requires
            n >= 1,
            s == 3 || s == 5,
            text_width(n) == n * (3 * s) + (n - 1) * s,
    ;
}

} // verus!
