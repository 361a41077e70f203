use vstd::prelude::*;

verus! {

/// Why a font atlas could not be decoded.
#[derive(Debug, Clone, Copy, PartialEq, Eq, Structural)]
pub enum FormatError {
    /// The first content line is not the `P4` token.
    BadMagic,
    /// The size line is missing, or is not two decimal numbers split by one space.
    BadDimensions,
    /// The image is empty, or its width is not a multiple of 32, or its height of 3.
    InvalidAtlasShape,
    /// The packed bitmap holds fewer bits than the image has pixels.
    TruncatedBitmap,
}

/// Columns and rows of glyph cells in the atlas.
pub const ATLAS_COLUMNS: usize = 32;
pub const ATLAS_ROWS: usize = 3;
/// Number of glyph slots: one per code point from `' '` to DEL.
pub const GLYPH_SLOTS: usize = 96;

/// First index at or after `p` where `b` holds `sep`, or `b.len()` if none does.
pub open spec fn find_from(b: Seq<u8>, sep: u8, p: int) -> int
    decreases b.len() - p,
{
    if p < 0 || p >= b.len() {
        b.len() as int
    } else if b[p] == sep {
        p
    } else {
        find_from(b, sep, p + 1)
    }
}

pub proof fn lemma_find_from_bounds(b: Seq<u8>, sep: u8, p: int)
    requires
        0 <= p <= b.len(),
    ensures
        p <= find_from(b, sep, p) <= b.len(),
        find_from(b, sep, p) < b.len() ==> b[find_from(b, sep, p)] == sep,
        forall|k: int| p <= k < find_from(b, sep, p) ==> b[k] != sep,
    decreases b.len() - p,
{
    if p < b.len() && b[p] != sep {
        lemma_find_from_bounds(b, sep, p + 1);
    }
}

#[via_fn]
proof fn content_line_decreases(b: Seq<u8>, p: int) {
    if 0 <= p < b.len() {
        lemma_find_from_bounds(b, 10u8, p);
    }
}

/// Start of the first line at or after the line start `p` that is not a
/// comment (a line whose first byte is `#`). The text after the last newline
/// counts as a line, even when empty.
pub open spec fn content_line(b: Seq<u8>, p: int) -> Option<int>
    decreases b.len() + 1 - p,
    via content_line_decreases
{
    if p < 0 || p > b.len() {
        None
    } else if p < b.len() && b[p] == 35u8 {
        content_line(b, find_from(b, 10u8, p) + 1)
    } else {
        Some(p)
    }
}

pub open spec fn is_digit(c: u8) -> bool {
    48u8 <= c <= 57u8
}

pub open spec fn all_digits(s: Seq<u8>) -> bool {
    forall|i: int| 0 <= i < s.len() ==> is_digit(#[trigger] s[i])
}

/// Value of a string of decimal digits, most significant first.
pub open spec fn decimal_value(s: Seq<u8>) -> nat
    decreases s.len(),
{
    if s.len() == 0 {
        0
    } else {
        decimal_value(s.drop_last()) * 10 + (s.last() - 48) as nat
    }
}

/// A non-empty string of decimal digits whose value fits a `usize`.
pub open spec fn parse_decimal(s: Seq<u8>) -> Option<nat> {
    if s.len() > 0 && all_digits(s) && decimal_value(s) <= usize::MAX {
        Some(decimal_value(s))
    } else {
        None
    }
}

/// The size line: two decimal numbers split by exactly one space.
pub open spec fn parse_dims(line: Seq<u8>) -> Option<(nat, nat)> {
    let k = find_from(line, 32u8, 0);
    if k >= line.len() {
        None
    } else {
        match (parse_decimal(line.subrange(0, k)), parse_decimal(line.subrange(k + 1, line.len() as int))) {
            (Some(w), Some(h)) => Some((w, h)),
            _ => None,
        }
    }
}

/// The header of a packed bitmap: the `P4` line, then the size line, comment
/// lines skipped before either. Gives width, height and the offset just past
/// the newline that ends the size line.
pub open spec fn pbm_header(b: Seq<u8>) -> Result<(nat, nat, int), FormatError> {
    match content_line(b, 0) {
        None => Err(FormatError::BadMagic),
        Some(m) => {
            let me = find_from(b, 10u8, m);
            if b.subrange(m, me) != seq![80u8, 52u8] {
                Err(FormatError::BadMagic)
            } else {
                match content_line(b, me + 1) {
                    None => Err(FormatError::BadDimensions),
                    Some(d) => {
                        let de = find_from(b, 10u8, d);
                        match parse_dims(b.subrange(d, de)) {
                            None => Err(FormatError::BadDimensions),
                            Some((w, h)) => Ok((w, h, de + 1)),
                        }
                    },
                }
            }
        },
    }
}

/// Where the packed bits begin: the header's offset, or the end of the input
/// when the size line has no newline after it.
pub open spec fn bitmap_start(b: Seq<u8>, off: int) -> int {
    if off <= b.len() {
        off
    } else {
        b.len() as int
    }
}

/// Pixel `k` of the bitmap that starts at `start`: one bit per pixel, most
/// significant bit first, a set bit giving 255 and a clear one 0.
pub open spec fn bitmap_pixel(b: Seq<u8>, start: int, k: int) -> u8 {
    if (b[start + k / 8] >> (7 - k % 8) as u8) & 1u8 == 1u8 {
        255u8
    } else {
        0u8
    }
}

/// What decoding an atlas gives: the header's width, height and offset, once
/// the shape and the bitmap's length are checked.
pub open spec fn atlas_layout(b: Seq<u8>) -> Result<(nat, nat, int), FormatError> {
    match pbm_header(b) {
        Err(e) => Err(e),
        Ok((w, h, off)) => if w == 0 || h == 0 || w % 32 != 0 || h % 3 != 0 {
            Err(FormatError::InvalidAtlasShape)
        } else if w * h > 8 * (b.len() - bitmap_start(b, off)) {
            Err(FormatError::TruncatedBitmap)
        } else {
            Ok((w, h, off))
        },
    }
}

/// Sample `i` (row-major) of the glyph in `slot` of an atlas `w` pixels wide
/// with cells of `gw` by `gh`: the image pixel at
/// `(col * gw + x, row * gh + y)` with `row = slot / 32`, `col = slot % 32`.
pub open spec fn glyph_pixel(b: Seq<u8>, start: int, w: int, gw: int, gh: int, slot: int, i: int) -> u8 {
    bitmap_pixel(b, start, cell_index(w, gw, gh, slot, i))
}

/// Index in the image, `w` pixels wide, of sample `i` of the cell in `slot`.
pub open spec fn cell_index(w: int, gw: int, gh: int, slot: int, i: int) -> int {
    let row = slot / 32;
    let col = slot % 32;
    let y = i / gw;
    let x = i % gw;
    (row * gh + y) * w + col * gw + x
}

/// Slot of a printable ASCII character.
pub open spec fn glyph_slot(ch: char) -> int {
    ch as int - 32
}

pub open spec fn has_glyph(ch: char) -> bool {
    ' ' <= ch <= '~'
}

/// A bitmap font: 96 glyphs of `width` by `height` samples each.
pub struct Font {
    pub width: usize,
    pub height: usize,
    pub glyphs: Vec<Vec<u8>>,
}

impl Font {
    pub open spec fn wf(&self) -> bool {
        &&& self.width > 0
        &&& self.height > 0
        &&& self.glyphs@.len() == GLYPH_SLOTS
        &&& forall|s: int| 0 <= s < GLYPH_SLOTS ==> (#[trigger] self.glyphs@[s])@.len() == self.width * self.height
    }

    /// Reads the header and unpacks the bitmap that follows it: width,
    /// height, and eight samples (0 or 255) for each byte after the header.
    pub fn parse_pbm(bytes: &[u8]) -> (r: Result<(usize, usize, Vec<u8>), FormatError>)
        ensures
            match (pbm_header(bytes@), r) {
                (Err(e), Err(f)) => e == f,
                (Ok((w, h, off)), Ok((rw, rh, px))) => {
                    &&& rw == w
                    &&& rh == h
                    &&& px@.len() == 8 * (bytes@.len() - bitmap_start(bytes@, off))
                    &&& forall|k: int| 0 <= k < px@.len() ==> #[trigger] px@[k] == bitmap_pixel(bytes@, bitmap_start(bytes@, off), k)
                },
                _ => false,
            },
    {
        let len = bytes.len();
        let m = match content_line_exec(bytes, 0) {
            Some(m) => m,
            None => return Err(FormatError::BadMagic),
        };
        let me = find_exec(bytes, 10u8, m);
        proof {
            lemma_find_from_bounds(bytes@, 10u8, m as int);
        }
        if !(me - m == 2 && bytes[m] == 80u8 && bytes[m + 1] == 52u8) {
            proof {
                let magic = seq![80u8, 52u8];
                assert(magic.len() == 2 && magic[0] == 80u8 && magic[1] == 52u8);
                if bytes@.subrange(m as int, me as int) == magic {
                    assert(bytes@.subrange(m as int, me as int)[0] == 80u8);
                    assert(bytes@.subrange(m as int, me as int)[1] == 52u8);
                }
            }
            return Err(FormatError::BadMagic);
        }
        assert(bytes@.subrange(m as int, me as int) =~= seq![80u8, 52u8]);
        if me >= len {
            return Err(FormatError::BadDimensions);
        }
        let d = match content_line_exec(bytes, me + 1) {
            Some(d) => d,
            None => return Err(FormatError::BadDimensions),
        };
        let de = find_exec(bytes, 10u8, d);
        proof {
            lemma_find_from_bounds(bytes@, 10u8, d as int);
        }
        let (w, h) = match parse_dims_exec(bytes, d, de) {
            Some(wh) => wh,
            None => return Err(FormatError::BadDimensions),
        };
        let start: usize = if de < len { de + 1 } else { len };
        let pixels = unpack_bits(bytes, start);
        Ok((w, h, pixels))
    }

    /// Decodes a font atlas: a packed bitmap 32 glyphs wide and 3 tall, the
    /// glyph of `' '` at the top left, then the others in ASCII order. Every
    /// row of a valid atlas starts on a byte boundary, since its width is a
    /// multiple of 32, so the bitmap needs no row padding.
    pub fn from_pbm(bytes: &[u8]) -> (r: Result<Font, FormatError>)
        ensures
            match (atlas_layout(bytes@), r) {
                (Err(e), Err(f)) => e == f,
                (Ok((w, h, off)), Ok(font)) => {
                    &&& font.wf()
                    &&& font.width == w / 32
                    &&& font.height == h / 3
                    &&& forall|s: int, i: int|
                        0 <= s < GLYPH_SLOTS && 0 <= i < font.width * font.height
                        ==> #[trigger] font.glyphs@[s]@[i] == glyph_pixel(
                            bytes@, bitmap_start(bytes@, off), w as int, font.width as int,
                            font.height as int, s, i)
                },
                _ => false,
            },
    {
        let (w, h, pixels) = match Self::parse_pbm(bytes) {
            Ok(t) => t,
            Err(e) => return Err(e),
        };
        if w == 0 || h == 0 || w % ATLAS_COLUMNS != 0 || h % ATLAS_ROWS != 0 {
            return Err(FormatError::InvalidAtlasShape);
        }
        assert((w as u128) * (h as u128) <= 0xffff_ffff_ffff_ffff_u128 * 0xffff_ffff_ffff_ffff_u128) by (nonlinear_arith)
            requires w <= 0xffff_ffff_ffff_ffff_u128, h <= 0xffff_ffff_ffff_ffff_u128;
        if (w as u128) * (h as u128) > pixels.len() as u128 {
            return Err(FormatError::TruncatedBitmap);
        }
        let gw = w / ATLAS_COLUMNS;
        let gh = h / ATLAS_ROWS;
        let mut glyphs: Vec<Vec<u8>> = Vec::new();
        let mut slot: usize = 0;
        while slot < GLYPH_SLOTS
            invariant
                slot <= GLYPH_SLOTS,
                w > 0 && h > 0 && w % 32 == 0 && h % 3 == 0,
                gw == w / 32 && gh == h / 3,
                w * h <= pixels@.len(),
                glyphs@.len() == slot,
                forall|s: int| 0 <= s < slot ==> (#[trigger] glyphs@[s])@.len() == gw * gh,
                forall|s: int, i: int| 0 <= s < slot && 0 <= i < gw * gh
                    ==> #[trigger] glyphs@[s]@[i] == pixels@[cell_index(w as int, gw as int, gh as int, s, i)],
            decreases GLYPH_SLOTS - slot,
        {
            let cell = cut_glyph(&pixels, w, h, slot);
            glyphs.push(cell);
            slot = slot + 1;
        }
        let font = Font { width: gw, height: gh, glyphs };
        assert forall|s: int, i: int|
            0 <= s < GLYPH_SLOTS && 0 <= i < gw * gh implies #[trigger] font.glyphs@[s]@[i] == glyph_pixel(
                bytes@, bitmap_start(bytes@, (pbm_header(bytes@)->Ok_0).2), w as int, gw as int, gh as int, s, i) by {
            lemma_cell_index_bound(w as int, h as int, s, i);
        }
        Ok(font)
    }

    /// The glyph of `ch`, for the printable ASCII characters `' '..='~'`.
    pub fn get_glyph(&self, ch: char) -> (r: Option<&Vec<u8>>)
        requires
            self.wf(),
        ensures
            r.is_some() == has_glyph(ch),
            r matches Some(g) ==> g@ == self.glyphs@[glyph_slot(ch)]@,
    {
        if ch < ' ' || ch > '~' {
            return None;
        }
        let c = ch as u32;
        assert(c >> 5u32 >= 1) by (bit_vector)
            requires 32u32 <= c;
        let row = (c >> 5u32) - 1;
        let col = c & 0x1fu32;
        assert(((c >> 5u32) - 1) * 32 + (c & 0x1fu32) == c - 32) by (bit_vector)
            requires 32u32 <= c < 128u32;
        let slot = (row * 32 + col) as usize;
        Some(&self.glyphs[slot])
    }
} // impl Font

/// Where sample `i` of the cell in `slot` lies in the image, and that it lies
/// inside it.
proof fn lemma_cell_index_bound(w: int, h: int, slot: int, i: int)
    requires
        w > 0 && h > 0 && w % 32 == 0 && h % 3 == 0,
        0 <= slot < 96,
        0 <= i < (w / 32) * (h / 3),
    ensures
        0 <= cell_index(w, w / 32, h / 3, slot, i) < w * h,
        0 <= slot / 32 * (h / 3) + i / (w / 32) < h,
        0 <= (slot / 32 * (h / 3) + i / (w / 32)) * w,
        0 <= slot % 32 * (w / 32) + i % (w / 32) < w,
        0 <= slot / 32 * (h / 3) && 0 <= slot % 32 * (w / 32),
{
    let gw = w / 32;
    let gh = h / 3;
    let row = slot / 32;
    let col = slot % 32;
    let y = i / gw;
    let x = i % gw;
    assert(w == 32 * gw && h == 3 * gh);
    assert(gw > 0 && gh > 0);
    assert(0 <= x < gw) by (nonlinear_arith) requires x == i % gw, gw > 0, i >= 0;
    assert(0 <= y < gh) by (nonlinear_arith) requires y == i / gw, gw > 0, 0 <= i < gw * gh;
    assert(0 <= row < 3 && 0 <= col < 32);
    assert(0 <= row * gh + y <= h - 1) by (nonlinear_arith)
        requires 0 <= row < 3, 0 <= y < gh, h == 3 * gh;
    assert(0 <= col * gw + x < w) by (nonlinear_arith)
        requires 0 <= col < 32, 0 <= x < gw, w == 32 * gw;
    assert((row * gh + y) * w + (col * gw + x) < w * h) by (nonlinear_arith)
        requires 0 <= row * gh + y <= h - 1, 0 <= col * gw + x < w, w > 0;
    assert(0 <= (row * gh + y) * w) by (nonlinear_arith) requires 0 <= row * gh + y, w > 0;
    assert(0 <= row * gh && 0 <= col * gw) by (nonlinear_arith) requires 0 <= row, 0 <= col, gh > 0, gw > 0;
}

/// The samples of the cell in `slot` of an atlas `w` by `h` pixels, row by row.
fn cut_glyph(pixels: &Vec<u8>, w: usize, h: usize, slot: usize) -> (r: Vec<u8>)
    requires
        w > 0 && h > 0 && w % 32 == 0 && h % 3 == 0,
        w * h <= pixels@.len(),
        slot < GLYPH_SLOTS,
    ensures
        r@.len() == (w / 32) * (h / 3),
        forall|i: int| 0 <= i < r@.len() ==> #[trigger] r@[i] == pixels@[cell_index(w as int, (w / 32) as int, (h / 3) as int, slot as int, i)],
{
    let gw = w / ATLAS_COLUMNS;
    let gh = h / ATLAS_ROWS;
    assert(gw * gh <= w * h) by (nonlinear_arith) requires gw == w / 32, gh == h / 3, w > 0, h > 0;
    let plen = pixels.len();
    let n = gw * gh;
    let row = slot / ATLAS_COLUMNS;
    let col = slot % ATLAS_COLUMNS;
    let mut cell: Vec<u8> = Vec::new();
    let mut i: usize = 0;
    while i < n
        invariant
            w > 0 && h > 0 && w % 32 == 0 && h % 3 == 0,
            w * h <= pixels@.len(),
            w * h <= usize::MAX,
            slot < GLYPH_SLOTS,
            gw == w / 32 && gh == h / 3 && n == gw * gh,
            row == slot / 32 && col == slot % 32,
            i <= n,
            cell@.len() == i,
            forall|k: int| 0 <= k < i ==> #[trigger] cell@[k] == pixels@[cell_index(w as int, (w / 32) as int, (h / 3) as int, slot as int, k)],
        decreases n - i,
    {
        proof {
            lemma_cell_index_bound(w as int, h as int, slot as int, i as int);
        }
        let y = i / gw;
        let x = i % gw;
        assert(row * gh + y < h && (row * gh + y) * w + col * gw + x < w * h);
        let index = (row * gh + y) * w + col * gw + x;
        cell.push(pixels[index]);
        i = i + 1;
    }
    cell
}

/// First index at or after `p` where `b` holds `sep`, or `b.len()`.
fn find_exec(b: &[u8], sep: u8, p: usize) -> (r: usize)
    requires
        p <= b@.len(),
    ensures
        r == find_from(b@, sep, p as int),
{
    let mut i = p;
    while i < b.len() && b[i] != sep
        invariant
            p <= i <= b@.len(),
            find_from(b@, sep, i as int) == find_from(b@, sep, p as int),
        decreases b@.len() - i,
    {
        i = i + 1;
    }
    i
}

/// Start of the first non-comment line at or after the line start `p`.
fn content_line_exec(b: &[u8], p: usize) -> (r: Option<usize>)
    requires
        p <= b@.len(),
    ensures
        match r {
            Some(k) => content_line(b@, p as int) == Some(k as int) && k <= b@.len(),
            None => content_line(b@, p as int).is_none(),
        },
{
    let mut i = p;
    while i < b.len() && b[i] == 35u8
        invariant
            p <= i <= b@.len(),
            content_line(b@, i as int) == content_line(b@, p as int),
        decreases b@.len() - i,
    {
        let e = find_exec(b, 10u8, i);
        proof {
            lemma_find_from_bounds(b@, 10u8, i as int);
        }
        if e >= b.len() {
            assert(content_line(b@, i as int) == content_line(b@, e + 1));
            return None;
        }
        i = e + 1;
    }
    Some(i)
}

proof fn lemma_decimal_prefix_le(s: Seq<u8>, j: int)
    requires
        0 <= j <= s.len(),
    ensures
        decimal_value(s.subrange(0, j)) <= decimal_value(s),
    decreases s.len(),
{
    if j < s.len() {
        lemma_decimal_prefix_le(s.drop_last(), j);
        assert(s.drop_last().subrange(0, j) =~= s.subrange(0, j));
    } else {
        assert(s.subrange(0, j) =~= s);
    }
}

/// Value of `b[from..to]` read as a decimal number.
fn parse_decimal_exec(b: &[u8], from: usize, to: usize) -> (r: Option<usize>)
    requires
        from <= to <= b@.len(),
    ensures
        match r {
            Some(v) => parse_decimal(b@.subrange(from as int, to as int)) == Some(v as nat),
            None => parse_decimal(b@.subrange(from as int, to as int)).is_none(),
        },
{
    let ghost s = b@.subrange(from as int, to as int);
    if from == to {
        return None;
    }
    let mut v: usize = 0;
    let mut i = from;
    while i < to
        invariant
            from <= i <= to <= b@.len(),
            s == b@.subrange(from as int, to as int),
            v as nat == decimal_value(s.subrange(0, i - from)),
            all_digits(s.subrange(0, i - from)),
        decreases to - i,
    {
        let c = b[i];
        assert(s[i - from] == c);
        if c < 48u8 || c > 57u8 {
            assert(!is_digit(s[i - from]));
            return None;
        }
        let ghost next = s.subrange(0, i - from + 1);
        assert(next.drop_last() =~= s.subrange(0, i - from));
        let nv: u128 = v as u128 * 10 + (c - 48u8) as u128;
        assert(nv == decimal_value(next));
        if nv > usize::MAX as u128 {
            proof {
                lemma_decimal_prefix_le(s, i - from + 1);
            }
            return None;
        }
        v = nv as usize;
        i = i + 1;
        assert(all_digits(s.subrange(0, i - from))) by {
            assert forall|k: int| 0 <= k < i - from implies is_digit(#[trigger] s.subrange(0, i - from)[k]) by {
                if k < i - from - 1 {
                    assert(s.subrange(0, i - from - 1)[k] == s.subrange(0, i - from)[k]);
                }
            }
        }
    }
    assert(s.subrange(0, to - from) =~= s);
    Some(v)
}

/// The size line `b[from..to]`: width and height.
fn parse_dims_exec(b: &[u8], from: usize, to: usize) -> (r: Option<(usize, usize)>)
    requires
        from <= to <= b@.len(),
    ensures
        match r {
            Some((w, h)) => parse_dims(b@.subrange(from as int, to as int)) == Some((w as nat, h as nat)),
            None => parse_dims(b@.subrange(from as int, to as int)).is_none(),
        },
{
    let ghost line = b@.subrange(from as int, to as int);
    let k = find_exec(b, 32u8, from);
    proof {
        lemma_find_from_bounds(b@, 32u8, from as int);
        lemma_find_in_window(b@, 32u8, from as int, to as int, from as int);
    }
    if k >= to {
        return None;
    }
    assert(line.subrange(0, k - from) =~= b@.subrange(from as int, k as int));
    assert(line.subrange(k - from + 1, line.len() as int) =~= b@.subrange(k + 1, to as int));
    let w = match parse_decimal_exec(b, from, k) {
        Some(w) => w,
        None => return None,
    };
    let h = match parse_decimal_exec(b, k + 1, to) {
        Some(h) => h,
        None => return None,
    };
    Some((w, h))
}

/// Searching a window `b[from..to]` from `p` finds what searching `b`
/// finds, measured from the window's start, or the window's end.
proof fn lemma_find_in_window(b: Seq<u8>, sep: u8, from: int, to: int, p: int)
    requires
        0 <= from <= p <= to <= b.len(),
    ensures
        ({
            let k = find_from(b, sep, p);
            let kw = find_from(b.subrange(from, to), sep, p - from);
            (k < to ==> kw == k - from) && (k >= to ==> kw == to - from)
        }),
    decreases to - p,
{
    lemma_find_from_bounds(b, sep, p);
    if p < to {
        assert(b.subrange(from, to)[p - from] == b[p]);
        if b[p] != sep {
            lemma_find_in_window(b, sep, from, to, p + 1);
        }
    }
}

/// Eight samples per byte of `b[start..]`, most significant bit first.
fn unpack_bits(b: &[u8], start: usize) -> (r: Vec<u8>)
    requires
        start <= b@.len(),
    ensures
        r@.len() == 8 * (b@.len() - start),
        forall|k: int| 0 <= k < r@.len() ==> #[trigger] r@[k] == bitmap_pixel(b@, start as int, k),
{
    let mut px: Vec<u8> = Vec::new();
    let mut j = start;
    while j < b.len()
        invariant
            start <= j <= b@.len(),
            px@.len() == 8 * (j - start),
            forall|k: int| 0 <= k < px@.len() ==> #[trigger] px@[k] == bitmap_pixel(b@, start as int, k),
        decreases b@.len() - j,
    {
        let byte = b[j];
        let mut bit: u8 = 0;
        while bit < 8
            invariant
                start <= j < b@.len(),
                byte == b@[j as int],
                bit <= 8,
                px@.len() == 8 * (j - start) + bit,
                forall|k: int| 0 <= k < px@.len() ==> #[trigger] px@[k] == bitmap_pixel(b@, start as int, k),
            decreases 8 - bit,
        {
            let ghost k = px@.len() as int;
            assert(k / 8 == j - start && k % 8 == bit as int);
            let sample: u8 = if (byte >> (7 - bit)) & 1u8 == 1u8 { 255 } else { 0 };
            px.push(sample);
            bit = bit + 1;
        }
        j = j + 1;
    }
    px
}

} // verus!
