//! Geometry of the composed grid: how many tiles a side holds, how large the
//! canvas is, where each tile lands, and the background colour.
use vstd::prelude::*;
use vstd::string::StringSliceAdditionalSpecFns;
use vstd::utf8::is_char_boundary;

verus! {

/// `m` is `x`'s square root rounded to the nearest integer: `m * m - m < x
/// <= m * m + m` (no tie can occur for an integer `x`), and 0 for `x == 0`.
pub open spec fn is_rounded_sqrt(x: int, m: int) -> bool {
    &&& m >= 0
    &&& x <= m * m + m
    &&& (m == 0 || m * m - m < x)
}

/// The number of tiles per side of the grid that holds `total` tiles: the
/// square root of `total as u32`, rounded to the nearest integer.
pub fn grid_side(total: usize) -> (side: u32)
    ensures
        is_rounded_sqrt(total as u32 as int, side as int),
{
    let x: u64 = (total as u32) as u64;
    let mut lo: u64 = 0;
    let mut hi: u64 = 65536;
    assert(65536 * 65536 + 65536 > u32::MAX) by (nonlinear_arith);
    while lo < hi
        invariant
            x <= u32::MAX,
            lo <= hi <= 65536,
            x <= hi * hi + hi,
            lo == 0 || lo * lo - lo < x,
        decreases hi - lo,
    {
        let mid = lo + (hi - lo) / 2;
        assert(mid * mid + mid <= 65536 * 65536 + 65536) by (nonlinear_arith)
            requires
                mid < 65536,
        ;
        if x <= mid * mid + mid {
            hi = mid;
        } else {
            assert((mid + 1) * (mid + 1) - (mid + 1) == mid * mid + mid) by (nonlinear_arith);
            lo = mid + 1;
        }
    }
    lo as u32
}

/// The rounded square root of a perfect square `g * g` is `g`: a grid of
/// `g * g` tiles has `g` tiles per side.
pub proof fn lemma_square_grid_side(g: int)
    requires
        g >= 0,
    ensures
        is_rounded_sqrt(g * g, g),
{
    assert(g * g <= g * g + g && (g == 0 || g * g - g < g * g)) by (nonlinear_arith)
        requires
            g >= 0,
    ;
}

/// The rounded square root is unique.
pub proof fn lemma_rounded_sqrt_unique(x: int, m1: int, m2: int)
    requires
        is_rounded_sqrt(x, m1),
        is_rounded_sqrt(x, m2),
    ensures
        m1 == m2,
{
    if m1 < m2 {
        assert(m1 * m1 + m1 <= m2 * m2 - m2) by (nonlinear_arith)
            requires
                0 <= m1 < m2,
        ;
    } else if m2 < m1 {
        assert(m2 * m2 + m2 <= m1 * m1 - m1) by (nonlinear_arith)
            requires
                0 <= m2 < m1,
        ;
    }
}

/// A grid of `g * g` tiles gets `g` tiles per side, so its canvas is
/// `g * tile_size` pixels wide and high.
pub proof fn lemma_square_total_gives_its_side(g: int, side: int)
    requires
        g >= 0,
        is_rounded_sqrt(g * g, side),
    ensures
        side == g,
{
    lemma_square_grid_side(g);
    lemma_rounded_sqrt_unique(g * g, g, side);
}

/// Width (and height) of the canvas: `side` tiles of `tile_size` pixels.
pub fn canvas_extent(side: u32, tile_size: u32) -> (extent: u32)
    requires
        tile_size * side <= u32::MAX,
    ensures
        extent == tile_size * side,
{
    tile_size * side
}

/// Top-left corner, in pixels, of tile `i` in a grid `cols` tiles wide:
/// tiles fill the grid row by row, the index taken as `i as u32`.
pub fn tile_origin(i: usize, cols: u32, tile_size: u32) -> (origin: (i64, i64))
    requires
        cols > 0,
        ((i as u32) % cols) * tile_size <= i64::MAX,
        ((i as u32) / cols) * tile_size <= i64::MAX,
    ensures
        origin.0 == ((i as u32) % cols) * tile_size,
        origin.1 == ((i as u32) / cols) * tile_size,
{
    let k = i as u32;
    let col = (k % cols) as i64;
    let row = (k / cols) as i64;
    assert(col * tile_size >= 0) by (nonlinear_arith)
        requires
            0 <= col,
    ;
    assert(row * tile_size >= 0) by (nonlinear_arith)
        requires
            0 <= row,
    ;
    (col * (tile_size as i64), row * (tile_size as i64))
}

/// Offset that centres a length `inner` within a length `outer`.
pub fn centered_offset(outer: u32, inner: u32) -> (offset: i64)
    requires
        inner <= outer,
    ensures
        offset == (outer - inner) / 2,
{
    ((outer - inner) / 2) as i64
}

/// The byte `#`.
pub const HASH: u8 = 35;

/// The byte `+`.
pub const PLUS: u8 = 43;

/// Value of a hexadecimal digit in either case.
pub open spec fn hex_value(b: u8) -> Option<int> {
    if 48 <= b <= 57 {
        Some(b - 48)
    } else if 97 <= b <= 102 {
        Some(b - 87)
    } else if 65 <= b <= 70 {
        Some(b - 55)
    } else {
        None
    }
}

/// A colour channel written as two bytes, read as base-16 `u8` text; text
/// that is not such a number gives 0. A leading `+` is accepted before a
/// single digit.
pub open spec fn channel_value(hi: u8, lo: u8) -> u8 {
    if hi == PLUS {
        match hex_value(lo) {
            Some(v) => v as u8,
            None => 0,
        }
    } else {
        match (hex_value(hi), hex_value(lo)) {
            (Some(h), Some(l)) => (16 * h + l) as u8,
            _ => 0,
        }
    }
}

/// `bytes` is a `#rrggbb` header: at least 7 bytes, the first of them `#`.
pub open spec fn has_color_header(bytes: Seq<u8>) -> bool {
    bytes.len() >= 7 && bytes[0] == HASH
}

/// The background colour of a `#rrggbb` text, opaque; anything else, or the
/// bytes after the seventh, do not count, and text without the header gives
/// opaque black.
pub open spec fn background_of(bytes: Seq<u8>) -> Seq<u8> {
    if has_color_header(bytes) {
        seq![
            channel_value(bytes[1], bytes[2]),
            channel_value(bytes[3], bytes[4]),
            channel_value(bytes[5], bytes[6]),
            255u8,
        ]
    } else {
        seq![0u8, 0u8, 0u8, 255u8]
    }
}

fn hex_digit(b: u8) -> (r: Option<u8>)
    ensures
        match hex_value(b) {
            Some(v) => r == Some(v as u8),
            None => r is None,
        },
{
    if 48 <= b && b <= 57 {
        Some(b - 48)
    } else if 97 <= b && b <= 102 {
        Some(b - 87)
    } else if 65 <= b && b <= 70 {
        Some(b - 55)
    } else {
        None
    }
}

/// Reads one colour channel from its two bytes.
pub fn parse_channel(hi: u8, lo: u8) -> (v: u8)
    ensures
        v == channel_value(hi, lo),
{
    if hi == PLUS {
        match hex_digit(lo) {
            Some(v) => v,
            None => 0,
        }
    } else {
        match (hex_digit(hi), hex_digit(lo)) {
            (Some(h), Some(l)) => 16 * h + l,
            _ => 0,
        }
    }
}

/// The background colour, as RGBA, of the text `background`. The three
/// channels are read from bytes 1-2, 3-4 and 5-6 of a text that starts with
/// `#` and has at least 7 bytes. Those byte ranges must not split a
/// character.
pub fn parse_background(background: &str) -> (rgba: [u8; 4])
    requires
        has_color_header(background.spec_bytes()) ==> {
            &&& is_char_boundary(background.spec_bytes(), 3)
            &&& is_char_boundary(background.spec_bytes(), 5)
            &&& is_char_boundary(background.spec_bytes(), 7)
        },
    ensures
        rgba@ == background_of(background.spec_bytes()),
{
    let b = background.as_bytes();
    if b.len() >= 7 && b[0] == HASH {
        let r = parse_channel(b[1], b[2]);
        let g = parse_channel(b[3], b[4]);
        let bl = parse_channel(b[5], b[6]);
        let rgba = [r, g, bl, 255u8];
        assert(rgba@ =~= background_of(background.spec_bytes()));
        rgba
    } else {
        let rgba = [0u8, 0u8, 0u8, 255u8];
        assert(rgba@ =~= background_of(background.spec_bytes()));
        rgba
    }
}

/// The byte of the hexadecimal digit that writes `v` (0 to 15): one of
/// `0123456789abcdef`, or of `0123456789ABCDEF` when `upper`.
pub open spec fn hex_digit_of(v: int, upper: bool) -> u8 {
    if upper {
        "0123456789ABCDEF"@[v] as u8
    } else {
        "0123456789abcdef"@[v] as u8
    }
}

/// A hexadecimal digit, in either case, reads as the value it writes.
proof fn lemma_hex_digit_reads_back(v: int, upper: bool)
    requires
        0 <= v < 16,
    ensures
        hex_value(hex_digit_of(v, upper)) == Some(v),
{
    reveal_strlit("0123456789ABCDEF");
    reveal_strlit("0123456789abcdef");
    if v == 0 {
    } else if v == 1 {
    } else if v == 2 {
    } else if v == 3 {
    } else if v == 4 {
    } else if v == 5 {
    } else if v == 6 {
    } else if v == 7 {
    } else if v == 8 {
    } else if v == 9 {
    } else if v == 10 {
    } else if v == 11 {
    } else if v == 12 {
    } else if v == 13 {
    } else if v == 14 {
    } else {
    }
}

/// Two hexadecimal digits, each in either case, read as the channel
/// `16 * high + low`.
pub proof fn lemma_channel_reads_hex_pair(hi: int, lo: int, hi_upper: bool, lo_upper: bool)
    requires
        0 <= hi < 16,
        0 <= lo < 16,
    ensures
        channel_value(hex_digit_of(hi, hi_upper), hex_digit_of(lo, lo_upper)) == 16 * hi + lo,
{
    lemma_hex_digit_reads_back(hi, hi_upper);
    lemma_hex_digit_reads_back(lo, lo_upper);
}

/// A `#rrggbb` text whose six bytes after `#` are hexadecimal digits (each
/// in either case) of the values `v[0]`, ..., `v[5]` gives the opaque colour
/// with channels `16 * v[0] + v[1]`, `16 * v[2] + v[3]` and `16 * v[4] + v[5]`.
pub proof fn lemma_background_reads_hex(bytes: Seq<u8>, v: Seq<int>, upper: Seq<bool>)
    requires
        bytes.len() >= 7,
        bytes[0] == HASH,
        v.len() == 6,
        upper.len() == 6,
        forall|k: int| 0 <= k < 6 ==> 0 <= #[trigger] v[k] < 16,
        forall|k: int| 0 <= k < 6 ==> bytes[k + 1] == hex_digit_of(#[trigger] v[k], upper[k]),
    ensures
        background_of(bytes) == seq![
            (16 * v[0] + v[1]) as u8,
            (16 * v[2] + v[3]) as u8,
            (16 * v[4] + v[5]) as u8,
            255u8,
        ],
{
    assert(0 <= v[0] < 16 && 0 <= v[1] < 16 && 0 <= v[2] < 16);
    assert(0 <= v[3] < 16 && 0 <= v[4] < 16 && 0 <= v[5] < 16);
    assert(bytes[1] == hex_digit_of(v[0], upper[0]) && bytes[2] == hex_digit_of(v[1], upper[1]));
    assert(bytes[3] == hex_digit_of(v[2], upper[2]) && bytes[4] == hex_digit_of(v[3], upper[3]));
    assert(bytes[5] == hex_digit_of(v[4], upper[4]) && bytes[6] == hex_digit_of(v[5], upper[5]));
    lemma_channel_reads_hex_pair(v[0], v[1], upper[0], upper[1]);
    lemma_channel_reads_hex_pair(v[2], v[3], upper[2], upper[3]);
    lemma_channel_reads_hex_pair(v[4], v[5], upper[4], upper[5]);
}

} // verus!
