//! The colour table that turns a signal level into a pixel.

use vstd::prelude::*;
use crate::dsp::UNITS_PER_DB;

verus! {

/// The mix of the channel values `a` and `b` at `r` parts of `m` on the way
/// from `a` to `b`, rounded toward zero.
pub open spec fn blend(a: int, b: int, r: int, m: int) -> int {
    (a * (m - r) + b * r) / m
}

/// Channel `ch` of entry `i` of a table of `map_size` entries laid over the
/// anchor colours: the anchors stand `map_size / (colors.len() - 1)` entries
/// apart, beginning at entry 0, and an entry between two of them is their
/// mix in proportion to its distance from both.
pub open spec fn interpolated(colors: Seq<[u8; 3]>, map_size: int, i: int, ch: int) -> int {
    let pos = i * (colors.len() - 1);
    let lo = pos / map_size;
    let r = pos % map_size;
    let hi = if r == 0 {
        lo
    } else {
        lo + 1
    };
    blend(colors[lo][ch] as int, colors[hi][ch] as int, r, map_size)
}

/// The anchors that entry `i` lies between, and how far it is from the first.
proof fn lemma_anchor_bounds(n: int, m: int, i: int)
    requires
        n >= 1,
        0 <= i < m,
    ensures
        0 <= (i * (n - 1)) / m,
        0 <= (i * (n - 1)) % m < m,
        (i * (n - 1)) / m <= n - 1,
        (i * (n - 1)) % m != 0 ==> (i * (n - 1)) / m + 1 <= n - 1,
{
    let pos = i * (n - 1);
    assert(0 <= pos <= (m - 1) * (n - 1)) by (nonlinear_arith)
        requires
            pos == i * (n - 1),
            n >= 1,
            0 <= i < m,
    ;
    vstd::arithmetic::div_mod::lemma_fundamental_div_mod(pos, m);
    vstd::arithmetic::div_mod::lemma_mod_bound(pos, m);
    let q = pos / m;
    let r = pos % m;
    assert(q >= 0 && q <= n - 1 && (r != 0 ==> q + 1 <= n - 1)) by (nonlinear_arith)
        requires
            pos == m * q + r,
            0 <= r < m,
            0 <= pos <= (m - 1) * (n - 1),
            n >= 1,
    ;
}

/// A mix of two channel values is a channel value.
proof fn lemma_blend_bounds(a: int, b: int, r: int, m: int)
    requires
        0 <= a <= 255,
        0 <= b <= 255,
        0 <= r < m,
    ensures
        0 <= a * (m - r) + b * r <= 255 * m,
        0 <= blend(a, b, r, m) <= 255,
{
    let s = a * (m - r) + b * r;
    assert(0 <= s <= 255 * m) by (nonlinear_arith)
        requires
            s == a * (m - r) + b * r,
            0 <= a <= 255,
            0 <= b <= 255,
            0 <= r < m,
    ;
    vstd::arithmetic::div_mod::lemma_fundamental_div_mod(s, m);
    vstd::arithmetic::div_mod::lemma_mod_bound(s, m);
    let q = s / m;
    assert(0 <= q <= 255) by (nonlinear_arith)
        requires
            s == m * q + s % m,
            0 <= s % m < m,
            0 <= s <= 255 * m,
    ;
}

/// One channel of the mix of `start` and `end` at `r` parts of `m`.
fn mix(start: u8, end: u8, r: u128, m: u128) -> (v: u8)
    requires
        r < m <= usize::MAX,
    ensures
        v == blend(start as int, end as int, r as int, m as int),
{
    proof {
        lemma_blend_bounds(start as int, end as int, r as int, m as int);
        assert((start as int) * (m - r) <= 255 * m) by (nonlinear_arith)
            requires
                0 <= start <= 255,
                0 <= r < m,
        ;
        assert(0 <= (end as int) * r <= 255 * m) by (nonlinear_arith)
            requires
                0 <= end <= 255,
                0 <= r < m,
        ;
    }
    let s: u128 = (start as u128) * (m - r) + (end as u128) * r;
    (s / m) as u8
}

/// Builds a colour table of `map_size` entries by interpolating between the
/// anchor colours in their order.
pub fn interpolate_color_map(colors: Vec<[u8; 3]>, map_size: usize) -> (map: Vec<[u8; 3]>)
    requires
        colors@.len() >= 1,
    ensures
        map@.len() == map_size,
        forall|i: int, ch: int|
            0 <= i < map_size && 0 <= ch < 3 ==> #[trigger] map@[i][ch] == interpolated(
                colors@,
                map_size as int,
                i,
                ch,
            ),
{
    let mut map: Vec<[u8; 3]> = Vec::new();
    let count: usize = colors.len();
    let last: u128 = (count - 1) as u128;
    let m: u128 = map_size as u128;
    let mut i: usize = 0;
    while i < map_size
        invariant
            i <= map_size,
            colors@.len() >= 1,
            count == colors@.len(),
            last == count - 1,
            m == map_size,
            map@.len() == i,
            forall|k: int, ch: int|
                0 <= k < i && 0 <= ch < 3 ==> #[trigger] map@[k][ch] == interpolated(
                    colors@,
                    map_size as int,
                    k,
                    ch,
                ),
        decreases map_size - i,
    {
        proof {
            lemma_anchor_bounds(colors@.len() as int, map_size as int, i as int);
            assert(0 <= (i as int) * (last as int) <= usize::MAX * usize::MAX) by (nonlinear_arith)
                requires
                    0 <= i <= usize::MAX,
                    0 <= last <= usize::MAX,
            ;
        }
        let pos: u128 = (i as u128) * last;
        assert(pos as int == (i as int) * (colors@.len() - 1));
        let lo: usize = (pos / m) as usize;
        let r: u128 = pos % m;
        let hi: usize = if r == 0 {
            lo
        } else {
            lo + 1
        };
        let start: [u8; 3] = colors[lo];
        let end: [u8; 3] = colors[hi];
        let entry: [u8; 3] = [
            mix(start[0], end[0], r, m),
            mix(start[1], end[1], r, m),
            mix(start[2], end[2], r, m),
        ];
        map.push(entry);
        i += 1;
    }
    map
}

/// The entry of a table of `size` colours that stands for `level`: the
/// level negated, in whole decibels, held inside the table.
pub open spec fn color_index(level: int, size: int) -> int {
    if level >= 0 {
        0
    } else if (-level) / (UNITS_PER_DB as int) >= size {
        size - 1
    } else {
        (-level) / (UNITS_PER_DB as int)
    }
}

/// The colour that stands for `level` in the table `map`.
pub fn color_for(map: &Vec<[u8; 3]>, level: i32) -> (rgb: [u8; 3])
    requires
        map@.len() >= 1,
    ensures
        rgb == map@[color_index(level as int, map@.len() as int)],
{
    if level >= 0 {
        return map[0];
    }
    let depth: u64 = (-(level as i64)) as u64;
    let whole: u64 = depth / (UNITS_PER_DB as u64);
    if whole >= map.len() as u64 {
        map[map.len() - 1]
    } else {
        map[whole as usize]
    }
}

} // verus!
