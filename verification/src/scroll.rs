//! Rolling a flat buffer along one axis of its logical shape: the content
//! moves, what leaves a chunk is lost, and zeros come in.
//!
//! A buffer of `volume(shape)` elements is read as a row-major array with the
//! dimensions `shape`. An axis is named by its position counted from one:
//! axis `a` runs over `shape[a - 1]` slices of `slice_len(shape, a)` elements
//! each, and the buffer holds `chunk_count(shape, a)` independent chunks of
//! `chunk_len(shape, a)` elements.

use vstd::prelude::*;
use vstd::arithmetic::div_mod::lemma_fundamental_div_mod_converse;
use vstd::arithmetic::mul::lemma_mul_is_associative;

verus! {

/// Number of elements spanned by the dimensions `shape[from..to]`.
pub open spec fn extent(shape: Seq<u32>, from: int, to: int) -> nat
    decreases to - from,
{
    if from >= to {
        1
    } else {
        extent(shape, from, to - 1) * (shape[to - 1] as nat)
    }
}

/// Number of elements of a buffer with the given shape.
pub open spec fn volume(shape: Seq<u32>) -> nat {
    extent(shape, 0, shape.len() as int)
}

/// Number of elements in one slice along `axis`.
pub open spec fn slice_len(shape: Seq<u32>, axis: int) -> nat {
    extent(shape, axis, shape.len() as int)
}

/// Number of elements in one chunk: all the slices along `axis`.
pub open spec fn chunk_len(shape: Seq<u32>, axis: int) -> nat {
    extent(shape, axis - 1, shape.len() as int)
}

/// Number of chunks that are moved independently of each other.
pub open spec fn chunk_count(shape: Seq<u32>, axis: int) -> nat {
    extent(shape, 0, axis - 1)
}

/// Whether `axis` names a dimension of `shape`.
pub open spec fn valid_axis(shape: Seq<u32>, axis: int) -> bool {
    1 <= axis <= shape.len()
}

/// The absolute value of `d`.
pub open spec fn magnitude(d: int) -> int {
    if d >= 0 {
        d
    } else {
        -d
    }
}

/// The buffer after its content moved by `d` slices along `axis`, zeros
/// taking the place of what moved in from outside a chunk. Elements behind
/// the volume of `shape` stay.
pub open spec fn rolled(buf: Seq<u8>, shape: Seq<u32>, axis: int, d: int) -> Seq<u8> {
    let chunk = chunk_len(shape, axis) as int;
    let off = magnitude(d) * slice_len(shape, axis);
    Seq::new(
        buf.len(),
        |k: int|
            if k >= volume(shape) {
                buf[k]
            } else if d >= 0 {
                if k % chunk < off {
                    0u8
                } else {
                    buf[k - off]
                }
            } else {
                if k % chunk >= chunk - off {
                    0u8
                } else {
                    buf[k + off]
                }
            },
    )
}

/// An extent splits at any point between its ends.
pub proof fn lemma_extent_split(shape: Seq<u32>, from: int, mid: int, to: int)
    requires
        from <= mid <= to,
    ensures
        extent(shape, from, to) == extent(shape, from, mid) * extent(shape, mid, to),
    decreases to - mid,
{
    if mid < to {
        lemma_extent_split(shape, from, mid, to - 1);
        let a = extent(shape, from, mid) as int;
        let b = extent(shape, mid, to - 1) as int;
        let c = shape[to - 1] as int;
        assert(extent(shape, from, to) == extent(shape, from, to - 1) * (c as nat));
        assert(extent(shape, mid, to) == extent(shape, mid, to - 1) * (c as nat));
        lemma_mul_is_associative(a, b, c);
    } else {
        assert(extent(shape, mid, to) == 1);
    }
}

/// An extent of one dimension is that dimension.
pub proof fn lemma_extent_single(shape: Seq<u32>, at: int)
    ensures
        extent(shape, at, at + 1) == shape[at] as nat,
{
    assert(extent(shape, at, at) == 1);
    assert(extent(shape, at, at + 1) == extent(shape, at, at) * (shape[at] as nat));
}

/// Where no dimension is zero, a part of the shape spans no more elements
/// than the whole.
pub proof fn lemma_extent_monotonic(shape: Seq<u32>, from: int, to: int)
    requires
        0 <= from <= to <= shape.len(),
        forall|i: int| 0 <= i < shape.len() ==> shape[i] >= 1,
    ensures
        1 <= extent(shape, from, to) <= volume(shape),
{
    lemma_extent_positive(shape, 0, from);
    lemma_extent_positive(shape, from, to);
    lemma_extent_positive(shape, to, shape.len() as int);
    lemma_extent_split(shape, 0, from, shape.len() as int);
    lemma_extent_split(shape, from, to, shape.len() as int);
    let a = extent(shape, 0, from) as int;
    let b = extent(shape, from, to) as int;
    let c = extent(shape, to, shape.len() as int) as int;
    assert(b <= a * (b * c)) by (nonlinear_arith)
        requires
            a >= 1,
            b >= 1,
            c >= 1,
    ;
}

/// Where no dimension in it is zero, an extent is at least one.
pub proof fn lemma_extent_positive(shape: Seq<u32>, from: int, to: int)
    requires
        0 <= from,
        to <= shape.len(),
        forall|i: int| 0 <= i < shape.len() ==> shape[i] >= 1,
    ensures
        extent(shape, from, to) >= 1,
    decreases to - from,
{
    if from < to {
        lemma_extent_positive(shape, from, to - 1);
        let a = extent(shape, from, to - 1) as int;
        let b = shape[to - 1] as int;
        assert(a * b >= 1) by (nonlinear_arith)
            requires
                a >= 1,
                b >= 1,
        ;
    }
}

/// A shape with a zero dimension holds no element.
pub proof fn lemma_extent_zero(shape: Seq<u32>, at: int)
    requires
        0 <= at < shape.len(),
        shape[at] == 0,
    ensures
        volume(shape) == 0,
{
    lemma_extent_split(shape, 0, at, shape.len() as int);
    lemma_extent_split(shape, at, at + 1, shape.len() as int);
    lemma_extent_single(shape, at);
    let a = extent(shape, 0, at) as int;
    let c = extent(shape, at + 1, shape.len() as int) as int;
    assert(a * (0 * c) == 0) by (nonlinear_arith);
}

/// Whether some dimension of `shape` is zero.
pub(crate) fn has_empty_dimension(shape: &Vec<u32>) -> (empty: bool)
    ensures
        empty ==> volume(shape@) == 0,
        !empty ==> forall|i: int| 0 <= i < shape@.len() ==> shape@[i] >= 1,
{
    let mut i: usize = 0;
    while i < shape.len()
        invariant
            i <= shape@.len(),
            forall|j: int| 0 <= j < i ==> shape@[j] >= 1,
        decreases shape@.len() - i,
    {
        if shape[i] == 0 {
            proof {
                lemma_extent_zero(shape@, i as int);
            }
            return true;
        }
        i += 1;
    }
    false
}

/// Number of elements spanned by `shape[from..to]` where no dimension is zero
/// and the whole shape fits a buffer.
pub(crate) fn span(shape: &Vec<u32>, from: usize, to: usize) -> (n: usize)
    requires
        from <= to <= shape@.len(),
        forall|i: int| 0 <= i < shape@.len() ==> shape@[i] >= 1,
        volume(shape@) <= usize::MAX,
    ensures
        n == extent(shape@, from as int, to as int),
        1 <= n <= volume(shape@),
{
    let mut n: usize = 1;
    let mut i: usize = from;
    proof {
        lemma_extent_monotonic(shape@, from as int, from as int);
    }
    while i < to
        invariant
            from <= i <= to <= shape@.len(),
            forall|j: int| 0 <= j < shape@.len() ==> shape@[j] >= 1,
            volume(shape@) <= usize::MAX,
            n == extent(shape@, from as int, i as int),
            1 <= n <= volume(shape@),
        decreases to - i,
    {
        proof {
            lemma_extent_monotonic(shape@, from as int, i + 1);
            assert(extent(shape@, from as int, i + 1) == extent(shape@, from as int, i as int) * (
            shape@[i as int] as nat));
        }
        n = n * (shape[i] as usize);
        i += 1;
    }
    n
}

/// Moves the content of `buf[start..start + len]` by `off` elements, toward
/// higher indices where `up` holds and toward lower ones where it does not,
/// and fills the vacated elements with zero.
fn roll_chunk(buf: &mut [u8], start: usize, len: usize, off: usize, up: bool)
    requires
        start + len <= old(buf).len(),
        off <= len,
    ensures
        final(buf)@.len() == old(buf)@.len(),
        forall|k: int|
            0 <= k < old(buf)@.len() ==> #[trigger] final(buf)@[k] == if start <= k < start + len {
                if up {
                    if k - start < off {
                        0u8
                    } else {
                        old(buf)@[k - off]
                    }
                } else {
                    if k - start >= len - off {
                        0u8
                    } else {
                        old(buf)@[k + off]
                    }
                }
            } else {
                old(buf)@[k]
            },
{
    let end: usize = start + len;
    if up {
        let mut i: usize = end;
        while i > start + off
            invariant
                start + off <= i <= end,
                end == start + len,
                end <= buf@.len(),
                buf@.len() == old(buf)@.len(),
                forall|k: int|
                    0 <= k < buf@.len() ==> #[trigger] buf@[k] == if i <= k < end {
                        old(buf)@[k - off]
                    } else {
                        old(buf)@[k]
                    },
            decreases i,
        {
            i -= 1;
            let v: u8 = buf[i - off];
            buf[i] = v;
        }
        let mut j: usize = start;
        while j < start + off
            invariant
                start <= j <= start + off,
                start + off <= end,
                end == start + len,
                end <= buf@.len(),
                buf@.len() == old(buf)@.len(),
                forall|k: int|
                    0 <= k < buf@.len() ==> #[trigger] buf@[k] == if start + off <= k < end {
                        old(buf)@[k - off]
                    } else if start <= k < j {
                        0u8
                    } else {
                        old(buf)@[k]
                    },
            decreases start + off - j,
        {
            buf[j] = 0;
            j += 1;
        }
    } else {
        let mut i: usize = start;
        while i < end - off
            invariant
                start <= i <= end - off,
                off <= len,
                end == start + len,
                end <= buf@.len(),
                buf@.len() == old(buf)@.len(),
                forall|k: int|
                    0 <= k < buf@.len() ==> #[trigger] buf@[k] == if start <= k < i {
                        old(buf)@[k + off]
                    } else {
                        old(buf)@[k]
                    },
            decreases end - off - i,
        {
            let v: u8 = buf[i + off];
            buf[i] = v;
            i += 1;
        }
        let mut j: usize = end - off;
        while j < end
            invariant
                end - off <= j <= end,
                off <= len,
                end == start + len,
                end <= buf@.len(),
                buf@.len() == old(buf)@.len(),
                forall|k: int|
                    0 <= k < buf@.len() ==> #[trigger] buf@[k] == if start <= k < end - off {
                        old(buf)@[k + off]
                    } else if end - off <= k < j {
                        0u8
                    } else {
                        old(buf)@[k]
                    },
            decreases end - j,
        {
            buf[j] = 0;
            j += 1;
        }
    }
}

/// The number of slices that `d` moves the content by, whatever its direction.
pub(crate) fn steps(d: i32) -> (n: usize)
    ensures
        n == magnitude(d as int),
{
    if d >= 0 {
        d as usize
    } else {
        let wide: i64 = -(d as i64);
        wide as usize
    }
}

/// Rolls `buf` by `d` slices along `axis` of its logical `shape`, and fills
/// the vacated slices with zero.
///
/// A positive `d` moves the content toward higher indices and vacates the
/// first `d` slices of every chunk; a negative `d` moves it toward lower
/// indices and vacates the last. Nothing is allocated, and each element is
/// written once.
pub fn roll(buf: &mut [u8], shape: Vec<u32>, axis: usize, d: i32)
    requires
        valid_axis(shape@, axis as int),
        volume(shape@) <= old(buf)@.len(),
        magnitude(d as int) <= shape@[axis - 1],
    ensures
        final(buf)@ == rolled(old(buf)@, shape@, axis as int, d as int),
{
    let total: usize = buf.len();
    if has_empty_dimension(&shape) {
        assert(buf@ =~= rolled(old(buf)@, shape@, axis as int, d as int));
        return ;
    }
    let count: usize = span(&shape, 0, axis - 1);
    let slice: usize = span(&shape, axis, shape.len());
    let chunk: usize = span(&shape, axis - 1, shape.len());
    let n: usize = steps(d);
    proof {
        lemma_extent_split(shape@, 0, axis - 1, shape@.len() as int);
        lemma_extent_split(shape@, axis - 1, axis as int, shape@.len() as int);
        lemma_extent_single(shape@, axis - 1);
        assert(chunk == shape@[axis - 1] * slice);
        assert(n * slice <= shape@[axis - 1] * slice) by (nonlinear_arith)
            requires
                n <= shape@[axis - 1],
        ;
    }
    let off: usize = n * slice;
    let up: bool = d >= 0;
    let mut c: usize = 0;
    while c < count
        invariant
            c <= count,
            off <= chunk,
            chunk >= 1,
            count * chunk == volume(shape@),
            volume(shape@) <= buf@.len(),
            buf@.len() == old(buf)@.len(),
            buf@.len() == total,
            chunk == chunk_len(shape@, axis as int),
            off == magnitude(d as int) * slice_len(shape@, axis as int),
            up == (d >= 0),
            forall|k: int|
                0 <= k < buf@.len() ==> #[trigger] buf@[k] == if k < c * chunk {
                    rolled(old(buf)@, shape@, axis as int, d as int)[k]
                } else {
                    old(buf)@[k]
                },
        decreases count - c,
    {
        proof {
            assert(0 <= c * chunk && c * chunk + chunk <= count * chunk) by (nonlinear_arith)
                requires
                    0 <= c < count,
                    chunk >= 0,
            ;
        }
        let start: usize = c * chunk;
        roll_chunk(buf, start, chunk, off, up);
        proof {
            assert((c + 1) * chunk == start + chunk) by (nonlinear_arith)
                requires
                    start == c * chunk,
            ;
            assert forall|k: int| 0 <= k < buf@.len() implies #[trigger] buf@[k] == if k < (c + 1)
                * chunk {
                rolled(old(buf)@, shape@, axis as int, d as int)[k]
            } else {
                old(buf)@[k]
            } by {
                if start <= k < start + chunk {
                    lemma_fundamental_div_mod_converse(k, chunk as int, c as int, k - start);
                }
            }
        }
        c += 1;
    }
    assert(buf@ =~= rolled(old(buf)@, shape@, axis as int, d as int));
}

/// Position in the flat buffer of element `r` of slice `j` of chunk `c`.
pub open spec fn element_index(shape: Seq<u32>, axis: int, c: int, j: int, r: int) -> int {
    c * chunk_len(shape, axis) + j * slice_len(shape, axis) + r
}

/// A chunk is as long as its slices together, and the chunks fill the volume.
pub proof fn lemma_layout(shape: Seq<u32>, axis: int)
    requires
        valid_axis(shape, axis),
    ensures
        chunk_len(shape, axis) == shape[axis - 1] * slice_len(shape, axis),
        volume(shape) == chunk_count(shape, axis) * chunk_len(shape, axis),
{
    lemma_extent_split(shape, 0, axis - 1, shape.len() as int);
    lemma_extent_split(shape, axis - 1, axis, shape.len() as int);
    lemma_extent_single(shape, axis - 1);
}

/// Every slice of every chunk lies inside the volume, at the place in its
/// chunk that its number gives.
pub proof fn lemma_element_index(shape: Seq<u32>, axis: int, c: int, j: int, r: int)
    requires
        valid_axis(shape, axis),
        0 <= c < chunk_count(shape, axis),
        0 <= j < shape[axis - 1],
        0 <= r < slice_len(shape, axis),
    ensures
        0 <= element_index(shape, axis, c, j, r) < volume(shape),
        chunk_len(shape, axis) > 0,
        element_index(shape, axis, c, j, r) % (chunk_len(shape, axis) as int) == j * slice_len(
            shape,
            axis,
        ) + r,
        element_index(shape, axis, c, j, r) / (chunk_len(shape, axis) as int) == c,
{
    lemma_layout(shape, axis);
    let g = slice_len(shape, axis) as int;
    let n = shape[axis - 1] as int;
    let ch = chunk_len(shape, axis) as int;
    let count = chunk_count(shape, axis) as int;
    let p = j * g + r;
    assert(0 <= p < n * g) by (nonlinear_arith)
        requires
            p == j * g + r,
            0 <= j < n,
            0 <= r < g,
    ;
    assert(0 <= c * ch && c * ch + ch <= count * ch) by (nonlinear_arith)
        requires
            0 <= c < count,
            ch >= 0,
    ;
    lemma_fundamental_div_mod_converse(c * ch + p, ch, c, p);
}

/// After a roll by `d` slices along `axis`, slice `j` of every chunk holds
/// what slice `j - d` of that chunk held before, and holds zero where the
/// chunk has no slice `j - d`: the vacated slices are exactly zero and the
/// others are the old content moved by `d` slices.
pub proof fn lemma_roll_moves_slices(
    buf: Seq<u8>,
    shape: Seq<u32>,
    axis: int,
    d: int,
    c: int,
    j: int,
    r: int,
)
    requires
        valid_axis(shape, axis),
        volume(shape) <= buf.len(),
        magnitude(d) <= shape[axis - 1],
        0 <= c < chunk_count(shape, axis),
        0 <= j < shape[axis - 1],
        0 <= r < slice_len(shape, axis),
    ensures
        rolled(buf, shape, axis, d)[element_index(shape, axis, c, j, r)] == if 0 <= j - d
            < shape[axis - 1] {
            buf[element_index(shape, axis, c, j - d, r)]
        } else {
            0u8
        },
{
    lemma_layout(shape, axis);
    lemma_element_index(shape, axis, c, j, r);
    let g = slice_len(shape, axis) as int;
    let n = shape[axis - 1] as int;
    let ch = chunk_len(shape, axis) as int;
    let k = element_index(shape, axis, c, j, r);
    let p = j * g + r;
    let off = magnitude(d) * g;
    assert((j - d) * g == j * g - d * g) by (nonlinear_arith);
    assert((-d) * g == -(d * g)) by (nonlinear_arith);
    assert(k % ch == p);
    assert(0 <= k < buf.len());
    let src = element_index(shape, axis, c, j - d, r);
    assert(src == if d >= 0 {
        k - off
    } else {
        k + off
    });
    let out = rolled(buf, shape, axis, d);
    assert(out[k] == if d >= 0 {
        if k % ch < off {
            0u8
        } else {
            buf[k - off]
        }
    } else {
        if k % ch >= ch - off {
            0u8
        } else {
            buf[k + off]
        }
    });
    if d >= 0 {
        if j < d {
            assert(p < off) by (nonlinear_arith)
                requires
                    p == j * g + r,
                    off == d * g,
                    0 <= r < g,
                    0 <= j < d,
            ;
        } else {
            assert(p >= off) by (nonlinear_arith)
                requires
                    p == j * g + r,
                    off == d * g,
                    0 <= r < g,
                    j >= d,
            ;
        }
    } else {
        if j - d >= n {
            assert(p >= ch - off) by (nonlinear_arith)
                requires
                    p == j * g + r,
                    off == (-d) * g,
                    ch == n * g,
                    0 <= r < g,
                    j - d >= n,
            ;
        } else {
            assert(p < ch - off) by (nonlinear_arith)
                requires
                    p == j * g + r,
                    off == (-d) * g,
                    ch == n * g,
                    0 <= r < g,
                    j - d < n,
            ;
        }
    }
}

/// A roll changes nothing behind the volume of the shape, nor the length
/// of the buffer.
pub proof fn lemma_roll_keeps_rest(buf: Seq<u8>, shape: Seq<u32>, axis: int, d: int, k: int)
    requires
        volume(shape) <= k < buf.len(),
    ensures
        rolled(buf, shape, axis, d).len() == buf.len(),
        rolled(buf, shape, axis, d)[k] == buf[k],
{
}

/// A roll by no slice changes nothing.
pub proof fn lemma_roll_by_nothing(buf: Seq<u8>, shape: Seq<u32>, axis: int)
    requires
        valid_axis(shape, axis),
    ensures
        rolled(buf, shape, axis, 0) == buf,
{
    lemma_layout(shape, axis);
    let chunk = chunk_len(shape, axis) as int;
    let count = chunk_count(shape, axis) as int;
    assert(magnitude(0) * slice_len(shape, axis) == 0) by (nonlinear_arith)
        requires
            magnitude(0) == 0,
    ;
    assert forall|k: int| 0 <= k < buf.len() implies rolled(buf, shape, axis, 0)[k] == buf[k] by {
        if k < volume(shape) {
            assert(chunk > 0) by (nonlinear_arith)
                requires
                    count * chunk > 0,
                    count >= 0,
                    chunk >= 0,
            ;
            vstd::arithmetic::div_mod::lemma_mod_bound(k, chunk);
        }
    }
    assert(rolled(buf, shape, axis, 0) =~= buf);
}

} // verus!
