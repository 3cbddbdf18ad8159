//! Rotating a flat buffer along one axis of its logical shape: what leaves a
//! chunk at one edge comes back in at the other.

use vstd::prelude::*;
use vstd::arithmetic::div_mod::lemma_fundamental_div_mod;
use vstd::arithmetic::div_mod::lemma_fundamental_div_mod_converse;
use vstd::arithmetic::div_mod::lemma_small_mod;
use vstd::arithmetic::div_mod::lemma_sub_mod_noop;
use vstd::arithmetic::div_mod::lemma_mod_twice;
use vstd::arithmetic::div_mod::lemma_mod_bound;
use crate::scroll::{
    chunk_count, chunk_len, has_empty_dimension, lemma_layout, slice_len, span, steps,
    valid_axis, volume,
};

verus! {

/// The buffer after its content moved by `d` slices along `axis`, every
/// chunk turning in itself. Elements behind the volume of `shape` stay.
pub open spec fn rotated<T>(buf: Seq<T>, shape: Seq<u32>, axis: int, d: int) -> Seq<T> {
    let chunk = chunk_len(shape, axis) as int;
    let off = d * slice_len(shape, axis);
    Seq::new(
        buf.len(),
        |k: int|
            if k >= volume(shape) {
                buf[k]
            } else {
                buf[k - k % chunk + (k % chunk - off) % chunk]
            },
    )
}

/// Where in its chunk the element comes from that a rotation by `d` slices
/// of `g` elements puts at place `p`, for `d` reduced to `e` in `0..n`.
proof fn lemma_rotation_source(p: int, d: int, g: int, n: int, e: int)
    requires
        n >= 1,
        g >= 1,
        0 <= p < n * g,
        e == d % n,
    ensures
        0 <= e * g < n * g,
        (p - d * g) % (n * g) == if p < e * g {
            p - e * g + n * g
        } else {
            p - e * g
        },
{
    lemma_fundamental_div_mod(d, n);
    lemma_mod_bound(d, n);
    let q = d / n;
    let m = n * g;
    assert(0 <= e * g < n * g) by (nonlinear_arith)
        requires
            0 <= e < n,
            g >= 1,
    ;
    assert(d * g == q * m + e * g) by (nonlinear_arith)
        requires
            d == n * q + e,
            m == n * g,
    ;
    if p < e * g {
        assert(p - d * g == (-q - 1) * m + (p - e * g + m)) by (nonlinear_arith)
            requires
                d * g == q * m + e * g,
        ;
        lemma_fundamental_div_mod_converse(p - d * g, m, -q - 1, p - e * g + m);
    } else {
        assert(p - d * g == (-q) * m + (p - e * g)) by (nonlinear_arith)
            requires
                d * g == q * m + e * g,
        ;
        lemma_fundamental_div_mod_converse(p - d * g, m, -q, p - e * g);
    }
}

/// The number of slices in `0..n` that a move by `d` slices comes to on an
/// axis of `n` slices.
fn reduce(d: i32, n: u32) -> (e: usize)
    requires
        n >= 1,
    ensures
        e == (d as int) % (n as int),
        e < n,
{
    let a: usize = steps(d);
    let q: usize = a % (n as usize);
    proof {
        lemma_fundamental_div_mod(a as int, n as int);
        lemma_mod_bound(d as int, n as int);
    }
    if d >= 0 || q == 0 {
        proof {
            if d < 0 {
                let t = (a as int) / (n as int);
                assert((d as int) == (-t) * n + 0) by (nonlinear_arith)
                    requires
                        a == n * t + q,
                        q == 0,
                        d == -a,
                ;
                lemma_fundamental_div_mod_converse(d as int, n as int, -t, 0);
            }
        }
        q
    } else {
        proof {
            let t = (a as int) / (n as int);
            assert((d as int) == (-t - 1) * n + (n - q)) by (nonlinear_arith)
                requires
                    a == n * t + q,
                    d == -a,
            ;
            lemma_fundamental_div_mod_converse(d as int, n as int, -t - 1, n - q);
        }
        (n as usize) - q
    }
}

/// Turns `buf[start..start + len]` by `off` elements toward higher indices:
/// the last `off` elements are saved in `edge`, the others move up, and the
/// saved ones are written to the front.
fn rotate_chunk<T: Copy>(buf: &mut [T], start: usize, len: usize, off: usize, edge: &mut Vec<T>)
    requires
        start + len <= old(buf).len(),
        off <= len,
    ensures
        final(buf)@.len() == old(buf)@.len(),
        forall|k: int|
            0 <= k < old(buf)@.len() ==> #[trigger] final(buf)@[k] == if start <= k < start + len {
                if k - start < off {
                    old(buf)@[k - off + len]
                } else {
                    old(buf)@[k - off]
                }
            } else {
                old(buf)@[k]
            },
{
    let end: usize = start + len;
    edge.clear();
    let mut s: usize = end - off;
    while s < end
        invariant
            end - off <= s <= end,
            off <= len,
            end == start + len,
            end <= buf@.len(),
            buf@ == old(buf)@,
            edge@.len() == s - (end - off),
            forall|j: int| 0 <= j < edge@.len() ==> edge@[j] == old(buf)@[end - off + j],
        decreases end - s,
    {
        let v: T = buf[s];
        edge.push(v);
        s += 1;
    }
    let mut i: usize = end;
    while i > start + off
        invariant
            start + off <= i <= end,
            end == start + len,
            end <= buf@.len(),
            buf@.len() == old(buf)@.len(),
            forall|k: int|
                0 <= k < buf@.len() ==> #[trigger] buf@[k] == if i <= k < end {
                    old(buf)@[k - off]
                } else {
                    old(buf)@[k]
                },
        decreases i,
    {
        i -= 1;
        let v: T = buf[i - off];
        buf[i] = v;
    }
    let mut j: usize = 0;
    while j < off
        invariant
            j <= off <= len,
            end == start + len,
            end <= buf@.len(),
            buf@.len() == old(buf)@.len(),
            edge@.len() == off,
            forall|t: int| 0 <= t < off ==> edge@[t] == old(buf)@[end - off + t],
            forall|k: int|
                0 <= k < buf@.len() ==> #[trigger] buf@[k] == if start + off <= k < end {
                    old(buf)@[k - off]
                } else if start <= k < start + j {
                    old(buf)@[k - off + len]
                } else {
                    old(buf)@[k]
                },
        decreases off - j,
    {
        let v: T = edge[j];
        buf[start + j] = v;
        j += 1;
    }
}

/// Rotates `buf` by `d` slices along `axis` of its logical `shape`.
///
/// A positive `d` moves the content toward higher indices, a negative `d`
/// toward lower ones; the slices that leave a chunk at one edge enter it at
/// the other, so nothing is lost and nothing is filled in.
pub fn shift<T: Copy>(buf: &mut [T], shape: Vec<u32>, axis: usize, d: i32)
    requires
        valid_axis(shape@, axis as int),
        volume(shape@) <= old(buf)@.len(),
    ensures
        final(buf)@ == rotated(old(buf)@, shape@, axis as int, d as int),
{
    let total: usize = buf.len();
    if has_empty_dimension(&shape) {
        assert(buf@ =~= rotated(old(buf)@, shape@, axis as int, d as int));
        return ;
    }
    let count: usize = span(&shape, 0, axis - 1);
    let slice: usize = span(&shape, axis, shape.len());
    let chunk: usize = span(&shape, axis - 1, shape.len());
    let e: usize = reduce(d, shape[axis - 1]);
    proof {
        lemma_layout(shape@, axis as int);
        assert(e * slice <= shape@[axis - 1] * slice) by (nonlinear_arith)
            requires
                e <= shape@[axis - 1],
        ;
    }
    let off: usize = e * slice;
    let mut edge: Vec<T> = Vec::new();
    let mut c: usize = 0;
    while c < count
        invariant
            c <= count,
            off <= chunk,
            chunk >= 1,
            slice >= 1,
            shape@[axis - 1] >= 1,
            count * chunk == volume(shape@),
            volume(shape@) <= buf@.len(),
            buf@.len() == old(buf)@.len(),
            buf@.len() == total,
            chunk == chunk_len(shape@, axis as int),
            slice == slice_len(shape@, axis as int),
            chunk == shape@[axis - 1] * slice,
            e == (d as int) % (shape@[axis - 1] as int),
            off == e * slice,
            forall|k: int|
                0 <= k < buf@.len() ==> #[trigger] buf@[k] == if k < c * chunk {
                    rotated(old(buf)@, shape@, axis as int, d as int)[k]
                } else {
                    old(buf)@[k]
                },
        decreases count - c,
    {
        proof {
            assert(0 <= c * chunk && c * chunk + chunk <= count * chunk) by (nonlinear_arith)
                requires
                    0 <= c < count,
                    chunk >= 0,
            ;
        }
        let start: usize = c * chunk;
        rotate_chunk(buf, start, chunk, off, &mut edge);
        proof {
            assert((c + 1) * chunk == start + chunk) by (nonlinear_arith)
                requires
                    start == c * chunk,
            ;
            assert forall|k: int| 0 <= k < buf@.len() implies #[trigger] buf@[k] == if k < (c + 1)
                * chunk {
                rotated(old(buf)@, shape@, axis as int, d as int)[k]
            } else {
                old(buf)@[k]
            } by {
                if start <= k < start + chunk {
                    lemma_fundamental_div_mod_converse(k, chunk as int, c as int, k - start);
                    lemma_rotation_source(
                        k - start,
                        d as int,
                        slice as int,
                        shape@[axis - 1] as int,
                        e as int,
                    );
                }
            }
        }
        c += 1;
    }
    assert(buf@ =~= rotated(old(buf)@, shape@, axis as int, d as int));
}

/// A rotation by `d` slices followed by a rotation by `-d` slices along the
/// same axis gives back the buffer, element for element.
pub proof fn lemma_shift_round_trip<T>(buf: Seq<T>, shape: Seq<u32>, axis: int, d: int)
    requires
        valid_axis(shape, axis),
        volume(shape) <= buf.len(),
    ensures
        rotated(rotated(buf, shape, axis, d), shape, axis, -d) == buf,
{
    lemma_layout(shape, axis);
    let ch = chunk_len(shape, axis) as int;
    let count = chunk_count(shape, axis) as int;
    let g = slice_len(shape, axis) as int;
    let off = d * g;
    let there = rotated(buf, shape, axis, d);
    let back = rotated(there, shape, axis, -d);
    assert((-d) * g == -off) by (nonlinear_arith)
        requires
            off == d * g,
    ;
    assert forall|k: int| 0 <= k < buf.len() implies back[k] == buf[k] by {
        if k < volume(shape) {
            assert(ch > 0) by (nonlinear_arith)
                requires
                    count * ch > 0,
                    count >= 0,
                    ch >= 0,
            ;
            let p = k % ch;
            let q = k / ch;
            lemma_fundamental_div_mod(k, ch);
            lemma_mod_bound(k, ch);
            let p2 = (p + off) % ch;
            lemma_mod_bound(p + off, ch);
            assert(0 <= q < count) by (nonlinear_arith)
                requires
                    k == ch * q + p,
                    0 <= p < ch,
                    0 <= k < count * ch,
            ;
            assert(0 <= q * ch && q * ch + ch <= count * ch) by (nonlinear_arith)
                requires
                    0 <= q < count,
                    ch > 0,
            ;
            let k2 = k - p + p2;
            assert(k2 == q * ch + p2) by (nonlinear_arith)
                requires
                    k == ch * q + p,
                    k2 == k - p + p2,
            ;
            lemma_fundamental_div_mod_converse(k2, ch, q, p2);
            assert(back[k] == there[k - p + (p - (-off)) % ch]);
            assert(back[k] == there[k2]);
            assert(there[k2] == buf[k2 - p2 + (p2 - off) % ch]);
            lemma_sub_mod_noop(p + off, off, ch);
            lemma_mod_twice(p + off, ch);
            lemma_sub_mod_noop(p2, off, ch);
            lemma_small_mod(p as nat, ch as nat);
            assert((p2 - off) % ch == p);
        }
    }
    assert(back =~= buf);
}

} // verus!
