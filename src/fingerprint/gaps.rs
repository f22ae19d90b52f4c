use crate::fingerprint::encoder::{
    exceptions_from, lemma_log2_half, log2_floor, normals_from, stream_exceptions, stream_normals,
    value_exceptions, value_normals,
};
use crate::fingerprint::unpack::all_below;
use vstd::prelude::*;

verus! {

/// The distance from the last set bit `l` to the next set bit of `y`, whose
/// low bit is bit number `b`.
pub open spec fn first_gap(y: u32, b: int, l: int) -> int
    decreases y,
{
    if y == 0 {
        0
    } else if y % 2 == 1 {
        b - l
    } else {
        first_gap(y / 2, b + 1, l)
    }
}

/// The first normal symbol of a nonzero value is its first gap, capped at 7; a
/// gap of 7 or more also starts the exceptions with its excess. The first gap
/// is the current distance exactly when the low bit is set.
pub proof fn lemma_first_symbol(y: u32, b: int, l: int)
    requires
        y != 0,
        0 <= l < b,
        b + log2_floor(y) <= 32,
    ensures
        normals_from(y, b, l).len() > 0,
        b - l <= first_gap(y, b, l) <= 32,
        normals_from(y, b, l)[0] == (if first_gap(y, b, l) >= 7 { 7u8 } else { first_gap(y, b, l) as u8 }),
        (first_gap(y, b, l) == b - l) == (y % 2 == 1),
        first_gap(y, b, l) >= 7 ==> exceptions_from(y, b, l).len() > 0 && exceptions_from(y, b, l)[0]
            == (first_gap(y, b, l) - 7) as u8,
    decreases y,
{
    lemma_log2_half(y);
    if y % 2 == 0 {
        assert(y / 2 != 0);
        lemma_first_symbol(y / 2, b + 1, l);
    } else {
        assert(b <= 32);
    }
}

/// Normal symbols lie between 1 and 7.
pub proof fn lemma_normals_range(y: u32, b: int, l: int)
    requires
        l < b,
    ensures
        forall|k: int| 0 <= k < normals_from(y, b, l).len() ==> 1 <= #[trigger] normals_from(y, b, l)[k] <= 7,
    decreases y,
{
    if y != 0 {
        if y % 2 == 1 {
            lemma_normals_range(y / 2, b + 1, b);
            let ns = normals_from(y, b, l);
            let rest = normals_from(y / 2, b + 1, b);
            assert forall|k: int| 0 <= k < ns.len() implies 1 <= #[trigger] ns[k] <= 7 by {
                if k > 0 {
                    assert(ns[k] == rest[k - 1]);
                } else {
                    let g = b - l;
                    assert(ns[0] == (if g >= 7 { 7u8 } else { g as u8 }));
                    assert(1 <= g);
                }
            }
        } else {
            lemma_normals_range(y / 2, b + 1, l);
            assert(normals_from(y, b, l) == normals_from(y / 2, b + 1, l));
        }
    }
}

/// Exception symbols stay below 32.
pub proof fn lemma_exceptions_range(y: u32, b: int, l: int)
    requires
        0 <= l < b,
        y != 0 ==> b + log2_floor(y) <= 32,
    ensures
        all_below(exceptions_from(y, b, l), 32),
    decreases y,
{
    if y != 0 {
        lemma_log2_half(y);
        if y % 2 == 1 {
            lemma_exceptions_range(y / 2, b + 1, b);
        } else {
            lemma_exceptions_range(y / 2, b + 1, l);
        }
    }
}

/// The normal stream of any values holds 3-bit symbols, the exception stream 5-bit ones.
pub proof fn lemma_streams_below(d: Seq<u32>)
    ensures
        all_below(stream_normals(d), 8),
        all_below(stream_exceptions(d), 32),
    decreases d.len(),
{
    if d.len() > 0 {
        lemma_streams_below(d.skip(1));
        lemma_normals_range(d[0], 1, 0);
        if d[0] != 0 {
            lemma_log2_half(d[0]);
        }
        lemma_exceptions_range(d[0], 1, 0);
        let a = value_normals(d[0]);
        assert(all_below(a, 8));
        assert(all_below(value_exceptions(d[0]), 32));
        assert(all_below(a + stream_normals(d.skip(1)), 8));
        assert(all_below(value_exceptions(d[0]) + stream_exceptions(d.skip(1)), 32));
    }
}

} // verus!
