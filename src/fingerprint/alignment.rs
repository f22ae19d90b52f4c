use crate::util::{hamming, hamming_distance};
use vstd::prelude::*;

verus! {

/// Number of high bits of a subfingerprint used as its alignment hash.
pub const ALIGN_BITS: u32 = 12;

/// Where the hash starts in an offset entry.
pub const HASH_SHIFT: u32 = 20;

/// The bits of an offset entry that hold the position.
pub const OFFSET_MASK: u32 = 0x7ffff;

/// The bit of an offset entry that marks the second fingerprint.
pub const SOURCE_MASK: u32 = 0x80000;

/// The bits of an offset entry that hold the hash.
pub const HASH_MASK: u32 = 0xfff0_0000;

/// The alignment hash of a subfingerprint: its top 12 bits.
pub open spec fn hash_of(v: u32) -> nat {
    (v / 0x10_0000) as nat
}

/// The sort key of position `i` of fingerprint `source` (0 or 1) whose value is `v`.
pub open spec fn entry(v: u32, i: nat, source: nat) -> u32 {
    (hash_of(v) * 0x10_0000 + source * 0x8_0000 + i) as u32
}

/// The entries of both fingerprints, before sorting.
pub open spec fn entries(fp1: Seq<u32>, fp2: Seq<u32>) -> Seq<u32> {
    Seq::new(fp1.len(), |i: int| entry(fp1[i], i as nat, 0))
        + Seq::new(fp2.len(), |j: int| entry(fp2[j], j as nat, 1))
}

pub open spec fn sorted(s: Seq<u32>) -> bool {
    forall|i: int, j: int| 0 <= i <= j < s.len() ==> s[i] <= s[j]
}

/// Bin `i` of `h` counts more than one match and is at least as high as each neighbour.
pub open spec fn is_peak(h: Seq<u32>, i: int) -> bool {
    &&& 0 <= i < h.len()
    &&& h[i] > 1
    &&& (i == 0 || h[i - 1] <= h[i])
    &&& (i == h.len() - 1 || h[i + 1] <= h[i])
}

/// Bin `i` is the highest peak of `h`, and the first of the highest.
pub open spec fn is_best_peak(h: Seq<u32>, i: int) -> bool {
    &&& is_peak(h, i)
    &&& forall|j: int| is_peak(h, j) ==> h[j] < h[i] || (h[j] == h[i] && i <= j)
}

/// Where the aligned parts start, and how long they are, for a histogram bin `diff`:
/// bin `diff` stands for position `p` of `fp1` against position `p + n2 - diff` of `fp2`.
pub open spec fn overlap_spec(n1: nat, n2: nat, diff: nat) -> (nat, nat, nat) {
    let off1: nat = if diff > n2 { (diff - n2) as nat } else { 0 };
    let off2: nat = if n2 > diff { (n2 - diff) as nat } else { 0 };
    let a = (n1 - off1) as nat;
    let b = (n2 - off2) as nat;
    (off1, off2, if a < b { a } else { b })
}

/// The top 12 bits of `v`.
pub fn align_strip(v: u32) -> (r: u32)
    ensures
        r == hash_of(v),
{
    let r = v >> 20u32;
    assert(v >> 20u32 == v / 0x10_0000) by (bit_vector);
    r
}

/// The entry of position `i` of fingerprint `source` whose value is `v`.
fn offset_entry(v: u32, i: usize, source: bool) -> (r: u32)
    requires
        i < OFFSET_MASK,
    ensures
        r == entry(v, i as nat, if source { 1 } else { 0 }),
{
    let h = align_strip(v);
    let ii = i as u32;
    assert(h < 0x1000) by (bit_vector)
        requires
            h == v / 0x10_0000,
    ;
    let r = if source {
        (h << 20u32) | ii | SOURCE_MASK
    } else {
        (h << 20u32) | ii
    };
    assert((h << 20u32) | ii | 0x80000u32 == h * 0x10_0000 + 0x8_0000 + ii) by (bit_vector)
        requires
            h < 0x1000,
            ii < 0x7ffff,
    ;
    assert((h << 20u32) | ii == h * 0x10_0000 + ii) by (bit_vector)
        requires
            h < 0x1000,
            ii < 0x7ffff,
    ;
    r
}

/// Relies on `slice::sort`: the items end up in ascending order, and are the same items.
#[verifier::external_body]
fn sort_entries(v: &mut Vec<u32>)
    ensures
        sorted(final(v)@),
        final(v)@.to_multiset() == old(v)@.to_multiset(),
{
    v.sort();
}

/// The entries of both fingerprints, sorted.
pub fn build_offsets(fp1: &[u32], fp2: &[u32]) -> (r: Vec<u32>)
    requires
        fp1@.len() < OFFSET_MASK,
        fp2@.len() < OFFSET_MASK,
    ensures
        sorted(r@),
        r@.to_multiset() == entries(fp1@, fp2@).to_multiset(),
{
    let mut offsets: Vec<u32> = Vec::with_capacity(fp1.len() + fp2.len());
    let mut i: usize = 0;
    while i < fp1.len()
        invariant
            i <= fp1@.len() < OFFSET_MASK,
            offsets@ == Seq::new(i as nat, |k: int| entry(fp1@[k], k as nat, 0)),
        decreases fp1@.len() - i,
    {
        offsets.push(offset_entry(fp1[i], i, false));
        assert(offsets@ =~= Seq::new((i + 1) as nat, |k: int| entry(fp1@[k], k as nat, 0)));
        i += 1;
    }
    let ghost first = offsets@;
    let mut j: usize = 0;
    while j < fp2.len()
        invariant
            j <= fp2@.len() < OFFSET_MASK,
            i == fp1@.len(),
            first == Seq::new(i as nat, |k: int| entry(fp1@[k], k as nat, 0)),
            offsets@ == first + Seq::new(j as nat, |k: int| entry(fp2@[k], k as nat, 1)),
        decreases fp2@.len() - j,
    {
        offsets.push(offset_entry(fp2[j], j, true));
        assert(offsets@ =~= first + Seq::new((j + 1) as nat, |k: int| entry(fp2@[k], k as nat, 1)));
        j += 1;
    }
    assert(offsets@ =~= entries(fp1@, fp2@));
    sort_entries(&mut offsets);
    offsets
}

/// The hash bits of an entry.
pub open spec fn entry_hash(v: u32) -> u32 {
    v & HASH_MASK
}

/// The position bits of an entry.
pub open spec fn entry_offset(v: u32) -> u32 {
    v & OFFSET_MASK
}

/// Whether an entry belongs to the second fingerprint.
pub open spec fn entry_second(v: u32) -> bool {
    v & SOURCE_MASK != 0
}

/// Entry `a` (of the first fingerprint) and entry `b` (of the second) share a
/// hash, and their positions differ so as to fall in bin `d`.
pub open spec fn pair_in_bin(o: Seq<u32>, n2: int, a: int, b: int, d: int) -> bool {
    &&& !entry_second(o[a])
    &&& entry_second(o[b])
    &&& entry_hash(o[a]) == entry_hash(o[b])
    &&& entry_offset(o[a]) + n2 - entry_offset(o[b]) == d
}

/// How many of the entries after `a` and before `hi` pair with entry `a` in bin `d`.
pub open spec fn pairs_of(o: Seq<u32>, n2: int, a: int, hi: int, d: int) -> nat
    decreases hi - a,
{
    if hi <= a + 1 {
        0
    } else {
        pairs_of(o, n2, a, hi - 1, d) + if pair_in_bin(o, n2, a, hi - 1, d) {
            1nat
        } else {
            0nat
        }
    }
}

/// How many pairs of an entry before `i` with a later entry fall in bin `d`.
pub open spec fn pairs_before(o: Seq<u32>, n2: int, i: int, d: int) -> nat
    decreases i,
{
    if i <= 0 {
        0
    } else {
        pairs_before(o, n2, i - 1, d) + pairs_of(o, n2, i - 1, o.len() as int, d)
    }
}

/// A count, saturated at the largest `u32`.
pub open spec fn saturated(c: nat) -> u32 {
    if c > u32::MAX {
        u32::MAX
    } else {
        c as u32
    }
}

/// The histogram of the sorted entries `o` of fingerprints of lengths `n1` and `n2`.
pub open spec fn histogram_of(o: Seq<u32>, n1: nat, n2: nat) -> Seq<u32> {
    Seq::new(n1 + n2, |d: int| saturated(pairs_before(o, n2 as int, o.len() as int, d)))
}

/// The bin that the alignment step picks from histogram `h`.
pub open spec fn picks(h: Seq<u32>, r: Option<usize>) -> bool {
    &&& (r is None <==> (forall|i: int| !is_peak(h, i)))
    &&& (r matches Some(i) ==> is_best_peak(h, i as int))
}

/// An entry of the second fingerprint pairs with nothing after it.
proof fn lemma_second_pairs_nothing(o: Seq<u32>, n2: int, a: int, hi: int, d: int)
    requires
        0 <= a < o.len(),
        entry_second(o[a]),
    ensures
        pairs_of(o, n2, a, hi, d) == 0,
    decreases hi - a,
{
    if hi > a + 1 {
        lemma_second_pairs_nothing(o, n2, a, hi - 1, d);
    }
}

/// In sorted entries, once the hash changes it does not come back.
proof fn lemma_pairs_stop(o: Seq<u32>, n2: int, a: int, j: int, hi: int, d: int)
    requires
        sorted(o),
        0 <= a < j < o.len(),
        j <= hi <= o.len(),
        entry_hash(o[j]) != entry_hash(o[a]),
    ensures
        pairs_of(o, n2, a, hi, d) == pairs_of(o, n2, a, j, d),
    decreases hi - j,
{
    if hi > j {
        lemma_pairs_stop(o, n2, a, j, hi - 1, d);
        let u = o[a];
        let v = o[j];
        let w = o[hi - 1];
        assert(u <= v && v <= w);
        assert(u <= v && v <= w && u & 0xfff0_0000 != v & 0xfff0_0000 ==> u & 0xfff0_0000 != w
            & 0xfff0_0000) by (bit_vector);
    }
}

/// Counts, for each offset difference, the pairs of equal hashes of the two
/// fingerprints: each entry of `fp1` meets the entries of `fp2` that follow it
/// under the same hash, and the pair goes to bin `o1 + n2 - o2`.
pub fn build_histogram(offsets: &[u32], n1: usize, n2: usize) -> (r: Vec<u32>)
    requires
        n1 < OFFSET_MASK,
        n2 < OFFSET_MASK,
        sorted(offsets@),
    ensures
        r@.len() == n1 + n2,
        forall|d: int| 0 <= d < n1 + n2 ==> #[trigger] r@[d] == saturated(
            pairs_before(offsets@, n2 as int, offsets@.len() as int, d),
        ),
{
    let size = n1 + n2;
    let mut histogram: Vec<u32> = Vec::with_capacity(size);
    while histogram.len() < size
        invariant
            histogram@.len() <= size,
            forall|d: int| 0 <= d < histogram@.len() ==> #[trigger] histogram@[d] == 0,
        decreases size - histogram@.len(),
    {
        histogram.push(0);
    }
    let ghost o = offsets@;
    let mut i: usize = 0;
    while i < offsets.len()
        invariant
            o == offsets@,
            sorted(o),
            i <= o.len(),
            histogram@.len() == size,
            size == n1 + n2,
            n2 < OFFSET_MASK,
            forall|d: int| 0 <= d < size ==> #[trigger] histogram@[d] == saturated(
                pairs_before(o, n2 as int, i as int, d),
            ),
        decreases o.len() - i,
    {
        let v = offsets[i];
        let hash = v & HASH_MASK;
        let offset1 = (v & OFFSET_MASK) as usize;
        assert(v & 0x7ffffu32 <= 0x7ffffu32) by (bit_vector);
        if v & SOURCE_MASK == 0 {
            let mut j: usize = i + 1;
            while j < offsets.len()
                invariant_except_break
                    forall|d: int| 0 <= d < size ==> #[trigger] histogram@[d] == saturated(
                        pairs_before(o, n2 as int, i as int, d) + pairs_of(o, n2 as int, i as int, j as int, d),
                    ),
                invariant
                    o == offsets@,
                    sorted(o),
                    histogram@.len() == size,
                    size == n1 + n2,
                    n2 < OFFSET_MASK,
                    offset1 <= OFFSET_MASK,
                    i < j <= o.len(),
                    v == o[i as int],
                    hash == entry_hash(v),
                    offset1 == entry_offset(v),
                    !entry_second(v),
                ensures
                    forall|d: int| 0 <= d < size ==> #[trigger] histogram@[d] == saturated(
                        pairs_before(o, n2 as int, i as int, d) + pairs_of(o, n2 as int, i as int, o.len() as int, d),
                    ),
                decreases o.len() - j,
            {
                let w = offsets[j];
                if w & HASH_MASK != hash {
                    proof {
                        assert forall|d: int| 0 <= d < size implies #[trigger] histogram@[d] == saturated(
                            pairs_before(o, n2 as int, i as int, d) + pairs_of(o, n2 as int, i as int, o.len() as int, d),
                        ) by {
                            lemma_pairs_stop(o, n2 as int, i as int, j as int, o.len() as int, d);
                        }
                    }
                    break;
                }
                let ghost before = histogram@;
                if w & SOURCE_MASK != 0 {
                    let offset2 = (w & OFFSET_MASK) as usize;
                    if offset2 <= offset1 + n2 && offset1 + n2 - offset2 < size {
                        let d = offset1 + n2 - offset2;
                        let c = histogram[d];
                        histogram.set(d, c.saturating_add(1));
                    }
                }
                proof {
                    assert forall|e: int| 0 <= e < size implies #[trigger] histogram@[e] == saturated(
                        pairs_before(o, n2 as int, i as int, e) + pairs_of(o, n2 as int, i as int, j + 1, e),
                    ) by {
                        assert(pairs_of(o, n2 as int, i as int, j + 1, e) == pairs_of(o, n2 as int, i as int, j as int, e)
                            + if pair_in_bin(o, n2 as int, i as int, j as int, e) { 1nat } else { 0nat });
                        assert(before[e] == saturated(
                            pairs_before(o, n2 as int, i as int, e) + pairs_of(o, n2 as int, i as int, j as int, e),
                        ));
                    }
                }
                j += 1;
            }
        } else {
            proof {
                assert forall|d: int| 0 <= d < size implies pairs_of(o, n2 as int, i as int, o.len() as int, d) == 0 by {
                    lemma_second_pairs_nothing(o, n2 as int, i as int, o.len() as int, d);
                }
            }
        }
        proof {
            assert forall|d: int| 0 <= d < size implies #[trigger] histogram@[d] == saturated(
                pairs_before(o, n2 as int, i + 1, d),
            ) by {
                assert(pairs_before(o, n2 as int, i + 1, d) == pairs_before(o, n2 as int, i as int, d) + pairs_of(
                    o,
                    n2 as int,
                    i as int,
                    o.len() as int,
                    d,
                ));
            }
        }
        i += 1;
    }
    histogram
}

/// The highest peak of the histogram, the first of them on a tie; none where
/// no bin counts more than one match and beats its neighbours.
pub fn find_best_alignment(histogram: &[u32]) -> (r: Option<usize>)
    ensures
        r is None <==> (forall|i: int| !is_peak(histogram@, i)),
        r matches Some(i) ==> is_best_peak(histogram@, i as int),
{
    let n = histogram.len();
    let mut best: Option<usize> = None;
    let mut i: usize = 0;
    while i < n
        invariant
            n == histogram@.len(),
            i <= n,
            best is None <==> (forall|k: int| 0 <= k < i ==> !is_peak(histogram@, k)),
            best matches Some(b) ==> b < i && is_peak(histogram@, b as int) && (forall|k: int|
                0 <= k < i && is_peak(histogram@, k) ==> histogram@[k] < histogram@[b as int] || (
                histogram@[k] == histogram@[b as int] && b <= k)),
        decreases n - i,
    {
        let count = histogram[i];
        let left = i == 0 || histogram[i - 1] <= count;
        let right = i == n - 1 || histogram[i + 1] <= count;
        assert((count > 1 && left && right) == is_peak(histogram@, i as int));
        if count > 1 && left && right {
            match best {
                None => {
                    best = Some(i);
                },
                Some(b) => {
                    if count > histogram[b] {
                        best = Some(i);
                    }
                },
            }
        }
        i += 1;
    }
    best
}

/// Start in `fp1`, start in `fp2` and length of the parts aligned by bin `diff`.
pub fn overlap(n1: usize, n2: usize, diff: usize) -> (r: (usize, usize, usize))
    requires
        diff < n1 + n2,
    ensures
        (r.0 as nat, r.1 as nat, r.2 as nat) == overlap_spec(n1 as nat, n2 as nat, diff as nat),
{
    let off1 = if diff > n2 { diff - n2 } else { 0 };
    let off2 = if n2 > diff { n2 - diff } else { 0 };
    let a = n1 - off1;
    let b = n2 - off2;
    (off1, off2, if a < b { a } else { b })
}

/// The Hamming distance of `fp1[off1 + i]` and `fp2[off2 + i]`, for each `i` below `len`.
pub fn bit_counts(fp1: &[u32], fp2: &[u32], off1: usize, off2: usize, len: usize) -> (r: Vec<u32>)
    requires
        off1 + len <= fp1@.len(),
        off2 + len <= fp2@.len(),
    ensures
        r@.len() == len,
        forall|i: int| 0 <= i < len ==> #[trigger] r@[i] == hamming(fp1@[off1 + i], fp2@[off2 + i]),
{
    let mut r: Vec<u32> = Vec::with_capacity(len);
    let mut i: usize = 0;
    let l1 = fp1.len();
    let l2 = fp2.len();
    while i < len
        invariant
            l1 == fp1@.len(),
            l2 == fp2@.len(),
            i <= len,
            off1 + len <= fp1@.len(),
            off2 + len <= fp2@.len(),
            r@.len() == i,
            forall|k: int| 0 <= k < i ==> #[trigger] r@[k] == hamming(fp1@[off1 + k], fp2@[off2 + k]),
        decreases len - i,
    {
        r.push(hamming_distance(fp1[off1 + i], fp2[off2 + i]));
        i += 1;
    }
    r
}

/// The alignment step: the histogram bin of the best offset difference between
/// the two fingerprints, or none where either is too long or no bin is a peak.
pub fn best_offset_diff(fp1: &[u32], fp2: &[u32]) -> (r: Option<usize>)
    ensures
        (fp1@.len() + 1 >= OFFSET_MASK || fp2@.len() + 1 >= OFFSET_MASK) ==> r is None,
        !(fp1@.len() + 1 >= OFFSET_MASK || fp2@.len() + 1 >= OFFSET_MASK) ==> exists|o: Seq<u32>|
            #![trigger histogram_of(o, fp1@.len(), fp2@.len())]
            sorted(o) && o.to_multiset() == entries(fp1@, fp2@).to_multiset() && picks(
                histogram_of(o, fp1@.len(), fp2@.len()),
                r,
            ),
        r matches Some(d) ==> d < fp1@.len() + fp2@.len(),
{
    if fp1.len() >= OFFSET_MASK as usize - 1 || fp2.len() >= OFFSET_MASK as usize - 1 {
        return None;
    }
    let offsets = build_offsets(fp1, fp2);
    let histogram = build_histogram(offsets.as_slice(), fp1.len(), fp2.len());
    let r = find_best_alignment(histogram.as_slice());
    assert(histogram@ =~= histogram_of(offsets@, fp1@.len(), fp2@.len()));
    r
}

} // verus!
