//! Navigation over the postorder positions of a Merkle Mountain Range.
use vstd::arithmetic::div_mod::{
    lemma_basic_div, lemma_div_denominator, lemma_fundamental_div_mod_converse,
    lemma_hoist_over_denominator,
};
use vstd::arithmetic::power2::{lemma2_to64, lemma2_to64_rest, lemma_pow2_adds, lemma_pow2_pos, lemma_pow2_strictly_increases, lemma_pow2_unfold, pow2};
use vstd::bits::{lemma_u64_pow2_no_overflow, lemma_u64_shl_is_mul, lemma_u64_shr_is_div};
use vstd::prelude::*;
use vstd::std_specs::bits::u64_leading_zeros;

verus! {

/// 64 bits all set.
const ALL_ONES: u64 = 0xffff_ffff_ffff_ffff;

/// The size of a perfect binary tree of height `k - 1`: `2^k - 1`.
pub open spec fn rung(k: nat) -> nat {
    (pow2(k) - 1) as nat
}

/// The number of significant bits of `x`.
pub open spec fn bit_len(x: nat) -> nat
    decreases x,
{
    if x == 0 {
        0
    } else {
        1 + bit_len(x / 2)
    }
}

/// Walk the rungs `2^k - 1, 2^(k-1) - 1, ..., 1`, subtracting each one that
/// fits into `idx`. The first component has bit `j - 1` set when rung `j`
/// was subtracted; the second is what is left of `idx` at the end.
pub open spec fn ladder(idx: nat, k: nat) -> (nat, nat)
    decreases k,
{
    if k == 0 {
        (0, idx)
    } else {
        let km1 = (k - 1) as nat;
        if idx >= rung(k) {
            let rest = ladder((idx - rung(k)) as nat, km1);
            (rest.0 + pow2(km1), rest.1)
        } else {
            ladder(idx, km1)
        }
    }
}

/// The peaks, left to right, that the walk over `n` with rungs `k` down to 1
/// finds, each shifted by `base`.
pub open spec fn collect(n: nat, k: nat, base: nat) -> Seq<u64>
    decreases k,
{
    if k == 0 {
        seq![]
    } else {
        let km1 = (k - 1) as nat;
        if n >= rung(k) {
            seq![(base + rung(k)) as u64] + collect((n - rung(k)) as nat, km1, base + rung(k))
        } else {
            collect(n, km1, base)
        }
    }
}

/// The peak positions of a forest of `size` nodes, or nothing when some
/// nodes are left over after the walk (an unstable size).
pub open spec fn peaks_spec(size: nat) -> Seq<u64> {
    if ladder(size, bit_len(size)).1 == 0 {
        collect(size, bit_len(size), 0)
    } else {
        seq![]
    }
}

/// Whether bit `h` of `m` is set.
pub open spec fn has_bit(m: nat, h: nat) -> bool {
    (m / pow2(h)) % 2 == 1
}

/// `x` held to the range of `u64`.
pub open spec fn clamp(x: int) -> u64 {
    if x < 0 {
        0
    } else if x > u64::MAX {
        u64::MAX
    } else {
        x as u64
    }
}

/// The peak map and height of the node with 0-based index `idx`.
pub open spec fn peak_height_map_spec(idx: nat) -> (nat, nat) {
    ladder(idx, bit_len(idx))
}

/// `pos - 1`, or 0 for position 0.
pub open spec fn index_of(pos: u64) -> nat {
    if pos == 0 {
        0
    } else {
        (pos - 1) as nat
    }
}

/// The height of the node at position `pos`.
pub open spec fn node_height_spec(pos: u64) -> nat {
    peak_height_map_spec(index_of(pos)).1
}

/// Return the positions of all peaks of a forest with `size` nodes.
///
/// Peaks are listed left to right; the leftmost one is the highest. For an
/// unstable size (some subtree not complete) the result is empty, and so it
/// is for size 0.
pub fn peaks(size: u64) -> (r: Vec<u64>)
    ensures
        r@ == peaks_spec(size as nat),
{
    if size == 0 {
        return vec![];
    }
    proof {
        lemma_first_rung(size);
        lemma_bit_len_leading_zeros(size);
    }
    let mut peak_idx = ALL_ONES >> size.leading_zeros();
    let mut nodes_left = size;
    let mut prev_peak_idx: u64 = 0;
    let mut peaks: Vec<u64> = vec![];
    let ghost mut k = bit_len(size as nat);
    let ghost all = collect(size as nat, k, 0);
    let ghost rem = ladder(size as nat, k).1;
    while peak_idx != 0
        invariant
            peak_idx as nat == rung(k),
            prev_peak_idx + nodes_left == size,
            peaks@ + collect(nodes_left as nat, k, prev_peak_idx as nat) == all,
            ladder(nodes_left as nat, k).1 == rem,
        decreases k,
    {
        proof {
            lemma_rung_step(k);
        }
        if nodes_left >= peak_idx {
            let ghost before = peaks@;
            peaks.push(prev_peak_idx + peak_idx);
            prev_peak_idx += peak_idx;
            nodes_left -= peak_idx;
            assert(peaks@ + collect(nodes_left as nat, (k - 1) as nat, prev_peak_idx as nat)
                =~= before + collect((nodes_left + peak_idx) as nat, k, (prev_peak_idx - peak_idx) as nat));
        }
        assert(peak_idx >> 1 == peak_idx / 2) by (bit_vector);
        peak_idx >>= 1;
        proof {
            k = (k - 1) as nat;
        }
    }
    proof {
        lemma_rung_step(k);
        assert(peaks@ =~= peaks@ + collect(nodes_left as nat, k, prev_peak_idx as nat));
    }
    if nodes_left > 0 {
        return vec![];
    }
    peaks
}

/// Whether the node at `pos` is the left child of its parent: no peak of
/// its own height stands to its left.
pub open spec fn is_left_spec(pos: u64) -> bool {
    let (m, h) = peak_height_map_spec(index_of(pos));
    !has_bit(m, h)
}

/// Parent and sibling of the node at `pos`, as integers.
pub open spec fn family_exact(pos: u64) -> (int, int) {
    let (m, h) = peak_height_map_spec(index_of(pos));
    let peak = pow2(h);
    if has_bit(m, h) {
        (pos + 1, pos + 1 - 2 * peak)
    } else {
        (pos + 2 * peak, pos + 2 * peak - 1)
    }
}

/// Parent and sibling of the node at `pos`, each held to the range of `u64`.
pub open spec fn family_spec(pos: u64) -> (u64, u64) {
    (clamp(family_exact(pos).0), clamp(family_exact(pos).1))
}

/// The path from the node at `node`, whose own height is `h`, up towards
/// the peak above it, reading left or right children from the peak map `m`
/// and stopping before any parent beyond `end`.
pub open spec fn climb(node: int, m: nat, h: nat, end: int) -> Seq<(u64, u64)>
    decreases end - node,
{
    if node >= end {
        seq![]
    } else {
        let peak = pow2(h);
        let (parent, sibling) = if has_bit(m, h) {
            (node + 1, node + 1 - 2 * peak)
        } else {
            (node + 2 * peak, node + 2 * peak - 1)
        };
        if parent > end {
            seq![]
        } else {
            proof {
                lemma_pow2_pos(h);
            }
            seq![(clamp(parent), clamp(sibling))] + climb(parent, m, h + 1, end)
        }
    }
}

/// The family path of `pos` bounded by `end_pos`; empty for position 0.
pub open spec fn family_path_spec(pos: u64, end_pos: u64) -> Seq<(u64, u64)> {
    if pos == 0 {
        seq![]
    } else {
        let (m, h) = peak_height_map_spec(index_of(pos));
        climb(pos as int, m, h, end_pos as int)
    }
}

proof fn lemma_ladder_rem_bound(idx: nat, k: nat, c: int)
    requires
        c >= -1,
        idx <= pow2(k + 1) - 1 + c,
    ensures
        ladder(idx, k).1 <= k + 1 + c,
    decreases k,
{
    lemma_pow2_unfold(k + 1);
    lemma_rung_step(k);
    if k == 0 {
        lemma2_to64();
    } else {
        let km1 = (k - 1) as nat;
        if idx >= rung(k) {
            lemma_ladder_rem_bound((idx - rung(k)) as nat, km1, c + 1);
        } else {
            lemma_ladder_rem_bound(idx, km1, c);
        }
    }
}

/// A node whose index fits in `u64` has a height below 64.
proof fn lemma_height_bound(idx: u64)
    ensures
        peak_height_map_spec(idx as nat).1 < 64,
{
    if idx != 0 {
        lemma_first_rung(idx);
        let b = bit_len(idx as nat);
        lemma_rung_step(b);
        let bm1 = (b - 1) as nat;
        if idx >= rung(b) {
            lemma_ladder_rem_bound((idx - rung(b)) as nat, bm1, -1);
        } else {
            lemma_ladder_rem_bound(idx as nat, bm1, -1);
        }
    }
}

/// Reading bit `h` of `m` with a mask.
proof fn lemma_bit_test(m: u64, h: u64)
    requires
        h < 64,
    ensures
        ((m & (1u64 << h)) != 0) == has_bit(m as nat, h as nat),
        (1u64 << h) as nat == pow2(h as nat),
{
    assert((m & (1u64 << h)) != 0 <==> ((m >> h) & 1u64) == 1u64) by (bit_vector)
        requires
            h < 64,
    ;
    lemma_u64_shr_is_div(m, h);
    let x = m >> h;
    assert((x & 1u64 == 1u64) <==> x % 2 == 1) by (bit_vector);
    lemma_u64_pow2_no_overflow(h as nat);
    lemma_u64_shl_is_mul(1u64, h);
}

/// Return true if the node at `pos` is the left child of its parent.
///
/// Position 0 takes the peak map and height of index 0, as position 1 does.
pub fn is_left(pos: u64) -> (r: bool)
    ensures
        r == is_left_spec(pos),
{
    let (peak_map, node_height) = peak_height_map(pos.saturating_sub(1));
    proof {
        lemma_height_bound(pos.saturating_sub(1));
        lemma_bit_test(peak_map, node_height);
    }
    let peak: u64 = 1u64 << node_height;
    (peak_map & peak) == 0
}

/// Return the positions of the parent and the sibling of the node at `pos`,
/// as `(parent, sibling)`. The sibling is the child of the parent that is
/// not `pos`.
///
/// Position 0 takes the peak map and height of index 0; results beyond the
/// range of `u64` are held to it.
pub fn family(pos: u64) -> (r: (u64, u64))
    ensures
        r == family_spec(pos),
{
    let (peak_map, node_height) = peak_height_map(pos.saturating_sub(1));
    proof {
        lemma_height_bound(pos.saturating_sub(1));
        lemma_bit_test(peak_map, node_height);
        lemma_pow2_pos(node_height as nat);
        lemma2_to64_rest();
        if node_height < 63 {
            lemma_pow2_strictly_increases(node_height as nat, 63);
        }
    }
    let peak: u64 = 1u64 << node_height;
    let width: u64 = (peak - 1) + peak;
    if (peak_map & peak) != 0 {
        (pos.saturating_add(1), pos.saturating_sub(width))
    } else {
        let sibling = pos.saturating_add(width);
        (sibling.saturating_add(1), sibling)
    }
}

/// Return the `(parent, sibling)` pairs on the way from the node at `pos` up
/// to the peak above it, stopping before the first parent beyond `end_pos`.
///
/// These are the nodes a membership proof for `pos` against the forest of
/// `end_pos` nodes needs. The path is empty when `pos >= end_pos` or
/// `pos == 0`.
pub fn family_path(pos: u64, end_pos: u64) -> (r: Vec<(u64, u64)>)
    ensures
        r@ == family_path_spec(pos, end_pos),
{
    let mut path: Vec<(u64, u64)> = vec![];
    if pos == 0 {
        return path;
    }
    let (peak_map, node_height) = peak_height_map(pos - 1);
    proof {
        lemma_height_bound((pos - 1) as u64);
        lemma_bit_test(peak_map, node_height);
        lemma2_to64_rest();
    }
    let mut parent_height: u64 = 1u64 << node_height;
    let ghost mut h: nat = node_height as nat;
    let ghost m = peak_map as nat;
    let ghost all = climb(pos as int, m, h, end_pos as int);
    let mut node_pos = pos;
    let mut done = false;
    while !done && node_pos < end_pos
        invariant
            h < 64,
            parent_height as nat == pow2(h),
            m == peak_map as nat,
            !done ==> path@ + climb(node_pos as int, m, h, end_pos as int) == all,
            done ==> path@ == all,
        decreases end_pos - node_pos + (if done { 0int } else { 1int }),
    {
        proof {
            lemma_bit_test(peak_map, h as u64);
            lemma_pow2_pos(h);
            lemma2_to64_rest();
            if h < 63 {
                lemma_pow2_strictly_increases(h, 63);
            }
        }
        let width: u64 = (parent_height - 1) + parent_height;
        let mut step: Option<(u64, u64)> = None;
        if (peak_map & parent_height) != 0 {
            step = Some((node_pos + 1, node_pos.saturating_sub(width)));
        } else if width < end_pos - node_pos {
            step = Some((node_pos + width + 1, node_pos + width));
        }
        match step {
            None => {
                done = true;
                proof {
                    assert(path@ =~= path@ + climb(node_pos as int, m, h, end_pos as int));
                }
            },
            Some(family) => {
                let ghost before = path@;
                path.push(family);
                node_pos = family.0;
                assert(path@ + climb(node_pos as int, m, h + 1, end_pos as int) =~= before + climb(
                    (node_pos - (if has_bit(m, h) { 1 } else { width + 1 })) as int,
                    m,
                    h,
                    end_pos as int,
                ));
                if parent_height >= 0x8000_0000_0000_0000 {
                    done = true;
                    proof {
                        lemma_pow2_unfold(h + 1);
                        assert(h == 63);
                        lemma_basic_div(m as int, pow2(64) as int);
                        assert(!has_bit(m, h + 1));
                        assert(climb(node_pos as int, m, h + 1, end_pos as int) =~= seq![]);
                        assert(path@ =~= path@ + climb(node_pos as int, m, h + 1, end_pos as int));
                    }
                } else {
                    parent_height = parent_height * 2;
                    proof {
                        lemma_pow2_unfold(h + 1);
                        h = h + 1;
                    }
                }
            },
        }
    }
    path
}

/// Return the height of the node at position `pos`.
///
/// The height is taken as if the node were part of a perfect binary tree
/// whose nodes are numbered in postorder; position 0 has height 0.
pub fn node_height(pos: u64) -> (r: u64)
    ensures
        r as nat == node_height_spec(pos),
{
    let mut idx = pos.saturating_sub(1);
    if idx == 0 {
        return 0;
    }
    proof {
        lemma_first_rung(idx);
    }
    let mut peak_idx = ALL_ONES >> idx.leading_zeros();
    let ghost mut k = bit_len(idx as nat);
    let ghost target = ladder(idx as nat, k).1;
    assert(peak_idx as nat == rung(k)) by {
        lemma_bit_len_leading_zeros(idx);
    }
    while peak_idx != 0
        invariant
            peak_idx as nat == rung(k),
            ladder(idx as nat, k).1 == target,
        decreases k,
    {
        proof {
            lemma_rung_step(k);
        }
        if idx >= peak_idx {
            idx -= peak_idx;
        }
        assert(peak_idx >> 1 == peak_idx / 2) by (bit_vector);
        peak_idx >>= 1;
        proof {
            k = (k - 1) as nat;
        }
    }
    proof {
        lemma_rung_step(k);
    }
    idx
}

/// Return true if the node at `pos` is a leaf.
pub fn is_leaf(pos: u64) -> (r: bool)
    ensures
        r == (node_height_spec(pos) == 0),
{
    node_height(pos) == 0
}

/// Return the peak map of the forest before the node with 0-based index
/// `idx` is added, and the height at which that node will stand.
///
/// Bit `h` of the map is set when the forest has a peak of height `h`.
pub fn peak_height_map(idx: u64) -> (r: (u64, u64))
    ensures
        r.0 as nat == peak_height_map_spec(idx as nat).0,
        r.1 as nat == peak_height_map_spec(idx as nat).1,
{
    if idx == 0 {
        return (0, 0);
    }
    let mut idx = idx;
    proof {
        lemma_first_rung(idx);
        lemma_bit_len_leading_zeros(idx);
    }
    let ghost b = bit_len(idx as nat);
    let mut peak_idx = ALL_ONES >> idx.leading_zeros();
    let mut peak_map: u64 = 0;
    let ghost mut k = b;
    let ghost target = ladder(idx as nat, k);
    proof {
        lemma2_to64();
    }
    while peak_idx != 0
        invariant
            k <= b <= 64,
            peak_idx as nat == rung(k),
            peak_map < pow2((b - k) as nat),
            peak_map * pow2(k) + ladder(idx as nat, k).0 == target.0,
            ladder(idx as nat, k).1 == target.1,
        decreases k,
    {
        proof {
            lemma_rung_step(k);
            lemma_pow2_unfold((b - k + 1) as nat);
            if b - k < 63 {
                lemma_pow2_strictly_increases((b - k) as nat, 63);
            }
            lemma2_to64_rest();
        }
        let ghost m0 = peak_map;
        let ghost p = pow2((k - 1) as nat);
        assert(peak_map < 0x8000_0000_0000_0000);
        assert(peak_map < 0x8000_0000_0000_0000 ==> peak_map << 1 == 2 * peak_map) by (bit_vector);
        peak_map <<= 1;
        if idx >= peak_idx {
            idx -= peak_idx;
            assert(peak_map % 2 == 0 ==> peak_map | 1 == peak_map + 1) by (bit_vector);
            peak_map |= 1;
            assert(m0 * (2 * p) + (p + ladder(idx as nat, (k - 1) as nat).0) == (2 * m0 + 1) * p
                + ladder(idx as nat, (k - 1) as nat).0) by (nonlinear_arith);
        } else {
            assert(m0 * (2 * p) == (2 * m0) * p) by (nonlinear_arith);
        }
        assert(peak_idx >> 1 == peak_idx / 2) by (bit_vector);
        peak_idx >>= 1;
        proof {
            k = (k - 1) as nat;
        }
    }
    proof {
        lemma_rung_step(k);
        assert(peak_map * pow2(0) == peak_map);
    }
    (peak_map, idx)
}

proof fn lemma_bit_len_leading_zeros(x: u64)
    ensures
        bit_len(x as nat) == 64 - u64_leading_zeros(x),
        x < pow2(bit_len(x as nat)),
    decreases x,
{
    reveal(u64_leading_zeros);
    if x != 0 {
        lemma_bit_len_leading_zeros(x / 2);
        lemma_pow2_unfold(bit_len(x as nat));
    } else {
        lemma2_to64();
    }
}

proof fn lemma_rung_step(k: nat)
    ensures
        k == 0 ==> rung(k) == 0,
        k > 0 ==> rung(k) > 0 && rung(k) / 2 == rung((k - 1) as nat),
        k > 0 ==> pow2(k) == 2 * pow2((k - 1) as nat),
{
    lemma2_to64();
    if k > 0 {
        lemma_pow2_unfold(k);
        lemma_pow2_pos((k - 1) as nat);
    }
}

/// The first rung of the walk over a nonzero index is `2^b - 1`, where `b`
/// is the bit length of the index, and the index does not exceed it.
proof fn lemma_first_rung(x: u64)
    requires
        x != 0,
    ensures
        0 < bit_len(x as nat) <= 64,
        (ALL_ONES >> (64 - bit_len(x as nat)) as u64) as nat == rung(bit_len(x as nat)),
        x <= rung(bit_len(x as nat)),
{
    lemma_bit_len_leading_zeros(x);
    let b = bit_len(x as nat);
    reveal(u64_leading_zeros);
    assert(b > 0);
    let s = (64 - b) as nat;
    lemma_u64_shr_is_div(ALL_ONES, s as u64);
    lemma_pow2_adds(s, b);
    lemma2_to64_rest();
    lemma_pow2_pos(s);
    lemma_pow2_pos(b);
    let a = pow2(s) as int;
    let q = pow2(b) as int;
    assert(ALL_ONES as int == (q - 1) * a + (a - 1)) by (nonlinear_arith)
        requires
            ALL_ONES as int + 1 == a * q,
    ;
    lemma_fundamental_div_mod_converse(ALL_ONES as int, a, q - 1, a - 1);
}


/// `n` is a sum of terms `2^j - 1`, each `j` between 1 and `k` and used at
/// most once; that is, a strictly decreasing sum of such terms.
pub open spec fn decomposable(n: nat, k: nat) -> bool
    decreases k,
{
    if n == 0 {
        true
    } else if k == 0 {
        false
    } else {
        let km1 = (k - 1) as nat;
        decomposable(n, km1) || (n >= rung(k) && decomposable((n - rung(k)) as nat, km1))
    }
}

proof fn lemma_collect(n: nat, k: nat, base: nat)
    requires
        base + n <= u64::MAX,
    ensures
        ({
            let s = collect(n, k, base);
            &&& forall|i: int| 0 <= i < s.len() ==> base < #[trigger] s[i] <= base + n
            &&& forall|i: int, j: int| 0 <= i < j < s.len() ==> #[trigger] s[i] < #[trigger] s[j]
            &&& s.len() == 0 ==> ladder(n, k).1 == n
            &&& s.len() > 0 ==> s.last() == base + n - ladder(n, k).1
        }),
    decreases k,
{
    if k > 0 {
        let km1 = (k - 1) as nat;
        lemma_rung_step(k);
        if n >= rung(k) {
            let r = rung(k);
            lemma_collect((n - r) as nat, km1, base + r);
            lemma_ladder_rem_le((n - r) as nat, km1);
            let t = collect((n - r) as nat, km1, base + r);
            let s = collect(n, k, base);
            assert(s == seq![(base + r) as u64] + t);
            assert forall|i: int| 0 <= i < s.len() implies base < #[trigger] s[i] <= base + n by {
                if i > 0 {
                    assert(s[i] == t[i - 1]);
                }
            }
            assert forall|i: int, j: int| 0 <= i < j < s.len() implies #[trigger] s[i]
                < #[trigger] s[j] by {
                assert(s[j] == t[j - 1]);
                if i > 0 {
                    assert(s[i] == t[i - 1]);
                }
            }
        } else {
            lemma_collect(n, km1, base);
        }
    }
}

proof fn lemma_ladder_rem_le(n: nat, k: nat)
    ensures
        ladder(n, k).1 <= n,
    decreases k,
{
    if k > 0 {
        lemma_rung_step(k);
        if n >= rung(k) {
            lemma_ladder_rem_le((n - rung(k)) as nat, (k - 1) as nat);
        } else {
            lemma_ladder_rem_le(n, (k - 1) as nat);
        }
    }
}

/// The peaks of any size are strictly increasing (so also non-decreasing),
/// and when there are any, the last one is `size` itself.
pub proof fn lemma_peaks_ordered(size: u64)
    ensures
        forall|i: int, j: int|
            0 <= i < j < peaks_spec(size as nat).len() ==> #[trigger] peaks_spec(size as nat)[i]
                < #[trigger] peaks_spec(size as nat)[j],
        peaks_spec(size as nat).len() > 0 ==> peaks_spec(size as nat).last() == size,
{
    lemma_collect(size as nat, bit_len(size as nat), 0);
}

/// A decomposable `n` is no larger than the sum of all terms up to `2^k - 1`.
proof fn lemma_decomposable_max(n: nat, k: nat)
    requires
        decomposable(n, k),
    ensures
        n + k + 2 <= pow2(k + 1),
    decreases k,
{
    lemma_pow2_unfold(k + 1);
    lemma_rung_step(k);
    if k == 0 {
        lemma2_to64();
    } else {
        let km1 = (k - 1) as nat;
        if n == 0 || decomposable(n, km1) {
            lemma_decomposable_max(n, km1);
        } else {
            lemma_decomposable_max((n - rung(k)) as nat, km1);
        }
    }
}

/// The walk leaves nothing over exactly when `n` is decomposable.
proof fn lemma_ladder_decomposable(n: nat, k: nat)
    ensures
        (ladder(n, k).1 == 0) == decomposable(n, k),
    decreases k,
{
    if k > 0 {
        let km1 = (k - 1) as nat;
        lemma_rung_step(k);
        lemma_pow2_unfold(k);
        if n >= rung(k) {
            lemma_ladder_decomposable((n - rung(k)) as nat, km1);
            if decomposable(n, km1) {
                lemma_decomposable_max(n, km1);
            }
        } else {
            lemma_ladder_decomposable(n, km1);
        }
    }
}

proof fn lemma_decomposable_grow(n: nat, k: nat, k2: nat)
    requires
        decomposable(n, k),
        k <= k2,
    ensures
        decomposable(n, k2),
    decreases k2,
{
    if k < k2 {
        lemma_decomposable_grow(n, k, (k2 - 1) as nat);
    }
}

proof fn lemma_decomposable_trim(n: nat, k: nat, b: nat)
    requires
        decomposable(n, k),
        n < pow2(b),
    ensures
        decomposable(n, b),
    decreases k,
{
    if k <= b {
        lemma_decomposable_grow(n, k, b);
    } else {
        lemma_rung_step(k);
        if b + 1 < k {
            lemma_pow2_strictly_increases(b + 1, k);
        }
        lemma_pow2_unfold(b + 1);
        lemma_decomposable_trim(n, (k - 1) as nat, b);
    }
}

/// A positive size has peaks exactly when it is a strictly decreasing sum of
/// terms `2^j - 1`; otherwise it is unstable and has none.
pub proof fn lemma_peaks_iff_decomposable(size: u64)
    requires
        size > 0,
    ensures
        (peaks_spec(size as nat).len() > 0) == (exists|k: nat| decomposable(size as nat, k)),
{
    let b = bit_len(size as nat);
    lemma_ladder_decomposable(size as nat, b);
    lemma_collect(size as nat, b, 0);
    lemma_bit_len_leading_zeros(size);
    if exists|k: nat| decomposable(size as nat, k) {
        let k = choose|k: nat| decomposable(size as nat, k);
        lemma_decomposable_trim(size as nat, k, b);
    }
}

proof fn lemma_climb(node: int, m: nat, h: nat, end: int)
    requires
        0 <= node,
        end <= u64::MAX,
    ensures
        ({
            let s = climb(node, m, h, end);
            &&& forall|i: int| 0 <= i < s.len() ==> node < #[trigger] s[i].0 <= end
            &&& forall|i: int| 0 <= i < s.len() - 1 ==> #[trigger] s[i].0 < s[i + 1].0
        }),
    decreases end - node,
{
    if node < end {
        let peak = pow2(h);
        lemma_pow2_pos(h);
        let parent = if has_bit(m, h) {
            node + 1
        } else {
            node + 2 * peak
        };
        if parent <= end {
            lemma_climb(parent, m, h + 1, end);
            let s = climb(node, m, h, end);
            let t = climb(parent, m, h + 1, end);
            assert forall|i: int| 0 <= i < s.len() implies node < #[trigger] s[i].0 <= end by {
                if i > 0 {
                    assert(s[i] == t[i - 1]);
                }
            }
            assert forall|i: int| 0 <= i < s.len() - 1 implies #[trigger] s[i].0 < s[i + 1].0 by {
                assert(s[i + 1] == t[i]);
                if i > 0 {
                    assert(s[i] == t[i - 1]);
                }
            }
        }
    }
}

/// The family path is empty when `pos >= end_pos` or `pos == 0`; otherwise
/// its parents strictly increase and none, the last included, exceeds
/// `end_pos`.
pub proof fn lemma_family_path_shape(pos: u64, end_pos: u64)
    ensures
        pos >= end_pos || pos == 0 ==> family_path_spec(pos, end_pos).len() == 0,
        forall|i: int|
            0 <= i < family_path_spec(pos, end_pos).len() - 1 ==> #[trigger] family_path_spec(
                pos,
                end_pos,
            )[i].0 < family_path_spec(pos, end_pos)[i + 1].0,
        forall|i: int|
            0 <= i < family_path_spec(pos, end_pos).len() ==> #[trigger] family_path_spec(
                pos,
                end_pos,
            )[i].0 <= end_pos,
        family_path_spec(pos, end_pos).len() > 0 ==> family_path_spec(pos, end_pos).last().0
            <= end_pos,
{
    if pos > 0 {
        let (m, h) = peak_height_map_spec(index_of(pos));
        lemma_climb(pos as int, m, h, end_pos as int);
    }
}

proof fn lemma_map_bound(x: nat, k: nat)
    ensures
        ladder(x, k).0 < pow2(k),
    decreases k,
{
    lemma_rung_step(k);
    if k == 0 {
        lemma2_to64();
    } else if x >= rung(k) {
        lemma_map_bound((x - rung(k)) as nat, (k - 1) as nat);
    } else {
        lemma_map_bound(x, (k - 1) as nat);
    }
}

/// Bits below `j` are not touched by adding `2^j` to a number below `2^j`;
/// bit `j` is then set, and was clear before.
proof fn lemma_has_bit_add(a: nat, h: nat, j: nat)
    requires
        a < pow2(j),
        h <= j,
    ensures
        h < j ==> has_bit(a + pow2(j), h) == has_bit(a, h),
        h == j ==> has_bit(a + pow2(j), h) && !has_bit(a, h),
{
    lemma_pow2_pos(h);
    let d = pow2(h);
    let e = pow2((j - h) as nat);
    lemma_pow2_adds(h, (j - h) as nat);
    lemma_hoist_over_denominator(a as int, e as int, d);
    assert(e * d == pow2(j)) by (nonlinear_arith)
        requires
            d * e == pow2(j),
    ;
    if h < j {
        lemma_pow2_unfold((j - h) as nat);
        let q = a as int / d as int;
        assert((q + e) % 2 == q % 2);
    } else {
        lemma_basic_div(a as int, pow2(j) as int);
        assert(e == 1) by {
            lemma2_to64();
        }
    }
}

/// Bits at or above `j` of a number below `2^j` are clear.
proof fn lemma_has_bit_high(a: nat, h: nat, j: nat)
    requires
        a < pow2(j),
        j <= h,
    ensures
        !has_bit(a, h),
{
    if j < h {
        lemma_pow2_strictly_increases(j, h);
    }
    lemma_basic_div(a as int, pow2(h) as int);
}

/// The walk over `rung(j + 1) + c` with rungs `j` down to 1 takes every rung
/// and leaves `j + 1 + c`.
proof fn lemma_ladder_full(j: nat, c: int)
    requires
        c >= -1,
    ensures
        ladder((rung(j + 1) + c) as nat, j).1 == j + 1 + c,
    decreases j,
{
    lemma_rung_step(j + 1);
    lemma_rung_step(j);
    if j == 0 {
        lemma2_to64();
    } else {
        lemma_pow2_unfold(j);
        lemma_pow2_pos((j - 1) as nat);
        assert(rung(j + 1) + c - rung(j) == rung(j) + (c + 1));
        lemma_ladder_full((j - 1) as nat, c + 1);
    }
}

/// Adding the size of the subtree of height `h` to the index of a left child
/// of height `h` gives the index of its sibling, a right child of the same
/// height.
proof fn lemma_left_shift(x: nat, k: nat)
    requires
        x < rung(k + 1),
        ladder(x, k).1 < k,
        !has_bit(ladder(x, k).0, ladder(x, k).1),
    ensures
        x + rung(ladder(x, k).1 + 1) < rung(k + 1),
        ladder(x + rung(ladder(x, k).1 + 1), k) == (ladder(x, k).0 + pow2(ladder(x, k).1), ladder(
            x,
            k,
        ).1),
    decreases k,
{
    let km1 = (k - 1) as nat;
    let r = rung(k);
    let h = ladder(x, k).1;
    lemma_rung_step(k + 1);
    lemma_rung_step(k);
    lemma_rung_step(h + 1);
    if h + 1 < k {
        lemma_pow2_strictly_increases(h + 1, k);
    }
    if x >= r {
        let y = (x - r) as nat;
        let m1 = ladder(y, km1).0;
        lemma_map_bound(y, km1);
        lemma_has_bit_add(m1, h, km1);
        if y == r {
            lemma_ladder_full(km1, 0);
        }
        assert(y < rung(k));
        lemma_left_shift(y, km1);
        assert((x + rung(h + 1)) - r == y + rung(h + 1));
    } else {
        let m = ladder(x, km1).0;
        lemma_map_bound(x, km1);
        lemma_ladder_rem_bound(x, km1, -1);
        if h == km1 {
            assert((x + rung(h + 1)) - r == x);
        } else {
            lemma_left_shift(x, km1);
        }
    }
}

/// Removing the size of the subtree of height `h` from the index of a right
/// child of height `h` gives the index of its sibling, a left child of the
/// same height.
proof fn lemma_right_shift(x: nat, k: nat)
    requires
        x < rung(k + 1),
        has_bit(ladder(x, k).0, ladder(x, k).1),
    ensures
        x >= rung(ladder(x, k).1 + 1),
        ladder((x - rung(ladder(x, k).1 + 1)) as nat, k) == (
            (ladder(x, k).0 - pow2(ladder(x, k).1)) as nat,
            ladder(x, k).1,
        ),
    decreases k,
{
    let km1 = (k - 1) as nat;
    let r = rung(k);
    let h = ladder(x, k).1;
    lemma_rung_step(k + 1);
    lemma_rung_step(k);
    lemma_rung_step(h + 1);
    if k == 0 {
        lemma2_to64();
    } else if x >= r {
        let y = (x - r) as nat;
        let m1 = ladder(y, km1).0;
        lemma_map_bound(y, km1);
        if y == r {
            lemma_ladder_full(km1, 0);
            lemma_has_bit_high(m1 + pow2(km1), h, k);
        } else {
            lemma_ladder_rem_bound(y, km1, -1);
            lemma_has_bit_add(m1, h, km1);
            if h < km1 {
                lemma_pow2_strictly_increases(h + 1, k);
                if m1 < pow2(h) {
                    lemma_has_bit_high(m1, h, h);
                }
                lemma_right_shift(y, km1);
                assert((x - rung(h + 1)) - r == y - rung(h + 1));
            } else {
                assert(h == km1);
                assert(x - rung(h + 1) == y);
                assert(ladder(y, k) == ladder(y, km1));
            }
        }
    } else {
        lemma_map_bound(x, km1);
        lemma_ladder_rem_bound(x, km1, -1);
        if h >= km1 {
            lemma_has_bit_high(ladder(x, km1).0, h, km1);
        }
        if h + 1 < k {
            lemma_pow2_strictly_increases(h + 1, k);
        }
        if ladder(x, km1).0 < pow2(h) {
            lemma_has_bit_high(ladder(x, km1).0, h, h);
        }
        lemma_right_shift(x, km1);
    }
}

/// Adding or removing `2^h` flips bit `h`.
proof fn lemma_has_bit_flip(a: nat, h: nat)
    ensures
        has_bit(a + pow2(h), h) == !has_bit(a, h),
        a >= pow2(h) ==> has_bit((a - pow2(h)) as nat, h) == !has_bit(a, h),
{
    lemma_pow2_pos(h);
    let d = pow2(h);
    lemma_hoist_over_denominator(a as int, 1, d);
    if a >= d {
        lemma_hoist_over_denominator(a - d, 1, d);
    }
}

/// Rungs beyond the bit length of `x` change nothing in its walk.
proof fn lemma_ladder_extend(x: nat, k: nat, k2: nat)
    requires
        x < pow2(k),
        k <= k2,
    ensures
        ladder(x, k2) == ladder(x, k),
    decreases k2,
{
    if k < k2 {
        lemma_rung_step(k2);
        if k + 1 < k2 {
            lemma_pow2_strictly_increases(k + 1, k2);
        }
        lemma_pow2_unfold(k + 1);
        lemma_ladder_extend(x, k, (k2 - 1) as nat);
    }
}

/// The peak map and height of any index are those of the walk over all 64
/// rungs.
proof fn lemma_map_of_full_walk(x: u64)
    ensures
        peak_height_map_spec(x as nat) == ladder(x as nat, 64),
{
    lemma_bit_len_leading_zeros(x);
    reveal(u64_leading_zeros);
    lemma_ladder_extend(x as nat, bit_len(x as nat), 64);
}

/// An index no larger than `2^(k+1) - 3` has a height below `k`.
proof fn lemma_height_below_top(x: nat, k: nat)
    requires
        k > 0,
        x + 3 <= pow2(k + 1),
    ensures
        ladder(x, k).1 < k,
{
    lemma_rung_step(k + 1);
    lemma_rung_step(k);
    let km1 = (k - 1) as nat;
    if x >= rung(k) {
        lemma_ladder_rem_bound((x - rung(k)) as nat, km1, -1);
    } else {
        lemma_ladder_rem_bound(x, km1, -1);
    }
}

/// Every position from 1 up to but excluding `u64::MAX` has its parent
/// within the range of `u64`: all of them lie in the tree of height 63
/// whose root is `u64::MAX`.
pub proof fn lemma_parent_in_range(pos: u64)
    requires
        1 <= pos < u64::MAX,
    ensures
        family_exact(pos).0 <= u64::MAX,
{
    let x = (pos - 1) as u64;
    lemma_map_of_full_walk(x);
    lemma2_to64_rest();
    lemma_rung_step(64);
    lemma_rung_step(65);
    lemma_pow2_unfold(64);
    assert(ladder(x as nat, 64) == ladder(x as nat, 63));
    lemma_height_below_top(x as nat, 63);
    let (m, h) = ladder(x as nat, 63);
    if !has_bit(m, h) {
        lemma_left_shift(x as nat, 63);
        lemma_rung_step(h + 1);
        lemma_pow2_unfold(h + 1);
        let y = x + rung(h + 1);
        if y + 1 == rung(64) {
            lemma_ladder_full(63, -1);
        }
    }
}

/// Family is symmetric: the sibling of `pos` has the same parent, and `pos`
/// as its sibling, for every position from 1 up to but excluding
/// `u64::MAX`.
pub proof fn lemma_family_symmetric(pos: u64)
    requires
        1 <= pos < u64::MAX,
    ensures
        family_spec(pos).1 >= 1,
        family_spec(family_spec(pos).1) == (family_spec(pos).0, pos),
{
    lemma_parent_in_range(pos);
    let x = (pos - 1) as u64;
    lemma_map_of_full_walk(x);
    lemma_height_bound(x);
    let (m, h) = ladder(x as nat, 64);
    lemma2_to64_rest();
    lemma_rung_step(65);
    lemma_rung_step(h + 1);
    lemma_pow2_unfold(65);
    if has_bit(m, h) {
        lemma_right_shift(x as nat, 64);
        let y = (x - rung(h + 1)) as u64;
        lemma_map_of_full_walk(y);
        if m < pow2(h) {
            lemma_has_bit_high(m, h, h);
        }
        lemma_has_bit_flip((m - pow2(h)) as nat, h);
        assert(family_spec(pos).1 == y + 1);
        assert(index_of((y + 1) as u64) == y);
    } else {
        lemma_left_shift(x as nat, 64);
        let y = (x + rung(h + 1)) as u64;
        lemma_map_of_full_walk(y);
        lemma_has_bit_flip(m, h);
        assert(family_spec(pos).1 == y + 1);
        assert(index_of((y + 1) as u64) == y);
    }
}

/// One more than an index whose height is at least the number of rungs has
/// the same map and a height one more.
proof fn lemma_ladder_succ_top(y: nat, j: nat)
    requires
        ladder(y, j).1 >= j,
    ensures
        ladder(y + 1, j) == (ladder(y, j).0, ladder(y, j).1 + 1),
    decreases j,
{
    if j > 0 {
        let jm1 = (j - 1) as nat;
        lemma_rung_step(j);
        lemma_pow2_unfold(j);
        if y >= rung(j) {
            lemma_ladder_succ_top((y - rung(j)) as nat, jm1);
            assert((y + 1) - rung(j) == (y - rung(j)) + 1);
        } else {
            lemma_ladder_rem_bound(y, jm1, -1);
        }
    }
}

/// The index after a right child of height `h` is its parent: same map,
/// height `h + 1`.
proof fn lemma_up_shift(x: nat, k: nat)
    requires
        x < rung(k + 1),
        has_bit(ladder(x, k).0, ladder(x, k).1),
    ensures
        ladder(x + 1, k) == (ladder(x, k).0, ladder(x, k).1 + 1),
    decreases k,
{
    let km1 = (k - 1) as nat;
    let r = rung(k);
    let h = ladder(x, k).1;
    lemma_rung_step(k + 1);
    lemma_rung_step(k);
    if k == 0 {
        lemma2_to64();
    } else if x >= r {
        let y = (x - r) as nat;
        let m1 = ladder(y, km1).0;
        lemma_map_bound(y, km1);
        assert((x + 1) - r == y + 1);
        if y == r {
            lemma_ladder_full(km1, 0);
            lemma_has_bit_high(m1 + pow2(km1), h, k);
        } else {
            lemma_ladder_rem_bound(y, km1, -1);
            if h == km1 {
                lemma_ladder_succ_top(y, km1);
            } else {
                lemma_has_bit_add(m1, h, km1);
                lemma_up_shift(y, km1);
            }
        }
    } else {
        lemma_map_bound(x, km1);
        lemma_ladder_rem_bound(x, km1, -1);
        if h >= km1 {
            lemma_has_bit_high(ladder(x, km1).0, h, km1);
        }
        lemma_up_shift(x, km1);
        if x + 1 == r {
            lemma_ladder_full(km1, 0);
        }
    }
}

/// Bits from `h + 1` up are unchanged by adding `2^h` where bit `h` is clear.
proof fn lemma_high_part_add(a: nat, h: nat)
    requires
        !has_bit(a, h),
    ensures
        (a + pow2(h)) / pow2(h + 1) == a / pow2(h + 1),
{
    lemma_pow2_pos(h);
    lemma_pow2_unfold(h + 1);
    let d = pow2(h);
    lemma_hoist_over_denominator(a as int, 1, d);
    lemma_div_denominator(a as int, d as int, 2);
    lemma_div_denominator((a + d) as int, d as int, 2);
}

/// Bits from `h + 1` up agree when those from `h` up do.
proof fn lemma_high_part_shift(a: nat, b: nat, h: nat)
    requires
        a / pow2(h) == b / pow2(h),
    ensures
        a / pow2(h + 1) == b / pow2(h + 1),
{
    lemma_pow2_pos(h);
    lemma_pow2_unfold(h + 1);
    lemma_div_denominator(a as int, pow2(h) as int, 2);
    lemma_div_denominator(b as int, pow2(h) as int, 2);
}

proof fn lemma_climb_family(node: u64, m: nat, h: nat, end: u64)
    requires
        node >= 1,
        peak_height_map_spec(index_of(node)).1 == h,
        peak_height_map_spec(index_of(node)).0 / pow2(h) == m / pow2(h),
    ensures
        ({
            let s = climb(node as int, m, h, end as int);
            &&& s.len() > 0 ==> s[0] == family_spec(node)
            &&& forall|i: int| 0 <= i < s.len() - 1 ==> #[trigger] s[i + 1] == family_spec(s[i].0)
        }),
    decreases end - node,
{
    let x = (node - 1) as u64;
    lemma_map_of_full_walk(x);
    lemma_height_bound(x);
    let mn = ladder(x as nat, 64).0;
    assert(has_bit(mn, h) == has_bit(m, h));
    if node < end {
        let peak = pow2(h);
        lemma_pow2_pos(h);
        lemma_pow2_unfold(h + 1);
        lemma_rung_step(h + 1);
        lemma_rung_step(65);
        lemma2_to64_rest();
        lemma_pow2_unfold(65);
        let parent = if has_bit(m, h) {
            node + 1
        } else {
            node + 2 * peak
        };
        if parent <= end {
            let p = parent as u64;
            if has_bit(m, h) {
                lemma_up_shift(x as nat, 64);
                lemma_map_of_full_walk(node);
                lemma_high_part_shift(mn, m, h);
                assert(index_of(p) == node);
            } else {
                lemma_left_shift(x as nat, 64);
                let y = (x + rung(h + 1)) as nat;
                lemma_has_bit_flip(mn, h);
                lemma_up_shift(y, 64);
                lemma_map_of_full_walk((y + 1) as u64);
                lemma_high_part_add(mn, h);
                lemma_high_part_shift(mn, m, h);
                assert(index_of(p) == y + 1);
            }
            lemma_climb_family(p, m, h + 1, end);
            let s = climb(node as int, m, h, end as int);
            let t = climb(parent, m, h + 1, end as int);
            assert(s.len() == t.len() + 1);
            assert(s[0].0 == p);
            assert forall|i: int| 0 <= i < s.len() - 1 implies #[trigger] s[i + 1] == family_spec(
                s[i].0,
            ) by {
                assert(s[i + 1] == t[i]);
                if i == 0 {
                    assert(t[0] == family_spec(p));
                } else {
                    let k = i - 1;
                    assert(0 <= k < t.len() - 1);
                    assert(t[k + 1] == family_spec(t[k].0));
                    assert(s[i] == t[k]);
                }
            }
        }
    }
}

/// The family path is `family` taken step by step: its first pair is the
/// family of `pos`, and each later pair is the family of the parent before
/// it.
pub proof fn lemma_family_path_steps(pos: u64, end_pos: u64)
    ensures
        family_path_spec(pos, end_pos).len() > 0 ==> family_path_spec(pos, end_pos)[0]
            == family_spec(pos),
        forall|i: int|
            0 <= i < family_path_spec(pos, end_pos).len() - 1 ==> #[trigger] family_path_spec(
                pos,
                end_pos,
            )[i + 1] == family_spec(family_path_spec(pos, end_pos)[i].0),
{
    if pos > 0 {
        lemma_climb_family(pos, peak_height_map_spec(index_of(pos)).0, peak_height_map_spec(index_of(pos)).1, end_pos);
    }
}

} // verus!
