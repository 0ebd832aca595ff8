//! Morton (Z-order) keys: interleaving the bits of two 16-bit grid coordinates.
use vstd::prelude::*;

verus! {

/// Bit `i` of `x`.
pub open spec fn bit(x: u32, i: u32) -> bool {
    (x >> i) & 1u32 == 1u32
}

/// Bit `2i` of `x`.
pub open spec fn even_bit(x: u32, i: u32) -> bool {
    (x >> (2 * i) as u32) & 1u32 == 1u32
}

/// Bit `2i + 1` of `x`.
pub open spec fn odd_bit(x: u32, i: u32) -> bool {
    (x >> (2 * i + 1) as u32) & 1u32 == 1u32
}

/// `r` holds the low 16 bits of `x` at its even positions and zero at its odd ones.
pub open spec fn is_spread(r: u32, x: u32) -> bool {
    &&& forall|i: u32| i < 16 ==> #[trigger] even_bit(r, i) == bit(x, i)
    &&& forall|i: u32| i < 16 ==> !#[trigger] odd_bit(r, i)
}

/// `k` holds the low 16 bits of `ix` at its even positions and those of `iy` at its odd ones.
pub open spec fn is_interleaving(k: u32, ix: u32, iy: u32) -> bool {
    forall|i: u32| i < 16 ==> #[trigger] even_bit(k, i) == bit(ix, i) && odd_bit(k, i) == bit(iy, i)
}

/// The even bits of `k`, packed into the low 16 bits.
pub open spec fn compact_bits(k: u32) -> u32 {
    let x0 = k & 0x5555_5555u32;
    let x1 = (x0 ^ (x0 >> 1u32)) & 0x3333_3333u32;
    let x2 = (x1 ^ (x1 >> 2u32)) & 0x0F0F_0F0Fu32;
    let x3 = (x2 ^ (x2 >> 4u32)) & 0x00FF_00FFu32;
    (x3 ^ (x3 >> 8u32)) & 0x0000_FFFFu32
}

/// Clamps `v` into `[lo, hi]` and returns it as a `u32`.
pub fn clamp_u32(v: i64, lo: i64, hi: i64) -> (r: u32)
    requires
        0 <= lo <= hi <= u32::MAX,
    ensures
        r == (if v < lo { lo } else if v > hi { hi } else { v }),
{
    if v < lo {
        lo as u32
    } else if v > hi {
        hi as u32
    } else {
        v as u32
    }
}

/// "Part 1 by 1": moves bit `i` of the low 16 bits of `x` to bit `2i`; odd bits are zero.
pub fn part1by1(x: u32) -> (r: u32)
    ensures
        is_spread(r, x),
        r & 0xAAAA_AAAAu32 == 0,
        compact_bits(r) == x & 0xFFFFu32,
{
    let x0 = x & 0x0000_FFFF;
    let x1 = (x0 | (x0 << 8u32)) & 0x00FF_00FF;
    let x2 = (x1 | (x1 << 4u32)) & 0x0F0F_0F0F;
    let x3 = (x2 | (x2 << 2u32)) & 0x3333_3333;
    let x4 = (x3 | (x3 << 1u32)) & 0x5555_5555;
    assert(forall|i: u32| i < 16 ==> ((#[trigger] (x4 >> ((2 * i) as u32))) & 1u32 == 1u32) == ((x >> i) & 1u32 == 1u32)) by (bit_vector)
        requires
            x0 == x & 0x0000_FFFF,
            x1 == (x0 | (x0 << 8u32)) & 0x00FF_00FF,
            x2 == (x1 | (x1 << 4u32)) & 0x0F0F_0F0F,
            x3 == (x2 | (x2 << 2u32)) & 0x3333_3333,
            x4 == (x3 | (x3 << 1u32)) & 0x5555_5555,
    ;
    assert(forall|i: u32| i < 16 ==> !((#[trigger] (x4 >> ((2 * i + 1) as u32))) & 1u32 == 1u32)) by (bit_vector)
        requires
            x4 == (x3 | (x3 << 1u32)) & 0x5555_5555,
    ;
    assert(x4 & 0xAAAA_AAAAu32 == 0) by (bit_vector)
        requires
            x4 == (x3 | (x3 << 1u32)) & 0x5555_5555,
    ;
    assert(compact_bits(x4) == x & 0xFFFFu32) by (bit_vector)
        requires
            x0 == x & 0x0000_FFFF,
            x1 == (x0 | (x0 << 8u32)) & 0x00FF_00FF,
            x2 == (x1 | (x1 << 4u32)) & 0x0F0F_0F0F,
            x3 == (x2 | (x2 << 2u32)) & 0x3333_3333,
            x4 == (x3 | (x3 << 1u32)) & 0x5555_5555,
    ;
    x4
}

/// The Morton key of the grid coordinates `(ix, iy)`: `ix` on the even bits, `iy` on the odd.
#[allow(non_snake_case)]
pub fn morton2D(ix: u32, iy: u32) -> (r: u32)
    ensures
        is_interleaving(r, ix, iy),
        compact_bits(r) == ix & 0xFFFFu32,
        compact_bits(r >> 1u32) == iy & 0xFFFFu32,
{
    let px = part1by1(ix);
    let py = part1by1(iy);
    let r = px | (py << 1u32);
    assert(is_interleaving(r, ix, iy)) by {
        assert forall|i: u32| i < 16 implies #[trigger] even_bit(r, i) == bit(ix, i) && odd_bit(r, i) == bit(iy, i) by {
            assert(even_bit(px, i) == bit(ix, i) && !odd_bit(px, i));
            assert(even_bit(py, i) == bit(iy, i) && !odd_bit(py, i));
            assert(((r >> ((2 * i) as u32)) & 1u32 == 1u32) == ((px >> ((2 * i) as u32)) & 1u32 == 1u32)
                && ((r >> ((2 * i + 1) as u32)) & 1u32 == 1u32) == ((py >> ((2 * i) as u32)) & 1u32 == 1u32)) by (bit_vector)
                requires
                    r == px | (py << 1u32),
                    i < 16,
                    px & 0xAAAA_AAAAu32 == 0,
                    py & 0xAAAA_AAAAu32 == 0,
            ;
        }
    }
    assert(compact_bits(r) == compact_bits(px) && compact_bits(r >> 1u32) == compact_bits(py)) by (bit_vector)
        requires
            r == px | (py << 1u32),
            px & 0xAAAA_AAAAu32 == 0,
            py & 0xAAAA_AAAAu32 == 0,
    ;
    r
}

/// `p` comes no later than `q` when pairs are compared by key, then by index.
pub open spec fn pair_le(p: (u32, usize), q: (u32, usize)) -> bool {
    p.0 < q.0 || (p.0 == q.0 && p.1 <= q.1)
}

/// Relies on `slice::sort_unstable`: the pairs come out in ascending order (tuples
/// compare lexicographically) and are a rearrangement of the pairs that went in.
#[verifier::external_body]
fn sort_pairs(v: &mut Vec<(u32, usize)>)
    ensures
        final(v)@.to_multiset() == old(v)@.to_multiset(),
        forall|a: int, b: int| 0 <= a < b < final(v)@.len() ==> pair_le(#[trigger] final(v)@[a], #[trigger] final(v)@[b]),
{
    v.sort_unstable();
}

/// The indices `0..keys.len()` rearranged so that keys never decrease along them;
/// equal keys keep their indices in increasing order.
pub fn morton_order(keys: &Vec<u32>) -> (r: Vec<usize>)
    ensures
        r@.len() == keys@.len(),
        r@.no_duplicates(),
        forall|k: int| 0 <= k < r@.len() ==> #[trigger] r@[k] < keys@.len(),
        forall|a: int, b: int| 0 <= a < b < r@.len() ==> keys@[#[trigger] r@[a] as int] < keys@[#[trigger] r@[b] as int]
            || (keys@[r@[a] as int] == keys@[r@[b] as int] && r@[a] < r@[b]),
{
    broadcast use vstd::seq_lib::to_multiset_contains, vstd::seq_lib::to_multiset_len;
    let mut pairs: Vec<(u32, usize)> = Vec::new();
    let mut i: usize = 0;
    while i < keys.len()
        invariant
            i <= keys.len(),
            pairs@.len() == i,
            forall|j: int| 0 <= j < i ==> #[trigger] pairs@[j] == (keys@[j], j as usize),
        decreases keys.len() - i,
    {
        pairs.push((keys[i], i));
        i += 1;
    }
    let ghost unsorted = pairs@;
    proof {
        assert forall|a: int, b: int| 0 <= a < unsorted.len() && 0 <= b < unsorted.len() && a != b implies unsorted[a] != unsorted[b] by {
            assert(unsorted[a].1 == a && unsorted[b].1 == b);
        }
        assert(unsorted.no_duplicates());
        unsorted.lemma_multiset_has_no_duplicates();
    }
    sort_pairs(&mut pairs);
    proof {
        assert(pairs@.to_multiset().len() == unsorted.len());
        pairs@.lemma_multiset_has_no_duplicates_conv();
        assert forall|k: int| 0 <= k < pairs@.len() implies #[trigger] pairs@[k] == (keys@[pairs@[k].1 as int], pairs@[k].1)
            && pairs@[k].1 < keys@.len() by {
            assert(pairs@.contains(pairs@[k]));
            assert(pairs@.to_multiset().count(pairs@[k]) > 0);
            assert(unsorted.contains(pairs@[k]));
        }
    }
    let mut r: Vec<usize> = Vec::new();
    let mut j: usize = 0;
    while j < pairs.len()
        invariant
            j <= pairs@.len(),
            pairs@.len() == keys@.len(),
            pairs@.no_duplicates(),
            forall|k: int| 0 <= k < pairs@.len() ==> #[trigger] pairs@[k] == (keys@[pairs@[k].1 as int], pairs@[k].1)
                && pairs@[k].1 < keys@.len(),
            r@.len() == j,
            forall|k: int| 0 <= k < j ==> #[trigger] r@[k] == pairs@[k].1,
        decreases pairs@.len() - j,
    {
        r.push(pairs[j].1);
        j += 1;
    }
    proof {
        assert forall|a: int, b: int| 0 <= a < r@.len() && 0 <= b < r@.len() && a != b implies r@[a] != r@[b] by {
            assert(pairs@[a] != pairs@[b]);
        }
        assert forall|a: int, b: int| 0 <= a < b < r@.len() implies keys@[#[trigger] r@[a] as int] < keys@[#[trigger] r@[b] as int]
            || (keys@[r@[a] as int] == keys@[r@[b] as int] && r@[a] < r@[b]) by {
            assert(pair_le(pairs@[a], pairs@[b]));
            assert(pairs@[a] != pairs@[b]);
        }
    }
    r
}

/// Round trip of the Morton key: the key built from the even bits and from the odd bits
/// of any `k` (each packed into 16 bits) is `k` itself.
pub proof fn lemma_morton_round_trip(k: u32, r: u32)
    requires
        compact_bits(r) == compact_bits(k) & 0xFFFFu32,
        compact_bits(r >> 1u32) == compact_bits(k >> 1u32) & 0xFFFFu32,
    ensures
        r == k,
        compact_bits(k) < 0x1_0000,
        compact_bits(k >> 1u32) < 0x1_0000,
{
    assert(r == k && compact_bits(k) < 0x1_0000 && compact_bits(k >> 1u32) < 0x1_0000) by (bit_vector)
        requires
            compact_bits(r) == compact_bits(k) & 0xFFFFu32,
            compact_bits(r >> 1u32) == compact_bits(k >> 1u32) & 0xFFFFu32,
    ;
}

} // verus!
