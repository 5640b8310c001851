//! Various utility functions.
use vstd::prelude::*;
use crate::bindings::{chunk_at, chunks_of};
use crate::seqs::{lemma_reverse_concat, lemma_reverse_reverse, lemma_reverse_take};
use crate::text::{all_digits, decimal, is_digit, lemma_decimal, push_decimal, string_of};

verus! {

/// A numeral with a `'` between each group of three digits, counted from the
/// right: `1234567` becomes `1'234'567`.
pub open spec fn grouped_by_thousands(digits: Seq<char>) -> Seq<char>
    decreases digits.len(),
{
    if digits.len() <= 3 {
        digits
    } else {
        grouped_by_thousands(digits.subrange(0, digits.len() - 3)) + seq!['\'']
            + digits.subrange(digits.len() - 3, digits.len() as int)
    }
}

/// The same grouping for a numeral written backwards: groups of three from
/// the left.
spec fn grouped_reversed(r: Seq<char>) -> Seq<char>
    decreases r.len(),
{
    if r.len() <= 3 {
        r
    } else {
        r.take(3) + seq!['\''] + grouped_reversed(r.skip(3))
    }
}

proof fn lemma_grouped_reversed(d: Seq<char>)
    ensures
        grouped_by_thousands(d) == grouped_reversed(d.reverse()).reverse(),
    decreases d.len(),
{
    lemma_reverse_reverse(d);
    if d.len() > 3 {
        let n = d.len() as int;
        let head = d.subrange(0, n - 3);
        let tail = d.subrange(n - 3, n);
        lemma_reverse_take(d, 3);
        lemma_grouped_reversed(head);
        let r = d.reverse();
        lemma_reverse_concat(tail.reverse() + seq!['\''], grouped_reversed(head.reverse()));
        lemma_reverse_concat(tail.reverse(), seq!['\'']);
        lemma_reverse_reverse(tail);
        assert(seq!['\''].reverse() =~= seq!['\'']);
    }
}

/// The difference `a - b` of two coordinates taken as `isize`, as
/// `distance` computes it (`as isize` wraps coordinates beyond `isize::MAX`).
pub open spec fn coordinate_difference(a: usize, b: usize) -> int {
    (a as isize) as int - (b as isize) as int
}

/// The squared distance between two points, from their coordinate
/// differences.
pub open spec fn squared_distance(from: (usize, usize, usize), to: (usize, usize, usize)) -> int {
    let x = coordinate_difference(from.0, to.0);
    let y = coordinate_difference(from.1, to.1);
    let z = coordinate_difference(from.2, to.2);
    x * x + y * y + z * z
}

/// Whether `distance`'s `isize` arithmetic stays in range for these points:
/// the sum of the squares fits in an `isize` (and then so does every
/// difference and every partial sum).
pub open spec fn distance_fits(from: (usize, usize, usize), to: (usize, usize, usize)) -> bool {
    squared_distance(from, to) <= isize::MAX
}

/// The square of the distance between two specified 3-dimensional points,
/// computed as `distance` computes it before its square root: `None` where
/// that `isize` arithmetic would overflow.
pub fn distance_squared(from: (usize, usize, usize), to: (usize, usize, usize)) -> (res: Option<usize>)
    ensures
        res is Some <==> distance_fits(from, to),
        res matches Some(d) ==> d == squared_distance(from, to),
{
    let x: i128 = (from.0 as isize) as i128 - (to.0 as isize) as i128;
    let y: i128 = (from.1 as isize) as i128 - (to.1 as isize) as i128;
    let z: i128 = (from.2 as isize) as i128 - (to.2 as isize) as i128;
    let min: i128 = isize::MIN as i128;
    let max: i128 = isize::MAX as i128;
    assert(x * x >= 0 && y * y >= 0 && z * z >= 0) by (nonlinear_arith);
    if x < min || x > max || y < min || y > max || z < min || z > max {
        assert(x * x > max || y * y > max || z * z > max) by (nonlinear_arith)
            requires
                x < min || x > max || y < min || y > max || z < min || z > max,
                max >= 1,
                min == -max - 1,
        ;
        return None;
    }
    assert(x * x <= 0x4000_0000_0000_0000_0000_0000_0000_0000) by (nonlinear_arith)
        requires
            -0x8000_0000_0000_0000 <= x <= 0x7fff_ffff_ffff_ffff,
    ;
    assert(y * y <= 0x4000_0000_0000_0000_0000_0000_0000_0000) by (nonlinear_arith)
        requires
            -0x8000_0000_0000_0000 <= y <= 0x7fff_ffff_ffff_ffff,
    ;
    assert(z * z <= 0x4000_0000_0000_0000_0000_0000_0000_0000) by (nonlinear_arith)
        requires
            -0x8000_0000_0000_0000 <= z <= 0x7fff_ffff_ffff_ffff,
    ;
    let xx: i128 = x * x;
    if xx > max {
        return None;
    }
    let xy: i128 = xx + y * y;
    if xy > max {
        return None;
    }
    let sum: i128 = xy + z * z;
    if sum > max {
        return None;
    }
    Some(sum as usize)
}

/// The distance is the same both ways: swapping the points changes neither
/// the squared distance nor whether its arithmetic fits.
pub proof fn distance_is_symmetric(from: (usize, usize, usize), to: (usize, usize, usize))
    ensures
        squared_distance(from, to) == squared_distance(to, from),
        distance_fits(from, to) <==> distance_fits(to, from),
{
    let x = coordinate_difference(from.0, to.0);
    let y = coordinate_difference(from.1, to.1);
    let z = coordinate_difference(from.2, to.2);
    assert((-x) * (-x) == x * x) by (nonlinear_arith);
    assert((-y) * (-y) == y * y) by (nonlinear_arith);
    assert((-z) * (-z) == z * z) by (nonlinear_arith);
}

/// The squared distance over the integers, with no wrap-around.
pub open spec fn integer_squared_distance(from: (usize, usize, usize), to: (usize, usize, usize)) -> int {
    let x = from.0 - to.0;
    let y = from.1 - to.1;
    let z = from.2 - to.2;
    x * x + y * y + z * z
}

/// For coordinates that fit in an `isize`, the squared distance is the
/// integer sum of the squared differences; on a 64-bit target, points whose
/// coordinates are at most `2^30` always have their distance computed.
pub proof fn distance_over_the_integers(from: (usize, usize, usize), to: (usize, usize, usize))
    requires
        from.0 <= isize::MAX && from.1 <= isize::MAX && from.2 <= isize::MAX,
        to.0 <= isize::MAX && to.1 <= isize::MAX && to.2 <= isize::MAX,
    ensures
        squared_distance(from, to) == integer_squared_distance(from, to),
        ({
            let small: int = 0x4000_0000;
            isize::MAX == 0x7fff_ffff_ffff_ffff && from.0 <= small && from.1 <= small && from.2 <= small
                && to.0 <= small && to.1 <= small && to.2 <= small
        }) ==> distance_fits(from, to),
{
    assert((from.0 as isize) as int == from.0 && (to.0 as isize) as int == to.0);
    assert((from.1 as isize) as int == from.1 && (to.1 as isize) as int == to.1);
    assert((from.2 as isize) as int == from.2 && (to.2 as isize) as int == to.2);
    let x = from.0 - to.0;
    let y = from.1 - to.1;
    let z = from.2 - to.2;
    if -0x4000_0000 <= x <= 0x4000_0000 && -0x4000_0000 <= y <= 0x4000_0000 && -0x4000_0000 <= z <= 0x4000_0000 {
        assert(x * x + y * y + z * z <= 3 * 0x1000_0000_0000_0000) by (nonlinear_arith)
            requires
                -0x4000_0000 <= x <= 0x4000_0000,
                -0x4000_0000 <= y <= 0x4000_0000,
                -0x4000_0000 <= z <= 0x4000_0000,
        ;
    }
}

/// A point is at distance zero from itself.
pub proof fn distance_to_itself(p: (usize, usize, usize))
    ensures
        squared_distance(p, p) == 0,
        distance_fits(p, p),
{
    assert(0int * 0int == 0) by (nonlinear_arith);
}

/// The number of bits set in `n`.
pub open spec fn ones(n: nat) -> nat
    decreases n,
{
    if n == 0 {
        0
    } else {
        n % 2 + ones(n / 2)
    }
}

/// The 8-bit level of one colour channel in PRGB1555: the top five bits of
/// `level` moved two places down, with the P bit as the top bit.
pub open spec fn prgb1555_channel(level: u8, p_bit: bool) -> nat {
    ((level / 8) * 4 + if p_bit { 128int } else { 0int }) as nat
}

fn channel_1555(level: u8, p_mask: u8) -> (res: u8)
    requires
        p_mask == 0 || p_mask == 128,
    ensures
        res == prgb1555_channel(level, p_mask == 128),
{
    let shifted: u8 = (level >> 3) << 2;
    assert(shifted == (level / 8) * 4 && shifted < 128) by (bit_vector)
        requires
            shifted == (level >> 3) << 2,
    ;
    assert(shifted | p_mask == shifted + p_mask) by (bit_vector)
        requires
            shifted < 128,
            shifted % 4 == 0,
            p_mask == 0 || p_mask == 128,
    ;
    shifted | p_mask
}

/// The RGB levels of a PRGB1555 point given as the 8-bit levels
/// `[p, r, g, b]`, the P bit being the lowest bit of `p`.
pub fn prgb1555_levels(levels: [u8; 4]) -> (rgb: [u8; 3])
    ensures
        forall|i: int| 0 <= i < 3 ==> #[trigger] rgb[i] == prgb1555_channel(levels[i + 1], levels[0] % 2 == 1),
{
    let p: u8 = levels[0];
    let p_mask: u8 = (p & 1) << 7;
    assert(p_mask == if p % 2 == 1 { 128u8 } else { 0u8 }) by (bit_vector)
        requires
            p_mask == (p & 1) << 7,
    ;
    [channel_1555(levels[1], p_mask), channel_1555(levels[2], p_mask), channel_1555(levels[3], p_mask)]
}

/// `ones` counts the bits set: none in 0, doubling adds no bit, and doubling
/// and adding one adds exactly one; so a power of two has one bit set.
pub proof fn ones_counts_set_bits(n: nat, k: nat)
    ensures
        ones(0) == 0,
        ones(2 * n) == ones(n),
        ones(2 * n + 1) == ones(n) + 1,
        ones(vstd::arithmetic::power2::pow2(k)) == 1,
    decreases k,
{
    if n > 0 {
        assert((2 * n) / 2 == n && (2 * n) % 2 == 0);
    }
    assert((2 * n + 1) / 2 == n && (2 * n + 1) % 2 == 1);
    vstd::arithmetic::power2::lemma_pow2_pos(k);
    if k == 0 {
        vstd::arithmetic::power2::lemma2_to64();
        assert(ones(1) == 1 + ones(0));
    } else {
        ones_counts_set_bits(n, (k - 1) as nat);
        vstd::arithmetic::power2::lemma_pow2_unfold(k);
        let h = vstd::arithmetic::power2::pow2((k - 1) as nat);
        vstd::arithmetic::power2::lemma_pow2_pos((k - 1) as nat);
        assert((2 * h) / 2 == h && (2 * h) % 2 == 0);
    }
}

proof fn lemma_ones_bound(n: nat)
    ensures
        ones(n) <= n,
    decreases n,
{
    if n > 0 {
        lemma_ones_bound(n / 2);
    }
}

/// The number of bits set in `n`.
fn count_ones(n: u8) -> (count: u32)
    ensures
        count == ones(n as nat),
{
    let mut rest = n;
    let mut count: u32 = 0;
    proof {
        lemma_ones_bound(n as nat);
    }
    while rest != 0
        invariant
            count + ones(rest as nat) == ones(n as nat),
            ones(n as nat) <= 255,
        decreases rest,
    {
        count += (rest % 2) as u32;
        rest = rest / 2;
    }
    count
}

/// The RGB levels of a PRGB1555 point given as the 8-bit levels
/// `[p, r, g, b]`, the P bit being set when at least six bits of `p` are.
pub fn prgb1555_least6_levels(levels: [u8; 4]) -> (rgb: [u8; 3])
    ensures
        forall|i: int| 0 <= i < 3 ==> #[trigger] rgb[i] == prgb1555_channel(levels[i + 1], ones(levels[0] as nat) >= 6),
{
    let p_mask: u8 = if count_ones(levels[0]) >= 6 { 128 } else { 0 };
    [channel_1555(levels[1], p_mask), channel_1555(levels[2], p_mask), channel_1555(levels[3], p_mask)]
}

/// `s` with every `'` taken out.
pub open spec fn without_separators(s: Seq<char>) -> Seq<char> {
    s.filter(|c: char| c != '\'')
}

proof fn lemma_without_separators_digits(d: Seq<char>)
    requires
        all_digits(d),
    ensures
        without_separators(d) == d,
    decreases d.len(),
{
    reveal(Seq::filter);
    if d.len() > 0 {
        assert(all_digits(d.drop_last())) by {
            assert forall|i: int| 0 <= i < d.drop_last().len() implies is_digit(#[trigger] d.drop_last()[i]) by {
                assert(d.drop_last()[i] == d[i]);
            }
        }
        lemma_without_separators_digits(d.drop_last());
        assert(is_digit(d[d.len() - 1]));
        assert(d.drop_last().push(d.last()) =~= d);
    }
}

proof fn lemma_grouped_digits(d: Seq<char>)
    requires
        all_digits(d),
    ensures
        without_separators(grouped_by_thousands(d)) == d,
        ({
            let g = grouped_by_thousands(d);
            forall|j: int| 0 <= j < g.len() ==> (#[trigger] g[j] == '\'' <==> (j > 0 && (g.len() - j) % 4 == 0))
        }),
        d.len() >= 1 ==> grouped_by_thousands(d).len() == d.len() + (d.len() - 1) / 3,
    decreases d.len(),
{
    let g = grouped_by_thousands(d);
    if d.len() <= 3 {
        lemma_without_separators_digits(d);
        assert forall|j: int| 0 <= j < g.len() implies (#[trigger] g[j] == '\'' <==> (j > 0 && (g.len() - j) % 4 == 0)) by {
            assert(is_digit(d[j]));
        }
    } else {
        let n = d.len() as int;
        let head = d.subrange(0, n - 3);
        let tail = d.subrange(n - 3, n);
        assert(all_digits(head)) by {
            assert forall|i: int| 0 <= i < head.len() implies is_digit(#[trigger] head[i]) by {
                assert(head[i] == d[i]);
            }
        }
        assert(all_digits(tail)) by {
            assert forall|i: int| 0 <= i < tail.len() implies is_digit(#[trigger] tail[i]) by {
                assert(tail[i] == d[n - 3 + i]);
            }
        }
        lemma_grouped_digits(head);
        lemma_without_separators_digits(tail);
        let gh = grouped_by_thousands(head);
        let sep = seq!['\''];
        assert(without_separators(sep) =~= Seq::<char>::empty()) by {
            reveal_with_fuel(Seq::filter, 2);
            assert(sep.drop_last() =~= Seq::<char>::empty());
        }
        Seq::filter_distributes_over_add(gh + sep, tail, |c: char| c != '\'');
        Seq::filter_distributes_over_add(gh, sep, |c: char| c != '\'');
        assert(head + tail =~= d);
        assert forall|j: int| 0 <= j < g.len() implies (#[trigger] g[j] == '\'' <==> (j > 0 && (g.len() - j) % 4 == 0)) by {
            if j < gh.len() {
                assert(g[j] == gh[j]);
                assert((g.len() - j) % 4 == (gh.len() - j) % 4);
            } else if j > gh.len() {
                assert(g[j] == tail[j - gh.len() - 1]);
                assert(is_digit(tail[j - gh.len() - 1]));
            }
        }
    }
}

/// Taking the separators out of `separated_number(num)` leaves the plain
/// decimal numeral of `num`: grouping only inserts separators.
pub proof fn separated_number_keeps_digits(num: u64)
    ensures
        without_separators(grouped_by_thousands(decimal(num as nat))) == decimal(num as nat),
{
    lemma_decimal(num as nat);
    lemma_grouped_digits(decimal(num as nat));
}

/// In `separated_number(num)` a separator stands exactly at the positions
/// that leave a positive multiple of four characters (three digits and the
/// separator itself) up to the end, so the digits come in groups of three
/// counted from the right; it adds one separator per full group of three
/// beyond the first digit.
pub proof fn separated_number_groups_of_three(num: u64)
    ensures
        ({
            let d = decimal(num as nat);
            let g = grouped_by_thousands(d);
            &&& g.len() == d.len() + (d.len() - 1) / 3
            &&& forall|j: int| 0 <= j < g.len() ==> (#[trigger] g[j] == '\'' <==> (j > 0 && (g.len() - j) % 4 == 0))
        }),
{
    lemma_decimal(num as nat);
    lemma_grouped_digits(decimal(num as nat));
}

/// The reverse of `v[..n]`.
fn reversed_prefix(v: &Vec<char>, n: usize) -> (res: Vec<char>)
    requires
        n <= v.len(),
    ensures
        res@ == v@.take(n as int).reverse(),
{
    let mut res: Vec<char> = Vec::new();
    let mut i: usize = n;
    while i > 0
        invariant
            i <= n <= v.len(),
            res@ =~= v@.subrange(i as int, n as int).reverse(),
        decreases i,
    {
        i -= 1;
        res.push(v[i]);
    }
    res
}

/// Convert the specified number to a string in the form "1'234'567".
///
/// The digits are grouped by three from the right with `itertools`' chunking
/// of the reversed numeral.
pub fn separated_number(num: u64) -> (res: String)
    ensures
        res@ == grouped_by_thousands(decimal(num as nat)),
{
    let mut digits: Vec<char> = Vec::new();
    push_decimal(&mut digits, num);
    assert(digits@ =~= decimal(num as nat));
    proof {
        crate::text::lemma_decimal(num as nat);
    }
    let reversed = reversed_prefix(&digits, digits.len());
    assert(digits@.take(digits.len() as int) =~= digits@);
    let ghost r = reversed@;
    let len: usize = reversed.len();
    let chunks = chunks_of(reversed, 3);
    let mut folded: Vec<char> = Vec::new();
    let mut k: usize = 0;
    assert(r.skip(0) =~= r);
    assert(folded@ + grouped_reversed(r) + seq!['\''] =~= grouped_reversed(r) + seq!['\'']);
    while k < chunks.len()
        invariant
            r.len() == len >= 1,
            chunks.len() * 3 >= len,
            chunks.len() * 3 < len + 3,
            forall|j: int| 0 <= j < chunks.len() ==> #[trigger] chunks[j]@ == chunk_at(r, 3, j),
            k <= chunks.len(),
            k < chunks.len() ==> 3 * k < len && folded@ + grouped_reversed(r.skip(3 * k))
                + seq!['\''] == grouped_reversed(r) + seq!['\''],
            k == chunks.len() ==> folded@ == grouped_reversed(r) + seq!['\''],
        decreases chunks.len() - k,
    {
        let ghost before = folded@;
        let ghost t = r.skip(3 * k);
        let chunk = &chunks[k];
        assert(chunk@ == chunk_at(r, 3, k as int));
        let mut i: usize = 0;
        while i < chunk.len()
            invariant
                i <= chunk.len(),
                folded@ == before + chunk@.take(i as int),
            decreases chunk.len() - i,
        {
            folded.push(chunk[i]);
            assert(chunk@.take(i + 1) =~= chunk@.take(i as int).push(chunk@[i as int]));
            i += 1;
        }
        assert(chunk@.take(chunk.len() as int) =~= chunk@);
        folded.push('\'');
        proof {
        if t.len() > 3 {
            assert(chunk@ =~= t.take(3));
            assert(t.skip(3) =~= r.skip(3 * (k + 1)));
            assert(grouped_reversed(t) == t.take(3) + seq!['\''] + grouped_reversed(t.skip(3)));
            assert(folded@ + grouped_reversed(r.skip(3 * (k + 1))) + seq!['\'']
                =~= before + grouped_reversed(t) + seq!['\'']);
        } else {
            assert(chunk@ =~= t);
            assert(folded@ =~= before + grouped_reversed(t) + seq!['\'']);
        }
        }
        k += 1;
    }
    let n: usize = folded.len() - 1;
    let unreversed = reversed_prefix(&folded, n);
    proof {
        assert(folded@.take(n as int) =~= grouped_reversed(r));
        lemma_grouped_reversed(decimal(num as nat));
    }
    string_of(&unreversed)
}

} // verus!
