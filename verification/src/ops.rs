//! Main functions doing actual work.
//!
//! # The Tonči Juričev-Grgin mandala generation method
//!
//! First, choose a corner.
use vstd::prelude::*;
use image::DynamicImage;
use crate::bindings::{blank_rgb8, new_rgb8};
use crate::options::{parse_size_reads_back, size_text, spec_parse_size};
pub mod gen_ctx;

pub use self::gen_ctx::GenerationContext;

use crate::text::{
    all_digits, decimal, digit_value, digits_value, is_digit, lemma_decimal, push_decimal, push_chars, zero_padded,
};


verus! {

/// `10` to the power `k`.
pub open spec fn pow10(k: nat) -> nat
    decreases k,
{
    if k == 0 {
        1
    } else {
        10 * pow10((k - 1) as nat)
    }
}

/// The exponent of the closest power of ten upwards from `n`: the least `k`
/// with `10^k >= n`.
pub open spec fn ceil_log10(n: nat) -> nat
    decreases n,
{
    if n <= 1 {
        0
    } else {
        1 + ceil_log10(((n + 9) / 10) as nat)
    }
}

/// The number of pixels of a canvas of the given size.
pub open spec fn volume(size: (usize, usize, usize)) -> nat {
    (size.0 * size.1 * size.2) as nat
}

proof fn lemma_pow10_positive(k: nat)
    ensures
        pow10(k) >= 1,
    decreases k,
{
    if k > 0 {
        lemma_pow10_positive((k - 1) as nat);
    }
}

proof fn lemma_pow10_monotone(j: nat, k: nat)
    ensures
        j <= k ==> pow10(j) <= pow10(k),
        j < k ==> pow10(j) < pow10(k),
    decreases k,
{
    lemma_pow10_positive(k);
    if k > 0 {
        lemma_pow10_monotone(j, (k - 1) as nat);
    }
}

proof fn lemma_ceil_log10(n: nat)
    ensures
        pow10(ceil_log10(n)) >= n,
        ceil_log10(n) > 0 ==> pow10((ceil_log10(n) - 1) as nat) < n,
    decreases n,
{
    if n > 1 {
        let m = ((n + 9) / 10) as nat;
        lemma_ceil_log10(m);
        if ceil_log10(m) > 0 {
            assert(pow10((ceil_log10(n) - 1) as nat) == 10 * pow10((ceil_log10(m) - 1) as nat));
        }
    }
}

proof fn lemma_pow10_18()
    ensures
        pow10(18) == 1_000_000_000_000_000_000,
{
    reveal_with_fuel(pow10, 19);
}

/// `10^ceil_log10(n)` is the closest power of ten upwards from `n`: it is at
/// least `n`, and so is no power of ten below it.
pub proof fn ceil_log10_is_least(n: nat, k: nat)
    ensures
        pow10(ceil_log10(n)) >= n,
        pow10(k) >= n ==> ceil_log10(n) <= k,
        n >= 1 ==> pow10(ceil_log10(n)) < 10 * n,
{
    lemma_ceil_log10(n);
    if pow10(k) >= n && ceil_log10(n) > k {
        lemma_pow10_monotone(k, (ceil_log10(n) - 1) as nat);
    }
    if n >= 1 && ceil_log10(n) > 0 {
        assert(pow10(ceil_log10(n)) == 10 * pow10((ceil_log10(n) - 1) as nat));
    }
}

/// The number of points to generate covers every pixel at least ten times
/// and at most a hundred times (for a canvas that has pixels, of at most
/// `10^18` of them).
pub proof fn points_cover_each_pixel(size: (usize, usize, usize))
    requires
        volume(size) <= 1_000_000_000_000_000_000,
    ensures
        points_for_volume(volume(size)) >= 10 * volume(size),
        volume(size) >= 1 ==> points_for_volume(volume(size)) < 100 * volume(size),
{
    ceil_log10_is_least(volume(size), 0);
}

/// The largest volume that `points_to_generate` takes: the volume is read
/// as an `f64`, which rounds every volume up to `10^18 + 64` to `10^18`;
/// above that the count would be `10^20`, past `u64`.
pub open spec fn largest_volume() -> nat {
    1_000_000_000_000_000_064
}

/// The number of points generated for a canvas of `n` pixels: the closest
/// power of ten upwards from `n`, times ten; volumes just above `10^18`,
/// which the `f64` reading of the volume rounds to `10^18`, get `10^19`.
pub open spec fn points_for_volume(n: nat) -> nat {
    if n <= 1_000_000_000_000_000_000 {
        10 * pow10(ceil_log10(n))
    } else {
        10_000_000_000_000_000_000
    }
}

/// Check how many points need generating to acquire a smooth image for the given size.
///
/// This might not be 100% accurate but will try to be over- rather than underzealous:
/// it is the closest power of ten upwards from the canvas' volume, times ten.
pub fn points_to_generate(size: (usize, usize, usize)) -> (res: u64)
    requires
        size.0 * size.1 <= usize::MAX,
        size.0 * size.1 * size.2 <= usize::MAX,
        size.0 * size.1 * size.2 <= largest_volume(),
    ensures
        res == points_for_volume(volume(size)),
{
    let n: usize = size.0 * size.1 * size.2;
    if (n as u128) > 1_000_000_000_000_000_000u128 {
        return 10_000_000_000_000_000_000;
    }
    let ghost c = ceil_log10(n as nat);
    proof {
        lemma_pow10_18();
        ceil_log10_is_least(n as nat, 18);
        lemma_pow10_monotone(c, 18);
    }
    let mut p: u64 = 1;
    let ghost mut k: nat = 0;
    while (p as u128) < (n as u128)
        invariant
            p == pow10(k),
            k <= c,
            c == ceil_log10(n as nat),
            pow10(c) <= 1_000_000_000_000_000_000,
        decreases c - k,
    {
        proof {
            ceil_log10_is_least(n as nat, k);
            lemma_pow10_monotone(k + 1, c);
        }
        p = p * 10;
        proof {
            k = k + 1;
        }
    }
    proof {
        ceil_log10_is_least(n as nat, k);
        lemma_pow10_monotone(c, k);
    }
    p * 10
}

/// The characters `mandala-` that start every saved file's name.
pub open spec fn file_name_prefix() -> Seq<char> {
    seq!['m', 'a', 'n', 'd', 'a', 'l', 'a', '-']
}

/// The extension `.png` that ends every saved file's name.
pub open spec fn file_name_suffix() -> Seq<char> {
    seq!['.', 'p', 'n', 'g']
}

/// `mandala-WxHxD-NNNNN.png`: the canvas size in decimal, then the layer
/// index padded with zeros to at least five digits.
pub open spec fn mandala_file_name(size: (usize, usize, usize), z: usize) -> Seq<char> {
    file_name_prefix() + decimal(size.0 as nat) + seq!['x'] + decimal(size.1 as nat) + seq!['x']
        + decimal(size.2 as nat) + seq!['-'] + zero_padded(decimal(z as nat), 5) + file_name_suffix()
}

/// Appends the decimal numeral of `n`, left-padded with `0` to at least
/// `width` digits, to `out`.
fn push_zero_padded(out: &mut Vec<char>, n: u64, width: usize)
    ensures
        final(out)@ == old(out)@ + zero_padded(decimal(n as nat), width as nat),
{
    let mut digits: Vec<char> = Vec::new();
    push_decimal(&mut digits, n);
    assert(digits@ =~= decimal(n as nat));
    let mut pad: usize = digits.len();
    while pad < width
        invariant
            digits.len() <= pad <= width || (pad == digits.len() && pad >= width),
            out@ == old(out)@ + Seq::new((pad - digits.len()) as nat, |_i: int| '0'),
        decreases width - pad,
    {
        out.push('0');
        assert(out@ =~= old(out)@ + Seq::new((pad + 1 - digits.len()) as nat, |_i: int| '0'));
        pad += 1;
    }
    let ghost zeros = out@;
    let mut i: usize = 0;
    while i < digits.len()
        invariant
            i <= digits.len(),
            out@ == zeros + digits@.take(i as int),
        decreases digits.len() - i,
    {
        out.push(digits[i]);
        assert(digits@.take(i + 1) =~= digits@.take(i as int).push(digits@[i as int]));
        i += 1;
    }
    proof {
        assert(digits@.take(digits.len() as int) =~= digits@);
        if digits.len() >= width {
            assert(zeros =~= old(out)@);
        }
        assert(out@ =~= old(out)@ + zero_padded(decimal(n as nat), width as nat));
    }
}

/// Generate a filename to save the mandala in.
pub fn filename_to_save(size: (usize, usize, usize), z: usize) -> (res: String)
    ensures
        res@ == mandala_file_name(size, z),
{
    let mut cs: Vec<char> = Vec::new();
    cs.push('m');
    cs.push('a');
    cs.push('n');
    cs.push('d');
    cs.push('a');
    cs.push('l');
    cs.push('a');
    cs.push('-');
    assert(cs@ =~= file_name_prefix());
    push_decimal(&mut cs, size.0 as u64);
    cs.push('x');
    push_decimal(&mut cs, size.1 as u64);
    cs.push('x');
    push_decimal(&mut cs, size.2 as u64);
    cs.push('-');
    let ghost named = cs@;
    push_zero_padded(&mut cs, z as u64, 5);
    let ghost padded = cs@;
    cs.push('.');
    cs.push('p');
    cs.push('n');
    cs.push('g');
    assert(cs@ =~= padded + file_name_suffix());
    assert(cs@ =~= mandala_file_name(size, z));
    let mut res = String::new();
    push_chars(&mut res, &cs);
    res
}

/// A saved file's name tells the canvas size back: `parse_size` reads
/// `(W, H, D)` from `mandala-WxHxD-NNNNN.png`.
pub proof fn file_name_tells_size(size: (usize, usize, usize), z: usize)
    ensures
        spec_parse_size(mandala_file_name(size, z)) == Some(size),
{
    let before = file_name_prefix();
    let after = seq!['-'] + zero_padded(decimal(z as nat), 5) + file_name_suffix();
    assert(mandala_file_name(size, z) =~= before + size_text(size.0, size.1, size.2) + after);
    assert forall|k: int| 0 <= k < before.len() implies !is_digit(#[trigger] before[k]) by {}
    parse_size_reads_back(before, size.0, size.1, size.2, after);
}

/// Zeros in front of a numeral do not change its value.
proof fn lemma_leading_zeros(n: nat, s: Seq<char>)
    ensures
        digits_value(Seq::new(n, |_i: int| '0') + s) == digits_value(s),
    decreases s.len(), n,
{
    let z = Seq::new(n, |_i: int| '0');
    if s.len() > 0 {
        lemma_leading_zeros(n, s.drop_last());
        assert((z + s).drop_last() =~= z + s.drop_last());
    } else if n > 0 {
        lemma_leading_zeros((n - 1) as nat, s);
        assert((z + s).drop_last() =~= Seq::new((n - 1) as nat, |_i: int| '0') + s);
        assert(z + s =~= z);
    } else {
        assert(z + s =~= s);
    }
}

/// Different layers of one canvas are saved under different names, and so
/// are layers of canvases of different sizes: no layer overwrites another.
pub proof fn file_names_are_distinct(size1: (usize, usize, usize), z1: usize, size2: (usize, usize, usize), z2: usize)
    requires
        mandala_file_name(size1, z1) == mandala_file_name(size2, z2),
    ensures
        size1 == size2,
        z1 == z2,
{
    file_name_tells_size(size1, z1);
    file_name_tells_size(size2, z2);
    let head = file_name_prefix() + size_text(size1.0, size1.1, size1.2) + seq!['-'];
    let p1 = zero_padded(decimal(z1 as nat), 5);
    let p2 = zero_padded(decimal(z2 as nat), 5);
    assert(mandala_file_name(size1, z1) =~= head + p1 + file_name_suffix());
    assert(mandala_file_name(size2, z2) =~= head + p2 + file_name_suffix());
    let name = mandala_file_name(size1, z1);
    assert(size1 == size2);
    assert(p1.len() == p2.len());
    assert(p1 =~= name.subrange(head.len() as int, (head.len() + p1.len()) as int));
    assert(p2 =~= name.subrange(head.len() as int, (head.len() + p2.len()) as int));
    assert(p1 =~= p2);
    lemma_decimal(z1 as nat);
    lemma_decimal(z2 as nat);
    let d1 = decimal(z1 as nat);
    let d2 = decimal(z2 as nat);
    if d1.len() < 5 {
        lemma_leading_zeros((5 - d1.len()) as nat, d1);
    }
    if d2.len() < 5 {
        lemma_leading_zeros((5 - d2.len()) as nat, d2);
    }
}

/// `a` comes before `b` in character-wise lexicographic order (for ASCII
/// text, the byte-wise order of strings).
pub open spec fn lex_less(a: Seq<char>, b: Seq<char>) -> bool {
    exists|k: int|
        0 <= k <= a.len() && k <= b.len() && #[trigger] a.take(k) == b.take(k) && ((k == a.len() && k < b.len())
            || (k < a.len() && k < b.len() && a[k] < b[k]))
}

/// A string of digits read from the front: its first digit counts
/// `10^(len - 1)` times.
proof fn lemma_digits_value_front(s: Seq<char>)
    requires
        s.len() >= 1,
    ensures
        digits_value(s) == digit_value(s[0]) * pow10((s.len() - 1) as nat) + digits_value(s.drop_first()),
    decreases s.len(),
{
    if s.len() == 1 {
        assert(s.drop_last() =~= Seq::<char>::empty());
        assert(s.drop_first() =~= Seq::<char>::empty());
        assert(digits_value(s) == digits_value(s.drop_last()) * 10 + digit_value(s.last()));
        assert(digits_value(Seq::<char>::empty()) == 0);
        assert(s.last() == s[0]);
        assert(pow10(0) == 1);
        assert(digit_value(s[0]) * pow10(0) == digit_value(s[0]));
    } else {
        let init = s.drop_last();
        lemma_digits_value_front(init);
        assert(init.drop_first() =~= s.drop_first().drop_last());
        assert(s.drop_first().last() == s.last());
        assert(init[0] == s[0]);
        assert(digits_value(s) == digits_value(init) * 10 + digit_value(s.last()));
        assert(digits_value(s.drop_first()) == digits_value(s.drop_first().drop_last()) * 10
            + digit_value(s.drop_first().last()));
        assert((init.len() - 1) as nat == (s.len() - 2) as nat);
        let d0 = digit_value(s[0]) as int;
        let p = pow10((s.len() - 2) as nat) as int;
        let r = digits_value(init.drop_first()) as int;
        let dl = digit_value(s.last()) as int;
        assert(digits_value(init) == d0 * p + r);
        assert(digits_value(s.drop_first()) == r * 10 + dl);
        assert(digits_value(s) == (d0 * p + r) * 10 + dl);
        assert(pow10((s.len() - 1) as nat) == 10 * p);
        assert((d0 * p + r) * 10 + dl == d0 * (10 * p) + (r * 10 + dl)) by (nonlinear_arith);
    }
}

/// A string of `n` digits denotes less than `10^n`.
proof fn lemma_digits_value_bound(s: Seq<char>)
    requires
        all_digits(s),
    ensures
        digits_value(s) < pow10(s.len()),
    decreases s.len(),
{
    if s.len() > 0 {
        let init = s.drop_last();
        assert(all_digits(init)) by {
            assert forall|i: int| 0 <= i < init.len() implies is_digit(#[trigger] init[i]) by {
                assert(init[i] == s[i]);
            }
        }
        lemma_digits_value_bound(init);
        assert(is_digit(s[s.len() - 1]));
        assert(pow10(s.len()) == 10 * pow10(init.len()));
    }
}

/// Of two strings of digits of one length, the one with the smaller value
/// comes first character-wise: they agree up to `k`, where the first has the
/// smaller digit.
proof fn lemma_digit_strings_order(p1: Seq<char>, p2: Seq<char>) -> (k: int)
    requires
        all_digits(p1),
        all_digits(p2),
        p1.len() == p2.len(),
        digits_value(p1) < digits_value(p2),
    ensures
        0 <= k < p1.len(),
        p1.take(k) == p2.take(k),
        p1[k] < p2[k],
    decreases p1.len(),
{
    if p1.len() == 0 {
        assert(false);
        0
    } else {
        let n = (p1.len() - 1) as nat;
        lemma_digits_value_front(p1);
        lemma_digits_value_front(p2);
        let r1 = p1.drop_first();
        let r2 = p2.drop_first();
        assert(all_digits(r1)) by {
            assert forall|i: int| 0 <= i < r1.len() implies is_digit(#[trigger] r1[i]) by {
                assert(r1[i] == p1[i + 1]);
            }
        }
        assert(all_digits(r2)) by {
            assert forall|i: int| 0 <= i < r2.len() implies is_digit(#[trigger] r2[i]) by {
                assert(r2[i] == p2[i + 1]);
            }
        }
        lemma_digits_value_bound(r1);
        lemma_digits_value_bound(r2);
        assert(is_digit(p1[0]) && is_digit(p2[0]));
        let d1 = digit_value(p1[0]) as int;
        let d2 = digit_value(p2[0]) as int;
        let p = pow10(n) as int;
        let v1 = digits_value(r1) as int;
        let v2 = digits_value(r2) as int;
        if d1 < d2 {
            assert(p1.take(0) =~= p2.take(0));
            0
        } else {
            assert(d1 <= d2) by {
                if d1 > d2 {
                    assert(d1 * p + v1 >= d2 * p + p) by (nonlinear_arith)
                        requires
                            d1 >= d2 + 1,
                            p >= 0,
                            v1 >= 0,
                    ;
                }
            }
            assert(p1[0] == p2[0]);
            assert(v1 < v2);
            let k = lemma_digit_strings_order(r1, r2);
            assert(p1.take(k + 1) =~= seq![p1[0]] + r1.take(k));
            assert(p2.take(k + 1) =~= seq![p2[0]] + r2.take(k));
            k + 1
        }
    }
}

/// A number below `10^k` (with `k >= 1`) has at most `k` digits.
proof fn lemma_decimal_length(n: nat, k: nat)
    requires
        k >= 1,
        n < pow10(k),
    ensures
        decimal(n).len() <= k,
    decreases n,
{
    if n >= 10 {
        if k == 1 {
            reveal_with_fuel(pow10, 2);
            assert(pow10(1) == 10);
        }
        assert(pow10(k) == 10 * pow10((k - 1) as nat));
        lemma_decimal_length(n / 10, (k - 1) as nat);
    }
}

/// Saved file names sort in layer order: for layers up to 99999, which are
/// written with exactly five digits, the name of a lower layer comes first
/// character-wise (and so byte-wise, the names being ASCII).
pub proof fn file_names_sort_by_layer(size: (usize, usize, usize), z1: usize, z2: usize)
    requires
        z1 < z2 <= 99999,
    ensures
        lex_less(mandala_file_name(size, z1), mandala_file_name(size, z2)),
        mandala_file_name(size, z1) != mandala_file_name(size, z2),
{
    reveal_with_fuel(pow10, 6);
    assert(pow10(5) == 100000);
    let d1 = decimal(z1 as nat);
    let d2 = decimal(z2 as nat);
    lemma_decimal(z1 as nat);
    lemma_decimal(z2 as nat);
    lemma_decimal_length(z1 as nat, 5);
    lemma_decimal_length(z2 as nat, 5);
    let p1 = zero_padded(d1, 5);
    let p2 = zero_padded(d2, 5);
    lemma_leading_zeros((5 - d1.len()) as nat, d1);
    lemma_leading_zeros((5 - d2.len()) as nat, d2);
    assert(all_digits(p1)) by {
        assert forall|i: int| 0 <= i < p1.len() implies is_digit(#[trigger] p1[i]) by {
            if i >= 5 - d1.len() {
                assert(p1[i] == d1[i - (5 - d1.len())]);
            }
        }
    }
    assert(all_digits(p2)) by {
        assert forall|i: int| 0 <= i < p2.len() implies is_digit(#[trigger] p2[i]) by {
            if i >= 5 - d2.len() {
                assert(p2[i] == d2[i - (5 - d2.len())]);
            }
        }
    }
    let k = lemma_digit_strings_order(p1, p2);
    let head = file_name_prefix() + size_text(size.0, size.1, size.2) + seq!['-'];
    let a = mandala_file_name(size, z1);
    let b = mandala_file_name(size, z2);
    assert(a =~= head + p1 + file_name_suffix());
    assert(b =~= head + p2 + file_name_suffix());
    let m = head.len() + k;
    assert(a.take(m) =~= head + p1.take(k));
    assert(b.take(m) =~= head + p2.take(k));
    assert(a[m] == p1[k] && b[m] == p2[k]);
    assert(a.take(m) == b.take(m));
    assert(a[m] != b[m]);
}

/// The bit that selects CPU `to_cpu` in an affinity mask.
pub fn affinity_mask(to_cpu: usize) -> (mask: usize)
    requires
        to_cpu < usize::BITS,
    ensures
        mask == vstd::arithmetic::power2::pow2(to_cpu as nat),
{
    proof {
        vstd::bits::lemma_usize_pow2_no_overflow(to_cpu as nat);
        vstd::bits::lemma_usize_shl_is_mul(1, to_cpu);
    }
    1usize << to_cpu
}

/// How many points each generation thread sends in one batch: the
/// thread's share `points / threads`, as a `usize`, in a hundred batches.
pub fn batch_length(points: u64, threads: u64) -> (len: usize)
    requires
        threads > 0,
    ensures
        len == ((points / threads) as usize) / 100,
{
    let share: u64 = points / threads;
    (share as usize) / 100
}

/// Initialise the mandala canvas from the given size.
///
/// The resulting image is RGB: `size.2` blank layers of `size.0` by `size.1`
/// pixels (each dimension converted to `u32` as the image crate takes it).
pub fn init_image(size: (usize, usize, usize)) -> (res: Vec<DynamicImage>)
    requires
        size.2 > 0 ==> 3 * (size.0 as u32) * (size.1 as u32) <= usize::MAX,
    ensures
        res.len() == size.2,
        forall|i: int| 0 <= i < res.len() ==> #[trigger] res[i] == blank_rgb8(size.0 as u32, size.1 as u32),
{
    let mut res: Vec<DynamicImage> = Vec::new();
    let mut i: usize = 0;
    while i < size.2
        invariant
            i <= size.2,
            res.len() == i,
            size.2 > 0 ==> 3 * (size.0 as u32) * (size.1 as u32) <= usize::MAX,
            forall|j: int| 0 <= j < res.len() ==> #[trigger] res[j] == blank_rgb8(size.0 as u32, size.1 as u32),
        decreases size.2 - i,
    {
        res.push(new_rgb8(size.0 as u32, size.1 as u32));
        i += 1;
    }
    res
}

} // verus!
