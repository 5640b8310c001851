//! Decimal numerals and character-level helpers shared by the formatting and
//! parsing code.
use vstd::prelude::*;
use crate::bindings::push_char;

verus! {

/// Whether `c` is one of the ASCII digits `0`..=`9`.
pub open spec fn is_digit(c: char) -> bool {
    '0' <= c && c <= '9'
}

/// Whether every character of `s` is an ASCII digit.
pub open spec fn all_digits(s: Seq<char>) -> bool {
    forall|i: int| 0 <= i < s.len() ==> is_digit(#[trigger] s[i])
}

/// The ASCII digit for `d < 10`.
pub open spec fn digit_char(d: nat) -> char {
    (('0' as nat) + d) as char
}

/// The value of an ASCII digit.
pub open spec fn digit_value(c: char) -> nat {
    ((c as int) - ('0' as int)) as nat
}

/// The decimal numeral of `n`, most significant digit first, with no
/// leading zeros (`0` is written as a single `0`).
pub open spec fn decimal(n: nat) -> Seq<char>
    decreases n,
{
    if n < 10 {
        seq![digit_char(n)]
    } else {
        decimal(n / 10).push(digit_char(n % 10))
    }
}

/// The number that a string of digits denotes in base ten.
pub open spec fn digits_value(s: Seq<char>) -> nat
    decreases s.len(),
{
    if s.len() == 0 {
        0
    } else {
        digits_value(s.drop_last()) * 10 + digit_value(s.last())
    }
}

/// `s` left-padded with `0` to at least `width` characters.
pub open spec fn zero_padded(s: Seq<char>, width: nat) -> Seq<char> {
    if s.len() >= width {
        s
    } else {
        Seq::new((width - s.len()) as nat, |_i: int| '0') + s
    }
}

/// Each of the ten digits reads back as the value it was written for.
pub proof fn lemma_digit_char(d: nat)
    requires
        d < 10,
    ensures
        is_digit(digit_char(d)),
        digit_value(digit_char(d)) == d,
{
}

/// A decimal numeral is a non-empty string of digits that reads back as the
/// number it was written from, and only `0` starts with a `0`.
pub proof fn lemma_decimal(n: nat)
    ensures
        decimal(n).len() >= 1,
        all_digits(decimal(n)),
        digits_value(decimal(n)) == n,
        decimal(n)[0] == '0' ==> n == 0,
    decreases n,
{
    lemma_digit_char(n % 10);
    if n < 10 {
        assert(decimal(n).drop_last() =~= Seq::<char>::empty());
        assert(digits_value(decimal(n)) == digits_value(Seq::<char>::empty()) * 10 + digit_value(digit_char(n)));
    } else {
        lemma_decimal(n / 10);
        let d = decimal(n);
        assert(d.drop_last() =~= decimal(n / 10));
        assert(d.last() == digit_char(n % 10));
        assert((n / 10) * 10 + n % 10 == n) by (nonlinear_arith);
        assert(digits_value(d) == digits_value(decimal(n / 10)) * 10 + digit_value(digit_char(n % 10)));
    }
}

/// Different numbers have different decimal numerals.
pub proof fn lemma_decimal_injective(m: nat, n: nat)
    requires
        decimal(m) == decimal(n),
    ensures
        m == n,
{
    lemma_decimal(m);
    lemma_decimal(n);
}

/// A prefix of a string of digits denotes at most the value of the whole.
pub proof fn lemma_digits_value_prefix(s: Seq<char>, i: int)
    requires
        0 <= i <= s.len(),
    ensures
        digits_value(s.take(i)) <= digits_value(s),
    decreases s.len(),
{
    if i < s.len() {
        lemma_digits_value_prefix(s.drop_last(), i);
        assert(s.drop_last().take(i) =~= s.take(i));
    } else {
        assert(s.take(i) =~= s);
    }
}

/// The digits of `s` read one more character at a time.
pub proof fn lemma_digits_value_step(s: Seq<char>, i: int)
    requires
        0 <= i < s.len(),
    ensures
        digits_value(s.take(i + 1)) == digits_value(s.take(i)) * 10 + digit_value(s[i]),
{
    assert(s.take(i + 1).drop_last() =~= s.take(i));
}

/// What `u64::from_str` gives for `s`: an optional leading `+`, then one or
/// more ASCII digits whose value fits in a `u64`; anything else is refused.
pub open spec fn spec_parse_u64(s: Seq<char>) -> Option<u64> {
    let body = if s.len() > 0 && s[0] == '+' {
        s.drop_first()
    } else {
        s
    };
    if body.len() > 0 && all_digits(body) && digits_value(body) <= u64::MAX {
        Some(digits_value(body) as u64)
    } else {
        None
    }
}

/// Reading back a written number: `parse_u64` of the decimal numeral of `n`
/// (as `decimal_string` writes it) gives `n`.
pub proof fn decimal_reads_back(n: u64)
    ensures
        spec_parse_u64(decimal(n as nat)) == Some(n),
{
    lemma_decimal(n as nat);
    assert(is_digit(decimal(n as nat)[0]));
}

/// Reads `cs[from..to]` as a base-ten number no larger than `bound`.
/// Gives `None` when a character there is not a digit or the value exceeds
/// `bound`.
pub fn digits_value_within(cs: &Vec<char>, from: usize, to: usize, bound: u64) -> (res: Option<u64>)
    requires
        from <= to <= cs.len(),
    ensures
        ({
            let sub = cs@.subrange(from as int, to as int);
            match res {
                Some(v) => all_digits(sub) && digits_value(sub) <= bound && v == digits_value(sub),
                None => !all_digits(sub) || digits_value(sub) > bound,
            }
        }),
{
    let ghost sub = cs@.subrange(from as int, to as int);
    let mut acc: u64 = 0;
    let mut i: usize = from;
    assert(sub.take(0) =~= Seq::<char>::empty());
    while i < to
        invariant
            from <= i <= to <= cs.len(),
            sub == cs@.subrange(from as int, to as int),
            all_digits(sub.take(i - from)),
            acc == digits_value(sub.take(i - from)),
            acc <= bound,
        decreases to - i,
    {
        let c = cs[i];
        proof {
            lemma_digits_value_step(sub, i - from);
        }
        if !('0' <= c && c <= '9') {
            assert(sub[i - from] == c);
            return None;
        }
        let d: u64 = ((c as u32) - ('0' as u32)) as u64;
        assert(d == digit_value(c));
        if d > bound || acc > (bound - d) / 10 {
            assert(acc * 10 + d > bound) by (nonlinear_arith)
                requires
                    d > bound || acc > (bound - d) / 10,
                    acc >= 0,
            ;
            proof {
                lemma_digits_value_prefix(sub, i - from + 1);
            }
            return None;
        }
        assert(acc * 10 + d <= bound) by (nonlinear_arith)
            requires
                d <= bound,
                acc <= (bound - d) / 10,
        ;
        acc = acc * 10 + d;
        i += 1;
        assert forall|k: int| 0 <= k < sub.take(i - from).len() implies is_digit(#[trigger] sub.take(i - from)[k]) by {
            if k < i - 1 - from {
                assert(sub.take(i - from)[k] == sub.take(i - 1 - from)[k]);
            }
        }
    }
    assert(sub.take(to - from) =~= sub);
    Some(acc)
}

/// Parses `s` as `u64::from_str` does.
pub fn parse_u64(s: &str) -> (res: Option<u64>)
    ensures
        res == spec_parse_u64(s@),
{
    let cs = chars_of(s);
    let from: usize = if cs.len() > 0 && cs[0] == '+' { 1 } else { 0 };
    proof {
        if from == 1 {
            assert(cs@.subrange(1, cs@.len() as int) =~= s@.drop_first());
        } else {
            assert(cs@.subrange(0, cs@.len() as int) =~= s@);
        }
    }
    if from == cs.len() {
        return None;
    }
    digits_value_within(&cs, from, cs.len(), u64::MAX)
}

/// The characters of `s`, in order.
pub fn chars_of(s: &str) -> (res: Vec<char>)
    ensures
        res@ == s@,
{
    let mut res: Vec<char> = Vec::new();
    let mut it = s.chars();
    for c in iter: it
        invariant
            res@ == iter.seq().take(iter.index() as int),
    {
        res.push(c);
    }
    res
}

/// Appends the characters of `cs` to `s`.
pub fn push_chars(s: &mut String, cs: &Vec<char>)
    ensures
        final(s)@ == old(s)@ + cs@,
{
    let mut i: usize = 0;
    while i < cs.len()
        invariant
            i <= cs.len(),
            s@ == old(s)@ + cs@.take(i as int),
        decreases cs.len() - i,
    {
        push_char(s, cs[i]);
        assert(cs@.take(i + 1) == cs@.take(i as int).push(cs@[i as int]));
        i += 1;
    }
    assert(cs@.take(cs.len() as int) == cs@);
}

/// A `String` holding exactly the characters of `cs`.
pub fn string_of(cs: &Vec<char>) -> (res: String)
    ensures
        res@ == cs@,
{
    let mut res = String::new();
    push_chars(&mut res, cs);
    res
}

/// The ASCII digit for `d`.
fn digit_of(d: u64) -> (c: char)
    requires
        d < 10,
    ensures
        c == digit_char(d as nat),
        is_digit(c),
{
    ((d as u8) + 48u8) as char
}

/// Appends the decimal numeral of `n` to `out`.
pub fn push_decimal(out: &mut Vec<char>, n: u64)
    ensures
        final(out)@ == old(out)@ + decimal(n as nat),
    decreases n,
{
    if n >= 10 {
        push_decimal(out, n / 10);
    }
    let c = digit_of(n % 10);
    out.push(c);
    proof {
        if n >= 10 {
            assert(old(out)@ + decimal(n as nat) =~= (old(out)@ + decimal((n / 10) as nat)).push(c));
        } else {
            assert(old(out)@ + decimal(n as nat) =~= old(out)@.push(c));
        }
    }
}

/// The decimal numeral of `n` as a `String`, as `n.to_string()` writes it.
pub fn decimal_string(n: u64) -> (res: String)
    ensures
        res@ == decimal(n as nat),
{
    let mut cs: Vec<char> = Vec::new();
    push_decimal(&mut cs, n);
    assert(cs@ =~= decimal(n as nat));
    string_of(&cs)
}

} // verus!
