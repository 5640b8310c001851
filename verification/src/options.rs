//! Option parsing and management.
//!
//! The command line itself is read by the program; this module decides what
//! its values mean: the size syntax, the validity of each value, and the
//! default job counts.
use vstd::prelude::*;
use std::path::PathBuf;
use crate::bindings::{clone_path, cpu_count};
use crate::text::{
    all_digits, chars_of, decimal, decimal_reads_back, digits_value, digits_value_within, is_digit, lemma_decimal, parse_u64,
    spec_parse_u64,
};

verus! {

/// Representation of the application's all configurable values.
#[derive(Debug, Hash, PartialEq, Eq)]
pub struct Options {
    /// The output resolution. Default: `900x900x900`
    pub resolution: (usize, usize, usize),
    /// The directory to put the resulting mandalas in. Default: working directory.
    pub outdir: (String, PathBuf),
    /// The amount of threads to generate points on. Default: three quarters of the CPU threads (at least 1).
    pub threads_gen: u64,
    /// The amount of threads to collect on. Default: the rest of the CPU threads (at least 1).
    pub threads_coll: u64,
}

impl Clone for Options {
    fn clone(&self) -> (res: Self)
        ensures
            res.resolution == self.resolution,
            res.outdir.0@ == self.outdir.0@,
            res.outdir.1 == self.outdir.1,
            res.threads_gen == self.threads_gen,
            res.threads_coll == self.threads_coll,
    {
        Options {
            resolution: self.resolution,
            outdir: (self.outdir.0.clone(), clone_path(&self.outdir.1)),
            threads_gen: self.threads_gen,
            threads_coll: self.threads_coll,
        }
    }
}

/// The length of the run of ASCII digits in `s` that starts at `i`.
pub open spec fn digit_run(s: Seq<char>, i: int) -> nat
    decreases s.len() - i,
{
    if 0 <= i < s.len() && is_digit(s[i]) {
        1 + digit_run(s, i + 1)
    } else {
        0
    }
}

/// Where the first `x` after the width starting at `i` stands.
pub open spec fn first_x(s: Seq<char>, i: int) -> int {
    i + digit_run(s, i)
}

/// Where the second `x` stands.
pub open spec fn second_x(s: Seq<char>, i: int) -> int {
    first_x(s, i) + 1 + digit_run(s, first_x(s, i) + 1)
}

/// Where the depth's digits end.
pub open spec fn size_end(s: Seq<char>, i: int) -> int {
    second_x(s, i) + 1 + digit_run(s, second_x(s, i) + 1)
}

/// Whether the pattern `DIGITS x DIGITS x DIGITS` matches at `i`, each
/// `DIGITS` being as long a run of ASCII digits as stands there.
pub open spec fn size_match_at(s: Seq<char>, i: int) -> bool {
    &&& 0 <= i
    &&& digit_run(s, i) > 0
    &&& first_x(s, i) < s.len() && s[first_x(s, i)] == 'x'
    &&& digit_run(s, first_x(s, i) + 1) > 0
    &&& second_x(s, i) < s.len() && s[second_x(s, i)] == 'x'
    &&& digit_run(s, second_x(s, i) + 1) > 0
}

/// `i` is the leftmost position where the size pattern matches.
pub open spec fn leftmost_size_match(s: Seq<char>, i: int) -> bool {
    &&& 0 <= i < s.len()
    &&& size_match_at(s, i)
    &&& forall|j: int| 0 <= j < i ==> !size_match_at(s, j)
}

/// What `Options::parse_size` gives for `s`: the three numbers of the
/// leftmost `WxHxD` in `s` (the text around it is ignored), or `None` when
/// there is none or one of its numbers does not fit in a `usize`.
pub open spec fn spec_parse_size(s: Seq<char>) -> Option<(usize, usize, usize)> {
    if exists|i: int| leftmost_size_match(s, i) {
        let i = choose|i: int| leftmost_size_match(s, i);
        let w = digits_value(s.subrange(i, first_x(s, i)));
        let h = digits_value(s.subrange(first_x(s, i) + 1, second_x(s, i)));
        let d = digits_value(s.subrange(second_x(s, i) + 1, size_end(s, i)));
        if w <= usize::MAX && h <= usize::MAX && d <= usize::MAX {
            Some((w as usize, h as usize, d as usize))
        } else {
            None
        }
    } else {
        None
    }
}

/// The error for a size that does not parse.
pub open spec fn invalid_size_message(s: Seq<char>) -> Seq<char> {
    "\""@ + s + "\" is not a valid size (in format \"NNNxMMM\")"@
}

/// The error for a size with a zero dimension.
pub open spec fn zero_size_message() -> Seq<char> {
    "Can't generate a 0-sized image"@
}

/// The error for a job amount that does not parse.
pub open spec fn invalid_jobs_message(s: Seq<char>) -> Seq<char> {
    "\""@ + s + "\" is not a valid job amount"@
}

/// The error for a job amount of zero.
pub open spec fn zero_jobs_message() -> Seq<char> {
    "Can't run 0 threads"@
}

/// The length of the digit run at `i`, and with it where the run ends.
fn digit_run_at(cs: &Vec<char>, i: usize) -> (n: usize)
    requires
        i <= cs.len(),
    ensures
        n == digit_run(cs@, i as int),
        i + n <= cs.len(),
{
    let mut j: usize = i;
    while j < cs.len() && '0' <= cs[j] && cs[j] <= '9'
        invariant
            i <= j <= cs.len(),
            digit_run(cs@, i as int) == (j - i) + digit_run(cs@, j as int),
        decreases cs.len() - j,
    {
        j += 1;
    }
    j - i
}

/// Whether the size pattern matches at `i`; when it does, where its two
/// `x`s stand and where it ends.
fn size_match(cs: &Vec<char>, i: usize) -> (res: Option<(usize, usize, usize)>)
    requires
        i < cs.len(),
    ensures
        res is Some <==> size_match_at(cs@, i as int),
        res matches Some((j, k, e)) ==> j == first_x(cs@, i as int) && k == second_x(cs@, i as int)
            && e == size_end(cs@, i as int) && e <= cs.len(),
{
    let a: usize = digit_run_at(cs, i);
    if a == 0 || i + a >= cs.len() || cs[i + a] != 'x' {
        return None;
    }
    let j: usize = i + a;
    let b: usize = digit_run_at(cs, j + 1);
    if b == 0 || j + 1 + b >= cs.len() || cs[j + 1 + b] != 'x' {
        return None;
    }
    let k: usize = j + 1 + b;
    let c: usize = digit_run_at(cs, k + 1);
    if c == 0 {
        return None;
    }
    Some((j, k, k + 1 + c))
}

impl Options {
    /// Reads a size in the format `WxHxD` from `s`: the leftmost match of
    /// `\d+x\d+x\d+` in it, digits being ASCII.
    pub fn parse_size(s: &str) -> (res: Option<(usize, usize, usize)>)
        ensures
            res == spec_parse_size(s@),
    {
        let cs = chars_of(s);
        let mut i: usize = 0;
        while i < cs.len()
            invariant
                i <= cs.len(),
                cs@ == s@,
                forall|j: int| 0 <= j < i ==> !size_match_at(s@, j),
            decreases cs.len() - i,
        {
            match size_match(&cs, i) {
                Some((j, k, e)) => {
                    assert(leftmost_size_match(s@, i as int));
                    assert forall|i2: int| leftmost_size_match(s@, i2) implies i2 == i by {
                        if i2 < i {
                        } else if i2 > i {
                            assert(!size_match_at(s@, i as int));
                        }
                    }
                    let bound: u64 = usize::MAX as u64;
                    let w = digits_value_within(&cs, i, j, bound);
                    let h = digits_value_within(&cs, j + 1, k, bound);
                    let d = digits_value_within(&cs, k + 1, e, bound);
                    proof {
                        lemma_runs_are_digits(s@, i as int, j as int);
                        lemma_runs_are_digits(s@, j + 1, k as int);
                        lemma_runs_are_digits(s@, k + 1, e as int);
                    }
                    return match (w, h, d) {
                        (Some(w), Some(h), Some(d)) => Some((w as usize, h as usize, d as usize)),
                        _ => None,
                    };
                },
                None => {},
            }
            i += 1;
        }
        assert(!exists|i: int| leftmost_size_match(s@, i));
        None
    }

    /// Checks a `--size` value: it must hold a size, and none of its
    /// dimensions may be 0.
    pub fn size_validator(s: String) -> (res: Result<(), String>)
        ensures
            res matches Err(e) ==> (spec_parse_size(s@) is None && e@ == invalid_size_message(s@))
                || (spec_parse_size(s@) matches Some(v) && (v.0 == 0 || v.1 == 0 || v.2 == 0)
                    && e@ == zero_size_message()),
            res is Ok <==> (spec_parse_size(s@) matches Some(v) && v.0 != 0 && v.1 != 0 && v.2 != 0),
    {
        match Options::parse_size(s.as_str()) {
            None => {
                let mut e = String::new();
                e.append("\"");
                e.append(s.as_str());
                e.append("\" is not a valid size (in format \"NNNxMMM\")");
                Err(e)
            },
            Some((w, h, d)) => {
                if w == 0 || h == 0 || d == 0 {
                    let mut e = String::new();
                    e.append("Can't generate a 0-sized image");
                    Err(e)
                } else {
                    Ok(())
                }
            },
        }
    }

    /// Checks a `--jobs-gen` or `--jobs-coll` value: it must be a `u64`, and
    /// not 0.
    pub fn jobs_validator(s: String) -> (res: Result<(), String>)
        ensures
            res matches Err(e) ==> (spec_parse_u64(s@) is None && e@ == invalid_jobs_message(s@))
                || (spec_parse_u64(s@) == Some(0u64) && e@ == zero_jobs_message()),
            res is Ok <==> (spec_parse_u64(s@) matches Some(n) && n != 0),
    {
        match parse_u64(s.as_str()) {
            None => {
                let mut e = String::new();
                e.append("\"");
                e.append(s.as_str());
                e.append("\" is not a valid job amount");
                Err(e)
            },
            Some(n) => {
                if n == 0 {
                    let mut e = String::new();
                    e.append("Can't run 0 threads");
                    Err(e)
                } else {
                    Ok(())
                }
            },
        }
    }
}

/// The default job counts for `cpus_total` CPUs: three quarters of them
/// (rounded down, at least one) generate points, the rest (at least one)
/// collect them.
pub open spec fn spec_default_jobs(cpus_total: nat) -> (nat, nat) {
    let gen = if cpus_total * 3 / 4 >= 1 { cpus_total * 3 / 4 } else { 1 };
    let coll = if cpus_total - gen >= 1 { (cpus_total - gen) as nat } else { 1 };
    (gen, coll)
}

impl Options {
    /// The default job counts `(generation, collection)` for a machine with
    /// `cpus_total` CPUs.
    pub fn default_jobs(cpus_total: usize) -> (res: (usize, usize))
        requires
            cpus_total >= 1,
        ensures
            res.0 as nat == spec_default_jobs(cpus_total as nat).0,
            res.1 as nat == spec_default_jobs(cpus_total as nat).1,
            res.0 <= cpus_total,
    {
        let quarter: usize = cpus_total / 4;
        let three_quarters: usize = quarter * 3 + (cpus_total % 4) * 3 / 4;
        assert(three_quarters == cpus_total * 3 / 4) by (nonlinear_arith)
            requires
                quarter == cpus_total / 4,
                three_quarters == quarter * 3 + (cpus_total % 4) * 3 / 4,
        ;
        let gen: usize = if three_quarters >= 1 { three_quarters } else { 1 };
        let coll: usize = if cpus_total - gen >= 1 { cpus_total - gen } else { 1 };
        (gen, coll)
    }

    /// The default job counts for the CPUs that this process may use.
    pub fn default_job_counts() -> (res: (usize, usize))
        ensures
            res.0 >= 1,
            res.1 >= 1,
            exists|cpus: usize| cpus >= 1 && res.0 as nat == spec_default_jobs(cpus as nat).0
                && res.1 as nat == spec_default_jobs(cpus as nat).1,
    {
        let cpus: usize = cpu_count();
        Options::default_jobs(cpus)
    }

    /// The options for the values given on the command line (or their
    /// defaults), once each has passed its validator: the size is read
    /// with `parse_size` and the job amounts as `u64`.  `None` when one of
    /// them does not read.
    pub fn from_values(size: &str, outdir: (String, PathBuf), jobs_gen: &str, jobs_coll: &str) -> (res: Option<Options>)
        ensures
            res is Some <==> (spec_parse_size(size@) is Some && spec_parse_u64(jobs_gen@) is Some
                && spec_parse_u64(jobs_coll@) is Some),
            res matches Some(o) ==> o.resolution == spec_parse_size(size@)->0
                && o.outdir == outdir
                && o.threads_gen == spec_parse_u64(jobs_gen@)->0
                && o.threads_coll == spec_parse_u64(jobs_coll@)->0,
    {
        let resolution = Options::parse_size(size);
        let threads_gen = parse_u64(jobs_gen);
        let threads_coll = parse_u64(jobs_coll);
        match (resolution, threads_gen, threads_coll) {
            (Some(resolution), Some(threads_gen), Some(threads_coll)) => Some(Options {
                resolution,
                outdir,
                threads_gen,
                threads_coll,
            }),
            _ => None,
        }
    }
}

/// The numeral `decimal(w) x decimal(h) x decimal(d)`: how a size is written.
pub open spec fn size_text(w: usize, h: usize, d: usize) -> Seq<char> {
    decimal(w as nat) + seq!['x'] + decimal(h as nat) + seq!['x'] + decimal(d as nat)
}

/// A run of `n` digits that is not followed by a digit has length `n`.
proof fn lemma_digit_run_exact(s: Seq<char>, from: int, n: int)
    requires
        0 <= from,
        0 <= n,
        from + n <= s.len(),
        forall|k: int| from <= k < from + n ==> is_digit(#[trigger] s[k]),
        from + n == s.len() || !is_digit(s[from + n]),
    ensures
        digit_run(s, from) == n,
    decreases n,
{
    if n > 0 {
        lemma_digit_run_exact(s, from + 1, n - 1);
    }
}

/// Reading back a written size: when the text before a size holds no digit
/// and the text after it does not start with one, `parse_size` finds exactly
/// the size that was written.
pub proof fn parse_size_reads_back(before: Seq<char>, w: usize, h: usize, d: usize, after: Seq<char>)
    requires
        forall|k: int| 0 <= k < before.len() ==> !is_digit(#[trigger] before[k]),
        after.len() == 0 || !is_digit(after[0]),
    ensures
        spec_parse_size(before + size_text(w, h, d) + after) == Some((w, h, d)),
{
    let dw = decimal(w as nat);
    let dh = decimal(h as nat);
    let dd = decimal(d as nat);
    lemma_decimal(w as nat);
    lemma_decimal(h as nat);
    lemma_decimal(d as nat);
    let s = before + size_text(w, h, d) + after;
    let i = before.len() as int;
    let j = i + dw.len();
    let k = j + 1 + dh.len();
    let e = k + 1 + dd.len();
    assert(s.subrange(i, j) =~= dw);
    assert(s.subrange(j + 1, k) =~= dh);
    assert(s.subrange(k + 1, e) =~= dd);
    assert(s[j] == 'x');
    assert(s[k] == 'x');
    assert forall|m: int| i <= m < j implies is_digit(#[trigger] s[m]) by {
        assert(s[m] == dw[m - i]);
    }
    assert forall|m: int| j + 1 <= m < k implies is_digit(#[trigger] s[m]) by {
        assert(s[m] == dh[m - j - 1]);
    }
    assert forall|m: int| k + 1 <= m < e implies is_digit(#[trigger] s[m]) by {
        assert(s[m] == dd[m - k - 1]);
    }
    if e < s.len() {
        assert(s[e] == after[0]);
    }
    lemma_digit_run_exact(s, i, dw.len() as int);
    lemma_digit_run_exact(s, j + 1, dh.len() as int);
    lemma_digit_run_exact(s, k + 1, dd.len() as int);
    assert(size_match_at(s, i));
    assert forall|m: int| 0 <= m < i implies !size_match_at(s, m) by {
        assert(s[m] == before[m]);
    }
    assert(leftmost_size_match(s, i));
    assert forall|i2: int| leftmost_size_match(s, i2) implies i2 == i by {
        if i2 > i {
            assert(!size_match_at(s, i));
        }
    }
}

/// The default job counts, written out in decimal as the defaults of the
/// job options, pass the job validator and read back as themselves.
pub proof fn default_jobs_are_valid(cpus_total: usize)
    requires
        cpus_total >= 1,
    ensures
        spec_parse_u64(decimal(spec_default_jobs(cpus_total as nat).0)) == Some(spec_default_jobs(cpus_total as nat).0 as u64),
        spec_parse_u64(decimal(spec_default_jobs(cpus_total as nat).1)) == Some(spec_default_jobs(cpus_total as nat).1 as u64),
        spec_default_jobs(cpus_total as nat).0 != 0,
        spec_default_jobs(cpus_total as nat).1 != 0,
{
    let (gen, coll) = spec_default_jobs(cpus_total as nat);
    decimal_reads_back(gen as u64);
    decimal_reads_back(coll as u64);
}

/// A run of digits found by `digit_run` holds only digits.
proof fn lemma_runs_are_digits(s: Seq<char>, from: int, to: int)
    requires
        0 <= from <= to <= s.len(),
        to == from + digit_run(s, from),
    ensures
        crate::text::all_digits(s.subrange(from, to)),
    decreases to - from,
{
    if from < to {
        lemma_runs_are_digits(s, from + 1, to);
        assert forall|k: int| 0 <= k < s.subrange(from, to).len() implies is_digit(#[trigger] s.subrange(from, to)[k]) by {
            if k > 0 {
                assert(s.subrange(from, to)[k] == s.subrange(from + 1, to)[k - 1]);
            }
        }
    }
}

} // verus!
