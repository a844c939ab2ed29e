use vstd::prelude::*;
use vstd::slice::slice_subrange;
use vstd::arithmetic::power::pow;
use crate::record::{Outcome, Record};

verus! {

/// Why a line does not match the grammar. Each variant carries the byte
/// offset in the line at which the mismatch was found.
#[derive(Debug, Clone, Copy, PartialEq, Eq, Structural)]
pub enum ParseError {
    /// A fixed token (`PS_`, `/NG_`, `/run_`, `.output:`) is missing.
    ExpectedLiteral { at: usize },
    /// An integer field has no digits.
    ExpectedDigits { at: usize },
    /// An integer field does not fit in a `u32`.
    IntegerTooLarge { at: usize },
    /// The outcome is neither `SUCCESS` nor a float; `at` is where it begins.
    InvalidOutcome { at: usize },
    /// The outcome is followed by more text; `at` is where the outcome begins.
    TrailingInput { at: usize },
}

pub open spec fn is_digit(b: u8) -> bool {
    48 <= b <= 57  // '0' ..= '9'
}

pub open spec fn is_blank(b: u8) -> bool {
    b == 32 || b == 9  // ' ' or '\t'
}

pub open spec fn has_literal(s: Seq<u8>, pos: int, lit: Seq<u8>) -> bool {
    0 <= pos && pos + lit.len() <= s.len() && s.subrange(pos, pos + lit.len()) == lit
}

pub open spec fn ps_literal() -> Seq<u8> {
    seq![80u8, 83, 95]  // "PS_"
}

pub open spec fn ng_literal() -> Seq<u8> {
    seq![47u8, 78, 71, 95]  // "/NG_"
}

pub open spec fn run_literal() -> Seq<u8> {
    seq![47u8, 114, 117, 110, 95]  // "/run_"
}

pub open spec fn output_literal() -> Seq<u8> {
    seq![46u8, 111, 117, 116, 112, 117, 116, 58]  // ".output:"
}

pub open spec fn success_literal() -> Seq<u8> {
    seq![83u8, 85, 67, 67, 69, 83, 83]  // "SUCCESS"
}

pub open spec fn digit_class() -> spec_fn(u8) -> bool {
    |b: u8| is_digit(b)
}

pub open spec fn blank_class() -> spec_fn(u8) -> bool {
    |b: u8| is_blank(b)
}

/// Length of the longest run of bytes of `class` in `s` from `pos` on.
pub open spec fn span(s: Seq<u8>, pos: int, class: spec_fn(u8) -> bool) -> nat
    decreases s.len() - pos,
{
    if 0 <= pos < s.len() && class(s[pos]) {
        1 + span(s, pos + 1, class)
    } else {
        0
    }
}

/// The number written by the decimal digits `s[start..end]`.
pub open spec fn digits_value(s: Seq<u8>, start: int, end: int) -> nat
    decreases end - start,
{
    if end <= start {
        0
    } else {
        digits_value(s, start, end - 1) * 10 + (s[end - 1] - 48) as nat
    }
}

/// `uint` at `pos`: one or more digits whose value fits in a `u32`; gives
/// the value and the offset after the digits.
#[verifier::opaque]
pub open spec fn spec_uint(s: Seq<u8>, pos: usize) -> Result<(u32, usize), ParseError> {
    let n = span(s, pos as int, digit_class());
    if n == 0 {
        Err(ParseError::ExpectedDigits { at: pos })
    } else if digits_value(s, pos as int, pos + n) > u32::MAX {
        Err(ParseError::IntegerTooLarge { at: pos })
    } else {
        Ok((digits_value(s, pos as int, pos + n) as u32, (pos + n) as usize))
    }
}

/// A literal token followed by a `uint`.
pub open spec fn spec_field(s: Seq<u8>, pos: usize, lit: Seq<u8>) -> Result<(u32, usize), ParseError> {
    if has_literal(s, pos as int, lit) {
        spec_uint(s, (pos + lit.len()) as usize)
    } else {
        Err(ParseError::ExpectedLiteral { at: pos })
    }
}

/// What a float scan of the outcome text (see [`float_prefix`]) makes of
/// the outcome beginning at `at`: a run time when the float takes up the
/// whole rest of the line.
pub open spec fn spec_runtime_from_scan(scan: Option<(usize, u32)>, at: usize) -> Result<Outcome, ParseError> {
    match scan {
        None => Err(ParseError::InvalidOutcome { at }),
        Some((left, bits)) => if left == 0 {
            Ok(Outcome::RunTime(bits))
        } else {
            Err(ParseError::TrailingInput { at })
        },
    }
}

/// `outcome` at `pos`, up to the end of the line: the literal `SUCCESS` is
/// tried first; otherwise blanks are skipped and a float is read.
#[verifier::opaque]
pub open spec fn spec_outcome(s: Seq<u8>, pos: usize) -> Result<Outcome, ParseError> {
    if has_literal(s, pos as int, success_literal()) {
        if pos + success_literal().len() == s.len() {
            Ok(Outcome::Success)
        } else {
            Err(ParseError::TrailingInput { at: pos })
        }
    } else {
        let q = pos + span(s, pos as int, blank_class());
        spec_runtime_from_scan(float_prefix(s.subrange(q, s.len() as int)), q as usize)
    }
}

/// The grammar of a whole line:
/// `PS_<uint>/NG_<uint>/run_<uint>.output:` followed by `SUCCESS` or by
/// optional blanks and a float, and nothing after that.
pub open spec fn spec_parse_line(s: Seq<u8>) -> Result<Record, ParseError> {
    match spec_field(s, 0, ps_literal()) {
        Err(e) => Err(e),
        Ok((ps, p1)) => match spec_field(s, p1, ng_literal()) {
            Err(e) => Err(e),
            Ok((ng, p2)) => match spec_field(s, p2, run_literal()) {
                Err(e) => Err(e),
                Ok((run, p3)) => if !has_literal(s, p3 as int, output_literal()) {
                    Err(ParseError::ExpectedLiteral { at: p3 })
                } else {
                    match spec_outcome(s, (p3 + output_literal().len()) as usize) {
                        Err(e) => Err(e),
                        Ok(outcome) => Ok(
                            Record { population_size: ps, num_generations: ng, run_number: run, outcome },
                        ),
                    }
                },
            },
        },
    }
}

/// The value and the bytes left over when a float literal is read from the
/// start of `s`.
pub uninterp spec fn float_prefix(s: Seq<u8>) -> Option<(usize, u32)>;

/// Relies on `nom::number::complete::float`: it reads a float literal (or
/// `nan`, `inf`, `infinity`) at the start of `s` and converts it to an `f32`.
/// Gives the number of bytes after the literal and the value's bit pattern,
/// or `None` where no float could be read. The outcome depends on `s` alone.
#[verifier::external_body]
fn scan_float(s: &[u8]) -> (r: Option<(usize, u32)>)
    ensures
        r == float_prefix(s@),
{
    match nom::number::complete::float::<&[u8], nom::error::Error<&[u8]>>(s) {
        Ok((rest, value)) => Some((rest.len(), value.to_bits())),
        Err(_) => None,
    }
}

proof fn lemma_span_prefix(s: Seq<u8>, pos: int, i: int, class: spec_fn(u8) -> bool)
    requires
        0 <= pos <= i <= s.len(),
        forall|j: int| pos <= j < i ==> class(#[trigger] s[j]),
    ensures
        span(s, pos, class) == (i - pos) + span(s, i, class),
    decreases i - pos,
{
    if pos < i {
        lemma_span_prefix(s, pos + 1, i, class);
    }
}

proof fn lemma_span_bound(s: Seq<u8>, pos: int, class: spec_fn(u8) -> bool)
    requires
        0 <= pos <= s.len(),
    ensures
        pos + span(s, pos, class) <= s.len(),
    decreases s.len() - pos,
{
    if pos < s.len() {
        lemma_span_bound(s, pos + 1, class);
    }
}

proof fn lemma_digits_value_grows(s: Seq<u8>, start: int, a: int, b: int)
    requires
        start <= a <= b,
    ensures
        digits_value(s, start, a) <= digits_value(s, start, b),
    decreases b - a,
{
    if a < b {
        lemma_digits_value_grows(s, start, a, b - 1);
    }
}

/// Offset of the first byte at or after `pos` that is not a blank.
fn skip_blanks(s: &[u8], pos: usize) -> (r: usize)
    requires
        pos <= s.len(),
    ensures
        r == pos + span(s@, pos as int, blank_class()),
        r <= s.len(),
{
    let mut i = pos;
    while i < s.len() && (s[i] == 32 || s[i] == 9)
        invariant
            pos <= i <= s.len(),
            forall|j: int| pos <= j < i ==> blank_class()(#[trigger] s@[j]),
        decreases s.len() - i,
    {
        i += 1;
    }
    proof {
        lemma_span_prefix(s@, pos as int, i as int, blank_class());
        lemma_span_bound(s@, pos as int, blank_class());
    }
    i
}

/// Reads a `uint` at `pos`.
fn parse_uint(s: &[u8], pos: usize) -> (r: Result<(u32, usize), ParseError>)
    requires
        pos <= s.len(),
    ensures
        r == spec_uint(s@, pos),
        r matches Ok((_, end)) ==> end <= s.len(),
{
    reveal(spec_uint);
    let mut i = pos;
    let mut value: u32 = 0;
    while i < s.len() && 48 <= s[i] && s[i] <= 57
        invariant
            pos <= i <= s.len(),
            forall|j: int| pos <= j < i ==> digit_class()(#[trigger] s@[j]),
            value == digits_value(s@, pos as int, i as int),
        decreases s.len() - i,
    {
        let next: u64 = value as u64 * 10 + (s[i] - 48) as u64;
        if next > u32::MAX as u64 {
            proof {
                reveal(spec_uint);
                lemma_span_prefix(s@, pos as int, i + 1, digit_class());
                lemma_digits_value_grows(s@, pos as int, i + 1, pos + span(s@, pos as int, digit_class()));
            }
            return Err(ParseError::IntegerTooLarge { at: pos });
        }
        value = next as u32;
        i += 1;
    }
    proof {
        lemma_span_prefix(s@, pos as int, i as int, digit_class());
        lemma_span_bound(s@, pos as int, digit_class());
    }
    if i == pos {
        Err(ParseError::ExpectedDigits { at: pos })
    } else {
        Ok((value, i))
    }
}

/// Reads a literal token and then a `uint`.
fn parse_field(s: &[u8], pos: usize, lit: &[u8]) -> (r: Result<(u32, usize), ParseError>)
    requires
        pos <= s.len(),
    ensures
        r == spec_field(s@, pos, lit@),
        r matches Ok((_, end)) ==> end <= s.len(),
{
    if literal_at(s, pos, lit) {
        parse_uint(s, pos + lit.len())
    } else {
        Err(ParseError::ExpectedLiteral { at: pos })
    }
}

/// Turns the result of a float scan of a line's outcome text, which begins
/// at offset `at`, into the outcome: a run time where the float took up all
/// of the text, `TrailingInput` where text was left over, `InvalidOutcome`
/// where there was no float.
pub fn runtime_from_scan(scan: Option<(usize, u32)>, at: usize) -> (r: Result<Outcome, ParseError>)
    ensures
        r == spec_runtime_from_scan(scan, at),
{
    match scan {
        None => Err(ParseError::InvalidOutcome { at }),
        Some((left, bits)) => if left == 0 {
            Ok(Outcome::RunTime(bits))
        } else {
            Err(ParseError::TrailingInput { at })
        },
    }
}

/// Reads the outcome that begins at `pos` and runs to the end of the line.
fn parse_outcome(s: &[u8], pos: usize) -> (r: Result<Outcome, ParseError>)
    requires
        pos <= s.len(),
    ensures
        r == spec_outcome(s@, pos),
{
    reveal(spec_outcome);
    let success: [u8; 7] = [83, 85, 67, 67, 69, 83, 83];
    proof {
        assert(success@ == success_literal());
    }
    if literal_at(s, pos, &success) {
        if pos + 7 == s.len() {
            Ok(Outcome::Success)
        } else {
            Err(ParseError::TrailingInput { at: pos })
        }
    } else {
        let q = skip_blanks(s, pos);
        let rest = slice_subrange(s, q, s.len());
        runtime_from_scan(scan_float(rest), q)
    }
}

/// Parses one log line, given as its bytes without the line terminator.
pub fn parse_line(s: &[u8]) -> (r: Result<Record, ParseError>)
    ensures
        r == spec_parse_line(s@),
{
    let ps: [u8; 3] = [80, 83, 95];
    let ng: [u8; 4] = [47, 78, 71, 95];
    let run: [u8; 5] = [47, 114, 117, 110, 95];
    let output: [u8; 8] = [46, 111, 117, 116, 112, 117, 116, 58];
    proof {
        assert(ps@ == ps_literal());
        assert(ng@ == ng_literal());
        assert(run@ == run_literal());
        assert(output@ == output_literal());
    }
    let (population_size, p1) = match parse_field(s, 0, &ps) {
        Ok(v) => v,
        Err(e) => return Err(e),
    };
    let (num_generations, p2) = match parse_field(s, p1, &ng) {
        Ok(v) => v,
        Err(e) => return Err(e),
    };
    let (run_number, p3) = match parse_field(s, p2, &run) {
        Ok(v) => v,
        Err(e) => return Err(e),
    };
    if !literal_at(s, p3, &output) {
        return Err(ParseError::ExpectedLiteral { at: p3 });
    }
    match parse_outcome(s, p3 + 8) {
        Ok(outcome) => Ok(Record { population_size, num_generations, run_number, outcome }),
        Err(e) => Err(e),
    }
}

/// Whether `lit` occurs in `s` at offset `pos`.
fn literal_at(s: &[u8], pos: usize, lit: &[u8]) -> (r: bool)
    ensures
        r == has_literal(s@, pos as int, lit@),
{
    if lit.len() > s.len() || pos > s.len() - lit.len() {
        return false;
    }
    let mut i: usize = 0;
    while i < lit.len()
        invariant
            i <= lit.len(),
            pos + lit.len() <= s.len(),
            forall|j: int| 0 <= j < i ==> s@[pos + j] == lit@[j],
        decreases lit.len() - i,
    {
        if s[pos + i] != lit[i] {
            assert(s@.subrange(pos as int, pos + lit@.len())[i as int] != lit@[i as int]);
            return false;
        }
        i += 1;
    }
    assert(s@.subrange(pos as int, pos + lit@.len()) =~= lit@);
    true
}

/// The canonical decimal form of `n`: no sign, no leading zeros.
pub open spec fn decimal(n: nat) -> Seq<u8>
    decreases n,
{
    if n < 10 {
        seq![(48 + n) as u8]
    } else {
        decimal(n / 10).push((48 + n % 10) as u8)
    }
}

/// The canonical form of a line's path part, up to and including the `:`.
pub open spec fn render_path(population_size: u32, num_generations: u32, run_number: u32) -> Seq<u8> {
    ps_literal() + decimal(population_size as nat) + ng_literal() + decimal(num_generations as nat)
        + run_literal() + decimal(run_number as nat) + output_literal()
}

proof fn lemma_decimal_digits(n: nat)
    ensures
        decimal(n).len() >= 1,
        forall|i: int| 0 <= i < decimal(n).len() ==> is_digit(#[trigger] decimal(n)[i]),
    decreases n,
{
    if n >= 10 {
        lemma_decimal_digits(n / 10);
        assert forall|i: int| 0 <= i < decimal(n).len() implies is_digit(#[trigger] decimal(n)[i]) by {
            if i < decimal(n / 10).len() {
                assert(decimal(n)[i] == decimal(n / 10)[i]);
            }
        }
    }
}

proof fn lemma_decimal_len(n: nat, k: nat)
    requires
        1 <= k,
        n < pow(10, k),
    ensures
        decimal(n).len() <= k,
    decreases n,
{
    reveal_with_fuel(pow, 2);
    if n >= 10 {
        assert(k > 0);
        lemma_decimal_len(n / 10, (k - 1) as nat);
    }
}

proof fn lemma_decimal_bound(n: nat)
    requires
        n <= u32::MAX,
    ensures
        decimal(n).len() <= 10,
{
    reveal_with_fuel(pow, 11);
    assert(pow(10, 10) == 10_000_000_000);
    lemma_decimal_len(n, 10);
}

proof fn lemma_decimal_value(s: Seq<u8>, pos: int, n: nat)
    requires
        0 <= pos,
        pos + decimal(n).len() <= s.len(),
        s.subrange(pos, pos + decimal(n).len()) == decimal(n),
    ensures
        digits_value(s, pos, pos + decimal(n).len()) == n,
    decreases n,
{
    let l = decimal(n).len() as int;
    assert(s[pos + l - 1] == s.subrange(pos, pos + l)[l - 1]);
    if n < 10 {
        assert(digits_value(s, pos, pos) == 0);
    } else {
        let m = decimal(n / 10);
        assert(s.subrange(pos, pos + m.len()) =~= m) by {
            assert forall|i: int| 0 <= i < m.len() implies s.subrange(pos, pos + m.len())[i] == m[i] by {
                assert(s.subrange(pos, pos + l)[i] == decimal(n)[i]);
            }
        }
        lemma_decimal_value(s, pos, n / 10);
    }
}

/// A decimal written at `pos` and not followed by a digit reads back as its value.
proof fn lemma_uint_reads_decimal(s: Seq<u8>, pos: usize, n: u32)
    requires
        pos + decimal(n as nat).len() <= s.len(),
        s.subrange(pos as int, pos + decimal(n as nat).len()) == decimal(n as nat),
        pos + decimal(n as nat).len() < s.len() ==> !is_digit(s[pos + decimal(n as nat).len()]),
    ensures
        spec_uint(s, pos) == Ok::<(u32, usize), ParseError>((n, (pos + decimal(n as nat).len()) as usize)),
{
    reveal(spec_uint);
    let l = decimal(n as nat).len() as int;
    lemma_decimal_digits(n as nat);
    lemma_decimal_value(s, pos as int, n as nat);
    assert forall|j: int| pos <= j < pos + l implies digit_class()(#[trigger] s[j]) by {
        assert(s[j] == s.subrange(pos as int, pos + l)[j - pos]);
    }
    lemma_span_prefix(s, pos as int, pos + l, digit_class());
}

proof fn lemma_literal_in(a: Seq<u8>, lit: Seq<u8>, b: Seq<u8>)
    ensures
        has_literal(a + lit + b, a.len() as int, lit),
{
    assert((a + lit + b).subrange(a.len() as int, (a.len() + lit.len()) as int) =~= lit);
}

proof fn lemma_decimal_in(a: Seq<u8>, n: u32, b: Seq<u8>)
    requires
        a.len() + decimal(n as nat).len() + b.len() <= usize::MAX,
        b.len() > 0 ==> !is_digit(b[0]),
    ensures
        spec_uint(a + decimal(n as nat) + b, a.len() as usize)
            == Ok::<(u32, usize), ParseError>((n, (a.len() + decimal(n as nat).len()) as usize)),
{
    let s = a + decimal(n as nat) + b;
    let l = decimal(n as nat).len();
    assert(s.subrange(a.len() as int, (a.len() + l) as int) =~= decimal(n as nat));
    if a.len() + l < s.len() {
        assert(s[(a.len() + l) as int] == b[0]);
    }
    lemma_uint_reads_decimal(s, a.len() as usize, n);
}

proof fn lemma_field_in(a: Seq<u8>, lit: Seq<u8>, n: u32, b: Seq<u8>)
    requires
        a.len() + lit.len() + decimal(n as nat).len() + b.len() <= usize::MAX,
        b.len() > 0 ==> !is_digit(b[0]),
    ensures
        spec_field(a + lit + decimal(n as nat) + b, a.len() as usize, lit) == Ok::<(u32, usize), ParseError>(
            (n, (a.len() + lit.len() + decimal(n as nat).len()) as usize),
        ),
{
    let d = decimal(n as nat);
    let s = a + lit + d + b;
    lemma_literal_in(a, lit, d + b);
    assert(a + lit + (d + b) =~= s);
    lemma_decimal_in(a + lit, n, b);
}

/// Reading a path in canonical form gives back its three numbers, and what
/// follows the path is read as an outcome from the offset after it.
#[verifier::spinoff_prover]
#[verifier::rlimit(40)]
proof fn lemma_path_round_trip(population_size: u32, num_generations: u32, run_number: u32, tail: Seq<u8>)
    requires
        render_path(population_size, num_generations, run_number).len() + tail.len() <= usize::MAX,
    ensures
        spec_parse_line(render_path(population_size, num_generations, run_number) + tail) == match spec_outcome(
            render_path(population_size, num_generations, run_number) + tail,
            render_path(population_size, num_generations, run_number).len() as usize,
        ) {
            Err(e) => Err(e),
            Ok(outcome) => Ok(Record { population_size, num_generations, run_number, outcome }),
        },
{
    let d1 = decimal(population_size as nat);
    let d2 = decimal(num_generations as nat);
    let d3 = decimal(run_number as nat);
    let s = render_path(population_size, num_generations, run_number) + tail;
    let e = Seq::<u8>::empty();
    let b1 = ng_literal() + d2 + run_literal() + d3 + output_literal() + tail;
    let a2 = ps_literal() + d1;
    let b2 = run_literal() + d3 + output_literal() + tail;
    let a3 = a2 + ng_literal() + d2;
    let b3 = output_literal() + tail;
    let a4 = a3 + run_literal() + d3;
    assert(e + ps_literal() + d1 + b1 =~= s);
    assert(a2 + ng_literal() + d2 + b2 =~= s);
    assert(a3 + run_literal() + d3 + b3 =~= s);
    assert(a4 + output_literal() + tail =~= s);
    lemma_field_in(e, ps_literal(), population_size, b1);
    lemma_field_in(a2, ng_literal(), num_generations, b2);
    lemma_field_in(a3, run_literal(), run_number, b3);
    lemma_literal_in(a4, output_literal(), tail);
    let p1 = a2.len() as usize;
    let p2 = (a3.len()) as usize;
    let p3 = (a4.len()) as usize;
    assert(spec_field(s, 0, ps_literal()) == Ok::<(u32, usize), ParseError>((population_size, p1)));
    assert(spec_field(s, p1, ng_literal()) == Ok::<(u32, usize), ParseError>((num_generations, p2)));
    assert(spec_field(s, p2, run_literal()) == Ok::<(u32, usize), ParseError>((run_number, p3)));
    assert(has_literal(s, p3 as int, output_literal()));
}

/// A line built from a record whose outcome is a success reads back as
/// that record.
pub proof fn lemma_round_trip_success(population_size: u32, num_generations: u32, run_number: u32)
    ensures
        spec_parse_line(render_path(population_size, num_generations, run_number) + success_literal()) == Ok::<
            Record,
            ParseError,
        >(Record { population_size, num_generations, run_number, outcome: Outcome::Success }),
{
    let p = render_path(population_size, num_generations, run_number);
    lemma_decimal_bound(population_size as nat);
    lemma_decimal_bound(num_generations as nat);
    lemma_decimal_bound(run_number as nat);
    lemma_path_round_trip(population_size, num_generations, run_number, success_literal());
    lemma_literal_in(p, success_literal(), Seq::empty());
    reveal(spec_outcome);
    assert(p + success_literal() + Seq::<u8>::empty() =~= p + success_literal());
}

proof fn lemma_outcome_in(p: Seq<u8>, blanks: Seq<u8>, text: Seq<u8>, bits: u32)
    requires
        forall|i: int| 0 <= i < blanks.len() ==> is_blank(#[trigger] blanks[i]),
        text.len() > 0,
        !is_blank(text[0]),
        !has_literal(text, 0, success_literal()),
        float_prefix(text) == Some((0usize, bits)),
        p.len() + blanks.len() + text.len() <= usize::MAX,
    ensures
        spec_outcome(p + blanks + text, p.len() as usize) == Ok::<Outcome, ParseError>(Outcome::RunTime(bits)),
{
    reveal(spec_outcome);
    let s = p + blanks + text;
    let pos = p.len() as int;
    let q = pos + blanks.len();
    if blanks.len() == 0 {
        if has_literal(s, pos, success_literal()) {
            assert(text.subrange(0, success_literal().len() as int) =~= s.subrange(pos, pos + success_literal().len()));
        }
    } else {
        assert(s[pos] == blanks[0]);
        if has_literal(s, pos, success_literal()) {
            assert(s.subrange(pos, pos + success_literal().len())[0] == s[pos]);
        }
    }
    assert forall|j: int| pos <= j < q implies blank_class()(#[trigger] s[j]) by {
        assert(s[j] == blanks[j - pos]);
    }
    lemma_span_prefix(s, pos, q, blank_class());
    assert(s[q] == text[0]);
    assert(span(s, q, blank_class()) == 0);
    assert(s.subrange(q, s.len() as int) =~= text);
}

/// A line built from a record's numbers, any blanks, and a text that reads
/// in full as a float with bit pattern `bits` reads back as that record with
/// the run time `bits`.
pub proof fn lemma_round_trip_run_time(
    population_size: u32,
    num_generations: u32,
    run_number: u32,
    blanks: Seq<u8>,
    text: Seq<u8>,
    bits: u32,
)
    requires
        forall|i: int| 0 <= i < blanks.len() ==> is_blank(#[trigger] blanks[i]),
        text.len() > 0,
        !is_blank(text[0]),
        !has_literal(text, 0, success_literal()),
        float_prefix(text) == Some((0usize, bits)),
        render_path(population_size, num_generations, run_number).len() + blanks.len() + text.len() <= usize::MAX,
    ensures
        spec_parse_line(render_path(population_size, num_generations, run_number) + blanks + text) == Ok::<
            Record,
            ParseError,
        >(Record { population_size, num_generations, run_number, outcome: Outcome::RunTime(bits) }),
{
    let p = render_path(population_size, num_generations, run_number);
    assert(p + (blanks + text) =~= p + blanks + text);
    lemma_path_round_trip(population_size, num_generations, run_number, blanks + text);
    lemma_outcome_in(p, blanks, text, bits);
}

} // verus!
