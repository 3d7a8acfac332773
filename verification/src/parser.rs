use vstd::prelude::*;
use vstd::string::StringSliceAdditionalSpecFns;

use crate::nav_parser::spec_skip_window_to_eol;
use crate::raw_data::{RawBBox, RawData, RawDoor, RawWall, Vec3};

verus! {

broadcast use vstd::string::group_string_axioms;

/// The outcome of running a parser at a position of the input: a value and
/// the position after it, a failure at a position (the input consumed up to
/// there stays consumed), or a panic of the parser.
pub enum Parsed<T> {
    Done(T, int),
    Fail(int),
    Panic,
}

/// How an outcome that is not a panic is returned: `Ok((value, next))` or `Err(position)`.
pub open spec fn outcome<T>(p: Parsed<T>) -> Result<(T, usize), usize> {
    match p {
        Parsed::Done(v, q) => Ok((v, q as usize)),
        Parsed::Fail(x) => Err(x as usize),
        Parsed::Panic => Err(0),
    }
}

/// The outcome of a parsing step: a value and the position after it, a
/// failure at a position, or the input on which the parser would panic.
#[derive(Debug)]
pub enum Step<T> {
    Done(T, usize),
    Fail(usize),
    Panic,
}

/// The executable form of an outcome.
pub open spec fn step_of<T>(p: Parsed<T>) -> Step<T> {
    match p {
        Parsed::Done(v, q) => Step::Done(v, q as usize),
        Parsed::Fail(x) => Step::Fail(x as usize),
        Parsed::Panic => Step::Panic,
    }
}

pub open spec fn is_digit(b: u8) -> bool {
    48 <= b && b <= 57
}

pub open spec fn is_alpha(b: u8) -> bool {
    (65 <= b && b <= 90) || (97 <= b && b <= 122)
}

/// The end of the run of decimal digits that starts at `p`.
pub open spec fn digits_end(s: Seq<u8>, p: int) -> int
    decreases s.len() - p,
{
    if 0 <= p < s.len() && is_digit(s[p]) {
        digits_end(s, p + 1)
    } else {
        p
    }
}

/// The end of the run of ASCII letters that starts at `p`.
pub open spec fn alpha_end(s: Seq<u8>, p: int) -> int
    decreases s.len() - p,
{
    if 0 <= p < s.len() && is_alpha(s[p]) {
        alpha_end(s, p + 1)
    } else {
        p
    }
}

/// The decimal value of the digits `s[p..e]`.
pub open spec fn digits_value(s: Seq<u8>, p: int, e: int) -> nat
    decreases e - p,
{
    if e <= p {
        0
    } else {
        digits_value(s, p, e - 1) * 10 + (s[e - 1] - 48) as nat
    }
}

/// The first position at or after `p` that holds a newline, or the end of the input.
pub open spec fn till_newline(s: Seq<u8>, p: int) -> int
    decreases s.len() - p,
{
    if 0 <= p < s.len() && s[p] != 10 {
        till_newline(s, p + 1)
    } else {
        p
    }
}

/// `parse_id`: one or more decimal digits read as a `u64`; a value beyond
/// `u64::MAX` makes the parser panic.
pub open spec fn spec_id(s: Seq<u8>, p: int) -> Parsed<u64> {
    let e = digits_end(s, p);
    if e == p {
        Parsed::Fail(p)
    } else if digits_value(s, p, e) > u64::MAX {
        Parsed::Panic
    } else {
        Parsed::Done(digits_value(s, p, e) as u64, e)
    }
}

/// `parse_class`: one or more ASCII letters, given as the span they cover.
pub open spec fn spec_class(s: Seq<u8>, p: int) -> Parsed<(usize, usize)> {
    let e = alpha_end(s, p);
    if e == p {
        Parsed::Fail(p)
    } else {
        Parsed::Done((p as usize, e as usize), e)
    }
}

/// A fixed text.
pub open spec fn spec_lit(s: Seq<u8>, p: int, t: Seq<u8>) -> Parsed<()> {
    if p + t.len() <= s.len() && s.subrange(p, p + t.len()) == t {
        Parsed::Done((), p + t.len())
    } else {
        Parsed::Fail(p)
    }
}

/// `parse_end_of_line`: `"\n"`, `"\r\n"`, or the end of the input.
pub open spec fn spec_eol(s: Seq<u8>, p: int) -> Parsed<()> {
    if p < s.len() && s[p] == 10 {
        Parsed::Done((), p + 1)
    } else if p + 1 < s.len() && s[p] == 13 && s[p + 1] == 10 {
        Parsed::Done((), p + 2)
    } else if p == s.len() {
        Parsed::Done((), p)
    } else {
        Parsed::Fail(p)
    }
}

/// How much input `winnow::ascii::float` leaves when it recognises a number
/// at the start of `input`: `Ok(left)` when it reads one, `Err(left)` when it
/// fails. (The value is taken as text; every text the recogniser accepts is
/// also a valid `f32`, so reading an `f32` leaves the same input.)
pub uninterp spec fn winnow_float_left(input: Seq<u8>) -> Result<nat, nat>;

/// Calls `winnow::ascii::float` on `s[pos..]`, with the text it recognises as
/// output, and reports how much input it leaves. The contract states that this
/// is `winnow_float_left` of that input, and that the parser never leaves more
/// input than it was given. The number is not kept: the text it covered is.
#[verifier::external_body]
fn float_extent(s: &[u8], pos: usize) -> (r: Result<usize, usize>)
    requires
        pos <= s@.len(),
    ensures
        r is Ok <==> winnow_float_left(s@.subrange(pos as int, s@.len() as int)) is Ok,
        r matches Ok(left) ==> winnow_float_left(s@.subrange(pos as int, s@.len() as int))->Ok_0
            == left && left <= s@.len() - pos,
        r matches Err(left) ==> winnow_float_left(s@.subrange(pos as int, s@.len() as int))->Err_0
            == left && left <= s@.len() - pos,
{
    let mut input: &[u8] = &s[pos..];
    match winnow::ascii::float::<&[u8], String, winnow::error::ErrMode<winnow::error::ContextError>>(
        &mut input,
    ) {
        Ok(_) => Ok(input.len()),
        Err(_) => Err(input.len()),
    }
}

/// `parse_float`: the text of an `f32` as `winnow::ascii::float` reads it,
/// given as the span it covers; positions come from the input the float
/// parser leaves.
pub open spec fn spec_float(s: Seq<u8>, p: int) -> Parsed<(usize, usize)> {
    let rest_len = s.len() - p;
    match winnow_float_left(s.subrange(p, s.len() as int)) {
        Ok(left) => if left <= rest_len {
            Parsed::Done((p as usize, (s.len() - left) as usize), s.len() - left)
        } else {
            Parsed::Fail(p)
        },
        Err(left) => if left <= rest_len {
            Parsed::Fail(s.len() - left)
        } else {
            Parsed::Fail(p)
        },
    }
}

/// One element of a line of the room file.
#[derive(Clone, Copy, Debug)]
pub enum Field {
    Lit(&'static str),
    Id,
    Float,
    Class,
    EndOfLine,
}

/// What an element of a line holds.
#[derive(Clone, Copy, Debug, PartialEq, Eq, Structural)]
pub enum Value {
    Mark,
    Id(u64),
    Span(usize, usize),
}

pub open spec fn spec_field(s: Seq<u8>, p: int, f: Field) -> Parsed<Value> {
    match f {
        Field::Lit(t) => match spec_lit(s, p, t.spec_bytes()) {
            Parsed::Done(_, q) => Parsed::Done(Value::Mark, q),
            Parsed::Fail(x) => Parsed::Fail(x),
            Parsed::Panic => Parsed::Panic,
        },
        Field::Id => match spec_id(s, p) {
            Parsed::Done(v, q) => Parsed::Done(Value::Id(v), q),
            Parsed::Fail(x) => Parsed::Fail(x),
            Parsed::Panic => Parsed::Panic,
        },
        Field::Float => match spec_float(s, p) {
            Parsed::Done(v, q) => Parsed::Done(Value::Span(v.0, v.1), q),
            Parsed::Fail(x) => Parsed::Fail(x),
            Parsed::Panic => Parsed::Panic,
        },
        Field::Class => match spec_class(s, p) {
            Parsed::Done(v, q) => Parsed::Done(Value::Span(v.0, v.1), q),
            Parsed::Fail(x) => Parsed::Fail(x),
            Parsed::Panic => Parsed::Panic,
        },
        Field::EndOfLine => match spec_eol(s, p) {
            Parsed::Done(_, q) => Parsed::Done(Value::Mark, q),
            Parsed::Fail(x) => Parsed::Fail(x),
            Parsed::Panic => Parsed::Panic,
        },
    }
}

/// The elements `fs`, one after the other from `p`.
pub open spec fn spec_fields(s: Seq<u8>, p: int, fs: Seq<Field>) -> Parsed<Seq<Value>>
    decreases fs.len(),
{
    if fs.len() == 0 {
        Parsed::Done(Seq::empty(), p)
    } else {
        match spec_field(s, p, fs[0]) {
            Parsed::Done(v, q) => match spec_fields(s, q, fs.drop_first()) {
                Parsed::Done(vs, r) => Parsed::Done(seq![v] + vs, r),
                Parsed::Fail(x) => Parsed::Fail(x),
                Parsed::Panic => Parsed::Panic,
            },
            Parsed::Fail(x) => Parsed::Fail(x),
            Parsed::Panic => Parsed::Panic,
        }
    }
}

pub open spec fn prefixed(pre: Seq<Value>, r: Parsed<Seq<Value>>) -> Parsed<Seq<Value>> {
    match r {
        Parsed::Done(vs, q) => Parsed::Done(pre + vs, q),
        Parsed::Fail(x) => Parsed::Fail(x),
        Parsed::Panic => Parsed::Panic,
    }
}

pub proof fn lemma_field_advance(s: Seq<u8>, p: int, f: Field)
    requires
        0 <= p <= s.len(),
    ensures
        spec_field(s, p, f) matches Parsed::Done(_, q) ==> p <= q <= s.len(),
        spec_field(s, p, f) matches Parsed::Fail(x) ==> p <= x <= s.len(),
{
    match f {
        Field::Id => lemma_digits_end(s, p),
        Field::Class => lemma_alpha_end(s, p),
        _ => {},
    }
}

/// Every element of a line ends within the input, after where it starts; a
/// span it gives lies between the two.
pub proof fn lemma_field_positions(s: Seq<u8>, p: int, f: Field)
    requires
        0 <= p <= s.len(),
        s.len() <= usize::MAX,
    ensures
        spec_field(s, p, f) matches Parsed::Done(_, q) ==> p <= q <= s.len(),
        spec_field(s, p, f) matches Parsed::Done(v, _) ==> (v matches Value::Span(a, b) ==> p <= a
            <= b <= s.len()),
        spec_field(s, p, f) matches Parsed::Fail(x) ==> p <= x <= s.len(),
{
    match f {
        Field::Id => {
            lemma_field_advance(s, p, f);
        },
        Field::Class => {
            lemma_field_advance(s, p, f);
            let e = alpha_end(s, p);
            if e != p {
                assert(spec_field(s, p, f) == Parsed::Done(Value::Span(p as usize, e as usize), e));
            }
        },
        Field::Float => {
            let rest_len = s.len() - p;
            match winnow_float_left(s.subrange(p, s.len() as int)) {
                Ok(left) => {
                    if left <= rest_len {
                        let e = s.len() - left;
                        assert(spec_field(s, p, f) == Parsed::Done(
                            Value::Span(p as usize, e as usize),
                            e,
                        ));
                    }
                },
                Err(left) => {},
            }
        },
        _ => {
            lemma_field_advance(s, p, f);
        },
    }
}

pub proof fn lemma_digits_end(s: Seq<u8>, p: int)
    requires
        0 <= p <= s.len(),
    ensures
        p <= digits_end(s, p) <= s.len(),
        forall|i: int| p <= i < digits_end(s, p) ==> is_digit(s[i]),
        digits_end(s, p) < s.len() ==> !is_digit(s[digits_end(s, p)]),
    decreases s.len() - p,
{
    if p < s.len() && is_digit(s[p]) {
        lemma_digits_end(s, p + 1);
    }
}

pub proof fn lemma_alpha_end(s: Seq<u8>, p: int)
    requires
        0 <= p <= s.len(),
    ensures
        p <= alpha_end(s, p) <= s.len(),
        forall|i: int| p <= i < alpha_end(s, p) ==> is_alpha(s[i]),
        alpha_end(s, p) < s.len() ==> !is_alpha(s[alpha_end(s, p)]),
    decreases s.len() - p,
{
    if p < s.len() && is_alpha(s[p]) {
        lemma_alpha_end(s, p + 1);
    }
}

pub proof fn lemma_till_newline(s: Seq<u8>, p: int)
    requires
        0 <= p <= s.len(),
    ensures
        p <= till_newline(s, p) <= s.len(),
        forall|i: int| p <= i < till_newline(s, p) ==> s[i] != 10,
        till_newline(s, p) < s.len() ==> s[till_newline(s, p)] == 10,
    decreases s.len() - p,
{
    if p < s.len() && s[p] != 10 {
        lemma_till_newline(s, p + 1);
    }
}

/// A run of elements ends within the input, after where it starts; a run
/// that starts with a non-empty fixed text ends strictly after where it starts.
pub proof fn lemma_fields_advance(s: Seq<u8>, p: int, fs: Seq<Field>)
    requires
        0 <= p <= s.len(),
    ensures
        spec_fields(s, p, fs) matches Parsed::Done(_, q) ==> p <= q <= s.len(),
        spec_fields(s, p, fs) matches Parsed::Fail(x) ==> p <= x <= s.len(),
        fs.len() > 0 && (fs[0] matches Field::Lit(t) && t.spec_bytes().len() > 0) ==> (spec_fields(
            s,
            p,
            fs,
        ) matches Parsed::Done(_, q) ==> p < q),
    decreases fs.len(),
{
    if fs.len() > 0 {
        lemma_field_advance(s, p, fs[0]);
        if let Parsed::Done(v, q) = spec_field(s, p, fs[0]) {
            lemma_fields_advance(s, q, fs.drop_first());
        }
    }
}

pub proof fn lemma_fields_shape(s: Seq<u8>, p: int, fs: Seq<Field>)
    requires
        0 <= p <= s.len(),
        s.len() <= usize::MAX,
    ensures
        spec_fields(s, p, fs) matches Parsed::Done(vs, q) ==> vs.len() == fs.len() && p <= q
            <= s.len() && spans_in(s, vs),
        spec_fields(s, p, fs) matches Parsed::Fail(x) ==> p <= x <= s.len(),
    decreases fs.len(),
{
    if fs.len() > 0 {
        lemma_field_positions(s, p, fs[0]);
        if let Parsed::Done(v, q) = spec_field(s, p, fs[0]) {
            lemma_fields_shape(s, q, fs.drop_first());
            if let Parsed::Done(vs, r) = spec_fields(s, q, fs.drop_first()) {
                let all = seq![v] + vs;
                assert forall|i: int| 0 <= i < all.len() implies (#[trigger] all[i] matches Value::Span(
                    a,
                    b,
                ) ==> a <= b <= s.len()) by {
                    if i > 0 {
                        assert(all[i] == vs[i - 1]);
                    }
                }
            }
        }
    }
}

/// Recognizes the fixed text `lit` at `pos`.
pub fn match_literal(s: &[u8], pos: usize, lit: &str) -> (r: Result<usize, usize>)
    requires
        pos <= s@.len(),
    ensures
        match spec_lit(s@, pos as int, lit.spec_bytes()) {
            Parsed::Done(_, q) => r == Ok::<usize, usize>(q as usize),
            Parsed::Fail(x) => r == Err::<usize, usize>(x as usize),
            Parsed::Panic => false,
        },
{
    let t = lit.as_bytes_vec();
    let n = t.len();
    if n > s.len() - pos {
        return Err(pos);
    }
    let mut i: usize = 0;
    while i < n
        invariant
            t@ == lit.spec_bytes(),
            s@.len() == s.len(),
            n == t@.len(),
            pos + n <= s@.len(),
            0 <= i <= n,
            forall|j: int| 0 <= j < i ==> s@[pos + j] == t@[j],
        decreases n - i,
    {
        if s[pos + i] != t[i] {
            assert(s@.subrange(pos as int, pos + n)[i as int] != t@[i as int]);
            return Err(pos);
        }
        i = i + 1;
    }
    assert(s@.subrange(pos as int, pos + n) =~= t@);
    Ok(pos + n)
}

/// Reads one or more decimal digits as a `u64`; gives `Step::Panic` exactly
/// where `parse_id` would panic, on a value that does not fit.
pub fn try_parse_id(s: &[u8], pos: usize) -> (r: Step<u64>)
    requires
        pos <= s@.len(),
    ensures
        r == step_of(spec_id(s@, pos as int)),
{
    proof {
        lemma_digits_end(s@, pos as int);
    }
    let ghost e = digits_end(s@, pos as int);
    let mut i = pos;
    let mut value: u64 = 0;
    while i < s.len() && 48 <= s[i] && s[i] <= 57
        invariant
            e == digits_end(s@, pos as int),
            pos <= i <= e,
            e <= s@.len(),
            forall|k: int| pos <= k < e ==> is_digit(s@[k]),
            e < s@.len() ==> !is_digit(s@[e]),
            value == digits_value(s@, pos as int, i as int),
        decreases s@.len() - i,
    {
        let d: u64 = (s[i] - 48) as u64;
        assert(i < e);
        assert(digits_value(s@, pos as int, i + 1) == value * 10 + d);
        if value > (u64::MAX - d) / 10 {
            proof {
                assert(value * 10 + d > u64::MAX) by (nonlinear_arith)
                    requires
                        value > (u64::MAX - d) / 10,
                        d <= 9,
                ;
                lemma_digits_value_mono(s@, pos as int, i as int + 1, e);
            }
            return Step::Panic;
        }
        proof {
            assert(value * 10 + d <= u64::MAX) by (nonlinear_arith)
                requires
                    value <= (u64::MAX - d) / 10,
                    d <= 9,
            ;
        }
        value = value * 10 + d;
        i = i + 1;
    }
    if i == pos {
        Step::Fail(pos)
    } else {
        Step::Done(value, i)
    }
}

/// `parse_id`: one or more decimal digits read as a `u64`.
pub fn parse_id(s: &[u8], pos: usize) -> (r: Result<(u64, usize), usize>)
    requires
        pos <= s@.len(),
        !(spec_id(s@, pos as int) is Panic),
    ensures
        r == outcome(spec_id(s@, pos as int)),
{
    match try_parse_id(s, pos) {
        Step::Done(v, q) => Ok((v, q)),
        Step::Fail(x) => Err(x),
        Step::Panic => Err(0),
    }
}

pub proof fn lemma_digits_value_mono(s: Seq<u8>, p: int, i: int, e: int)
    requires
        p <= i <= e,
        forall|k: int| p <= k < e ==> is_digit(s[k]),
    ensures
        digits_value(s, p, i) <= digits_value(s, p, e),
    decreases e - i,
{
    if i < e {
        lemma_digits_value_mono(s, p, i, e - 1);
    }
}

/// `parse_class`: one or more ASCII letters; gives the span they cover.
pub fn parse_class(s: &[u8], pos: usize) -> (r: Result<((usize, usize), usize), usize>)
    requires
        pos <= s@.len(),
    ensures
        r == outcome(spec_class(s@, pos as int)),
{
    proof {
        lemma_alpha_end(s@, pos as int);
    }
    let ghost e = alpha_end(s@, pos as int);
    let mut i = pos;
    while i < s.len() && ((65 <= s[i] && s[i] <= 90) || (97 <= s[i] && s[i] <= 122))
        invariant
            pos <= i <= e,
            e <= s@.len(),
            forall|k: int| pos <= k < e ==> is_alpha(s@[k]),
            e < s@.len() ==> !is_alpha(s@[e]),
        decreases s@.len() - i,
    {
        i = i + 1;
    }
    if i == pos {
        Err(pos)
    } else {
        Ok(((pos, i), i))
    }
}

/// `parse_end_of_line`: `"\n"`, `"\r\n"`, or the end of the input.
pub fn parse_end_of_line(s: &[u8], pos: usize) -> (r: Result<((), usize), usize>)
    requires
        pos <= s@.len(),
    ensures
        r == outcome(spec_eol(s@, pos as int)),
{
    let n = s.len();
    if pos < n && s[pos] == 10 {
        Ok(((), pos + 1))
    } else if pos < n && n - pos >= 2 && s[pos] == 13 && s[pos + 1] == 10 {
        Ok(((), pos + 2))
    } else if pos == n {
        Ok(((), pos))
    } else {
        Err(pos)
    }
}

/// `parse_float`: the text of an `f32` as `winnow::ascii::float` reads it,
/// given as the span it covers.
pub fn parse_float(s: &[u8], pos: usize) -> (r: Result<((usize, usize), usize), usize>)
    requires
        pos <= s@.len(),
    ensures
        r == outcome(spec_float(s@, pos as int)),
{
    match float_extent(s, pos) {
        Ok(left) => Ok(((pos, s.len() - left), s.len() - left)),
        Err(left) => Err(s.len() - left),
    }
}

/// Runs one element of a line.
fn parse_field(s: &[u8], pos: usize, f: Field) -> (r: Step<Value>)
    requires
        pos <= s@.len(),
    ensures
        r == step_of(spec_field(s@, pos as int, f)),
{
    match f {
        Field::Lit(t) => match match_literal(s, pos, t) {
            Ok(q) => Step::Done(Value::Mark, q),
            Err(x) => Step::Fail(x),
        },
        Field::Id => match try_parse_id(s, pos) {
            Step::Done(v, q) => Step::Done(Value::Id(v), q),
            Step::Fail(x) => Step::Fail(x),
            Step::Panic => Step::Panic,
        },
        Field::Float => match parse_float(s, pos) {
            Ok((v, q)) => Step::Done(Value::Span(v.0, v.1), q),
            Err(x) => Step::Fail(x),
        },
        Field::Class => match parse_class(s, pos) {
            Ok((v, q)) => Step::Done(Value::Span(v.0, v.1), q),
            Err(x) => Step::Fail(x),
        },
        Field::EndOfLine => match parse_end_of_line(s, pos) {
            Ok((_, q)) => Step::Done(Value::Mark, q),
            Err(x) => Step::Fail(x),
        },
    }
}

/// Runs the elements `fs` one after the other from `pos`.
fn parse_fields(s: &[u8], pos: usize, fs: &Vec<Field>) -> (r: Step<Vec<Value>>)
    requires
        pos <= s@.len(),
    ensures
        match r {
            Step::Done(vs, q) => spec_fields(s@, pos as int, fs@) == Parsed::Done(vs@, q as int),
            Step::Fail(x) => spec_fields(s@, pos as int, fs@) == Parsed::<Seq<Value>>::Fail(x as int),
            Step::Panic => spec_fields(s@, pos as int, fs@) is Panic,
        },
{
    let mut vals: Vec<Value> = Vec::new();
    let mut at = pos;
    let mut i: usize = 0;
    let _n = s.len();
    proof {
        assert(fs@.skip(0) =~= fs@);
        match spec_fields(s@, pos as int, fs@) {
            Parsed::Done(vs, r) => {
                assert(vals@ + vs =~= vs);
            },
            _ => {},
        }
    }
    while i < fs.len()
        invariant
            0 <= i <= fs@.len(),
            pos <= at <= s@.len(),
            s@.len() <= usize::MAX,
            spec_fields(s@, pos as int, fs@) == prefixed(
                vals@,
                spec_fields(s@, at as int, fs@.skip(i as int)),
            ),
        decreases fs@.len() - i,
    {
        let ghost rest = fs@.skip(i as int);
        assert(rest[0] == fs@[i as int]);
        assert(rest.drop_first() =~= fs@.skip(i + 1));
        proof {
            lemma_field_positions(s@, at as int, fs@[i as int]);
        }
        match parse_field(s, at, fs[i]) {
            Step::Done(v, q) => {
                let ghost old_vals = vals@;
                vals.push(v);
                assert(vals@ == old_vals + seq![v]);
                proof {
                    match spec_fields(s@, q as int, fs@.skip(i + 1)) {
                        Parsed::Done(vs, r) => {
                            assert(old_vals + (seq![v] + vs) =~= vals@ + vs);
                        },
                        _ => {},
                    }
                }
                at = q;
            },
            Step::Fail(x) => {
                return Step::Fail(x);
            },
            Step::Panic => {
                return Step::Panic;
            },
        }
        i = i + 1;
    }
    assert(fs@.skip(i as int) =~= Seq::<Field>::empty());
    assert(vals@ + Seq::<Value>::empty() =~= vals@);
    Step::Done(vals, at)
}

pub open spec fn id_of(v: Value) -> u64 {
    match v {
        Value::Id(x) => x,
        _ => 0,
    }
}

/// The text a span value covers.
pub open spec fn text_at(s: Seq<u8>, v: Value) -> Seq<u8> {
    match v {
        Value::Span(a, b) => s.subrange(a as int, b as int),
        _ => Seq::empty(),
    }
}

/// Every span of `vs` lies within the input.
pub open spec fn spans_in(s: Seq<u8>, vs: Seq<Value>) -> bool {
    forall|i: int| 0 <= i < vs.len() ==> (#[trigger] vs[i] matches Value::Span(a, b) ==> a <= b <= s.len())
}

fn get_id(v: &Value) -> (r: u64)
    ensures
        r == id_of(*v),
{
    match v {
        Value::Id(x) => *x,
        _ => 0,
    }
}

/// A copy of the text a span value covers.
fn get_text(s: &[u8], v: &Value) -> (r: Vec<u8>)
    requires
        *v matches Value::Span(a, b) ==> a <= b <= s@.len(),
    ensures
        r@ == text_at(s@, *v),
{
    let mut out: Vec<u8> = Vec::new();
    match v {
        Value::Span(a, b) => {
            let mut i = *a;
            while i < *b
                invariant
                    *a <= i <= *b,
                    *b <= s@.len(),
                    out@ == s@.subrange(*a as int, i as int),
                decreases *b - i,
            {
                out.push(s[i]);
                assert(out@ =~= s@.subrange(*a as int, i + 1));
                i = i + 1;
            }
        },
        _ => {},
    }
    out
}

/// `make_wall, id=<id>, a_x=<f>, a_y=<f>, a_z=<f>, b_x=<f>, b_y=<f>, b_z=<f>, height=<f>, thickness=<f>`
pub open spec fn wall_grammar() -> Seq<Field> {
    seq![
        Field::Lit("make_wall, "), Field::Lit("id="), Field::Id,
        Field::Lit(", a_x="), Field::Float, Field::Lit(", a_y="), Field::Float,
        Field::Lit(", a_z="), Field::Float, Field::Lit(", b_x="), Field::Float,
        Field::Lit(", b_y="), Field::Float, Field::Lit(", b_z="), Field::Float,
        Field::Lit(", height="), Field::Float, Field::Lit(", thickness="), Field::Float,
        Field::EndOfLine,
    ]
}

/// `make_door, id=<id>, wall0_id=<id>, wall1_id=<id>, position_x=<f>, position_y=<f>, position_z=<f>, width=<f>, height=<f>`
pub open spec fn door_grammar() -> Seq<Field> {
    seq![
        Field::Lit("make_door"), Field::Lit(", id="), Field::Id,
        Field::Lit(", wall0_id="), Field::Id, Field::Lit(", wall1_id="), Field::Id,
        Field::Lit(", position_x="), Field::Float, Field::Lit(", position_y="), Field::Float,
        Field::Lit(", position_z="), Field::Float, Field::Lit(", width="), Field::Float,
        Field::Lit(", height="), Field::Float,
        Field::EndOfLine,
    ]
}

/// `make_bbox, id=<id>, class=<letters>, position_x=<f>, position_y=<f>, position_z=<f>, angle_z=<f>, scale_x=<f>, scale_y=<f>, scale_z=<f>`
pub open spec fn bbox_grammar() -> Seq<Field> {
    seq![
        Field::Lit("make_bbox"), Field::Lit(", id="), Field::Id,
        Field::Lit(", class="), Field::Class,
        Field::Lit(", position_x="), Field::Float, Field::Lit(", position_y="), Field::Float,
        Field::Lit(", position_z="), Field::Float, Field::Lit(", angle_z="), Field::Float,
        Field::Lit(", scale_x="), Field::Float, Field::Lit(", scale_y="), Field::Float,
        Field::Lit(", scale_z="), Field::Float,
        Field::EndOfLine,
    ]
}

fn wall_fields() -> (f: Vec<Field>)
    ensures
        f@ == wall_grammar(),
{
    let f = vec![
        Field::Lit("make_wall, "), Field::Lit("id="), Field::Id,
        Field::Lit(", a_x="), Field::Float, Field::Lit(", a_y="), Field::Float,
        Field::Lit(", a_z="), Field::Float, Field::Lit(", b_x="), Field::Float,
        Field::Lit(", b_y="), Field::Float, Field::Lit(", b_z="), Field::Float,
        Field::Lit(", height="), Field::Float, Field::Lit(", thickness="), Field::Float,
        Field::EndOfLine,
    ];
    assert(f@ =~= wall_grammar());
    f
}

fn door_fields() -> (f: Vec<Field>)
    ensures
        f@ == door_grammar(),
{
    let f = vec![
        Field::Lit("make_door"), Field::Lit(", id="), Field::Id,
        Field::Lit(", wall0_id="), Field::Id, Field::Lit(", wall1_id="), Field::Id,
        Field::Lit(", position_x="), Field::Float, Field::Lit(", position_y="), Field::Float,
        Field::Lit(", position_z="), Field::Float, Field::Lit(", width="), Field::Float,
        Field::Lit(", height="), Field::Float,
        Field::EndOfLine,
    ];
    assert(f@ =~= door_grammar());
    f
}

fn bbox_fields() -> (f: Vec<Field>)
    ensures
        f@ == bbox_grammar(),
{
    let f = vec![
        Field::Lit("make_bbox"), Field::Lit(", id="), Field::Id,
        Field::Lit(", class="), Field::Class,
        Field::Lit(", position_x="), Field::Float, Field::Lit(", position_y="), Field::Float,
        Field::Lit(", position_z="), Field::Float, Field::Lit(", angle_z="), Field::Float,
        Field::Lit(", scale_x="), Field::Float, Field::Lit(", scale_y="), Field::Float,
        Field::Lit(", scale_z="), Field::Float,
        Field::EndOfLine,
    ];
    assert(f@ =~= bbox_grammar());
    f
}

pub open spec fn vec3_matches(t: Vec3, s: Seq<u8>, x: Value, y: Value, z: Value) -> bool {
    &&& t.x@ == text_at(s, x)
    &&& t.y@ == text_at(s, y)
    &&& t.z@ == text_at(s, z)
}

/// `w` is the wall that the values of a wall line describe.
pub open spec fn wall_matches(w: RawWall, s: Seq<u8>, v: Seq<Value>) -> bool {
    &&& w.id == id_of(v[2]) as i64
    &&& vec3_matches(w.start, s, v[4], v[6], v[8])
    &&& vec3_matches(w.end, s, v[10], v[12], v[14])
}

/// `d` is the door that the values of a door line describe.
pub open spec fn door_matches(d: RawDoor, s: Seq<u8>, v: Seq<Value>) -> bool {
    &&& d.id == id_of(v[2]) as i64
    &&& d.wall0_id == id_of(v[4]) as i64
    &&& d.wall1_id == id_of(v[6]) as i64
    &&& vec3_matches(d.position, s, v[8], v[10], v[12])
    &&& d.width@ == text_at(s, v[14])
    &&& d.height@ == text_at(s, v[16])
}

/// `b` is the box that the values of a box line describe (its id and class are not kept).
pub open spec fn bbox_matches(b: RawBBox, s: Seq<u8>, v: Seq<Value>) -> bool {
    &&& vec3_matches(b.center, s, v[6], v[8], v[10])
    &&& b.angle@ == text_at(s, v[12])
    &&& vec3_matches(b.size, s, v[14], v[16], v[18])
}

/// How a line parser ends: on success the value is the line's item,
/// described by the values of its elements (`matches`), and the position after it.
pub open spec fn line_result<T>(
    r: Result<(T, usize), usize>,
    spec: Parsed<Seq<Value>>,
    matches: spec_fn(T, Seq<Value>) -> bool,
) -> bool {
    match spec {
        Parsed::Done(v, q) => r matches Ok((item, next)) && next == q && matches(item, v),
        Parsed::Fail(x) => r matches Err(y) && y == x,
        Parsed::Panic => false,
    }
}

/// How a line reader ends: as `line_result`, and with a panic exactly where
/// the line's grammar makes the parser panic.
pub open spec fn line_step<T>(
    r: Step<T>,
    spec: Parsed<Seq<Value>>,
    matches: spec_fn(T, Seq<Value>) -> bool,
) -> bool {
    match spec {
        Parsed::Done(v, q) => r matches Step::Done(item, next) && next == q && matches(item, v),
        Parsed::Fail(x) => r matches Step::Fail(y) && y == x,
        Parsed::Panic => r is Panic,
    }
}

/// `parse_wall`: a wall line, its end of line included.
pub fn parse_wall(s: &[u8], pos: usize) -> (r: Result<(RawWall, usize), usize>)
    requires
        pos <= s@.len(),
        !(spec_fields(s@, pos as int, wall_grammar()) is Panic),
    ensures
        line_result(
            r,
            spec_fields(s@, pos as int, wall_grammar()),
            |w: RawWall, v: Seq<Value>| wall_matches(w, s@, v),
        ),
{
    match try_parse_wall(s, pos) {
        Step::Done(item, q) => Ok((item, q)),
        Step::Fail(x) => Err(x),
        Step::Panic => Err(0),
    }
}

/// Reads a wall line, its end of line included, as `parse_wall` does; gives
/// `Step::Panic` exactly where `parse_wall` would panic.
pub fn try_parse_wall(s: &[u8], pos: usize) -> (r: Step<RawWall>)
    requires
        pos <= s@.len(),
    ensures
        line_step(
            r,
            spec_fields(s@, pos as int, wall_grammar()),
            |w: RawWall, v: Seq<Value>| wall_matches(w, s@, v),
        ),
{
    let _n = s.len();
    proof {
        lemma_fields_shape(s@, pos as int, wall_grammar());
    }
    let (v, q) = match parse_fields(s, pos, &wall_fields()) {
        Step::Done(v, q) => (v, q),
        Step::Fail(x) => {
            return Step::Fail(x);
        },
        Step::Panic => {
            return Step::Panic;
        },
    };
    let start = Vec3::new(get_text(s, &v[4]), get_text(s, &v[6]), get_text(s, &v[8]));
    let end = Vec3::new(get_text(s, &v[10]), get_text(s, &v[12]), get_text(s, &v[14]));
    Step::Done(RawWall::new(#[verifier::truncate] (get_id(&v[2]) as i64), start, end), q)
}

/// `parse_door`: a door line, its end of line included.
pub fn parse_door(s: &[u8], pos: usize) -> (r: Result<(RawDoor, usize), usize>)
    requires
        pos <= s@.len(),
        !(spec_fields(s@, pos as int, door_grammar()) is Panic),
    ensures
        line_result(
            r,
            spec_fields(s@, pos as int, door_grammar()),
            |d: RawDoor, v: Seq<Value>| door_matches(d, s@, v),
        ),
{
    match try_parse_door(s, pos) {
        Step::Done(item, q) => Ok((item, q)),
        Step::Fail(x) => Err(x),
        Step::Panic => Err(0),
    }
}

/// Reads a door line, its end of line included, as `parse_door` does; gives
/// `Step::Panic` exactly where `parse_door` would panic.
pub fn try_parse_door(s: &[u8], pos: usize) -> (r: Step<RawDoor>)
    requires
        pos <= s@.len(),
    ensures
        line_step(
            r,
            spec_fields(s@, pos as int, door_grammar()),
            |d: RawDoor, v: Seq<Value>| door_matches(d, s@, v),
        ),
{
    let _n = s.len();
    proof {
        lemma_fields_shape(s@, pos as int, door_grammar());
    }
    let (v, q) = match parse_fields(s, pos, &door_fields()) {
        Step::Done(v, q) => (v, q),
        Step::Fail(x) => {
            return Step::Fail(x);
        },
        Step::Panic => {
            return Step::Panic;
        },
    };
    let position = Vec3::new(get_text(s, &v[8]), get_text(s, &v[10]), get_text(s, &v[12]));
    let door = RawDoor::new(
        #[verifier::truncate] (get_id(&v[2]) as i64),
        #[verifier::truncate] (get_id(&v[4]) as i64),
        #[verifier::truncate] (get_id(&v[6]) as i64),
        position,
        get_text(s, &v[14]),
        get_text(s, &v[16]),
    );
    Step::Done(door, q)
}

/// `parse_bbox`: an object box line, its end of line included.
pub fn parse_bbox(s: &[u8], pos: usize) -> (r: Result<(RawBBox, usize), usize>)
    requires
        pos <= s@.len(),
        !(spec_fields(s@, pos as int, bbox_grammar()) is Panic),
    ensures
        line_result(
            r,
            spec_fields(s@, pos as int, bbox_grammar()),
            |b: RawBBox, v: Seq<Value>| bbox_matches(b, s@, v),
        ),
{
    match try_parse_bbox(s, pos) {
        Step::Done(item, q) => Ok((item, q)),
        Step::Fail(x) => Err(x),
        Step::Panic => Err(0),
    }
}

/// Reads a bbox line, its end of line included, as `parse_bbox` does; gives
/// `Step::Panic` exactly where `parse_bbox` would panic.
pub fn try_parse_bbox(s: &[u8], pos: usize) -> (r: Step<RawBBox>)
    requires
        pos <= s@.len(),
    ensures
        line_step(
            r,
            spec_fields(s@, pos as int, bbox_grammar()),
            |b: RawBBox, v: Seq<Value>| bbox_matches(b, s@, v),
        ),
{
    let _n = s.len();
    proof {
        lemma_fields_shape(s@, pos as int, bbox_grammar());
    }
    let (v, q) = match parse_fields(s, pos, &bbox_fields()) {
        Step::Done(v, q) => (v, q),
        Step::Fail(x) => {
            return Step::Fail(x);
        },
        Step::Panic => {
            return Step::Panic;
        },
    };
    let center = Vec3::new(get_text(s, &v[6]), get_text(s, &v[8]), get_text(s, &v[10]));
    let size = Vec3::new(get_text(s, &v[14]), get_text(s, &v[16]), get_text(s, &v[18]));
    Step::Done(RawBBox::new(center, get_text(s, &v[12]), size), q)
}


/// `skip_window`: a window line, which is not kept: `make_window`, then
/// everything up to a newline, which must be there, and the newline.
pub open spec fn spec_skip_window(s: Seq<u8>, p: int) -> Parsed<()> {
    match spec_lit(s, p, "make_window".spec_bytes()) {
        Parsed::Done(_, q) => {
            let e = till_newline(s, q);
            if e < s.len() {
                Parsed::Done((), e + 1)
            } else {
                Parsed::Fail(q)
            }
        },
        Parsed::Fail(x) => Parsed::Fail(x),
        Parsed::Panic => Parsed::Panic,
    }
}

/// `skip_window`: skips a window line.
pub fn skip_window(s: &[u8], pos: usize) -> (r: Result<((), usize), usize>)
    requires
        pos <= s@.len(),
    ensures
        r == outcome(spec_skip_window(s@, pos as int)),
{
    let q = match_literal(s, pos, "make_window")?;
    proof {
        lemma_till_newline(s@, q as int);
    }
    let mut e = q;
    while e < s.len() && s[e] != 10
        invariant
            q <= e <= till_newline(s@, q as int),
            till_newline(s@, q as int) <= s@.len(),
            forall|i: int| q <= i < till_newline(s@, q as int) ==> s@[i] != 10,
            till_newline(s@, q as int) < s@.len() ==> s@[till_newline(s@, q as int)] == 10,
        decreases s@.len() - e,
    {
        e = e + 1;
    }
    if e < s.len() {
        Ok(((), e + 1))
    } else {
        Err(q)
    }
}

pub proof fn lemma_skip_window_advance(s: Seq<u8>, p: int)
    requires
        0 <= p <= s.len(),
    ensures
        spec_skip_window(s, p) matches Parsed::Done(_, q) ==> p < q <= s.len(),
        spec_skip_window(s, p) matches Parsed::Fail(x) ==> p <= x <= s.len(),
{
    reveal_strlit("make_window");
    assert(vstd::string::is_ascii("make_window"));
    if let Parsed::Done(_, q) = spec_lit(s, p, "make_window".spec_bytes()) {
        lemma_till_newline(s, q);
    }
}

/// The window line of a room file: `skip_window` of `parser`, which needs
/// the newline, or, for the navigation files (`to_end`), `skip_window` of
/// `nav_parser`, which also takes a last line without one.
pub open spec fn window_line(s: Seq<u8>, p: int, to_end: bool) -> Parsed<()> {
    if to_end {
        spec_skip_window_to_eol(s, p)
    } else {
        spec_skip_window(s, p)
    }
}

pub proof fn lemma_window_line_advance(s: Seq<u8>, p: int, to_end: bool)
    requires
        0 <= p <= s.len(),
    ensures
        window_line(s, p, to_end) matches Parsed::Done(_, q) ==> p < q <= s.len(),
        window_line(s, p, to_end) matches Parsed::Fail(x) ==> p <= x <= s.len(),
{
    lemma_skip_window_advance(s, p);
    reveal_strlit("make_window");
    assert(vstd::string::is_ascii("make_window"));
    if let Parsed::Done(_, q) = spec_lit(s, p, "make_window".spec_bytes()) {
        lemma_till_newline(s, q);
    }
}

/// The value lists of the walls, doors and boxes of a run of lines.
pub type RoomItems = (Seq<Seq<Value>>, Seq<Seq<Value>>, Seq<Seq<Value>>);

pub open spec fn add_items(
    ws: Seq<Seq<Value>>,
    ds: Seq<Seq<Value>>,
    bs: Seq<Seq<Value>>,
    r: Parsed<RoomItems>,
) -> Parsed<RoomItems> {
    match r {
        Parsed::Done(items, q) => Parsed::Done((ws + items.0, ds + items.1, bs + items.2), q),
        Parsed::Fail(x) => Parsed::Fail(x),
        Parsed::Panic => Parsed::Panic,
    }
}

pub proof fn lemma_grammar_starts()
    ensures
        wall_grammar()[0] matches Field::Lit(t) && t.spec_bytes().len() > 0,
        door_grammar()[0] matches Field::Lit(t) && t.spec_bytes().len() > 0,
        bbox_grammar()[0] matches Field::Lit(t) && t.spec_bytes().len() > 0,
{
    reveal_strlit("make_wall, ");
    reveal_strlit("make_door");
    reveal_strlit("make_bbox");
    assert(vstd::string::is_ascii("make_wall, "));
    assert(vstd::string::is_ascii("make_door"));
    assert(vstd::string::is_ascii("make_bbox"));
}

/// A room file from `p` on, line after line until the input ends. A line is
/// tried as a wall, then from where that failed as a door, then as a box,
/// then as a window line (see `window_line`); a line that is none of these
/// makes the parser panic.
pub open spec fn room_items_with(s: Seq<u8>, p: int, to_end: bool) -> Parsed<RoomItems>
    decreases s.len() - p,
{
    if p < 0 || p >= s.len() {
        Parsed::Done((Seq::empty(), Seq::empty(), Seq::empty()), p)
    } else {
        proof {
            lemma_grammar_starts();
        }
        match spec_fields(s, p, wall_grammar()) {
            Parsed::Done(v, q) => {
                proof {
                    lemma_fields_advance(s, p, wall_grammar());
                }
                add_items(seq![v], Seq::empty(), Seq::empty(), room_items_with(s, q, to_end))
            },
            Parsed::Panic => Parsed::Panic,
            Parsed::Fail(p1) => {
                proof {
                    lemma_fields_advance(s, p, wall_grammar());
                }
                match spec_fields(s, p1, door_grammar()) {
                    Parsed::Done(v, q) => {
                        proof {
                            lemma_fields_advance(s, p1, door_grammar());
                        }
                        add_items(Seq::empty(), seq![v], Seq::empty(), room_items_with(s, q, to_end))
                    },
                    Parsed::Panic => Parsed::Panic,
                    Parsed::Fail(p2) => {
                        proof {
                            lemma_fields_advance(s, p1, door_grammar());
                        }
                        match spec_fields(s, p2, bbox_grammar()) {
                            Parsed::Done(v, q) => {
                                proof {
                                    lemma_fields_advance(s, p2, bbox_grammar());
                                }
                                add_items(Seq::empty(), Seq::empty(), seq![v], room_items_with(s, q, to_end))
                            },
                            Parsed::Panic => Parsed::Panic,
                            Parsed::Fail(p3) => {
                                proof {
                                    lemma_fields_advance(s, p2, bbox_grammar());
                                    lemma_window_line_advance(s, p3, to_end);
                                }
                                match window_line(s, p3, to_end) {
                                    Parsed::Done(_, q) => room_items_with(s, q, to_end),
                                    _ => Parsed::Panic,
                                }
                            },
                        }
                    },
                }
            },
        }
    }
}

/// `parse_room`: the room file from `p` on, window lines ending with a
/// newline; see `room_items_with`.
pub open spec fn room_items(s: Seq<u8>, p: int) -> Parsed<RoomItems> {
    room_items_with(s, p, false)
}


pub proof fn lemma_add_items_assoc(
    ws: Seq<Seq<Value>>,
    ds: Seq<Seq<Value>>,
    bs: Seq<Seq<Value>>,
    w2: Seq<Seq<Value>>,
    d2: Seq<Seq<Value>>,
    b2: Seq<Seq<Value>>,
    r: Parsed<RoomItems>,
)
    ensures
        add_items(ws, ds, bs, add_items(w2, d2, b2, r)) == add_items(ws + w2, ds + d2, bs + b2, r),
{
    if let Parsed::Done(items, q) = r {
        assert(ws + (w2 + items.0) =~= (ws + w2) + items.0);
        assert(ds + (d2 + items.1) =~= (ds + d2) + items.1);
        assert(bs + (b2 + items.2) =~= (bs + b2) + items.2);
    }
}

/// The items read match the value lists of the lines they come from.
pub open spec fn room_matches(
    walls: Seq<RawWall>,
    doors: Seq<RawDoor>,
    bboxes: Seq<RawBBox>,
    s: Seq<u8>,
    ws: Seq<Seq<Value>>,
    ds: Seq<Seq<Value>>,
    bs: Seq<Seq<Value>>,
) -> bool {
    &&& walls.len() == ws.len()
    &&& doors.len() == ds.len()
    &&& bboxes.len() == bs.len()
    &&& forall|i: int| 0 <= i < ws.len() ==> wall_matches(#[trigger] walls[i], s, ws[i])
    &&& forall|i: int| 0 <= i < ds.len() ==> door_matches(#[trigger] doors[i], s, ds[i])
    &&& forall|i: int| 0 <= i < bs.len() ==> bbox_matches(#[trigger] bboxes[i], s, bs[i])
}

/// Reads a whole room file; see `room_items_with`. Gives `None` exactly where the
/// parser would panic: on an id beyond `u64::MAX` or a line of no known kind.
pub(crate) fn read_room(s: &[u8], to_end: bool) -> (r: Option<RawData>)
    ensures
        r is None <==> room_items_with(s@, 0, to_end) is Panic,
        r matches Some(d) ==> room_items_with(s@, 0, to_end) matches Parsed::Done(items, _) && room_matches(
            d.walls@,
            d.doors@,
            d.bboxes@,
            s@,
            items.0,
            items.1,
            items.2,
        ),
{
    let mut walls: Vec<RawWall> = Vec::new();
    let mut doors: Vec<RawDoor> = Vec::new();
    let mut bboxes: Vec<RawBBox> = Vec::new();
    let ghost mut ws: Seq<Seq<Value>> = Seq::empty();
    let ghost mut ds: Seq<Seq<Value>> = Seq::empty();
    let ghost mut bs: Seq<Seq<Value>> = Seq::empty();
    let mut pos: usize = 0;
    let n = s.len();
    proof {
        lemma_add_items_assoc(ws, ds, bs, ws, ds, bs, room_items_with(s@, 0, to_end));
        if let Parsed::Done(items, q) = room_items_with(s@, 0, to_end) {
            assert(ws + items.0 =~= items.0);
            assert(ds + items.1 =~= items.1);
            assert(bs + items.2 =~= items.2);
        }
    }
    while pos < n
        invariant
            n == s@.len(),
            pos <= n,
            room_items_with(s@, 0, to_end) == add_items(ws, ds, bs, room_items_with(s@, pos as int, to_end)),
            room_matches(walls@, doors@, bboxes@, s@, ws, ds, bs),
        decreases n - pos,
    {
        proof {
            lemma_grammar_starts();
            lemma_fields_advance(s@, pos as int, wall_grammar());
        }
        match try_parse_wall(s, pos) {
            Step::Panic => {
                return None;
            },
            Step::Done(w, q) => {
                let ghost v = spec_fields(s@, pos as int, wall_grammar())->Done_0;
                proof {
                    lemma_add_items_assoc(ws, ds, bs, seq![v], Seq::empty(), Seq::empty(), room_items_with(s@, q as int, to_end));
                    assert(ds + Seq::<Seq<Value>>::empty() =~= ds);
                    assert(bs + Seq::<Seq<Value>>::empty() =~= bs);
                    ws = ws + seq![v];
                }
                walls.push(w);
                pos = q;
            },
            Step::Fail(p1) => {
                proof {
                    lemma_fields_advance(s@, p1 as int, door_grammar());
                }
                match try_parse_door(s, p1) {
                    Step::Panic => {
                        return None;
                    },
                    Step::Done(d, q) => {
                        let ghost v = spec_fields(s@, p1 as int, door_grammar())->Done_0;
                        proof {
                            lemma_add_items_assoc(ws, ds, bs, Seq::empty(), seq![v], Seq::empty(), room_items_with(s@, q as int, to_end));
                            assert(ws + Seq::<Seq<Value>>::empty() =~= ws);
                            assert(bs + Seq::<Seq<Value>>::empty() =~= bs);
                            ds = ds + seq![v];
                        }
                        doors.push(d);
                        pos = q;
                    },
                    Step::Fail(p2) => {
                        proof {
                            lemma_fields_advance(s@, p2 as int, bbox_grammar());
                        }
                        match try_parse_bbox(s, p2) {
                            Step::Panic => {
                                return None;
                            },
                            Step::Done(b, q) => {
                                let ghost v = spec_fields(s@, p2 as int, bbox_grammar())->Done_0;
                                proof {
                                    lemma_add_items_assoc(ws, ds, bs, Seq::empty(), Seq::empty(), seq![v], room_items_with(s@, q as int, to_end));
                                    assert(ws + Seq::<Seq<Value>>::empty() =~= ws);
                                    assert(ds + Seq::<Seq<Value>>::empty() =~= ds);
                                    bs = bs + seq![v];
                                }
                                bboxes.push(b);
                                pos = q;
                            },
                            Step::Fail(p3) => {
                                proof {
                                    lemma_window_line_advance(s@, p3 as int, to_end);
                                }
                                let w = if to_end {
                                    crate::nav_parser::skip_window(s, p3)
                                } else {
                                    skip_window(s, p3)
                                };
                                match w {
                                    Ok((_, q)) => {
                                        pos = q;
                                    },
                                    Err(_) => {
                                        return None;
                                    },
                                }
                            },
                        }
                    },
                }
            },
        }
    }
    Some(RawData { walls, doors, bboxes })
}


/// Reads a whole room file; see `room_items`. Gives `None` exactly where the
/// parser would panic: on an id beyond `u64::MAX` or a line of no known kind.
pub fn try_parse_room(s: &[u8]) -> (r: Option<RawData>)
    ensures
        r is None <==> room_items(s@, 0) is Panic,
        r matches Some(d) ==> room_items(s@, 0) matches Parsed::Done(items, _) && room_matches(
            d.walls@,
            d.doors@,
            d.bboxes@,
            s@,
            items.0,
            items.1,
            items.2,
        ),
{
    read_room(s, false)
}

/// `parse_room`: reads a whole room file; see `room_items`.
pub fn parse_room(s: &[u8]) -> (r: RawData)
    requires
        !(room_items(s@, 0) is Panic),
    ensures
        room_items(s@, 0) matches Parsed::Done(items, _) && room_matches(
            r.walls@,
            r.doors@,
            r.bboxes@,
            s@,
            items.0,
            items.1,
            items.2,
        ),
{
    match try_parse_room(s) {
        Some(d) => d,
        None => RawData::new(Vec::new(), Vec::new(), Vec::new()),
    }
}

/// The text of a literal element.
pub open spec fn lit_text(f: Field) -> Seq<u8> {
    match f {
        Field::Lit(t) => t.spec_bytes(),
        _ => Seq::empty(),
    }
}

/// `text` stands in `s` right after the text `label`.
pub open spec fn text_after_label(s: Seq<u8>, label: Seq<u8>, text: Seq<u8>) -> bool {
    exists|a: int|
        label.len() <= a && a + text.len() <= s.len() && #[trigger] s.subrange(a - label.len(), a)
            == label && s.subrange(a, a + text.len()) == text
}

/// The decimal digits that stand in `s` right after the text `label` make
/// the number `n` (as an id is stored).
pub open spec fn number_after_label(s: Seq<u8>, label: Seq<u8>, n: i64) -> bool {
    exists|a: int|
        label.len() <= a <= s.len() && #[trigger] s.subrange(a - label.len(), a) == label
            && digits_end(s, a) > a && (digits_value(s, a, digits_end(s, a)) as u64) as i64 == n
}

/// Where element `i + 1` of a line follows a literal, it is read from the
/// position right after the literal's text; gives that position.
pub proof fn lemma_after_literal(s: Seq<u8>, p: int, fs: Seq<Field>, i: int) -> (a: int)
    requires
        0 <= p <= s.len(),
        s.len() <= usize::MAX,
        0 <= i < fs.len() - 1,
        fs[i] is Lit,
        spec_fields(s, p, fs) is Done,
    ensures
        spec_fields(s, p, fs) matches Parsed::Done(vs, _) && vs.len() == fs.len() && lit_text(fs[i]).len()
            <= a <= s.len() && s.subrange(a - lit_text(fs[i]).len(), a) == lit_text(fs[i]) && (spec_field(
            s,
            a,
            fs[i + 1],
        ) matches Parsed::Done(w, _) && w == vs[i + 1]),
    decreases i,
{
    lemma_fields_shape(s, p, fs);
    lemma_field_advance(s, p, fs[0]);
    let q = spec_field(s, p, fs[0])->Done_1;
    let rest = fs.drop_first();
    lemma_fields_shape(s, q, rest);
    if i == 0 {
        assert(rest[0] == fs[1]);
        q
    } else {
        let a = lemma_after_literal(s, q, rest, i - 1);
        assert(rest[i - 1] == fs[i] && rest[i] == fs[i + 1]);
        a
    }
}

/// A number element right after a literal is written right after the
/// literal's text.
pub proof fn lemma_float_after_label(s: Seq<u8>, p: int, fs: Seq<Field>, i: int)
    requires
        0 <= p <= s.len(),
        s.len() <= usize::MAX,
        0 <= i < fs.len() - 1,
        fs[i] is Lit,
        fs[i + 1] is Float,
        spec_fields(s, p, fs) is Done,
    ensures
        spec_fields(s, p, fs) matches Parsed::Done(vs, _) && text_after_label(
            s,
            lit_text(fs[i]),
            text_at(s, vs[i + 1]),
        ),
{
    let a = lemma_after_literal(s, p, fs, i);
    let vs = spec_fields(s, p, fs)->Done_0;
    let t = lit_text(fs[i]);
    let e = (s.len() - winnow_float_left(s.subrange(a, s.len() as int))->Ok_0) as int;
    assert(vs[i + 1] == Value::Span(a as usize, e as usize));
    assert(s.subrange(a - t.len(), a) == t);
}

/// An id element right after a literal is written, in decimal, right after
/// the literal's text.
pub proof fn lemma_id_after_label(s: Seq<u8>, p: int, fs: Seq<Field>, i: int)
    requires
        0 <= p <= s.len(),
        s.len() <= usize::MAX,
        0 <= i < fs.len() - 1,
        fs[i] is Lit,
        fs[i + 1] is Id,
        spec_fields(s, p, fs) is Done,
    ensures
        spec_fields(s, p, fs) matches Parsed::Done(vs, _) && number_after_label(
            s,
            lit_text(fs[i]),
            id_of(vs[i + 1]) as i64,
        ),
{
    let a = lemma_after_literal(s, p, fs, i);
    let vs = spec_fields(s, p, fs)->Done_0;
    let t = lit_text(fs[i]);
    let e = digits_end(s, a);
    lemma_digits_end(s, a);
    assert(fs[i + 1] == Field::Id);
    assert(spec_id(s, a) is Done);
    assert(e > a);
    assert(vs[i + 1] == Value::Id(digits_value(s, a, e) as u64));
    assert(id_of(vs[i + 1]) as i64 == (digits_value(s, a, e) as u64) as i64);
    assert(s.subrange(a - t.len(), a) == t);
}

/// Every value of a door line is what is written right after its own label:
/// the ids after `, id=`, `, wall0_id=` and `, wall1_id=`, each coordinate of
/// the position after its own `, position_…=` label, the width after
/// `, width=` and the height after `, height=`.
pub proof fn door_values_follow_their_labels(s: Seq<u8>, pos: int, d: RawDoor)
    requires
        0 <= pos <= s.len(),
        s.len() <= usize::MAX,
        spec_fields(s, pos, door_grammar()) matches Parsed::Done(v, _) && door_matches(d, s, v),
    ensures
        number_after_label(s, ", id=".spec_bytes(), d.id),
        number_after_label(s, ", wall0_id=".spec_bytes(), d.wall0_id),
        number_after_label(s, ", wall1_id=".spec_bytes(), d.wall1_id),
        text_after_label(s, ", position_x=".spec_bytes(), d.position.x@),
        text_after_label(s, ", position_y=".spec_bytes(), d.position.y@),
        text_after_label(s, ", position_z=".spec_bytes(), d.position.z@),
        text_after_label(s, ", width=".spec_bytes(), d.width@),
        text_after_label(s, ", height=".spec_bytes(), d.height@),
{
    let g = door_grammar();
    lemma_id_after_label(s, pos, g, 1);
    lemma_id_after_label(s, pos, g, 3);
    lemma_id_after_label(s, pos, g, 5);
    lemma_float_after_label(s, pos, g, 7);
    lemma_float_after_label(s, pos, g, 9);
    lemma_float_after_label(s, pos, g, 11);
    lemma_float_after_label(s, pos, g, 13);
    lemma_float_after_label(s, pos, g, 15);
}

/// Every value of a wall line is what is written right after its own label:
/// the id after `id=`, and each coordinate of the two ends after its own
/// `, a_…=` or `, b_…=` label.
pub proof fn wall_values_follow_their_labels(s: Seq<u8>, pos: int, w: RawWall)
    requires
        0 <= pos <= s.len(),
        s.len() <= usize::MAX,
        spec_fields(s, pos, wall_grammar()) matches Parsed::Done(v, _) && wall_matches(w, s, v),
    ensures
        number_after_label(s, "id=".spec_bytes(), w.id),
        text_after_label(s, ", a_x=".spec_bytes(), w.start.x@),
        text_after_label(s, ", a_y=".spec_bytes(), w.start.y@),
        text_after_label(s, ", a_z=".spec_bytes(), w.start.z@),
        text_after_label(s, ", b_x=".spec_bytes(), w.end.x@),
        text_after_label(s, ", b_y=".spec_bytes(), w.end.y@),
        text_after_label(s, ", b_z=".spec_bytes(), w.end.z@),
{
    let g = wall_grammar();
    lemma_id_after_label(s, pos, g, 1);
    lemma_float_after_label(s, pos, g, 3);
    lemma_float_after_label(s, pos, g, 5);
    lemma_float_after_label(s, pos, g, 7);
    lemma_float_after_label(s, pos, g, 9);
    lemma_float_after_label(s, pos, g, 11);
    lemma_float_after_label(s, pos, g, 13);
}

/// Every value of a box line is what is written right after its own label:
/// each coordinate of the center after its own `, position_…=` label, the
/// angle after `, angle_z=`, and each size after its own `, scale_…=` label.
pub proof fn bbox_values_follow_their_labels(s: Seq<u8>, pos: int, b: RawBBox)
    requires
        0 <= pos <= s.len(),
        s.len() <= usize::MAX,
        spec_fields(s, pos, bbox_grammar()) matches Parsed::Done(v, _) && bbox_matches(b, s, v),
    ensures
        text_after_label(s, ", position_x=".spec_bytes(), b.center.x@),
        text_after_label(s, ", position_y=".spec_bytes(), b.center.y@),
        text_after_label(s, ", position_z=".spec_bytes(), b.center.z@),
        text_after_label(s, ", angle_z=".spec_bytes(), b.angle@),
        text_after_label(s, ", scale_x=".spec_bytes(), b.size.x@),
        text_after_label(s, ", scale_y=".spec_bytes(), b.size.y@),
        text_after_label(s, ", scale_z=".spec_bytes(), b.size.z@),
{
    let g = bbox_grammar();
    lemma_float_after_label(s, pos, g, 5);
    lemma_float_after_label(s, pos, g, 7);
    lemma_float_after_label(s, pos, g, 9);
    lemma_float_after_label(s, pos, g, 11);
    lemma_float_after_label(s, pos, g, 13);
    lemma_float_after_label(s, pos, g, 15);
    lemma_float_after_label(s, pos, g, 17);
}

} // verus!
