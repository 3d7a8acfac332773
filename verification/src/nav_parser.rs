use vstd::prelude::*;
use vstd::string::{StrSliceExecFns, StringSliceAdditionalSpecFns};

use crate::parser::{
    lemma_till_newline, match_literal, outcome, read_room, room_items_with, room_matches, spec_lit,
    till_newline, Parsed,
};
use crate::raw_data::RawData;

verus! {

/// `skip_window` of the navigation files: `make_window`, then everything up
/// to a newline or to the end of the input, then the end of the line, which
/// may be the end of the input.
pub open spec fn spec_skip_window_to_eol(s: Seq<u8>, p: int) -> Parsed<()> {
    match spec_lit(s, p, "make_window".spec_bytes()) {
        Parsed::Done(_, q) => {
            let e = till_newline(s, q);
            if e < s.len() {
                Parsed::Done((), e + 1)
            } else {
                Parsed::Done((), e)
            }
        },
        Parsed::Fail(x) => Parsed::Fail(x),
        Parsed::Panic => Parsed::Panic,
    }
}

/// `skip_window`: skips a window line, the last line of the input included.
pub fn skip_window(s: &[u8], pos: usize) -> (r: Result<((), usize), usize>)
    requires
        pos <= s@.len(),
    ensures
        r == outcome(spec_skip_window_to_eol(s@, pos as int)),
{
    let q = match_literal(s, pos, "make_window")?;
    proof {
        lemma_till_newline(s@, q as int);
    }
    let mut e = q;
    while e < s.len() && s[e] != 10
        invariant
            q <= e <= till_newline(s@, q as int),
            till_newline(s@, q as int) <= s@.len(),
            forall|i: int| q <= i < till_newline(s@, q as int) ==> s@[i] != 10,
            till_newline(s@, q as int) < s@.len() ==> s@[till_newline(s@, q as int)] == 10,
        decreases s@.len() - e,
    {
        e = e + 1;
    }
    if e < s.len() {
        Ok(((), e + 1))
    } else {
        Ok(((), e))
    }
}

/// Reads a whole navigation room file: as `parser::try_parse_room`, but a
/// window line may end the input without a newline. Gives `None` exactly
/// where the parser would panic: on an id beyond `u64::MAX` or a line of no
/// known kind.
pub fn try_parse_room(s: &[u8]) -> (r: Option<RawData>)
    ensures
        r is None <==> room_items_with(s@, 0, true) is Panic,
        r matches Some(d) ==> room_items_with(s@, 0, true) matches Parsed::Done(items, _) && room_matches(
            d.walls@,
            d.doors@,
            d.bboxes@,
            s@,
            items.0,
            items.1,
            items.2,
        ),
{
    read_room(s, true)
}

/// A character of the Unicode `White_Space` property, the set that
/// `char::is_whitespace` tests.
pub open spec fn is_white_space(c: char) -> bool {
    let u = c as u32;
    ||| 0x09 <= u <= 0x0D
    ||| u == 0x20
    ||| u == 0x85
    ||| u == 0xA0
    ||| u == 0x1680
    ||| 0x2000 <= u <= 0x200A
    ||| u == 0x2028
    ||| u == 0x2029
    ||| u == 0x202F
    ||| u == 0x205F
    ||| u == 0x3000
}

/// `s` without its leading white space.
pub open spec fn trim_start(s: Seq<char>) -> Seq<char>
    decreases s.len(),
{
    if s.len() > 0 && is_white_space(s[0]) {
        trim_start(s.subrange(1, s.len() as int))
    } else {
        s
    }
}

/// `s` without its trailing white space.
pub open spec fn trim_end(s: Seq<char>) -> Seq<char>
    decreases s.len(),
{
    if s.len() > 0 && is_white_space(s[s.len() - 1]) {
        trim_end(s.subrange(0, s.len() - 1))
    } else {
        s
    }
}

/// `s` without white space at either end, as `str::trim` gives it.
pub open spec fn trimmed(s: Seq<char>) -> Seq<char> {
    trim_end(trim_start(s))
}

/// The UTF-8 bytes of a room file's text once trimmed: what the room grammar
/// reads.
pub open spec fn room_bytes(text: Seq<char>) -> Seq<u8> {
    vstd::utf8::encode_utf8(trimmed(text))
}

fn white_space(c: char) -> (r: bool)
    ensures
        r == is_white_space(c),
{
    let u = c as u32;
    (0x09 <= u && u <= 0x0D) || u == 0x20 || u == 0x85 || u == 0xA0 || u == 0x1680 || (0x2000
        <= u && u <= 0x200A) || u == 0x2028 || u == 0x2029 || u == 0x202F || u == 0x205F || u
        == 0x3000
}

/// The text with white space removed at both ends.
pub fn trim_text(text: &str) -> (r: &str)
    ensures
        r@ == trimmed(text@),
{
    let n = text.unicode_len();
    let ghost s = text@;
    let mut a: usize = 0;
    assert(s.subrange(0, n as int) =~= s);
    while a < n
        invariant
            a <= n,
            n == s.len(),
            s == text@,
            trim_start(s) == trim_start(s.subrange(a as int, n as int)),
        ensures
            a <= n,
            trim_start(s) == s.subrange(a as int, n as int),
        decreases n - a,
    {
        if !white_space(text.get_char(a)) {
            break;
        }
        assert(s.subrange(a as int, n as int).subrange(1, n - a) =~= s.subrange(a + 1, n as int));
        a = a + 1;
    }
    let ghost t = s.subrange(a as int, n as int);
    let mut b: usize = n;
    while b > a
        invariant
            a <= b <= n,
            n == s.len(),
            s == text@,
            t == s.subrange(a as int, n as int),
            trim_end(t) == trim_end(s.subrange(a as int, b as int)),
        ensures
            a <= b <= n,
            trim_end(t) == s.subrange(a as int, b as int),
        decreases b - a,
    {
        if !white_space(text.get_char(b - 1)) {
            break;
        }
        assert(s.subrange(a as int, b as int).subrange(0, b - 1 - a) =~= s.subrange(
            a as int,
            b - 1,
        ));
        b = b - 1;
    }
    text.substring_char(a, b)
}

/// Reads the text of a navigation room file as the navigator loads it: white
/// space is first taken off both ends, then the bytes are read as
/// `try_parse_room` reads them.
pub fn try_parse_room_text(text: &str) -> (r: Option<RawData>)
    ensures
        r is None <==> room_items_with(room_bytes(text@), 0, true) is Panic,
        r matches Some(d) ==> room_items_with(room_bytes(text@), 0, true) matches Parsed::Done(
            items,
            _,
        ) && room_matches(
            d.walls@,
            d.doors@,
            d.bboxes@,
            room_bytes(text@),
            items.0,
            items.1,
            items.2,
        ),
{
    let t = trim_text(text);
    try_parse_room(t.as_bytes())
}

} // verus!
