//! Decoding of character references: named entities and numeric ones.

use vstd::prelude::*;
use crate::text::{chars_of, string_of};

verus! {

broadcast use vstd::string::group_string_axioms;

/// The replacement of a named entity, spelled with its `&` and `;`.
pub open spec fn named_entity(e: Seq<char>) -> Option<char> {
    if e == "&nbsp;"@ {
        Some(' ')
    } else if e == "&lt;"@ {
        Some('<')
    } else if e == "&gt;"@ {
        Some('>')
    } else if e == "&amp;"@ {
        Some('&')
    } else if e == "&quot;"@ {
        Some('"')
    } else if e == "&apos;"@ {
        Some('\'')
    } else if e == "&copy;"@ {
        Some('\u{a9}')
    } else if e == "&reg;"@ {
        Some('\u{ae}')
    } else if e == "&trade;"@ {
        Some('\u{2122}')
    } else if e == "&mdash;"@ {
        Some('\u{2014}')
    } else if e == "&ndash;"@ {
        Some('\u{2013}')
    } else if e == "&hellip;"@ {
        Some('\u{2026}')
    } else if e == "&bull;"@ {
        Some('\u{2022}')
    } else {
        None
    }
}

/// The value of a digit in base 16 (`hex`) or base 10, if it is one.
pub open spec fn digit_value(c: char, hex: bool) -> Option<int> {
    if '0' <= c && c <= '9' {
        Some(c as int - '0' as int)
    } else if hex && 'a' <= c && c <= 'f' {
        Some(c as int - 'a' as int + 10)
    } else if hex && 'A' <= c && c <= 'F' {
        Some(c as int - 'A' as int + 10)
    } else {
        None
    }
}

pub open spec fn all_digits(d: Seq<char>, hex: bool) -> bool {
    forall|k: int| 0 <= k < d.len() ==> (#[trigger] digit_value(d[k], hex)) is Some
}

/// The number that the digits `d` write, most significant first.
pub open spec fn digits_number(d: Seq<char>, hex: bool) -> int
    decreases d.len(),
{
    if d.len() == 0 {
        0
    } else if hex {
        digits_number(d.drop_last(), hex) * 16 + digit_value(d.last(), hex)->0
    } else {
        digits_number(d.drop_last(), hex) * 10 + digit_value(d.last(), hex)->0
    }
}

/// A Unicode scalar value: at most 0x10FFFF and not a surrogate.
pub open spec fn is_scalar(n: int) -> bool {
    0 <= n <= 0x10FFFF && !(0xD800 <= n <= 0xDFFF)
}

/// The scalar value of a character.
pub open spec fn code_of(c: char) -> int {
    c as int
}

/// The character whose scalar value is `n`.
pub open spec fn scalar_char(n: int) -> char {
    choose|c: char| #[trigger] code_of(c) == n
}

/// What the digits of a numeric reference stand for: one non-empty run of
/// digits naming a scalar value.
pub open spec fn numeric_char(d: Seq<char>, hex: bool) -> Option<char> {
    if d.len() > 0 && all_digits(d, hex) && is_scalar(digits_number(d, hex)) {
        Some(scalar_char(digits_number(d, hex)))
    } else {
        None
    }
}

pub open spec fn has_hex_form(e: Seq<char>) -> bool {
    e.len() >= 4 && e[0] == '&' && e[1] == '#' && e[2] == 'x' && e.last() == ';'
}

pub open spec fn has_dec_form(e: Seq<char>) -> bool {
    e.len() >= 3 && e[0] == '&' && e[1] == '#' && e.last() == ';'
}

/// What a candidate entity `e` (from `&` through `;`) turns into: its
/// replacement when it is a known name or a valid numeric reference, and
/// itself otherwise.
pub open spec fn decode(e: Seq<char>) -> Seq<char> {
    if named_entity(e) is Some {
        seq![named_entity(e)->0]
    } else if has_hex_form(e) {
        match numeric_char(e.subrange(3, e.len() - 1), true) {
            Some(c) => seq![c],
            None => e,
        }
    } else if has_dec_form(e) {
        match numeric_char(e.subrange(2, e.len() - 1), false) {
            Some(c) => seq![c],
            None => e,
        }
    } else {
        e
    }
}

/// Relies on `char::from_u32`: `Some` exactly for a scalar value, holding the
/// character with that value.
#[verifier::external_body]
fn char_from_u32(n: u32) -> (r: Option<char>)
    ensures
        r is Some <==> is_scalar(n as int),
        r is Some ==> r->0 as int == n as int,
{
    char::from_u32(n)
}

/// Whether `v[lo..hi]` spells `lit`.
fn spells(v: &Vec<char>, lo: usize, hi: usize, lit: &str) -> (r: bool)
    requires
        lo <= hi <= v.len(),
    ensures
        r == (v@.subrange(lo as int, hi as int) == lit@),
{
    let n = lit.unicode_len();
    if hi - lo != n {
        return false;
    }
    let mut k: usize = 0;
    while k < n
        invariant
            lo <= hi <= v.len(),
            hi - lo == n,
            n == lit@.len(),
            k <= n,
            forall|j: int| 0 <= j < k ==> v@[lo + j] == lit@[j],
        decreases n - k,
    {
        if v[lo + k] != lit.get_char(k) {
            assert(v@.subrange(lo as int, hi as int)[k as int] != lit@[k as int]);
            return false;
        }
        k = k + 1;
    }
    assert(v@.subrange(lo as int, hi as int) =~= lit@);
    true
}

/// The replacement of the named entity spelled by `v[lo..hi]`, if any.
fn lookup_named(v: &Vec<char>, lo: usize, hi: usize) -> (r: Option<char>)
    requires
        lo <= hi <= v.len(),
    ensures
        r == named_entity(v@.subrange(lo as int, hi as int)),
{
    if spells(v, lo, hi, "&nbsp;") {
        Some(' ')
    } else if spells(v, lo, hi, "&lt;") {
        Some('<')
    } else if spells(v, lo, hi, "&gt;") {
        Some('>')
    } else if spells(v, lo, hi, "&amp;") {
        Some('&')
    } else if spells(v, lo, hi, "&quot;") {
        Some('"')
    } else if spells(v, lo, hi, "&apos;") {
        Some('\'')
    } else if spells(v, lo, hi, "&copy;") {
        Some('\u{a9}')
    } else if spells(v, lo, hi, "&reg;") {
        Some('\u{ae}')
    } else if spells(v, lo, hi, "&trade;") {
        Some('\u{2122}')
    } else if spells(v, lo, hi, "&mdash;") {
        Some('\u{2014}')
    } else if spells(v, lo, hi, "&ndash;") {
        Some('\u{2013}')
    } else if spells(v, lo, hi, "&hellip;") {
        Some('\u{2026}')
    } else if spells(v, lo, hi, "&bull;") {
        Some('\u{2022}')
    } else {
        None
    }
}

fn digit_of(c: char, hex: bool) -> (r: Option<u32>)
    ensures
        r is Some <==> digit_value(c, hex) is Some,
        r is Some ==> r->0 as int == digit_value(c, hex)->0,
{
    if '0' <= c && c <= '9' {
        Some(c as u32 - '0' as u32)
    } else if hex && 'a' <= c && c <= 'f' {
        Some(c as u32 - 'a' as u32 + 10)
    } else if hex && 'A' <= c && c <= 'F' {
        Some(c as u32 - 'A' as u32 + 10)
    } else {
        None
    }
}

/// The character that the digits `v[lo..hi]` name, in base 16 or 10.
fn parse_numeric(v: &Vec<char>, lo: usize, hi: usize, hex: bool) -> (r: Option<char>)
    requires
        lo <= hi <= v.len(),
    ensures
        r == numeric_char(v@.subrange(lo as int, hi as int), hex),
{
    let ghost d = v@.subrange(lo as int, hi as int);
    if lo == hi {
        return None;
    }
    let mut value: u32 = 0;
    let mut big = false;
    let mut k: usize = lo;
    while k < hi
        invariant
            lo <= k <= hi <= v.len(),
            d == v@.subrange(lo as int, hi as int),
            all_digits(d.take(k - lo), hex),
            !big ==> value as int == digits_number(d.take(k - lo), hex) && value <= 0x10FFFF,
            big ==> digits_number(d.take(k - lo), hex) > 0x10FFFF,
        decreases hi - k,
    {
        let ghost p = d.take(k - lo);
        let ghost q = d.take(k + 1 - lo);
        assert(q.drop_last() =~= p);
        assert(q.last() == v@[k as int]);
        match digit_of(v[k], hex) {
            None => {
                assert(digit_value(d[k - lo], hex) is None);
                return None;
            },
            Some(x) => {
                assert forall|j: int| 0 <= j < q.len() implies (#[trigger] digit_value(q[j], hex)) is Some by {
                    if j < p.len() {
                        assert(q[j] == p[j]);
                    }
                }
                if !big {
                    let next: u32 = if hex { value * 16 + x } else { value * 10 + x };
                    if next > 0x10FFFF {
                        big = true;
                    } else {
                        value = next;
                    }
                }
            },
        }
        k = k + 1;
    }
    assert(d.take(hi - lo) =~= d);
    if big {
        return None;
    }
    match char_from_u32(value) {
        Some(c) => {
            assert(code_of(c) == digits_number(d, hex));
            assert(c == scalar_char(digits_number(d, hex)));
            Some(c)
        },
        None => None,
    }
}

/// Appends `decode(v[lo..hi])` to `out`.
pub fn decode_into(v: &Vec<char>, lo: usize, hi: usize, out: &mut Vec<char>)
    requires
        lo <= hi <= v.len(),
    ensures
        final(out)@ == old(out)@ + decode(v@.subrange(lo as int, hi as int)),
{
    let ghost e = v@.subrange(lo as int, hi as int);
    let named = lookup_named(v, lo, hi);
    let mut found: Option<char> = None;
    if let Some(c) = named {
        found = Some(c);
    } else if hi - lo >= 4 && v[lo] == '&' && v[lo + 1] == '#' && v[lo + 2] == 'x'
        && v[hi - 1] == ';' {
        assert(has_hex_form(e));
        assert(e.subrange(3, e.len() - 1) =~= v@.subrange(lo + 3, hi - 1));
        found = parse_numeric(v, lo + 3, hi - 1, true);
    } else if hi - lo >= 3 && v[lo] == '&' && v[lo + 1] == '#' && v[hi - 1] == ';' {
        assert(has_dec_form(e) && !has_hex_form(e));
        assert(e.subrange(2, e.len() - 1) =~= v@.subrange(lo + 2, hi - 1));
        found = parse_numeric(v, lo + 2, hi - 1, false);
    }
    match found {
        Some(c) => {
            out.push(c);
        },
        None => {
            let mut k: usize = lo;
            while k < hi
                invariant
                    lo <= k <= hi <= v.len(),
                    out@ == old(out)@ + v@.subrange(lo as int, k as int),
                decreases hi - k,
            {
                out.push(v[k]);
                k = k + 1;
                assert(out@ =~= old(out)@ + v@.subrange(lo as int, k as int));
            }
        },
    }
}

/// Decodes one candidate entity such as `&amp;`, `&#65;` or `&#x41;`;
/// anything else comes back as it was.
pub fn decode_html_entity(entity: &str) -> (r: String)
    ensures
        r@ == decode(entity@),
{
    let v = chars_of(entity);
    let mut out: Vec<char> = Vec::new();
    decode_into(&v, 0, v.len(), &mut out);
    assert(v@.subrange(0, v@.len() as int) =~= entity@);
    assert(out@ =~= decode(entity@));
    string_of(&out)
}

} // verus!
