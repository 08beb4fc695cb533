//! The host's response record, read field by field from its flat text form
//! (`"status":200`, `"body":"..."`, `"error":"..."`), and the request
//! identifiers written beside it.

use vstd::prelude::*;
use crate::entity::digits_number;
use crate::text::{chars_of, string_of};

verus! {

broadcast use vstd::string::group_string_axioms;

/// What one exchange with the host brought back.
pub struct HttpResponse {
    pub status: u16,
    pub body: String,
    pub error: Option<String>,
}

/// The first position at or after `i` where `p` occurs in `s`.
pub open spec fn find_from(s: Seq<char>, p: Seq<char>, i: int) -> Option<int>
    decreases s.len() + 1 - i,
{
    if i < 0 || i + p.len() > s.len() {
        None
    } else if s.subrange(i, i + p.len()) == p {
        Some(i)
    } else {
        find_from(s, p, i + 1)
    }
}

/// `"key":`
pub open spec fn key_prefix(key: Seq<char>) -> Seq<char> {
    seq!['"'] + key + seq!['"', ':']
}

/// `"key":"`
pub open spec fn string_key_prefix(key: Seq<char>) -> Seq<char> {
    key_prefix(key) + seq!['"']
}

/// The end of a quoted value that starts at 0 in `r`: the first `"` not
/// escaped by a backslash, looking from `i`; 0 where there is none.
pub open spec fn value_end(r: Seq<char>, i: int, escaped: bool) -> int
    decreases r.len() - i,
{
    if i < 0 || i >= r.len() {
        0
    } else if escaped {
        value_end(r, i + 1, false)
    } else if r[i] == '\\' {
        value_end(r, i + 1, true)
    } else if r[i] == '"' {
        i
    } else {
        value_end(r, i + 1, false)
    }
}

/// `s` with every occurrence of the pair `a b`, taken left to right without
/// overlap, replaced by `t`.
pub open spec fn replace_pair(s: Seq<char>, a: char, b: char, t: char) -> Seq<char>
    decreases s.len(),
{
    if s.len() < 2 {
        s
    } else if s[0] == a && s[1] == b {
        seq![t] + replace_pair(s.skip(2), a, b, t)
    } else {
        seq![s[0]] + replace_pair(s.skip(1), a, b, t)
    }
}

/// The escapes of a quoted value undone, one kind after the other:
/// `\"`, then `\\`, then `\n`, `\r` and `\t`.
pub open spec fn unescaped(s: Seq<char>) -> Seq<char> {
    let s1 = replace_pair(s, '\\', '"', '"');
    let s2 = replace_pair(s1, '\\', '\\', '\\');
    let s3 = replace_pair(s2, '\\', 'n', '\n');
    let s4 = replace_pair(s3, '\\', 'r', '\r');
    replace_pair(s4, '\\', 't', '\t')
}

/// The string value of `key` in `json`: the quoted text after the first
/// `"key":"`, unescaped.
pub open spec fn json_string(json: Seq<char>, key: Seq<char>) -> Option<Seq<char>> {
    let p = string_key_prefix(key);
    match find_from(json, p, 0) {
        Some(at) => {
            let r = json.skip(at + p.len());
            Some(unescaped(r.take(value_end(r, 0, false))))
        },
        None => None,
    }
}

/// The number of ASCII digits at the start of `r`, from `i` on.
pub open spec fn digits_end(r: Seq<char>, i: int) -> int
    decreases r.len() - i,
{
    if 0 <= i < r.len() && '0' <= r[i] && r[i] <= '9' {
        digits_end(r, i + 1)
    } else {
        i
    }
}

/// The number value of `key` in `json`: the digits right after the first
/// `"key":`, when there is at least one and they fit in 16 bits.
pub open spec fn json_u16(json: Seq<char>, key: Seq<char>) -> Option<u16> {
    let p = key_prefix(key);
    match find_from(json, p, 0) {
        Some(at) => {
            let r = json.skip(at + p.len());
            let d = r.take(digits_end(r, 0));
            if d.len() > 0 && digits_number(d, false) <= 0xFFFF {
                Some(digits_number(d, false) as u16)
            } else {
                None
            }
        },
        None => None,
    }
}

/// Where `p` first occurs in `s`.
fn find(s: &Vec<char>, p: &Vec<char>) -> (r: Option<usize>)
    ensures
        r is Some ==> find_from(s@, p@, 0) == Some(r->0 as int),
        r is None ==> find_from(s@, p@, 0) is None,
{
    if p.len() > s.len() {
        return None;
    }
    let mut i: usize = 0;
    while i <= s.len() - p.len()
        invariant
            find_from(s@, p@, i as int) == find_from(s@, p@, 0),
            p.len() <= s.len(),
            i <= s.len() - p.len() + 1,
        decreases s.len() - i,
    {
        let mut k: usize = 0;
        while k < p.len() && s[i + k] == p[k]
            invariant
                i + p.len() <= s.len(),
                k <= p.len(),
                forall|j: int| 0 <= j < k ==> s@[i + j] == p@[j],
            decreases p.len() - k,
        {
            k = k + 1;
        }
        let same = k == p.len();
        if same {
            assert(s@.subrange(i as int, i + p.len()) =~= p@);
        } else {
            assert(s@.subrange(i as int, i + p.len())[k as int] != p@[k as int]);
        }
        if same {
            return Some(i);
        }
        i = i + 1;
    }
    None
}

/// `s` with `a b` pairs replaced by `t`, as `replace_pair` says.
fn replace_pair_exec(s: &Vec<char>, a: char, b: char, t: char) -> (r: Vec<char>)
    ensures
        r@ == replace_pair(s@, a, b, t),
{
    let mut out: Vec<char> = Vec::new();
    let mut i: usize = 0;
    assert(s@.skip(0) =~= s@);
    while i < s.len()
        invariant
            i <= s.len(),
            out@ + replace_pair(s@.skip(i as int), a, b, t) == replace_pair(s@, a, b, t),
        decreases s.len() - i,
    {
        let ghost rest = s@.skip(i as int);
        if i + 1 < s.len() && s[i] == a && s[i + 1] == b {
            assert(rest.skip(2) =~= s@.skip(i + 2));
            out.push(t);
            i = i + 2;
            assert(out@ + replace_pair(s@.skip(i as int), a, b, t) =~= replace_pair(s@, a, b, t));
        } else {
            assert(rest.skip(1) =~= s@.skip(i + 1));
            out.push(s[i]);
            i = i + 1;
            assert(out@ + replace_pair(s@.skip(i as int), a, b, t) =~= replace_pair(s@, a, b, t));
        }
    }
    assert(out@ + replace_pair(s@.skip(i as int), a, b, t) == out@ + Seq::<char>::empty());
    assert(out@ =~= out@ + Seq::<char>::empty());
    out
}

/// Undoes the escapes of a quoted value: `\"`, `\\`, `\n`, `\r`, `\t`.
pub fn unescape_json(s: &str) -> (r: String)
    ensures
        r@ == unescaped(s@),
{
    let v = chars_of(s);
    let r = unescape_chars(&v);
    string_of(&r)
}

fn unescape_chars(v: &Vec<char>) -> (r: Vec<char>)
    ensures
        r@ == unescaped(v@),
{
    let v1 = replace_pair_exec(&v, '\\', '"', '"');
    let v2 = replace_pair_exec(&v1, '\\', '\\', '\\');
    let v3 = replace_pair_exec(&v2, '\\', 'n', '\n');
    let v4 = replace_pair_exec(&v3, '\\', 'r', '\r');
    replace_pair_exec(&v4, '\\', 't', '\t')
}

/// `"key":`, as characters.
fn key_pattern(key: &str) -> (r: Vec<char>)
    ensures
        r@ == key_prefix(key@),
{
    let mut p: Vec<char> = Vec::new();
    p.push('"');
    let mut kc = chars_of(key);
    p.append(&mut kc);
    p.push('"');
    p.push(':');
    assert(p@ =~= key_prefix(key@));
    p
}

/// Where the quoted value that starts at `start` ends, relative to `start`.
fn find_value_end(v: &Vec<char>, start: usize) -> (r: usize)
    requires
        start <= v.len(),
    ensures
        r as int == value_end(v@.skip(start as int), 0, false),
        r <= v.len() - start,
{
    let ghost rest = v@.skip(start as int);
    let mut i: usize = start;
    let mut escaped = false;
    while i < v.len()
        invariant
            start <= i <= v.len(),
            rest == v@.skip(start as int),
            value_end(rest, i - start, escaped) == value_end(rest, 0, false),
        decreases v.len() - i,
    {
        let c = v[i];
        assert(rest[i - start] == c);
        if escaped {
            escaped = false;
        } else if c == '\\' {
            escaped = true;
        } else if c == '"' {
            return i - start;
        }
        i = i + 1;
    }
    0
}

/// The string value of `key` in the flat response text `json`.
pub fn extract_json_string(json: &str, key: &str) -> (r: Option<String>)
    ensures
        r is None <==> json_string(json@, key@) is None,
        r matches Some(v) ==> json_string(json@, key@) == Some(v@),
{
    let v = chars_of(json);
    let mut p = key_pattern(key);
    p.push('"');
    assert(p@ == string_key_prefix(key@));
    match find(&v, &p) {
        None => None,
        Some(at) => {
            proof {
                lemma_find_from(v@, p@, 0);
                assert(at + p.len() <= v.len());
            }
            let start = at + p.len();
            let end = find_value_end(&v, start);
            let mut value: Vec<char> = Vec::new();
            let mut k: usize = 0;
            while k < end
                invariant
                    start + end <= v.len(),
                    k <= end,
                    value@ == v@.subrange(start as int, start + k),
                decreases end - k,
            {
                value.push(v[start + k]);
                k = k + 1;
                assert(value@ =~= v@.subrange(start as int, start + k));
            }
            assert(value@ =~= v@.skip(start as int).take(end as int));
            let u = unescape_chars(&value);
            Some(string_of(&u))
        },
    }
}

proof fn lemma_find_from(s: Seq<char>, p: Seq<char>, i: int)
    requires
        0 <= i,
    ensures
        find_from(s, p, i) is Some ==> i <= find_from(s, p, i)->0 && find_from(s, p, i)->0
            + p.len() <= s.len(),
    decreases s.len() + 1 - i,
{
    if i + p.len() <= s.len() && s.subrange(i, i + p.len()) != p {
        lemma_find_from(s, p, i + 1);
    }
}

/// The 16-bit number value of `key` in the flat response text `json`.
pub fn extract_json_u16(json: &str, key: &str) -> (r: Option<u16>)
    ensures
        r == json_u16(json@, key@),
{
    let v = chars_of(json);
    let p = key_pattern(key);
    match find(&v, &p) {
        None => None,
        Some(at) => {
            proof {
                lemma_find_from(v@, p@, 0);
                assert(at + p.len() <= v.len());
            }
            let start = at + p.len();
            let ghost r = v@.skip(start as int);
            let mut i: usize = start;
            let mut value: u32 = 0;
            let mut big = false;
            while i < v.len() && '0' <= v[i] && v[i] <= '9'
                invariant
                    start <= i <= v.len(),
                    r == v@.skip(start as int),
                    digits_end(r, i - start) == digits_end(r, 0),
                    !big ==> value as int == digits_number(r.take(i - start), false) && value
                        <= 0xFFFF,
                    big ==> digits_number(r.take(i - start), false) > 0xFFFF,
                decreases v.len() - i,
            {
                let ghost q = r.take(i + 1 - start);
                assert(q.drop_last() =~= r.take(i - start));
                assert(q.last() == v@[i as int]);
                let x = v[i] as u32 - '0' as u32;
                if !big {
                    let next = value * 10 + x;
                    if next > 0xFFFF {
                        big = true;
                    } else {
                        value = next;
                    }
                }
                i = i + 1;
            }
            assert(digits_end(r, i - start) == i - start);
            if i == start || big {
                None
            } else {
                Some(value as u16)
            }
        },
    }
}

/// Reads the response record: a missing status reads as 0 and a missing body
/// as empty; the error is there only when the record has one.
pub fn parse_response(content: &str) -> (r: HttpResponse)
    ensures
        r.status == match json_u16(content@, "status"@) {
            Some(n) => n,
            None => 0,
        },
        r.body@ == match json_string(content@, "body"@) {
            Some(b) => b,
            None => Seq::empty(),
        },
        r.error is None <==> json_string(content@, "error"@) is None,
        r.error matches Some(e) ==> json_string(content@, "error"@) == Some(e@),
{
    let status = match extract_json_u16(content, "status") {
        Some(n) => n,
        None => 0,
    };
    let body = match extract_json_string(content, "body") {
        Some(b) => b,
        None => String::new(),
    };
    let error = extract_json_string(content, "error");
    HttpResponse { status, body, error }
}

/// The decimal digit `d`.
pub open spec fn digit_char(d: int) -> char {
    if d == 0 {
        '0'
    } else if d == 1 {
        '1'
    } else if d == 2 {
        '2'
    } else if d == 3 {
        '3'
    } else if d == 4 {
        '4'
    } else if d == 5 {
        '5'
    } else if d == 6 {
        '6'
    } else if d == 7 {
        '7'
    } else if d == 8 {
        '8'
    } else {
        '9'
    }
}

/// `n` in decimal, without leading zeros.
pub open spec fn decimal(n: nat) -> Seq<char>
    decreases n,
{
    if n < 10 {
        seq![digit_char(n as int)]
    } else {
        decimal(n / 10).push(digit_char((n % 10) as int))
    }
}

fn push_decimal(n: u64, out: &mut Vec<char>)
    ensures
        final(out)@ == old(out)@ + decimal(n as nat),
    decreases n,
{
    if n >= 10 {
        push_decimal(n / 10, out);
    }
    let d = n % 10;
    let c = if d == 0 {
        '0'
    } else if d == 1 {
        '1'
    } else if d == 2 {
        '2'
    } else if d == 3 {
        '3'
    } else if d == 4 {
        '4'
    } else if d == 5 {
        '5'
    } else if d == 6 {
        '6'
    } else if d == 7 {
        '7'
    } else if d == 8 {
        '8'
    } else {
        '9'
    };
    out.push(c);
    assert(final(out)@ =~= old(out)@ + decimal(n as nat));
}

/// The identifier of a request made at `now_millis` milliseconds after the
/// Unix epoch: `req_` and that number.
pub fn generate_request_id(now_millis: u64) -> (r: String)
    ensures
        r@ == seq!['r', 'e', 'q', '_'] + decimal(now_millis as nat),
{
    let mut v: Vec<char> = Vec::new();
    v.push('r');
    v.push('e');
    v.push('q');
    v.push('_');
    push_decimal(now_millis, &mut v);
    assert(v@ =~= seq!['r', 'e', 'q', '_'] + decimal(now_millis as nat));
    string_of(&v)
}

} // verus!
