//! The markup-to-text converter: one forward scan driven by a small state
//! machine, then a trim and a pass that merges runs of line breaks.

use vstd::prelude::*;
use crate::entity::{decode, decode_into};
use crate::text::{chars_of, is_whitespace, is_ws, string_of};

verus! {

broadcast use vstd::string::group_string_axioms;

/// What closing a tag does.
#[derive(PartialEq, Eq, Structural, Clone, Copy, Debug)]
pub enum TagKind {
    /// `br`, `br/` or `br /`: always a line break.
    LineBreak,
    /// `p`, `div`, `h1`..`h6`, `li`, `tr`, opening or closing: a line break
    /// unless one was just written.
    Block,
    /// `script`: the body that follows is dropped.
    Script,
    /// `/script`
    EndScript,
    /// `style`: the body that follows is dropped.
    Style,
    /// `/style`
    EndStyle,
    /// Any other tag: no effect.
    Other,
}

/// `c` is `l`, or the upper-case form of the ASCII letter `l`.
pub open spec fn same_letter(c: char, l: char) -> bool {
    c == l || ('a' <= l && l <= 'z' && 'A' <= c && c <= 'Z' && c as int + 32 == l as int)
}

/// The tag text `t` spells the lower-case name `n`, ignoring ASCII case.
/// Folding ASCII letters alone is enough here: no other character lowercases
/// to a letter that the recognised names use.
pub open spec fn names(t: Seq<char>, n: Seq<char>) -> bool {
    t.len() == n.len() && forall|k: int| 0 <= k < t.len() ==> #[trigger] same_letter(t[k], n[k])
}

pub open spec fn is_block_name(t: Seq<char>) -> bool {
    names(t, "p"@) || names(t, "/p"@) || names(t, "div"@) || names(t, "/div"@)
        || names(t, "h1"@) || names(t, "/h1"@) || names(t, "h2"@) || names(t, "/h2"@)
        || names(t, "h3"@) || names(t, "/h3"@) || names(t, "h4"@) || names(t, "/h4"@)
        || names(t, "h5"@) || names(t, "/h5"@) || names(t, "h6"@) || names(t, "/h6"@)
        || names(t, "li"@) || names(t, "/li"@) || names(t, "tr"@) || names(t, "/tr"@)
}

/// The effect of the tag whose text between `<` and `>` is `t`.
pub open spec fn tag_kind(t: Seq<char>) -> TagKind {
    if names(t, "br"@) || names(t, "br/"@) || names(t, "br /"@) {
        TagKind::LineBreak
    } else if is_block_name(t) {
        TagKind::Block
    } else if names(t, "script"@) {
        TagKind::Script
    } else if names(t, "/script"@) {
        TagKind::EndScript
    } else if names(t, "style"@) {
        TagKind::Style
    } else if names(t, "/style"@) {
        TagKind::EndStyle
    } else {
        TagKind::Other
    }
}

fn names_exec(t: &Vec<char>, n: &str) -> (r: bool)
    ensures
        r == names(t@, n@),
{
    let len = n.unicode_len();
    if t.len() != len {
        return false;
    }
    let mut k: usize = 0;
    while k < len
        invariant
            t@.len() == len,
            len == n@.len(),
            k <= len,
            forall|j: int| 0 <= j < k ==> #[trigger] same_letter(t@[j], n@[j]),
        decreases len - k,
    {
        let c = t[k];
        let l = n.get_char(k);
        let cu = c as u32;
        let lu = l as u32;
        let same = c == l || ('a' <= l && l <= 'z' && 'A' <= c && c <= 'Z' && cu + 32 == lu);
        assert(same == same_letter(c, l));
        if !same {
            assert(!same_letter(t@[k as int], n@[k as int]));
            return false;
        }
        k = k + 1;
    }
    true
}

/// The effect of the tag whose text is `t`.
pub fn classify_tag(t: &Vec<char>) -> (r: TagKind)
    ensures
        r == tag_kind(t@),
{
    if names_exec(t, "br") || names_exec(t, "br/") || names_exec(t, "br /") {
        TagKind::LineBreak
    } else if names_exec(t, "p") || names_exec(t, "/p") || names_exec(t, "div") || names_exec(
        t,
        "/div",
    ) || names_exec(t, "h1") || names_exec(t, "/h1") || names_exec(t, "h2") || names_exec(
        t,
        "/h2",
    ) || names_exec(t, "h3") || names_exec(t, "/h3") || names_exec(t, "h4") || names_exec(
        t,
        "/h4",
    ) || names_exec(t, "h5") || names_exec(t, "/h5") || names_exec(t, "h6") || names_exec(
        t,
        "/h6",
    ) || names_exec(t, "li") || names_exec(t, "/li") || names_exec(t, "tr") || names_exec(
        t,
        "/tr",
    ) {
        TagKind::Block
    } else if names_exec(t, "script") {
        TagKind::Script
    } else if names_exec(t, "/script") {
        TagKind::EndScript
    } else if names_exec(t, "style") {
        TagKind::Style
    } else if names_exec(t, "/style") {
        TagKind::EndStyle
    } else {
        TagKind::Other
    }
}

/// The scanner's state between two input positions.
pub struct Scan {
    pub in_tag: bool,
    pub in_script: bool,
    pub in_style: bool,
    /// The characters seen since the last `<` while inside a tag.
    pub tag: Seq<char>,
    /// The text written so far.
    pub out: Seq<char>,
    /// Whether the last character written counts as a separator.
    pub last_space: bool,
}

pub open spec fn start() -> Scan {
    Scan {
        in_tag: false,
        in_script: false,
        in_style: false,
        tag: Seq::empty(),
        out: Seq::empty(),
        last_space: false,
    }
}

pub open spec fn ends_with_newline(out: Seq<char>) -> bool {
    out.len() > 0 && out.last() == '\n'
}

/// The state after the `>` that closes the tag in `st.tag`.
pub open spec fn close_tag(st: Scan) -> Scan {
    let k = tag_kind(st.tag);
    Scan {
        in_tag: false,
        in_script: if k == TagKind::Script {
            true
        } else if k == TagKind::EndScript {
            false
        } else {
            st.in_script
        },
        in_style: if k == TagKind::Style {
            true
        } else if k == TagKind::EndStyle {
            false
        } else {
            st.in_style
        },
        tag: Seq::empty(),
        out: if k == TagKind::LineBreak {
            st.out.push('\n')
        } else if k == TagKind::Block && !ends_with_newline(st.out) {
            st.out.push('\n')
        } else {
            st.out
        },
        last_space: if k == TagKind::LineBreak || k == TagKind::Block {
            true
        } else {
            st.last_space
        },
    }
}

/// The state after the text character `c`: whitespace becomes one space,
/// and none at the start or right after another separator.
pub open spec fn text_char(st: Scan, c: char) -> Scan {
    if is_ws(c) {
        if !st.last_space && st.out.len() > 0 {
            Scan { out: st.out.push(' '), last_space: true, ..st }
        } else {
            st
        }
    } else {
        Scan { out: st.out.push(c), last_space: false, ..st }
    }
}

/// The first position at or after `i` that holds `;`.
pub open spec fn next_semi(s: Seq<char>, i: int) -> Option<int>
    decreases s.len() - i,
{
    if i < 0 || i >= s.len() {
        None
    } else if s[i] == ';' {
        Some(i)
    } else {
        next_semi(s, i + 1)
    }
}

pub proof fn lemma_next_semi(s: Seq<char>, i: int)
    requires
        0 <= i,
    ensures
        next_semi(s, i) matches Some(j) ==> i <= j < s.len() && s[j] == ';' && forall|k: int|
            i <= k < j ==> s[k] != ';',
        next_semi(s, i) is None ==> forall|k: int| i <= k < s.len() ==> s[k] != ';',
    decreases s.len() - i,
{
    if i < s.len() && s[i] != ';' {
        lemma_next_semi(s, i + 1);
    }
}

/// The state after the entity `s[i..=j]`, decoded.
pub open spec fn entity_step(st: Scan, s: Seq<char>, i: int, j: int) -> Scan {
    let d = decode(s.subrange(i, j + 1));
    Scan { out: st.out + d, last_space: d.len() > 0 && is_ws(d.last()), ..st }
}

/// The state at the end of the input, scanning `s` from position `i` in
/// state `st`.
pub open spec fn scan_from(s: Seq<char>, i: int, st: Scan) -> Scan
    decreases s.len() - i,
    via scan_from_decreases
{
    if i < 0 || i >= s.len() {
        st
    } else {
        let c = s[i];
        if c == '<' {
            scan_from(s, i + 1, Scan { in_tag: true, tag: Seq::empty(), ..st })
        } else if st.in_tag {
            if c == '>' {
                scan_from(s, i + 1, close_tag(st))
            } else {
                scan_from(s, i + 1, Scan { tag: st.tag.push(c), ..st })
            }
        } else if st.in_script || st.in_style {
            scan_from(s, i + 1, st)
        } else if c == '&' && next_semi(s, i) is Some {
            scan_from(s, next_semi(s, i)->0 + 1, entity_step(st, s, i, next_semi(s, i)->0))
        } else {
            scan_from(s, i + 1, text_char(st, c))
        }
    }
}

#[via_fn]
proof fn scan_from_decreases(s: Seq<char>, i: int, st: Scan) {
    if 0 <= i < s.len() {
        lemma_next_semi(s, i);
    }
}

/// The text that the scan writes for the whole input.
pub open spec fn scanned(s: Seq<char>) -> Seq<char> {
    scan_from(s, 0, start()).out
}

/// The end of the run of whitespace that starts at `i`.
pub open spec fn lead_end(x: Seq<char>, i: int) -> int
    decreases x.len() - i,
{
    if 0 <= i < x.len() && is_ws(x[i]) {
        lead_end(x, i + 1)
    } else {
        i
    }
}

/// The start of the run of whitespace that ends at `j`, not before `lo`.
pub open spec fn trail_start(x: Seq<char>, lo: int, j: int) -> int
    decreases j - lo,
{
    if lo < j <= x.len() && is_ws(x[j - 1]) {
        trail_start(x, lo, j - 1)
    } else {
        j
    }
}

/// `x` without leading and trailing whitespace.
pub open spec fn trim(x: Seq<char>) -> Seq<char> {
    let a = lead_end(x, 0);
    x.subrange(a, trail_start(x, a, x.len() as int))
}

pub proof fn lemma_lead_end(x: Seq<char>, i: int)
    requires
        0 <= i <= x.len(),
    ensures
        i <= lead_end(x, i) <= x.len(),
        forall|k: int| i <= k < lead_end(x, i) ==> is_ws(#[trigger] x[k]),
        lead_end(x, i) < x.len() ==> !is_ws(x[lead_end(x, i)]),
    decreases x.len() - i,
{
    if i < x.len() && is_ws(x[i]) {
        lemma_lead_end(x, i + 1);
    }
}

pub proof fn lemma_trail_start(x: Seq<char>, lo: int, j: int)
    requires
        0 <= lo <= j <= x.len(),
    ensures
        lo <= trail_start(x, lo, j) <= j,
        forall|k: int| trail_start(x, lo, j) <= k < j ==> is_ws(#[trigger] x[k]),
        trail_start(x, lo, j) > lo ==> !is_ws(x[trail_start(x, lo, j) - 1]),
    decreases j - lo,
{
    if lo < j && is_ws(x[j - 1]) {
        lemma_trail_start(x, lo, j - 1);
    }
}

/// `x` with every line break that directly follows another one dropped.
pub open spec fn collapse_newlines(x: Seq<char>) -> Seq<char>
    decreases x.len(),
{
    if x.len() == 0 {
        x
    } else {
        let p = collapse_newlines(x.drop_last());
        if x.last() == '\n' && x.len() >= 2 && x[x.len() - 2] == '\n' {
            p
        } else {
            p.push(x.last())
        }
    }
}

/// The plain text that the converter makes of the markup `s`.
pub open spec fn html_text(s: Seq<char>) -> Seq<char> {
    collapse_newlines(trim(scanned(s)))
}

/// The position of the first `;` at or after `i`, if any.
fn find_semi(v: &Vec<char>, i: usize) -> (r: Option<usize>)
    requires
        i <= v.len(),
    ensures
        r matches Some(j) ==> next_semi(v@, i as int) == Some(j as int),
        r is None ==> next_semi(v@, i as int) is None,
{
    let mut k: usize = i;
    while k < v.len()
        invariant
            i <= k <= v.len(),
            next_semi(v@, i as int) == next_semi(v@, k as int),
        decreases v.len() - k,
    {
        if v[k] == ';' {
            return Some(k);
        }
        k = k + 1;
    }
    None
}

/// Converts markup to readable plain text: tags are dropped, line breaks are
/// written for `br` and block tags, script and style bodies are dropped,
/// entities are decoded, whitespace runs become single spaces, and the result
/// is trimmed with runs of line breaks merged.
pub fn html_to_text(html: &str) -> (r: String)
    ensures
        r@ == html_text(html@),
{
    let chars = chars_of(html);
    let ghost s = chars@;
    let n = chars.len();
    let mut out: Vec<char> = Vec::new();
    let mut tag: Vec<char> = Vec::new();
    let mut in_tag = false;
    let mut in_script = false;
    let mut in_style = false;
    let mut last_space = false;
    let mut i: usize = 0;
    while i < n
        invariant
            n == s.len(),
            s == chars@,
            i <= n,
            scan_from(
                s,
                i as int,
                Scan { in_tag, in_script, in_style, tag: tag@, out: out@, last_space },
            ) == scan_from(s, 0, start()),
        decreases n - i,
    {
        let c = chars[i];
        if c == '<' {
            in_tag = true;
            tag = Vec::new();
            i = i + 1;
        } else if in_tag {
            if c == '>' {
                let kind = classify_tag(&tag);
                match kind {
                    TagKind::LineBreak => {
                        out.push('\n');
                        last_space = true;
                    },
                    TagKind::Block => {
                        let nl = out.len() > 0 && out[out.len() - 1] == '\n';
                        if !nl {
                            out.push('\n');
                        }
                        last_space = true;
                    },
                    TagKind::Script => {
                        in_script = true;
                    },
                    TagKind::EndScript => {
                        in_script = false;
                    },
                    TagKind::Style => {
                        in_style = true;
                    },
                    TagKind::EndStyle => {
                        in_style = false;
                    },
                    TagKind::Other => {},
                }
                in_tag = false;
                tag = Vec::new();
            } else {
                tag.push(c);
            }
            i = i + 1;
        } else if in_script || in_style {
            i = i + 1;
        } else {
            let semi = if c == '&' {
                find_semi(&chars, i)
            } else {
                None
            };
            match semi {
                Some(j) => {
                    proof {
                        lemma_next_semi(s, i as int);
                    }
                    decode_into(&chars, i, j + 1, &mut out);
                    proof {
                        lemma_decode_nonempty(s.subrange(i as int, j + 1));
                    }
                    last_space = is_whitespace(out[out.len() - 1]);
                    i = j + 1;
                },
                None => {
                    if is_whitespace(c) {
                        if !last_space && out.len() > 0 {
                            out.push(' ');
                            last_space = true;
                        }
                    } else {
                        out.push(c);
                        last_space = false;
                    }
                    i = i + 1;
                },
            }
        }
    }
    let ghost x = out@;
    proof {
        lemma_lead_end(x, 0);
    }
    let mut a: usize = 0;
    while a < out.len() && is_whitespace(out[a])
        invariant
            x == out@,
            a <= x.len(),
            lead_end(x, a as int) == lead_end(x, 0),
        decreases x.len() - a,
    {
        a = a + 1;
    }
    proof {
        lemma_trail_start(x, a as int, x.len() as int);
    }
    let mut b: usize = out.len();
    while b > a && is_whitespace(out[b - 1])
        invariant
            x == out@,
            a <= b <= x.len(),
            a == lead_end(x, 0),
            trail_start(x, a as int, b as int) == trail_start(x, a as int, x.len() as int),
        decreases b,
    {
        b = b - 1;
    }
    let ghost t = x.subrange(a as int, b as int);
    let mut cleaned: Vec<char> = Vec::new();
    let mut prev_newline = false;
    let mut k: usize = a;
    while k < b
        invariant
            x == out@,
            a <= k <= b <= x.len(),
            t == x.subrange(a as int, b as int),
            cleaned@ == collapse_newlines(t.take(k - a)),
            prev_newline == (k > a && t[k - a - 1] == '\n'),
        decreases b - k,
    {
        let c = out[k];
        assert(t.take(k + 1 - a).drop_last() =~= t.take(k - a));
        if c == '\n' {
            if !prev_newline {
                cleaned.push(c);
            }
            prev_newline = true;
        } else {
            cleaned.push(c);
            prev_newline = false;
        }
        k = k + 1;
    }
    assert(t.take(b - a) =~= t);
    string_of(&cleaned)
}

/// A decoded entity is never empty.
pub proof fn lemma_decode_nonempty(e: Seq<char>)
    requires
        e.len() > 0,
    ensures
        decode(e).len() > 0,
{
}

} // verus!
