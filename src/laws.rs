//! Facts about the converter that hold for every input.

use vstd::prelude::*;
use crate::text::is_ws;
use crate::entity::{decode, digit_value, has_hex_form, named_entity};
use crate::html::{
    collapse_newlines, lead_end, lemma_lead_end, lemma_trail_start, trail_start, trim,
    close_tag, ends_with_newline, html_text, is_block_name, lemma_next_semi, names, next_semi,
    scan_from, scanned, start, tag_kind, text_char, Scan, TagKind,
};

verus! {

broadcast use vstd::string::group_string_axioms;

pub open spec fn no_char(x: Seq<char>, c: char) -> bool {
    forall|k: int| 0 <= k < x.len() ==> x[k] != c
}

/// Characters between `<` and `>` go to the tag buffer.
proof fn lemma_tag_body(s: Seq<char>, i: int, j: int, st: Scan)
    requires
        0 <= i <= j <= s.len(),
        st.in_tag,
        no_char(s.subrange(i, j), '<'),
        no_char(s.subrange(i, j), '>'),
    ensures
        scan_from(s, i, st) == scan_from(s, j, Scan { tag: st.tag + s.subrange(i, j), ..st }),
    decreases j - i,
{
    if i == j {
        assert(st.tag + s.subrange(i, j) =~= st.tag);
    } else {
        assert(s.subrange(i, j)[0] == s[i]);
        let st1 = Scan { tag: st.tag.push(s[i]), ..st };
        assert(s.subrange(i + 1, j) =~= s.subrange(i, j).drop_first());
        lemma_tag_body(s, i + 1, j, st1);
        assert(st1.tag + s.subrange(i + 1, j) =~= st.tag + s.subrange(i, j));
    }
}

/// A whole tag `<t>`, in any state: the scan goes on from after the `>` in
/// the state that closing `t` gives.
pub proof fn lemma_whole_tag(s: Seq<char>, i: int, t: Seq<char>, st: Scan)
    requires
        0 <= i,
        i + t.len() + 2 <= s.len(),
        s.subrange(i, i + t.len() + 2) == seq!['<'] + t + seq!['>'],
        no_char(t, '<'),
        no_char(t, '>'),
    ensures
        scan_from(s, i, st) == scan_from(
            s,
            i + t.len() + 2,
            close_tag(Scan { in_tag: true, tag: t, ..st }),
        ),
{
    let w = seq!['<'] + t + seq!['>'];
    let e = i + t.len() + 1;
    assert(s[i] == w[0]);
    assert(s[e] == w[t.len() as int + 1]);
    assert(s.subrange(i + 1, e) =~= t) by {
        assert forall|k: int| 0 <= k < t.len() implies s.subrange(i + 1, e)[k] == t[k] by {
            assert(s[i + 1 + k] == w[k + 1]);
        }
    }
    let st0 = Scan { in_tag: true, tag: Seq::empty(), ..st };
    lemma_tag_body(s, i + 1, e, st0);
    assert(Seq::<char>::empty() + t =~= t);
}

/// Each spelling of the line-break tag, in any case, writes exactly one line
/// break and nothing else.
pub proof fn lemma_line_break(s: Seq<char>, i: int, t: Seq<char>, st: Scan)
    requires
        0 <= i,
        i + t.len() + 2 <= s.len(),
        s.subrange(i, i + t.len() + 2) == seq!['<'] + t + seq!['>'],
        names(t, "br"@) || names(t, "br/"@) || names(t, "br /"@),
    ensures
        scan_from(s, i, st) == scan_from(
            s,
            i + t.len() + 2,
            Scan {
                in_tag: false,
                tag: Seq::empty(),
                out: st.out.push('\n'),
                last_space: true,
                ..st
            },
        ),
{
    assert(no_char(t, '<') && no_char(t, '>')) by {
        reveal_strlit("br");
        reveal_strlit("br/");
        reveal_strlit("br /");
        assert forall|k: int| 0 <= k < t.len() implies t[k] != '<' && t[k] != '>' by {
            if names(t, "br"@) {
                assert(crate::html::same_letter(t[k], "br"@[k]));
            } else if names(t, "br/"@) {
                assert(crate::html::same_letter(t[k], "br/"@[k]));
            } else {
                assert(crate::html::same_letter(t[k], "br /"@[k]));
            }
        }
    }
    lemma_whole_tag(s, i, t, st);
}

proof fn lemma_names_first(t: Seq<char>, n: Seq<char>)
    ensures
        names(t, n) && n.len() > 0 ==> crate::html::same_letter(t[0], n[0]),
{
}

/// The tags `ts`, each written as `<t>`, one after the other.
pub open spec fn tag_run(ts: Seq<Seq<char>>) -> Seq<char>
    decreases ts.len(),
{
    if ts.len() == 0 {
        Seq::empty()
    } else {
        seq!['<'] + ts[0] + seq!['>'] + tag_run(ts.drop_first())
    }
}

/// Every tag of `ts` is a block tag with nothing that could end it early.
pub open spec fn all_block_tags(ts: Seq<Seq<char>>) -> bool {
    forall|k: int|
        0 <= k < ts.len() ==> is_block_name(#[trigger] ts[k]) && no_char(ts[k], '<') && no_char(
            ts[k],
            '>',
        )
}

/// One or more block tags in a row write one line break at most, and none
/// right after another: never a blank line.
pub proof fn lemma_block_run(s: Seq<char>, i: int, ts: Seq<Seq<char>>, st: Scan)
    requires
        0 <= i,
        ts.len() >= 1,
        all_block_tags(ts),
        i + tag_run(ts).len() <= s.len(),
        s.subrange(i, i + tag_run(ts).len()) == tag_run(ts),
    ensures
        scan_from(s, i, st) == scan_from(
            s,
            i + tag_run(ts).len(),
            Scan {
                in_tag: false,
                tag: Seq::empty(),
                out: if ends_with_newline(st.out) {
                    st.out
                } else {
                    st.out.push('\n')
                },
                last_space: true,
                ..st
            },
        ),
    decreases ts.len(),
{
    let t = ts[0];
    let w = seq!['<'] + t + seq!['>'];
    let rest = ts.drop_first();
    let n = w.len() as int;
    assert(tag_run(ts) == w + tag_run(rest));
    assert(s.subrange(i, i + n) =~= w) by {
        assert forall|k: int| 0 <= k < n implies s.subrange(i, i + n)[k] == w[k] by {
            assert(s.subrange(i, i + tag_run(ts).len())[k] == tag_run(ts)[k]);
        }
    }
    assert(!names(t, "br"@) && !names(t, "br/"@) && !names(t, "br /"@)) by {
        reveal_strlit("br");
        lemma_names_first(t, "br"@);
        reveal_strlit("br/");
        lemma_names_first(t, "br/"@);
        reveal_strlit("br /");
        lemma_names_first(t, "br /"@);
        reveal_strlit("p");
        lemma_names_first(t, "p"@);
        reveal_strlit("/p");
        lemma_names_first(t, "/p"@);
        reveal_strlit("div");
        lemma_names_first(t, "div"@);
        reveal_strlit("/div");
        lemma_names_first(t, "/div"@);
        reveal_strlit("h1");
        lemma_names_first(t, "h1"@);
        reveal_strlit("/h1");
        lemma_names_first(t, "/h1"@);
        reveal_strlit("h2");
        lemma_names_first(t, "h2"@);
        reveal_strlit("/h2");
        lemma_names_first(t, "/h2"@);
        reveal_strlit("h3");
        lemma_names_first(t, "h3"@);
        reveal_strlit("/h3");
        lemma_names_first(t, "/h3"@);
        reveal_strlit("h4");
        lemma_names_first(t, "h4"@);
        reveal_strlit("/h4");
        lemma_names_first(t, "/h4"@);
        reveal_strlit("h5");
        lemma_names_first(t, "h5"@);
        reveal_strlit("/h5");
        lemma_names_first(t, "/h5"@);
        reveal_strlit("h6");
        lemma_names_first(t, "h6"@);
        reveal_strlit("/h6");
        lemma_names_first(t, "/h6"@);
        reveal_strlit("li");
        lemma_names_first(t, "li"@);
        reveal_strlit("/li");
        lemma_names_first(t, "/li"@);
        reveal_strlit("tr");
        lemma_names_first(t, "tr"@);
        reveal_strlit("/tr");
        lemma_names_first(t, "/tr"@);
    }
    assert(tag_kind(t) == TagKind::Block);
    lemma_whole_tag(s, i, t, st);
    let st1 = close_tag(Scan { in_tag: true, tag: t, ..st });
    if rest.len() > 0 {
        assert(all_block_tags(rest)) by {
            assert forall|k: int| 0 <= k < rest.len() implies is_block_name(#[trigger] rest[k])
                && no_char(rest[k], '<') && no_char(rest[k], '>') by {
                assert(rest[k] == ts[k + 1]);
            }
        }
        assert(s.subrange(i + n, i + n + tag_run(rest).len()) =~= tag_run(rest)) by {
            assert forall|k: int| 0 <= k < tag_run(rest).len() implies s.subrange(
                i + n,
                i + n + tag_run(rest).len(),
            )[k] == tag_run(rest)[k] by {
                assert(s.subrange(i, i + tag_run(ts).len())[n + k] == tag_run(ts)[n + k]);
            }
        }
        lemma_block_run(s, i + n, rest, st1);
    } else {
        assert(tag_run(rest) =~= Seq::<char>::empty());
    }
}

/// Inside a script or style body, text up to the next `<` writes nothing.
proof fn lemma_skip_body(s: Seq<char>, i: int, j: int, st: Scan)
    requires
        0 <= i <= j <= s.len(),
        !st.in_tag,
        st.in_script || st.in_style,
        no_char(s.subrange(i, j), '<'),
    ensures
        scan_from(s, i, st) == scan_from(s, j, st),
    decreases j - i,
{
    if i < j {
        assert(s.subrange(i, j)[0] == s[i]);
        assert(s.subrange(i + 1, j) =~= s.subrange(i, j).drop_first());
        lemma_skip_body(s, i + 1, j, st);
    }
}

/// A script or style element whose body holds no `<` writes nothing at all,
/// whatever its body holds (entities included), in any case of its tags.
pub proof fn lemma_hidden_body(
    s: Seq<char>,
    i: int,
    t1: Seq<char>,
    j: int,
    t2: Seq<char>,
    st: Scan,
)
    requires
        0 <= i,
        i + t1.len() + 2 <= j,
        j + t2.len() + 2 <= s.len(),
        s.subrange(i, i + t1.len() + 2) == seq!['<'] + t1 + seq!['>'],
        no_char(s.subrange(i + t1.len() + 2, j), '<'),
        s.subrange(j, j + t2.len() + 2) == seq!['<'] + t2 + seq!['>'],
        (names(t1, "script"@) && names(t2, "/script"@)) || (names(t1, "style"@) && names(
            t2,
            "/style"@,
        )),
    ensures
        scan_from(s, i, st) == scan_from(
            s,
            j + t2.len() + 2,
            Scan {
                in_tag: false,
                tag: Seq::empty(),
                in_script: if names(t1, "script"@) {
                    false
                } else {
                    st.in_script
                },
                in_style: if names(t1, "style"@) {
                    false
                } else {
                    st.in_style
                },
                ..st
            },
        ),
{
    reveal_strlit("script");
    reveal_strlit("/script");
    reveal_strlit("style");
    reveal_strlit("/style");
    lemma_names_first(t2, "script"@);
    lemma_names_first(t2, "/style"@);
    lemma_names_first(t1, "/style"@);
    lemma_names_first(t1, "script"@);
    assert(no_char(t1, '<') && no_char(t1, '>')) by {
        assert forall|k: int| 0 <= k < t1.len() implies t1[k] != '<' && t1[k] != '>' by {
            if names(t1, "script"@) {
                assert(crate::html::same_letter(t1[k], "script"@[k]));
            } else {
                assert(crate::html::same_letter(t1[k], "style"@[k]));
            }
        }
    }
    assert(no_char(t2, '<') && no_char(t2, '>')) by {
        assert forall|k: int| 0 <= k < t2.len() implies t2[k] != '<' && t2[k] != '>' by {
            if names(t2, "/script"@) {
                assert(crate::html::same_letter(t2[k], "/script"@[k]));
            } else {
                assert(crate::html::same_letter(t2[k], "/style"@[k]));
            }
        }
    }
    reveal_strlit("br");
    reveal_strlit("br/");
    reveal_strlit("br /");
    reveal_strlit("p");
    reveal_strlit("/p");
    reveal_strlit("div");
    reveal_strlit("/div");
    reveal_strlit("h1");
    reveal_strlit("/h1");
    reveal_strlit("h2");
    reveal_strlit("/h2");
    reveal_strlit("h3");
    reveal_strlit("/h3");
    reveal_strlit("h4");
    reveal_strlit("/h4");
    reveal_strlit("h5");
    reveal_strlit("/h5");
    reveal_strlit("h6");
    reveal_strlit("/h6");
    reveal_strlit("li");
    reveal_strlit("/li");
    reveal_strlit("tr");
    reveal_strlit("/tr");
    assert(tag_kind(t1) == if names(t1, "script"@) {
        TagKind::Script
    } else {
        TagKind::Style
    });
    assert(tag_kind(t2) == if names(t1, "script"@) {
        TagKind::EndScript
    } else {
        TagKind::EndStyle
    });
    lemma_whole_tag(s, i, t1, st);
    let st1 = close_tag(Scan { in_tag: true, tag: t1, ..st });
    lemma_skip_body(s, i + t1.len() + 2, j, st1);
    lemma_whole_tag(s, j, t2, st1);
}

/// An `&` with no `;` anywhere after it is an ordinary character, and the
/// scan goes on from the next one.
pub proof fn lemma_dangling_ampersand(s: Seq<char>, i: int, st: Scan)
    requires
        0 <= i < s.len(),
        s[i] == '&',
        !st.in_tag,
        !st.in_script,
        !st.in_style,
        no_char(s.subrange(i, s.len() as int), ';'),
    ensures
        scan_from(s, i, st) == scan_from(s, i + 1, text_char(st, '&')),
{
    lemma_next_semi(s, i);
    if next_semi(s, i) is Some {
        let j = next_semi(s, i)->0;
        assert(s.subrange(i, s.len() as int)[j - i] == ';');
    }
}

/// A hexadecimal reference with a character that is no hexadecimal digit
/// stays as it was written.
pub proof fn lemma_bad_hex_reference(e: Seq<char>, k: int)
    requires
        has_hex_form(e),
        3 <= k < e.len() - 1,
        digit_value(e[k], true) is None,
    ensures
        decode(e) == e,
{
        reveal_strlit("&nbsp;");
        reveal_strlit("&lt;");
        reveal_strlit("&gt;");
        reveal_strlit("&amp;");
        reveal_strlit("&quot;");
        reveal_strlit("&apos;");
        reveal_strlit("&copy;");
        reveal_strlit("&reg;");
        reveal_strlit("&trade;");
        reveal_strlit("&mdash;");
        reveal_strlit("&ndash;");
        reveal_strlit("&hellip;");
        reveal_strlit("&bull;");
    assert(named_entity(e) is None);
    let d = e.subrange(3, e.len() - 1);
    assert(d[k - 3] == e[k]);
}

/// Where `r` holds no `;`, scanning `a` then `r` passes through the state
/// that scanning `a` alone ends in.
proof fn lemma_scan_prefix(a: Seq<char>, r: Seq<char>, i: int, st: Scan)
    requires
        0 <= i <= a.len(),
        no_char(r, ';'),
    ensures
        scan_from(a + r, i, st) == scan_from(a + r, a.len() as int, scan_from(a, i, st)),
    decreases a.len() - i,
{
    let s = a + r;
    if i < a.len() {
        assert(s[i] == a[i]);
        lemma_next_semi(a, i);
        lemma_next_semi(s, i);
        if next_semi(a, i) is Some {
            let j = next_semi(a, i)->0;
            assert(s[j] == ';');
            if next_semi(s, i) is Some {
                let j2 = next_semi(s, i)->0;
                if j2 < j {
                    assert(s[j2] == a[j2]);
                }
            }
            assert(next_semi(s, i) == next_semi(a, i));
        } else {
            if next_semi(s, i) is Some {
                let j2 = next_semi(s, i)->0;
                if j2 < a.len() {
                    assert(s[j2] == a[j2]);
                } else {
                    assert(s[j2] == r[j2 - a.len()]);
                }
            }
        }
        let c = a[i];
        if c != '<' && !st.in_tag && !st.in_script && !st.in_style && c == '&' && next_semi(
            a,
            i,
        ) is Some {
            let j = next_semi(a, i)->0;
            assert(s.subrange(i, j + 1) =~= a.subrange(i, j + 1));
            lemma_scan_prefix(a, r, j + 1, crate::html::entity_step(st, a, i, j));
        } else {
            let nx = if c == '<' {
                Scan { in_tag: true, tag: Seq::empty(), ..st }
            } else if st.in_tag {
                if c == '>' {
                    close_tag(st)
                } else {
                    Scan { tag: st.tag.push(c), ..st }
                }
            } else if st.in_script || st.in_style {
                st
            } else {
                text_char(st, c)
            };
            assert(scan_from(s, i, st) == scan_from(s, i + 1, nx));
            assert(scan_from(a, i, st) == scan_from(a, i + 1, nx));
            lemma_scan_prefix(a, r, i + 1, nx);
        }
    } else {
        assert(scan_from(a, i, st) == st);
    }
}

/// Inside a tag that is never closed, nothing more is written.
proof fn lemma_open_tag_to_end(s: Seq<char>, i: int, st: Scan)
    requires
        0 <= i <= s.len(),
        st.in_tag,
        no_char(s.subrange(i, s.len() as int), '>'),
    ensures
        scan_from(s, i, st).out == st.out,
    decreases s.len() - i,
{
    if i < s.len() {
        assert(s.subrange(i, s.len() as int)[0] == s[i]);
        assert(s.subrange(i + 1, s.len() as int) =~= s.subrange(i, s.len() as int).drop_first());
        if s[i] == '<' {
            lemma_open_tag_to_end(s, i + 1, Scan { in_tag: true, tag: Seq::empty(), ..st });
        } else {
            lemma_open_tag_to_end(s, i + 1, Scan { tag: st.tag.push(s[i]), ..st });
        }
    }
}

/// A tag left open at the end of the input leaves no trace in the text.
/// (An `&` before it would take a `;` in the open tag as its end, so the
/// open tag holds none.)
pub proof fn lemma_unterminated_tag(a: Seq<char>, t: Seq<char>)
    requires
        no_char(t, '>'),
        no_char(t, ';'),
    ensures
        html_text(a + seq!['<'] + t) == html_text(a),
{
    let r = seq!['<'] + t;
    let s = a + r;
    assert(a + seq!['<'] + t =~= s);
    assert(no_char(r, ';')) by {
        assert forall|k: int| 0 <= k < r.len() implies r[k] != ';' by {
            if k > 0 {
                assert(r[k] == t[k - 1]);
            }
        }
    }
    lemma_scan_prefix(a, r, 0, start());
    let sa = scan_from(a, 0, start());
    assert(s[a.len() as int] == '<');
    let st1 = Scan { in_tag: true, tag: Seq::empty(), ..sa };
    assert(s.subrange(a.len() as int + 1, s.len() as int) =~= t);
    lemma_open_tag_to_end(s, a.len() as int + 1, st1);
    assert(scanned(s) == scanned(a));
}

/// `x` with every maximal run of whitespace replaced by one space.
pub open spec fn squeeze(x: Seq<char>) -> Seq<char>
    decreases x.len(),
{
    if x.len() == 0 {
        x
    } else {
        let p = squeeze(x.drop_last());
        if !is_ws(x.last()) {
            p.push(x.last())
        } else if x.len() >= 2 && is_ws(x[x.len() - 2]) {
            p
        } else {
            p.push(' ')
        }
    }
}

/// Text with no markup: no `<` and no `&`.
pub open spec fn is_plain(x: Seq<char>) -> bool {
    forall|k: int| 0 <= k < x.len() ==> #[trigger] x[k] != '<' && x[k] != '&'
}

/// Whitespace in `x` is single spaces only, never two in a row.
pub open spec fn is_squeezed(x: Seq<char>) -> bool {
    &&& forall|k: int| 0 <= k < x.len() && is_ws(#[trigger] x[k]) ==> x[k] == ' '
    &&& forall|k: int| 0 <= k < x.len() - 1 && is_ws(#[trigger] x[k]) ==> !is_ws(x[k + 1])
}

spec fn drop_lead(y: Seq<char>) -> Seq<char> {
    if y.len() > 0 && y[0] == ' ' {
        y.drop_first()
    } else {
        y
    }
}

/// The scanner's state after plain text `p`.
spec fn plain_state(p: Seq<char>) -> Scan {
    let o = drop_lead(squeeze(p));
    Scan {
        in_tag: false,
        in_script: false,
        in_style: false,
        tag: Seq::empty(),
        out: o,
        last_space: o.len() > 0 && o.last() == ' ',
    }
}

proof fn lemma_squeeze(p: Seq<char>)
    ensures
        p.len() > 0 ==> squeeze(p).len() > 0 && (squeeze(p).last() == ' ' <==> is_ws(p.last())),
        p.len() > 0 && !is_ws(p.last()) ==> squeeze(p).last() == p.last(),
        is_squeezed(squeeze(p)),
        is_plain(p) ==> is_plain(squeeze(p)),
    decreases p.len(),
{
    if p.len() > 0 {
        let q = p.drop_last();
        lemma_squeeze(q);
        let y = squeeze(p);
        let yq = squeeze(q);
        assert(is_ws(' '));
        if is_plain(p) {
            assert forall|k: int| 0 <= k < q.len() implies #[trigger] q[k] != '<' && q[k] != '&' by {
                assert(q[k] == p[k]);
            }
        }
        if !is_ws(p.last()) || !(p.len() >= 2 && is_ws(p[p.len() - 2])) {
            let c = y.last();
            assert(y == yq.push(c));
            assert forall|k: int| 0 <= k < y.len() - 1 && is_ws(#[trigger] y[k]) implies !is_ws(
                y[k + 1],
            ) by {
                if k < y.len() - 2 {
                    assert(y[k] == yq[k] && y[k + 1] == yq[k + 1]);
                } else {
                    assert(y[k] == yq.last());
                    if is_ws(c) {
                        assert(q.len() > 0 ==> !is_ws(q.last()));
                    }
                }
            }
            assert forall|k: int| 0 <= k < y.len() && is_ws(#[trigger] y[k]) implies y[k] == ' ' by {
                if k < y.len() - 1 {
                    assert(y[k] == yq[k]);
                }
            }
            if is_plain(p) {
                assert forall|k: int| 0 <= k < y.len() implies #[trigger] y[k] != '<' && y[k] != '&' by {
                    if k < y.len() - 1 {
                        assert(y[k] == yq[k]);
                    } else {
                        assert(p[p.len() - 1] == p.last());
                    }
                }
            }
        }
    }
}

proof fn lemma_drop_lead_push(y: Seq<char>, c: char)
    requires
        y.len() > 0 || c != ' ',
    ensures
        drop_lead(y.push(c)) == drop_lead(y).push(c),
{
    if y.len() > 0 && y[0] == ' ' {
        assert(y.push(c).drop_first() =~= y.drop_first().push(c));
    } else {
        assert(y.push(c)[0] == (if y.len() > 0 { y[0] } else { c }));
    }
}

/// One plain character moves the plain state along.
proof fn lemma_plain_step(p: Seq<char>, c: char)
    requires
        c != '<',
        c != '&',
    ensures
        text_char(plain_state(p), c) == plain_state(p.push(c)),
{
    let y = squeeze(p);
    let o = drop_lead(y);
    lemma_squeeze(p);
    let pc = p.push(c);
    assert(pc.drop_last() =~= p);
    assert(pc.last() == c);
    assert(is_ws(' '));
    if p.len() > 0 {
        assert(pc[pc.len() - 2] == p.last());
    }
    let st = plain_state(p);
    assert(st.out == o);
    if is_ws(c) {
        if o.len() == 0 {
            assert(text_char(st, c) == st);
            if p.len() > 0 {
                assert(y.len() == 1);
                assert(is_ws(p.last()));
                assert(squeeze(pc) == y);
            } else {
                assert(squeeze(pc) == y.push(' '));
                assert(drop_lead(seq![' ']) =~= Seq::<char>::empty());
                assert(y.push(' ') =~= seq![' ']);
            }
            assert(drop_lead(squeeze(pc)) =~= o);
        } else if o.last() == ' ' {
            assert(y.last() == o.last());
            assert(squeeze(pc) == y);
            assert(text_char(st, c) == st);
        } else {
            assert(y.last() == o.last());
            assert(squeeze(pc) == y.push(' '));
            lemma_drop_lead_push(y, ' ');
            assert(drop_lead(squeeze(pc)) == o.push(' '));
        }
    } else {
        assert(squeeze(pc) == y.push(c));
        lemma_drop_lead_push(y, c);
        assert(c != ' ');
        assert(drop_lead(squeeze(pc)) == o.push(c));
    }
}

proof fn lemma_plain_scan(s: Seq<char>, i: int)
    requires
        is_plain(s),
        0 <= i <= s.len(),
    ensures
        scan_from(s, i, plain_state(s.take(i))) == plain_state(s),
    decreases s.len() - i,
{
    if i == s.len() {
        assert(s.take(i) =~= s);
    } else {
        let c = s[i];
        assert(c != '<' && c != '&');
        lemma_plain_step(s.take(i), c);
        assert(s.take(i).push(c) =~= s.take(i + 1));
        lemma_plain_scan(s, i + 1);
    }
}

/// Where `x[..a]` and `x[b..]` are whitespace and `x[a..b]` starts and ends
/// with something else (or is empty), trimming leaves `x[a..b]`.
proof fn lemma_trim_is(x: Seq<char>, a: int, b: int)
    requires
        0 <= a <= b <= x.len(),
        forall|k: int| 0 <= k < a ==> is_ws(#[trigger] x[k]),
        forall|k: int| b <= k < x.len() ==> is_ws(#[trigger] x[k]),
        a < b ==> !is_ws(x[a]) && !is_ws(x[b - 1]),
    ensures
        trim(x) == x.subrange(a, b),
{
    lemma_lead_end(x, 0);
    let l = lead_end(x, 0);
    if a < b {
        assert(l == a);
        lemma_trail_start(x, l, x.len() as int);
        let t = trail_start(x, l, x.len() as int);
        assert(t == b);
    } else {
        assert(l == x.len()) by {
            if l < x.len() {
                assert(is_ws(x[l]));
            }
        }
        lemma_trail_start(x, l, x.len() as int);
        assert(x.subrange(a, b) =~= Seq::<char>::empty());
        assert(x.subrange(l, l) =~= Seq::<char>::empty());
    }
}

/// The bounds that trimming keeps.
proof fn lemma_trim_bounds(x: Seq<char>) -> (r: (int, int))
    ensures
        0 <= r.0 <= r.1 <= x.len(),
        forall|k: int| 0 <= k < r.0 ==> is_ws(#[trigger] x[k]),
        forall|k: int| r.1 <= k < x.len() ==> is_ws(#[trigger] x[k]),
        r.0 < r.1 ==> !is_ws(x[r.0]) && !is_ws(x[r.1 - 1]),
        trim(x) == x.subrange(r.0, r.1),
{
    lemma_lead_end(x, 0);
    let l = lead_end(x, 0);
    lemma_trail_start(x, l, x.len() as int);
    let t = trail_start(x, l, x.len() as int);
    if l == t && l < x.len() {
        lemma_trim_is(x, x.len() as int, x.len() as int);
        assert(x.subrange(l, t) =~= x.subrange(x.len() as int, x.len() as int));
        (x.len() as int, x.len() as int)
    } else {
        (l, t)
    }
}

proof fn lemma_collapse_no_newline(x: Seq<char>)
    requires
        forall|k: int| 0 <= k < x.len() ==> #[trigger] x[k] != '\n',
    ensures
        collapse_newlines(x) == x,
    decreases x.len(),
{
    if x.len() > 0 {
        let q = x.drop_last();
        assert forall|k: int| 0 <= k < q.len() implies #[trigger] q[k] != '\n' by {
            assert(q[k] == x[k]);
        }
        lemma_collapse_no_newline(q);
        assert(x[x.len() - 1] == x.last());
        assert(q.push(x.last()) =~= x);
    }
}

proof fn lemma_squeeze_fixed(x: Seq<char>)
    requires
        is_squeezed(x),
    ensures
        squeeze(x) == x,
    decreases x.len(),
{
    if x.len() > 0 {
        let q = x.drop_last();
        assert(is_squeezed(q)) by {
            assert forall|k: int| 0 <= k < q.len() && is_ws(#[trigger] q[k]) implies q[k] == ' ' by {
                assert(q[k] == x[k]);
            }
            assert forall|k: int| 0 <= k < q.len() - 1 && is_ws(#[trigger] q[k]) implies !is_ws(
                q[k + 1],
            ) by {
                assert(q[k] == x[k] && q[k + 1] == x[k + 1]);
            }
        }
        lemma_squeeze_fixed(q);
        assert(x[x.len() - 1] == x.last());
        assert(q.push(x.last()) =~= x);
    }
}

/// Plain text comes out with each whitespace run as one space and the ends
/// trimmed.
pub proof fn lemma_plain_text(s: Seq<char>)
    requires
        is_plain(s),
    ensures
        html_text(s) == trim(squeeze(s)),
{
    lemma_plain_scan(s, 0);
    assert(s.take(0) =~= Seq::<char>::empty());
    assert(plain_state(Seq::<char>::empty()) == start());
    let y = squeeze(s);
    lemma_squeeze(s);
    let o = drop_lead(y);
    assert(scanned(s) == o);
    if y.len() > 0 && y[0] == ' ' {
        let r = lemma_trim_bounds(o);
        assert(is_ws(' '));
        assert forall|k: int| 0 <= k < r.0 + 1 implies is_ws(#[trigger] y[k]) by {
            if k > 0 {
                assert(y[k] == o[k - 1]);
            }
        }
        assert forall|k: int| r.1 + 1 <= k < y.len() implies is_ws(#[trigger] y[k]) by {
            assert(y[k] == o[k - 1]);
        }
        if r.0 < r.1 {
            assert(y[r.0 + 1] == o[r.0]);
            assert(y[r.1] == o[r.1 - 1]);
        }
        lemma_trim_is(y, r.0 + 1, r.1 + 1);
        assert(y.subrange(r.0 + 1, r.1 + 1) =~= o.subrange(r.0, r.1));
    }
    let t = trim(y);
    let r = lemma_trim_bounds(y);
    assert forall|k: int| 0 <= k < t.len() implies #[trigger] t[k] != '\n' by {
        assert(t[k] == y[r.0 + k]);
        if is_ws(y[r.0 + k]) {
            assert(y[r.0 + k] == ' ');
        }
    }
    lemma_collapse_no_newline(t);
}

/// Converting plain text twice gives what converting it once gives: only
/// whitespace changes, and only the first time.
pub proof fn lemma_plain_idempotent(s: Seq<char>)
    requires
        is_plain(s),
    ensures
        html_text(html_text(s)) == html_text(s),
{
    lemma_plain_text(s);
    lemma_squeeze(s);
    let y = squeeze(s);
    let t = trim(y);
    let r = lemma_trim_bounds(y);
    assert(is_squeezed(t)) by {
        assert forall|k: int| 0 <= k < t.len() && is_ws(#[trigger] t[k]) implies t[k] == ' ' by {
            assert(t[k] == y[r.0 + k]);
        }
        assert forall|k: int| 0 <= k < t.len() - 1 && is_ws(#[trigger] t[k]) implies !is_ws(
            t[k + 1],
        ) by {
            assert(t[k] == y[r.0 + k] && t[k + 1] == y[r.0 + k + 1]);
        }
    }
    assert(is_plain(t)) by {
        assert forall|k: int| 0 <= k < t.len() implies #[trigger] t[k] != '<' && t[k] != '&' by {
            assert(t[k] == y[r.0 + k]);
        }
    }
    lemma_plain_text(t);
    lemma_squeeze_fixed(t);
    if t.len() > 0 {
        assert(t[0] == y[r.0]);
        assert(t[t.len() - 1] == y[r.1 - 1]);
    }
    lemma_trim_is(t, 0, t.len() as int);
    assert(t.subrange(0, t.len() as int) =~= t);
}

} // verus!
