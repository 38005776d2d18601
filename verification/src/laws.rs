//! Properties of parsing that hold of every message.
use vstd::prelude::*;
use crate::error::InvalidElement;
use crate::grammar::{
    after_blank_line, all_ws, first_mark, lemma_first_mark, lemma_first_mark_before,
    lemma_line_start_after_newline, lemma_line_start_at_line, lemma_line_start_bounds,
    lemma_line_start_monotone, lemma_line_start_within, lemma_trim_end, line_start,
    is_inline_ws, occurs_at, trailer_mark, is_breaking, breaking_token_at,
    body_and_footer, commit_at, find_first, lemma_body_and_footer, lemma_header_prefix,
    lemma_spans_shift, piece, shift_spans, lemma_find_first, lemma_find_first_is,
    newline, not_newline, not_ws, scope_stop, spec_header, spec_parse, spec_spans, type_stop,
    CommitView, Header,
};
use crate::whitespace::is_ws;

verus! {

/// A type: at least one character, and none of them whitespace, `:`, `(`
/// or `!`.
pub open spec fn valid_type(ty: Seq<char>) -> bool {
    &&& ty.len() > 0
    &&& forall|k: int|
        0 <= k < ty.len() ==> !is_ws(#[trigger] ty[k]) && ty[k] != ':' && ty[k] != '(' && ty[k]
            != '!'
}

/// A scope: no whitespace and no `)`.
pub open spec fn valid_scope(scope: Option<Seq<char>>) -> bool {
    match scope {
        Some(sc) => forall|k: int| 0 <= k < sc.len() ==> !is_ws(#[trigger] sc[k]) && sc[k] != ')',
        None => true,
    }
}

/// A description: at least one character, the first not whitespace, and no
/// line feed.
pub open spec fn valid_desc(desc: Seq<char>) -> bool {
    &&& desc.len() > 0
    &&& !is_ws(desc[0])
    &&& forall|k: int| 0 <= k < desc.len() ==> #[trigger] desc[k] != '\n'
}

/// The first line of a commit message with these elements.
pub open spec fn render_header(
    ty: Seq<char>,
    scope: Option<Seq<char>>,
    breaking: bool,
    desc: Seq<char>,
) -> Seq<char> {
    ty + match scope {
        Some(sc) => seq!['('] + sc + seq![')'],
        None => Seq::<char>::empty(),
    } + (if breaking {
        seq!['!']
    } else {
        Seq::<char>::empty()
    }) + seq![':', ' '] + desc
}

/// A message that is only a first line made of a valid type, scope and
/// description parses back into those elements, with an empty body and
/// an empty footer.
pub proof fn lemma_parse_render(
    ty: Seq<char>,
    scope: Option<Seq<char>>,
    breaking: bool,
    desc: Seq<char>,
)
    requires
        valid_type(ty),
        valid_scope(scope),
        valid_desc(desc),
    ensures
        spec_parse(render_header(ty, scope, breaking, desc)) == Ok::<CommitView, InvalidElement>(
            CommitView {
                ty,
                scope,
                breaking,
                desc,
                body: Seq::empty(),
                footer: Seq::empty(),
            },
        ),
{
    let s = render_header(ty, scope, breaking, desc);
    let mid = match scope {
        Some(sc) => seq!['('] + sc + seq![')'],
        None => Seq::<char>::empty(),
    };
    let bang = if breaking {
        seq!['!']
    } else {
        Seq::<char>::empty()
    };
    let n = ty.len() as int;
    let c = n + mid.len() + bang.len();
    let d = c + 2;
    assert(s =~= ty + mid + bang + seq![':', ' '] + desc);
    assert(s.len() == d + desc.len());
    assert forall|k: int| 0 <= k < n implies s[k] == ty[k] by {}
    assert forall|k: int| 0 <= k < desc.len() implies s[d + k] == desc[k] by {}
    assert(s[c] == ':');
    assert(s[c + 1] == ' ');
    lemma_find_first_is(s, 0, not_ws(), 0);
    let p = n;
    assert(s[p] == (match scope {
        Some(_) => '(',
        None => if breaking { '!' } else { ':' },
    }));
    lemma_find_first_is(s, 1, type_stop(), p);
    match scope {
        Some(sc) => {
            assert forall|k: int| 0 <= k < sc.len() implies s[p + 1 + k] == sc[k] by {}
            let q = p + 1 + sc.len();
            assert(s[q] == ')');
            assert forall|k: int| p + 1 <= k < q implies !scope_stop()(#[trigger] s[k]) by {
                assert(s[k] == sc[k - p - 1]);
            }
            lemma_find_first_is(s, p + 1, scope_stop(), q);
        },
        None => {},
    }
    let h = spec_header(s)->Ok_0;
    assert(spec_header(s) is Ok);
    assert(h.colon == c);
    assert(h.breaking == breaking);
    assert forall|k: int| d + 1 <= k < s.len() implies !newline()(#[trigger] s[k]) by {
        assert(s[k] == desc[k - d]);
    }
    lemma_find_first_is(s, d + 1, newline(), s.len() as int);
    let sp = spec_spans(s)->Ok_0;
    assert(spec_spans(s) is Ok);
    assert(s.subrange(0, n) =~= ty);
    assert(s.subrange(d, s.len() as int) =~= desc);
    match scope {
        Some(sc) => {
            assert(s.subrange(p + 1, p + 1 + sc.len()) =~= sc);
        },
        None => {},
    }
    assert(s.subrange(s.len() as int, s.len() as int) =~= Seq::<char>::empty());
}

/// The number of whitespace characters at the start of `s`.
pub open spec fn indent(s: Seq<char>) -> int {
    find_first(s, 0, not_ws())
}

/// The elements that a message parses into are valid, and its first line,
/// after the leading whitespace, is exactly their rendering, up to the end
/// of the message or a line feed.
pub proof fn lemma_parsed_header(s: Seq<char>)
    requires
        spec_parse(s) is Ok,
    ensures
        ({
            let c = spec_parse(s)->Ok_0;
            let n = indent(s);
            let line = render_header(c.ty, c.scope, c.breaking, c.desc);
            &&& valid_type(c.ty)
            &&& valid_scope(c.scope)
            &&& valid_desc(c.desc)
            &&& 0 <= n
            &&& forall|k: int| 0 <= k < n ==> is_ws(#[trigger] s[k])
            &&& n + line.len() <= s.len()
            &&& s.subrange(n, n + line.len()) == line
            &&& n + line.len() == s.len() || s[n + line.len()] == '\n'
        }),
{
    let c = spec_parse(s)->Ok_0;
    let sp = spec_spans(s)->Ok_0;
    let h = spec_header(s)->Ok_0;
    assert(spec_header(s) is Ok);
    assert(sp.header == h);
    let t0 = find_first(s, 0, not_ws());
    lemma_find_first(s, 0, not_ws());
    let p = find_first(s, t0 + 1, type_stop());
    lemma_find_first(s, t0 + 1, type_stop());
    let cl = h.colon;
    assert(h.ty == (t0, p));
    assert(p < s.len());
    lemma_find_first(s, p + 1, scope_stop());
    assert(p <= cl);
    let d = cl + 2;
    assert(spec_spans(s) is Ok);
    assert(d < s.len() && s[cl + 1] == ' ' && !is_ws(s[d]));
    let e = find_first(s, d + 1, newline());
    lemma_find_first(s, d + 1, newline());
    assert(sp.desc == (d, e));
    assert(c.ty == s.subrange(t0, p));
    assert(c.desc == s.subrange(d, e));
    assert forall|k: int| 1 <= k < c.ty.len() implies !type_stop()(#[trigger] c.ty[k]) by {
        assert(c.ty[k] == s[t0 + k]);
    }
    assert forall|k: int| 0 <= k < c.desc.len() implies #[trigger] c.desc[k] != '\n' by {
        assert(c.desc[k] == s[d + k]);
        if k > 0 {
            assert(!newline()(s[d + k]));
        }
    }
    let mid = match c.scope {
        Some(sc) => seq!['('] + sc + seq![')'],
        None => Seq::<char>::empty(),
    };
    let bang = if c.breaking {
        seq!['!']
    } else {
        Seq::<char>::empty()
    };
    match h.scope {
        Some(r) => {
            let q = r.1;
            lemma_find_first(s, p + 1, scope_stop());
            assert(r == (p + 1, q));
            let sc = s.subrange(p + 1, q);
            assert(c.scope == Some(sc));
            assert forall|k: int| 0 <= k < sc.len() implies !scope_stop()(#[trigger] sc[k]) by {
                assert(sc[k] == s[p + 1 + k]);
            }
            assert(s.subrange(p, q + 1) =~= mid);
            assert(s.subrange(q + 1, cl) =~= bang);
            assert(s.subrange(p, cl) =~= s.subrange(p, q + 1) + s.subrange(q + 1, cl));
        },
        None => {
            assert(c.scope is None);
            assert(s.subrange(p, cl) =~= bang);
        },
    }
    assert(s.subrange(p, cl) =~= mid + bang);
    assert(s.subrange(cl, cl + 2) =~= seq![':', ' ']);
    assert(s.subrange(t0, e) =~= s.subrange(t0, p) + s.subrange(p, cl) + s.subrange(cl, cl + 2)
        + s.subrange(d, e));
    assert(s.subrange(t0, e) =~= render_header(c.ty, c.scope, c.breaking, c.desc));
}

/// The elements of a parsed message stand in the order type, scope,
/// description, body, footer, and do not overlap; the type and the
/// description are not empty; a line feed ends the description, and the body
/// starts at the first character after it, and after a blank line, that is
/// not a line feed.
pub proof fn lemma_spans_in_order(s: Seq<char>)
    requires
        spec_spans(s) is Ok,
    ensures
        ({
            let sp = spec_spans(s)->Ok_0;
            let h = sp.header;
            &&& 0 <= h.ty.0 < h.ty.1 <= h.colon
            &&& h.scope matches Some(r) ==> h.ty.1 < r.0 <= r.1 < h.colon
            &&& h.colon + 2 == sp.desc.0 < sp.desc.1
            &&& sp.desc.1 <= sp.body.0 <= sp.body.1 <= sp.footer.0 <= sp.footer.1 <= s.len()
            &&& sp.desc.1 < s.len() ==> s[sp.desc.1] == '\n'
            &&& forall|k: int| sp.desc.1 < k < sp.body.0 ==> #[trigger] s[k] == '\n'
            &&& sp.body.0 < s.len() ==> sp.desc.1 + 2 <= sp.body.0 && s[sp.body.0] != '\n'
        }),
{
    let sp = spec_spans(s)->Ok_0;
    let h = spec_header(s)->Ok_0;
    assert(spec_header(s) is Ok);
    let t0 = find_first(s, 0, not_ws());
    lemma_find_first(s, 0, not_ws());
    let p = find_first(s, t0 + 1, type_stop());
    lemma_find_first(s, t0 + 1, type_stop());
    assert(h.ty == (t0, p));
    assert(p < s.len());
    lemma_find_first(s, p + 1, scope_stop());
    let cl = h.colon;
    let d = cl + 2;
    assert(d < s.len());
    let e = find_first(s, d + 1, newline());
    lemma_find_first(s, d + 1, newline());
    if e + 1 < s.len() && s[e + 1] == '\n' {
        let b = find_first(s, e + 2, not_newline());
        lemma_find_first(s, e + 2, not_newline());
        if b < s.len() {
            lemma_body_and_footer(s, b);
        }
    }
}

/// The body of a parsed message does not start with a line feed and does
/// not end with whitespace; the footer does not start with a line feed and
/// does not end with whitespace.
pub proof fn lemma_parsed_body_footer(s: Seq<char>)
    requires
        spec_parse(s) is Ok,
    ensures
        ({
            let c = spec_parse(s)->Ok_0;
            &&& c.body.len() > 0 ==> c.body[0] != '\n' && !is_ws(c.body.last())
            &&& c.footer.len() > 0 ==> c.footer[0] != '\n' && !is_ws(c.footer.last())
        }),
{
    let sp = spec_spans(s)->Ok_0;
    assert(spec_spans(s) is Ok);
    lemma_spans_in_order(s);
    let h = sp.header;
    let d = h.colon + 2;
    let e = find_first(s, d + 1, newline());
    if e + 1 < s.len() && s[e + 1] == '\n' {
        let b = find_first(s, e + 2, not_newline());
        lemma_find_first(s, e + 2, not_newline());
        if b < s.len() {
            lemma_body_and_footer(s, b);
            let (bs, fs) = body_and_footer(s, b);
            assert(sp.body == bs && sp.footer == fs);
        }
    }
}

/// A body after a blank line never makes a message with a valid first line
/// invalid, and does not change its type, scope, `!` or description.
pub proof fn lemma_body_keeps_header(line: Seq<char>, rest: Seq<char>)
    requires
        forall|k: int| 0 <= k < line.len() ==> #[trigger] line[k] != '\n',
        spec_parse(line) is Ok,
    ensures
        ({
            let c = spec_parse(line)->Ok_0;
            let m = line + seq!['\n', '\n'] + rest;
            &&& spec_parse(m) is Ok
            &&& spec_parse(m)->Ok_0.ty == c.ty
            &&& spec_parse(m)->Ok_0.scope == c.scope
            &&& spec_parse(m)->Ok_0.breaking == c.breaking
            &&& spec_parse(m)->Ok_0.desc == c.desc
        }),
{
    let tail = seq!['\n', '\n'] + rest;
    let m = line + seq!['\n', '\n'] + rest;
    assert(m =~= line + tail);
    assert(spec_spans(line) is Ok);
    assert(spec_header(line) is Ok);
    lemma_header_prefix(line, tail);
    lemma_spans_in_order(line);
    let h = spec_header(line)->Ok_0;
    let cl = h.colon;
    let d = cl + 2;
    assert(d < line.len());
    assert(m[cl + 1] == line[cl + 1]);
    assert(m[d] == line[d]);
    assert forall|k: int| d + 1 <= k < line.len() implies !newline()(#[trigger] line[k]) by {}
    lemma_find_first_is(line, d + 1, newline(), line.len() as int);
    assert forall|k: int| d + 1 <= k < line.len() implies !newline()(#[trigger] m[k]) by {
        assert(m[k] == line[k]);
    }
    assert(m[line.len() as int] == '\n');
    assert(m[line.len() + 1int] == '\n');
    lemma_find_first_is(m, d + 1, newline(), line.len() as int);
    assert(spec_spans(m) is Ok);
    let sl = spec_spans(line)->Ok_0;
    let sm = spec_spans(m)->Ok_0;
    assert(sm.header == sl.header);
    assert(sm.desc == sl.desc);
    lemma_spans_in_order(line);
    assert(m.subrange(h.ty.0, h.ty.1) =~= line.subrange(h.ty.0, h.ty.1));
    assert(m.subrange(d, line.len() as int) =~= line.subrange(d, line.len() as int));
    match h.scope {
        Some(r) => {
            assert(m.subrange(r.0, r.1) =~= line.subrange(r.0, r.1));
        },
        None => {},
    }
}

/// A piece of a text is the same piece of the text with characters put
/// before it, further on.
proof fn lemma_piece_shift(w: Seq<char>, s: Seq<char>, a: int, b: int)
    requires
        0 <= a <= b <= s.len(),
    ensures
        piece(w + s, (w.len() + a, w.len() + b)) == piece(s, (a, b)),
{
    assert(piece(w + s, (w.len() + a, w.len() + b)) =~= piece(s, (a, b)));
}

/// Whitespace before the type is ignored: putting it before a message
/// changes neither what the message parses into nor the error it gives.
pub proof fn lemma_leading_whitespace(w: Seq<char>, s: Seq<char>)
    requires
        forall|k: int| 0 <= k < w.len() ==> is_ws(#[trigger] w[k]),
    ensures
        spec_parse(w + s) == spec_parse(s),
{
    lemma_spans_shift(w, s);
    if spec_spans(s) is Ok {
        let sp = spec_spans(s)->Ok_0;
        let n = w.len() as int;
        lemma_spans_in_order(s);
        lemma_piece_shift(w, s, sp.header.ty.0, sp.header.ty.1);
        lemma_piece_shift(w, s, sp.desc.0, sp.desc.1);
        lemma_piece_shift(w, s, sp.body.0, sp.body.1);
        lemma_piece_shift(w, s, sp.footer.0, sp.footer.1);
        match sp.header.scope {
            Some(r) => {
                lemma_piece_shift(w, s, r.0, r.1);
            },
            None => {},
        }
        assert(commit_at(w + s, shift_spans(sp, n)) =~= commit_at(s, sp));
    }
}

/// The token of a trailer on the line that starts at `ls` ends at `j`: a
/// word without whitespace fills the line up to `j`, and `: ` or ` #`
/// follows it; or the line starts with `BREAKING`, and ` CHANGE: ` or
/// ` CHANGE #` follows it at `j`.
pub open spec fn token_end(s: Seq<char>, ls: int, j: int) -> bool {
    &&& ls < j
    &&& j + 1 < s.len()
    &&& forall|k: int| ls <= k < j ==> !is_ws(#[trigger] s[k])
    &&& {
        ||| s[j] == ':' && s[j + 1] == ' '
        ||| s[j] == ' ' && s[j + 1] == '#'
        ||| s[j] == ' ' && occurs_at(s, ls, "BREAKING"@) && ls + "BREAKING"@.len() == j && (
        occurs_at(s, j, " CHANGE: "@) || occurs_at(s, j, " CHANGE #"@))
    }
}

/// The line that starts at `ls` starts with the token of a trailer.
pub open spec fn trailer_line(s: Seq<char>, ls: int) -> bool {
    exists|j: int| #[trigger] token_end(s, ls, j)
}

/// The characters from `pl` up to `e` form a whole line of the body that
/// starts at `b`, holding only whitespace.
pub open spec fn blank_line(s: Seq<char>, b: int, pl: int, e: int) -> bool {
    &&& b <= pl <= e
    &&& pl == b || s[pl - 1] == '\n'
    &&& forall|k: int| pl <= k < e ==> is_ws(#[trigger] s[k]) && s[k] != '\n'
}

/// `ls` starts a line of the body that starts at `b`, and that line is the
/// first of the body or follows a line that holds only whitespace, however
/// many lines come before.
pub open spec fn opens_block(s: Seq<char>, b: int, ls: int) -> bool {
    &&& b <= ls < s.len()
    &&& {
        ||| ls == b
        ||| b < ls && s[ls - 1] == '\n' && exists|pl: int| #[trigger] blank_line(s, b, pl, ls - 1)
    }
}

/// `opens_block` says what `after_blank_line` says at the start of a line.
proof fn lemma_opens_block(s: Seq<char>, b: int, ls: int)
    requires
        b <= ls < s.len(),
        ls == b || s[ls - 1] == '\n',
    ensures
        line_start(s, b, ls) == ls,
        opens_block(s, b, ls) == after_blank_line(s, b, ls),
{
    lemma_line_start_within(s, b, ls, ls);
    if ls > b {
        let pl = line_start(s, b, ls - 1);
        lemma_line_start_bounds(s, b, ls - 1);
        lemma_line_start_at_line(s, b, ls - 1);
        if after_blank_line(s, b, ls) {
            assert forall|k: int| pl <= k < ls - 1 implies is_ws(#[trigger] s[k]) && s[k]
                != '\n' by {
                if s[k] == '\n' {
                    lemma_line_start_after_newline(s, b, ls - 1, k);
                }
            }
            assert(blank_line(s, b, pl, ls - 1));
        }
        if opens_block(s, b, ls) {
            let q = choose|q: int| #[trigger] blank_line(s, b, q, ls - 1);
            assert forall|k: int| q <= k < ls - 1 implies #[trigger] s[k] != '\n' by {}
            lemma_line_start_within(s, b, q, ls - 1);
        }
    }
}

/// The footer of a parsed message, where there is one, starts at a line that
/// opens a block and starts with a trailer token, and no line before it in
/// the body does both; the body is what stands before the footer, without
/// the whitespace at its end, and the footer runs to the end of the message,
/// without the whitespace at its end.
pub proof fn lemma_footer_shape(s: Seq<char>)
    requires
        spec_spans(s) is Ok,
    ensures
        ({
            let sp = spec_spans(s)->Ok_0;
            let b = sp.body.0;
            &&& sp.footer.0 < s.len() ==> opens_block(s, b, sp.footer.0) && trailer_line(
                s,
                sp.footer.0,
            )
            &&& forall|ls: int|
                opens_block(s, b, ls) && #[trigger] trailer_line(s, ls) ==> sp.footer.0 <= ls
            &&& all_ws(s, sp.body.1, sp.footer.0)
            &&& all_ws(s, sp.footer.1, s.len() as int)
        }),
{
    let sp = spec_spans(s)->Ok_0;
    lemma_spans_in_order(s);
    let h = sp.header;
    let d = h.colon + 2;
    let e = find_first(s, d + 1, newline());
    let b = sp.body.0;
    if !(e + 1 < s.len() && s[e + 1] == '\n' && find_first(s, e + 2, not_newline()) < s.len()) {
        assert(b == s.len());
        return;
    }
    lemma_find_first(s, e + 2, not_newline());
    assert(b == find_first(s, e + 2, not_newline()));
    lemma_body_and_footer(s, b);
    lemma_first_mark(s, b, b + 1);
    match first_mark(s, b, b + 1) {
        Some(p) => {
            let f = line_start(s, b, p);
            lemma_line_start_bounds(s, b, p);
            lemma_line_start_at_line(s, b, p);
            lemma_trim_end(s, b, f);
            lemma_trim_end(s, f, s.len() as int);
            lemma_opens_block(s, b, f);
            assert forall|k: int| f <= k < p implies !is_ws(#[trigger] s[k]) by {
                assert(!is_inline_ws(s[k]));
                if s[k] == '\n' {
                    lemma_line_start_after_newline(s, b, p, k);
                }
            }
            assert(token_end(s, f, p));
            assert forall|ls: int| opens_block(s, b, ls) && #[trigger] trailer_line(s, ls)
                implies f <= ls by {
                let j = choose|j: int| #[trigger] token_end(s, ls, j);
                assert forall|k: int| ls <= k < j implies #[trigger] s[k] != '\n' by {
                    assert(!is_ws(s[k]));
                }
                lemma_line_start_within(s, b, ls, j);
                lemma_opens_block(s, b, ls);
                assert(trailer_mark(s, b, j));
                lemma_first_mark_before(s, b, b + 1, j);
                lemma_line_start_monotone(s, b, p, j);
            }
        },
        None => {
            lemma_trim_end(s, b, s.len() as int);
            assert forall|ls: int| opens_block(s, b, ls) && #[trigger] trailer_line(s, ls)
                implies s.len() <= ls by {
                let j = choose|j: int| #[trigger] token_end(s, ls, j);
                assert forall|k: int| ls <= k < j implies #[trigger] s[k] != '\n' by {
                    assert(!is_ws(s[k]));
                }
                lemma_line_start_within(s, b, ls, j);
                lemma_opens_block(s, b, ls);
                assert(trailer_mark(s, b, j));
                lemma_first_mark_before(s, b, b + 1, j);
            }
        },
    }
}

/// A line of the footer `f` starts at `i` with `BREAKING CHANGE: ` or
/// `BREAKING-CHANGE: `.
pub open spec fn breaking_line(f: Seq<char>, i: int) -> bool {
    &&& 0 <= i <= f.len()
    &&& i == 0 || f[i - 1] == '\n'
    &&& "BREAKING CHANGE: "@.is_prefix_of(f.skip(i)) || "BREAKING-CHANGE: "@.is_prefix_of(
        f.skip(i),
    )
}

/// `t` occurs at `i` exactly when it is a prefix of what follows `i`.
proof fn lemma_occurs_prefix(f: Seq<char>, i: int, t: Seq<char>)
    requires
        0 <= i <= f.len(),
    ensures
        occurs_at(f, i, t) == t.is_prefix_of(f.skip(i)),
{
    if i + t.len() <= f.len() {
        assert(f.subrange(i, i + t.len()) =~= f.skip(i).subrange(0, t.len() as int));
    }
}

/// A commit announces a breaking change exactly when its first line has a
/// `!` before the `:`, or a line of its footer starts with `BREAKING CHANGE: `
/// or `BREAKING-CHANGE: `; so a `!` announces one whatever the body and the
/// footer hold.
pub proof fn lemma_breaking_change(c: CommitView)
    ensures
        is_breaking(c) <==> (c.breaking || exists|i: int| #[trigger] breaking_line(c.footer, i)),
        c.breaking ==> is_breaking(c),
{
    let f = c.footer;
    if exists|i: int| #[trigger] breaking_line(f, i) {
        let i = choose|i: int| #[trigger] breaking_line(f, i);
        lemma_occurs_prefix(f, i, "BREAKING CHANGE: "@);
        lemma_occurs_prefix(f, i, "BREAKING-CHANGE: "@);
        assert(breaking_token_at(f, i));
    }
    if exists|i: int| #[trigger] breaking_token_at(f, i) {
        let i = choose|i: int| #[trigger] breaking_token_at(f, i);
        assert(0 <= i <= f.len()) by {
            if i > f.len() {
                assert(!occurs_at(f, i, "BREAKING CHANGE: "@));
            }
        }
        lemma_occurs_prefix(f, i, "BREAKING CHANGE: "@);
        lemma_occurs_prefix(f, i, "BREAKING-CHANGE: "@);
        assert(breaking_line(f, i));
    }
}

/// A message whose first line has a `!` before the `:` announces a breaking
/// change, whatever body and footer follow it after a blank line.
pub proof fn lemma_bang_is_breaking(
    ty: Seq<char>,
    scope: Option<Seq<char>>,
    desc: Seq<char>,
    rest: Seq<char>,
)
    requires
        valid_type(ty),
        valid_scope(scope),
        valid_desc(desc),
    ensures
        ({
            let m = render_header(ty, scope, true, desc) + seq!['\n', '\n'] + rest;
            &&& spec_parse(m) is Ok
            &&& spec_parse(m)->Ok_0.breaking
            &&& is_breaking(spec_parse(m)->Ok_0)
        }),
{
    let line = render_header(ty, scope, true, desc);
    lemma_parse_render(ty, scope, true, desc);
    let mid = match scope {
        Some(sc) => seq!['('] + sc + seq![')'],
        None => Seq::<char>::empty(),
    };
    assert(line =~= ty + mid + seq!['!'] + seq![':', ' '] + desc);
    assert forall|k: int| 0 <= k < line.len() implies #[trigger] line[k] != '\n' by {
        let n = ty.len() as int;
        if k < n {
            assert(line[k] == ty[k]);
        } else if k < n + mid.len() {
            match scope {
                Some(sc) => {
                    if k > n && k < n + mid.len() - 1 {
                        assert(line[k] == sc[k - n - 1]);
                    }
                },
                None => {},
            }
        } else if k >= n + mid.len() + 3 {
            assert(line[k] == desc[k - n - mid.len() - 3]);
        }
    }
    lemma_body_keeps_header(line, rest);
    lemma_breaking_change(spec_parse(line + seq!['\n', '\n'] + rest)->Ok_0);
}

/// The first line of a commit message with these elements, up to and with
/// the `:`.
pub open spec fn header_prefix(ty: Seq<char>, scope: Option<Seq<char>>, breaking: bool) -> Seq<
    char,
> {
    ty + match scope {
        Some(sc) => seq!['('] + sc + seq![')'],
        None => Seq::<char>::empty(),
    } + (if breaking {
        seq!['!']
    } else {
        Seq::<char>::empty()
    }) + seq![':']
}

/// A valid type, scope and `!` up to the `:` read as such, whatever follows.
proof fn lemma_header_of(ty: Seq<char>, scope: Option<Seq<char>>, breaking: bool, rest: Seq<char>)
    requires
        valid_type(ty),
        valid_scope(scope),
    ensures
        ({
            let pre = header_prefix(ty, scope, breaking);
            let n = ty.len() as int;
            spec_header(pre + rest) == Ok::<Header, InvalidElement>(
                Header {
                    ty: (0, n),
                    scope: match scope {
                        Some(sc) => Some((n + 1, n + 1 + sc.len())),
                        None => None,
                    },
                    breaking,
                    colon: pre.len() - 1,
                },
            )
        }),
{
    let pre = header_prefix(ty, scope, breaking);
    let s = pre + rest;
    let mid = match scope {
        Some(sc) => seq!['('] + sc + seq![')'],
        None => Seq::<char>::empty(),
    };
    let bang = if breaking {
        seq!['!']
    } else {
        Seq::<char>::empty()
    };
    let n = ty.len() as int;
    let c = n + mid.len() + bang.len();
    assert(pre =~= ty + mid + bang + seq![':']);
    assert(pre.len() == c + 1);
    assert forall|k: int| 0 <= k < pre.len() implies s[k] == pre[k] by {}
    assert forall|k: int| 0 <= k < n implies s[k] == ty[k] by {
        assert(pre[k] == ty[k]);
    }
    assert(s[c] == ':');
    lemma_find_first_is(s, 0, not_ws(), 0);
    let p = n;
    assert(s[p] == (match scope {
        Some(_) => '(',
        None => if breaking { '!' } else { ':' },
    }));
    lemma_find_first_is(s, 1, type_stop(), p);
    match scope {
        Some(sc) => {
            assert forall|k: int| 0 <= k < sc.len() implies s[p + 1 + k] == sc[k] by {
                assert(pre[p + 1 + k] == sc[k]);
            }
            let q = p + 1 + sc.len();
            assert(s[q] == ')');
            assert forall|k: int| p + 1 <= k < q implies !scope_stop()(#[trigger] s[k]) by {
                assert(s[k] == sc[k - p - 1]);
            }
            lemma_find_first_is(s, p + 1, scope_stop(), q);
        },
        None => {},
    }
}

/// After a valid type, scope and `!` and the `:`, a missing space is a
/// prefix error, and whitespace (or nothing) where the description should
/// start is a description error.
pub proof fn lemma_prefix_desc_errors(
    ty: Seq<char>,
    scope: Option<Seq<char>>,
    breaking: bool,
    rest: Seq<char>,
)
    requires
        valid_type(ty),
        valid_scope(scope),
    ensures
        rest.len() == 0 || rest[0] != ' ' ==> spec_parse(header_prefix(ty, scope, breaking) + rest)
            == Err::<CommitView, InvalidElement>(InvalidElement::Prefix),
        rest.len() > 0 && rest[0] == ' ' && (rest.len() == 1 || is_ws(rest[1])) ==> spec_parse(
            header_prefix(ty, scope, breaking) + rest,
        ) == Err::<CommitView, InvalidElement>(InvalidElement::Desc),
{
    let pre = header_prefix(ty, scope, breaking);
    lemma_header_of(ty, scope, breaking, rest);
    let s = pre + rest;
    let c = pre.len() - 1;
    if rest.len() > 0 {
        assert(s[c + 1] == rest[0]);
    }
    if rest.len() > 1 {
        assert(s[c + 2] == rest[1]);
    }
}

/// A description followed by a line feed and then something other than a
/// line feed is a body error: the body must follow a blank line.
pub proof fn lemma_body_error(
    ty: Seq<char>,
    scope: Option<Seq<char>>,
    breaking: bool,
    desc: Seq<char>,
    x: char,
    rest: Seq<char>,
)
    requires
        valid_type(ty),
        valid_scope(scope),
        valid_desc(desc),
        x != '\n',
    ensures
        spec_parse(header_prefix(ty, scope, breaking) + seq![' '] + desc + seq!['\n', x] + rest)
            == Err::<CommitView, InvalidElement>(InvalidElement::Body),
{
    let pre = header_prefix(ty, scope, breaking);
    let tail = seq![' '] + desc + seq!['\n', x] + rest;
    let s = pre + seq![' '] + desc + seq!['\n', x] + rest;
    assert(s =~= pre + tail);
    lemma_header_of(ty, scope, breaking, tail);
    let c = pre.len() - 1;
    let d = c + 2;
    let e = d + desc.len();
    assert(s[c + 1] == ' ');
    assert(s[d] == desc[0]);
    assert forall|k: int| d + 1 <= k < e implies !newline()(#[trigger] s[k]) by {
        assert(s[k] == desc[k - d]);
    }
    assert(s[e] == '\n');
    assert(s[e + 1] == x);
    lemma_find_first_is(s, d + 1, newline(), e);
}

/// A message with no character but whitespace, or whose first character
/// after whitespace is `:`, `(` or `!`, or whose type is followed by
/// whitespace or by nothing, is a type error; a scope that meets whitespace
/// or the end before its `)` is a scope error.
pub proof fn lemma_type_scope_errors(
    w: Seq<char>,
    ty: Seq<char>,
    sc: Seq<char>,
    x: char,
    rest: Seq<char>,
)
    requires
        forall|k: int| 0 <= k < w.len() ==> is_ws(#[trigger] w[k]),
        valid_type(ty),
        forall|k: int| 0 <= k < sc.len() ==> !is_ws(#[trigger] sc[k]) && sc[k] != ')',
    ensures
        spec_parse(w) == Err::<CommitView, InvalidElement>(InvalidElement::Type),
        x == ':' || x == '(' || x == '!' ==> spec_parse(w + seq![x] + rest) == Err::<
            CommitView,
            InvalidElement,
        >(InvalidElement::Type),
        rest.len() == 0 || is_ws(rest[0]) ==> spec_parse(ty + rest) == Err::<
            CommitView,
            InvalidElement,
        >(InvalidElement::Type),
        rest.len() == 0 || is_ws(rest[0]) ==> spec_parse(ty + seq!['('] + sc + rest) == Err::<
            CommitView,
            InvalidElement,
        >(InvalidElement::Scope),
{
    lemma_find_first_is(w, 0, not_ws(), w.len() as int);
    let s1 = w + seq![x] + rest;
    assert forall|k: int| 0 <= k < w.len() implies !not_ws()(#[trigger] s1[k]) by {
        assert(s1[k] == w[k]);
    }
    assert(s1[w.len() as int] == x);
    if x == ':' || x == '(' || x == '!' {
        lemma_find_first_is(s1, 0, not_ws(), w.len() as int);
    }
    let n = ty.len() as int;
    let s2 = ty + rest;
    assert forall|k: int| 0 <= k < n implies s2[k] == ty[k] by {}
    lemma_find_first_is(s2, 0, not_ws(), 0);
    assert forall|k: int| 1 <= k < n implies !type_stop()(#[trigger] s2[k]) by {}
    if rest.len() > 0 {
        assert(s2[n] == rest[0]);
    }
    if rest.len() == 0 || is_ws(rest[0]) {
        lemma_find_first_is(s2, 1, type_stop(), n);
    }
    let s3 = ty + seq!['('] + sc + rest;
    let q = n + 1 + sc.len();
    assert forall|k: int| 0 <= k < n implies s3[k] == ty[k] by {}
    assert(s3[n] == '(');
    assert forall|k: int| n + 1 <= k < q implies s3[k] == sc[k - n - 1] by {}
    lemma_find_first_is(s3, 0, not_ws(), 0);
    assert forall|k: int| 1 <= k < n implies !type_stop()(#[trigger] s3[k]) by {}
    lemma_find_first_is(s3, 1, type_stop(), n);
    assert forall|k: int| n + 1 <= k < q implies !scope_stop()(#[trigger] s3[k]) by {
        assert(s3[k] == sc[k - n - 1]);
        let j = k - n - 1;
        assert(0 <= j < sc.len());
        assert(!is_ws(sc[j]) && sc[j] != ')');
    }
    if rest.len() > 0 {
        assert(s3[q] == rest[0]);
    }
    if rest.len() == 0 || is_ws(rest[0]) {
        lemma_find_first_is(s3, n + 1, scope_stop(), q);
    }
}

} // verus!
