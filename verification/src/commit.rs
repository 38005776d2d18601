//! Commit messages parsed into their elements.
use vstd::prelude::*;
use vstd::string::*;
use crate::error::{Error, InvalidElement};
use crate::grammar::{
    breaking_change_trailer, breaking_token_at, is_breaking, occurs_at,
    all_ws, after_blank_line, body_and_footer, commit_at, find_first, first_mark, is_inline_ws,
    lemma_body_and_footer, lemma_find_first, lemma_line_start_bounds, line_start,
    may_be_trailer, newline, not_newline, not_ws, piece, scope_stop, spec_header, spec_parse,
    spec_spans, trailer_mark, trim_end, type_stop, CommitView, Header, Spans,
};
use crate::scan::{
    expect_colon, expect_space, parse_desc, parse_scope, skip_whitespace, CharIndices,
};
use crate::whitespace::{is_newline_ch, is_whitespace, is_ws};

verus! {

/// Commit message parsed into the structured elements of the Conventional
/// Commits standard.
#[derive(Debug, Clone, PartialEq, Eq)]
pub struct Commit<'a> {
    ty: &'a str,
    scope: Option<&'a str>,
    /// Indicates a `!` was detected in the first line after the type and
    /// optional scope
    ///
    /// If this is false, the footer must also be checked for "BREAKING CHANGE"
    /// and similar variants.
    is_breaking_change: bool,
    desc: &'a str,
    body: &'a str,
    footer: &'a str,
}

/// The characters of an optional piece of text.
pub open spec fn opt_view(o: Option<&str>) -> Option<Seq<char>> {
    match o {
        Some(x) => Some(x@),
        None => None,
    }
}

impl<'a> View for Commit<'a> {
    type V = CommitView;

    closed spec fn view(&self) -> CommitView {
        CommitView {
            ty: self.ty@,
            scope: opt_view(self.scope),
            breaking: self.is_breaking_change,
            desc: self.desc@,
            body: self.body@,
            footer: self.footer@,
        }
    }
}

impl<'a> Commit<'a> {
    /// Returns the type of the commit.
    pub fn ty(&self) -> (r: &'a str)
        ensures
            r@ == self@.ty,
    {
        self.ty
    }

    /// Returns the scope of the commit, if it has one.
    pub fn scope(&self) -> (r: Option<&'a str>)
        ensures
            opt_view(r) == self@.scope,
    {
        self.scope
    }

    /// Returns the description of the commit.
    pub fn desc(&self) -> (r: &'a str)
        ensures
            r@ == self@.desc,
    {
        self.desc
    }

    /// Returns true if the message indicates a breaking change.
    ///
    /// A breaking change is indicated by either:
    ///
    /// * a `!` following the type and optional scope
    /// * a `BREAKING CHANGE` or `BREAKING-CHANGE` trailing footer: a line of
    ///   the footer that starts with the token followed by `: `
    pub fn is_breaking_change(&self) -> (r: bool)
        ensures
            r == is_breaking(self@),
    {
        if self.is_breaking_change {
            return true;
        }
        has_breaking_change_trailer(self.footer)
    }

    /// Returns the body of the conventional commit.
    ///
    /// The body starts at the first line after the blank line that follows
    /// the description, and runs up to the footer, or to the end of the
    /// message where there is no footer. Whitespace at its end is left out,
    /// so a last line of one word is part of it.
    pub fn body(&self) -> (r: &str)
        ensures
            r@ == self@.body,
    {
        self.body
    }

    /// Returns the footer of the conventional commit.
    ///
    /// The footer starts at the first line of the body that is the body's
    /// first line or follows a blank line, and that starts with a trailer
    /// token: a word of at least one character followed by `: ` or ` #`, or
    /// `BREAKING CHANGE` followed by them. A trailer on a line right after a
    /// line of text stays in the body. The footer runs to the end of the
    /// message, and whitespace at its end is left out.
    pub fn footer(&self) -> (r: &str)
        ensures
            r@ == self@.footer,
    {
        self.footer
    }
}

/// Reads the first line up to and with the `:`: the type, the optional scope
/// and the optional `!`.
fn parse_header<'a>(text: &'a str, it: &mut CharIndices) -> (r: Result<
    (&'a str, Option<&'a str>, bool),
    Error,
>)
    requires
        old(it).wf(),
        old(it).text() == text@,
        old(it).pos() == 0,
    ensures
        final(it).wf(),
        final(it).text() == text@,
        match spec_header(text@) {
            Ok(h) => r matches Ok((ty, scope, breaking)) && ty@ == piece(text@, h.ty) && opt_view(
                scope,
            ) == (match h.scope {
                Some(sc) => Some(piece(text@, sc)),
                None => None,
            }) && breaking == h.breaking && final(it).pos() == h.colon + 1,
            Err(k) => r matches Err(e) && e@ == k,
        },
{
    let ghost s = text@;
    proof {
        lemma_find_first(s, 0, not_ws());
    }
    let (start_ty_idx, first) = match skip_whitespace(it) {
        Some(x) => x,
        None => {
            return Err(Error::new(InvalidElement::Type));
        },
    };
    if first == ':' || first == '(' || first == '!' {
        return Err(Error::new(InvalidElement::Type));
    }
    proof {
        lemma_find_first(s, start_ty_idx + 1, type_stop());
    }
    let end_ty_idx: usize;
    let stop: char;
    loop
        invariant_except_break
            start_ty_idx + 1 <= it.pos(),
            find_first(s, start_ty_idx + 1, type_stop()) == find_first(s, it.pos(), type_stop()),
        invariant
            it.wf(),
            it.text() == s,
            s == text@,
            start_ty_idx == find_first(s, 0, not_ws()),
            start_ty_idx < s.len(),
            start_ty_idx + 1 <= find_first(s, start_ty_idx + 1, type_stop()) <= s.len(),
            find_first(s, start_ty_idx + 1, type_stop()) < s.len() ==> type_stop()(
                s[find_first(s, start_ty_idx + 1, type_stop())],
            ),
        ensures
            end_ty_idx == find_first(s, start_ty_idx + 1, type_stop()),
            end_ty_idx < s.len(),
            stop == s[end_ty_idx as int],
            stop == ':' || stop == '(' || stop == '!',
            it.pos() == end_ty_idx + 1,
        decreases s.len() - it.pos(),
    {
        let (pos, ch) = match it.next() {
            Some(x) => x,
            None => {
                return Err(Error::new(InvalidElement::Type));
            },
        };
        if ch == ':' || ch == '(' || ch == '!' {
            end_ty_idx = pos;
            stop = ch;
            break ;
        }
        if is_whitespace(ch) {
            return Err(Error::new(InvalidElement::Type));
        }
    }
    let ty = text.substring_char(start_ty_idx, end_ty_idx);
    if stop == ':' {
        Ok((ty, None, false))
    } else if stop == '!' {
        match expect_colon(it) {
            Some(_) => Ok((ty, None, true)),
            None => Err(Error::new(InvalidElement::Prefix)),
        }
    } else {
        let ghost p = end_ty_idx as int;
        proof {
            lemma_find_first(s, p + 1, scope_stop());
        }
        let (start_scope_idx, end_scope_idx) = match parse_scope(it) {
            Some(x) => x,
            None => {
                return Err(Error::new(InvalidElement::Scope));
            },
        };
        let scope = Some(text.substring_char(start_scope_idx, end_scope_idx));
        let (_, ch) = match it.next() {
            Some(x) => x,
            None => {
                return Err(Error::new(InvalidElement::Prefix));
            },
        };
        if ch == ':' {
            Ok((ty, scope, false))
        } else if ch == '!' {
            match expect_colon(it) {
                Some(_) => Ok((ty, scope, true)),
                None => Err(Error::new(InvalidElement::Prefix)),
            }
        } else {
            Err(Error::new(InvalidElement::Prefix))
        }
    }
}

/// The index after the last character of the text from `lo` up to `hi`
/// that is not whitespace, or `lo` where there is none.
fn trim_end_exec(it: &CharIndices, lo: usize, hi: usize) -> (r: usize)
    requires
        it.wf(),
        lo <= hi <= it.text().len(),
    ensures
        r == trim_end(it.text(), lo as int, hi as int),
{
    let mut j = hi;
    while j > lo && is_whitespace(it.char_at(j - 1))
        invariant
            it.wf(),
            lo <= j <= hi <= it.text().len(),
            trim_end(it.text(), lo as int, hi as int) == trim_end(it.text(), lo as int, j as int),
        decreases j,
    {
        j = j - 1;
    }
    j
}

/// Reads the body from its first character, up to the first trailer that
/// starts the footer. Returns where the body ends, and where the footer
/// starts and ends if there is one.
fn scan_body(it: &mut CharIndices) -> (r: (usize, Option<(usize, usize)>))
    requires
        old(it).wf(),
        old(it).pos() < old(it).text().len(),
        old(it).text()[old(it).pos()] != '\n',
    ensures
        final(it).wf(),
        final(it).text() == old(it).text(),
        ({
            let s = old(it).text();
            let (bs, fs) = body_and_footer(s, old(it).pos());
            &&& r.0 == bs.1
            &&& fs.0 < s.len() ==> r.1 == Some((fs.0 as usize, fs.1 as usize))
            &&& fs.0 >= s.len() ==> r.1 is None
        }),
{
    let ghost s = it.text();
    let ghost b = it.pos();
    proof {
        lemma_body_and_footer(s, b);
    }
    let kw = CharIndices::new("BREAKING");
    let change_colon = CharIndices::new(" CHANGE: ");
    let change_hash = CharIndices::new(" CHANGE #");
    let (start_body_idx, ch) = match it.next() {
        Some(x) => x,
        None => {
            return (0, None);
        },
    };
    let mut start_line_idx = start_body_idx;
    let mut is_line_possibly_trailer = !is_whitespace(ch);
    let mut is_prev_line_blank = true;
    let mut is_cur_line_blank = is_whitespace(ch);
    proof {
        assert(line_start(s, b, b) == b);
        assert(line_start(s, b, b + 1) == b);
        assert(may_be_trailer(s, b, b + 1) == !is_inline_ws(s[b]));
        assert(all_ws(s, b, b + 1) == is_ws(s[b]));
    }
    loop
        invariant_except_break
            b < it.pos() <= s.len(),
            start_line_idx == line_start(s, b, it.pos()),
            is_line_possibly_trailer == may_be_trailer(s, b, it.pos()),
            is_prev_line_blank == after_blank_line(s, b, it.pos()),
            is_cur_line_blank == all_ws(s, line_start(s, b, it.pos()), it.pos()),
            first_mark(s, b, b + 1) == first_mark(s, b, it.pos()),
        invariant
            it.wf(),
            it.text() == s,
            s == old(it).text(),
            b == old(it).pos(),
            b < s.len(),
            s[b] != '\n',
            start_body_idx == b,
            kw.wf(),
            change_colon.wf(),
            change_hash.wf(),
            kw.text() == "BREAKING"@,
            change_colon.text() == " CHANGE: "@,
            change_hash.text() == " CHANGE #"@,
        ensures
            b + 1 < it.pos() < s.len(),
            first_mark(s, b, b + 1) == Some(it.pos() - 1),
            start_line_idx == line_start(s, b, it.pos() - 1),
        decreases s.len() - it.pos(),
    {
        let ghost i = it.pos();
        proof {
            lemma_line_start_bounds(s, b, i);
        }
        let (pos, ch) = match it.next() {
            Some(x) => x,
            None => {
                let end = trim_end_exec(it, start_body_idx, it.len());
                return (end, None);
            },
        };
        let mut is_mark = false;
        if is_line_possibly_trailer && is_prev_line_blank && start_line_idx < pos {
            if let Some((_, peek)) = it.peek() {
                if ch == ':' && peek == ' ' {
                    is_mark = true;
                } else if ch == ' ' && peek == '#' {
                    is_mark = true;
                } else if ch == ' ' && pos - start_line_idx == kw.len() && occurs_at_exec(
                    it,
                    start_line_idx,
                    &kw,
                ) && (occurs_at_exec(it, pos, &change_colon) || occurs_at_exec(
                    it,
                    pos,
                    &change_hash,
                )) {
                    is_mark = true;
                }
            }
        }
        if is_mark {
            assert(trailer_mark(s, b, i));
            break ;
        }
        assert(!trailer_mark(s, b, i));
        if is_newline_ch(ch) {
            is_prev_line_blank = is_cur_line_blank;
            is_cur_line_blank = true;
            is_line_possibly_trailer = true;
            start_line_idx = pos + 1;
        } else if is_whitespace(ch) {
            is_line_possibly_trailer = false;
        } else {
            is_cur_line_blank = false;
        }
        proof {
            let ls = line_start(s, b, i);
            if s[i] == '\n' {
                assert(line_start(s, b, i + 1) == i + 1);
                assert(line_start(s, b, i + 1 - 1) == ls);
            } else {
                assert(line_start(s, b, i + 1) == ls);
                if may_be_trailer(s, b, i) && !is_inline_ws(s[i]) {
                    assert forall|k: int| ls <= k < i + 1 implies !is_inline_ws(
                        #[trigger] s[k],
                    ) by {
                        if k < i {
                            assert(ls <= k < i);
                        }
                    }
                }
                if all_ws(s, ls, i) && is_ws(s[i]) {
                    assert forall|k: int| ls <= k < i + 1 implies is_ws(#[trigger] s[k]) by {
                        if k < i {
                            assert(ls <= k < i);
                        }
                    }
                }
                if !is_ws(s[i]) {
                    assert(!is_ws(s[i]) && ls <= i < i + 1);
                }
            }
        }
    }
    let ghost p = it.pos() - 1;
    proof {
        lemma_line_start_bounds(s, b, p);
    }
    let footer_start = start_line_idx;
    let body_end = trim_end_exec(it, start_body_idx, footer_start);
    let footer_end = trim_end_exec(it, footer_start, it.len());
    (body_end, Some((footer_start, footer_end)))
}

/// Parse a commit message into the structured elements of the Conventional
/// Commits standard.
///
/// If the commit message does not match the conventional commit structure,
/// the error names the element that could not be read.
pub fn parse(text: &str) -> (r: crate::error::Result<Commit<'_>>)
    ensures
        spec_parse(text@) matches Ok(c) ==> r matches Ok(v) && v@ == c,
        spec_parse(text@) matches Err(k) ==> r matches Err(e) && e@ == k,
{
    let ghost s = text@;
    let mut it = CharIndices::new(text);
    let (ty, scope, is_breaking_change) = match parse_header(text, &mut it) {
        Ok(x) => x,
        Err(e) => {
            return Err(e);
        },
    };
    let ghost h = spec_header(s)->Ok_0;
    if expect_space(&mut it).is_none() {
        return Err(Error::new(InvalidElement::Prefix));
    }
    let ghost d = h.colon + 2;
    proof {
        reveal_strlit("");
    }
    let (start_desc_idx, end_desc_idx) = match parse_desc(&mut it) {
        Some(x) => x,
        None => {
            return Err(Error::new(InvalidElement::Desc));
        },
    };
    proof {
        lemma_find_first(s, d + 1, newline());
    }
    let ghost e = find_first(s, d + 1, newline());
    let ghost none = (s.len() as int, s.len() as int);
    let desc = match end_desc_idx {
        Some(e) => text.substring_char(start_desc_idx, e),
        None => {
            let desc = text.substring_char(start_desc_idx, it.len());
            let c = Commit { ty, scope, is_breaking_change, desc, body: "", footer: "" };
            proof {
                let sp = Spans { header: h, desc: (d, e), body: none, footer: none };
                assert(spec_spans(s) == Ok::<Spans, InvalidElement>(sp));
                assert(c@ =~= commit_at(s, sp));
            }
            return Ok(c);
        },
    };
    let (_, ch) = match it.next() {
        Some(x) => x,
        None => {
            let c = Commit { ty, scope, is_breaking_change, desc, body: "", footer: "" };
            proof {
                let sp = Spans { header: h, desc: (d, e), body: none, footer: none };
                assert(spec_spans(s) == Ok::<Spans, InvalidElement>(sp));
                assert(c@ =~= commit_at(s, sp));
            }
            return Ok(c);
        },
    };
    if !is_newline_ch(ch) {
        return Err(Error::new(InvalidElement::Body));
    }
    proof {
        lemma_find_first(s, e + 2, not_newline());
    }
    let start_body_idx: usize;
    loop
        invariant_except_break
            e + 2 <= it.pos() <= s.len(),
            find_first(s, e + 2, not_newline()) == find_first(s, it.pos(), not_newline()),
        invariant
            it.wf(),
            it.text() == s,
            s == text@,
            e + 1 < s.len(),
            s[e + 1] == '\n',
            spec_header(s) == Ok::<Header, InvalidElement>(h),
            h.colon + 2 < s.len(),
            s[h.colon + 1] == ' ',
            !is_ws(s[h.colon + 2]),
            d == h.colon + 2,
            e == find_first(s, d + 1, newline()),
            ty@ == piece(s, h.ty),
            opt_view(scope) == (match h.scope {
                Some(sc) => Some(piece(s, sc)),
                None => None,
            }),
            is_breaking_change == h.breaking,
            desc@ == piece(s, (d, e)),
        ensures
            start_body_idx == it.pos(),
            start_body_idx == find_first(s, e + 2, not_newline()),
            start_body_idx < s.len(),
            s[start_body_idx as int] != '\n',
        decreases s.len() - it.pos(),
    {
        match it.peek() {
            None => {
                let c = Commit { ty, scope, is_breaking_change, desc, body: "", footer: "" };
                proof {
                    reveal_strlit("");
                    let none = (s.len() as int, s.len() as int);
                    assert(find_first(s, it.pos(), not_newline()) == s.len());
                    let sp = Spans { header: h, desc: (d, e), body: none, footer: none };
                    assert(spec_spans(s) == Ok::<Spans, InvalidElement>(sp));
                    assert(c@ =~= commit_at(s, sp));
                }
                return Ok(c);
            },
            Some((pos, ch)) => {
                if !is_newline_ch(ch) {
                    start_body_idx = pos;
                    break ;
                }
                it.next();
            },
        }
    }
    let (end_body_idx, footer_span) = scan_body(&mut it);
    proof {
        lemma_body_and_footer(s, start_body_idx as int);
    }
    let body = text.substring_char(start_body_idx, end_body_idx);
    let footer = match footer_span {
        Some((start_footer_idx, end_footer_idx)) => text.substring_char(
            start_footer_idx,
            end_footer_idx,
        ),
        None => "",
    };
    let c = Commit { ty, scope, is_breaking_change, desc, body, footer };
    proof {
        let b = start_body_idx as int;
        let (bs, fs) = body_and_footer(s, b);
        let sp = Spans { header: h, desc: (d, e), body: bs, footer: fs };
        assert(spec_spans(s) == Ok::<Spans, InvalidElement>(sp));
        assert(c@ =~= commit_at(s, sp));
    }
    Ok(c)
}

/// Whether `t` occurs in `f` at index `i`.
fn occurs_at_exec(f: &CharIndices, i: usize, t: &CharIndices) -> (r: bool)
    requires
        f.wf(),
        t.wf(),
    ensures
        r == occurs_at(f.text(), i as int, t.text()),
{
    let n = f.len();
    let m = t.len();
    if i > n || m > n - i {
        return false;
    }
    let mut k: usize = 0;
    while k < m
        invariant
            n == f.text().len(),
            m == t.text().len(),
            i + m <= n,
            k <= m,
            forall|j: int| 0 <= j < k ==> f.text()[i + j] == t.text()[j],
        decreases m - k,
    {
        if f.char_at(i + k) != t.char_at(k) {
            assert(f.text().subrange(i as int, i + m)[k as int] != t.text()[k as int]);
            return false;
        }
        k = k + 1;
    }
    assert(f.text().subrange(i as int, i + m) =~= t.text());
    true
}

/// Whether a line of `footer` starts with a breaking change token and its
/// separator.
fn has_breaking_change_trailer(footer: &str) -> (r: bool)
    ensures
        r == breaking_change_trailer(footer@),
{
    let f = CharIndices::new(footer);
    let t1 = CharIndices::new("BREAKING CHANGE: ");
    let t2 = CharIndices::new("BREAKING-CHANGE: ");
    let n = f.len();
    proof {
        reveal_strlit("BREAKING CHANGE: ");
        reveal_strlit("BREAKING-CHANGE: ");
    }
    let mut i: usize = 0;
    while i < n
        invariant
            f.wf(),
            t1.wf(),
            t2.wf(),
            n == f.text().len(),
            f.text() == footer@,
            t1.text() == "BREAKING CHANGE: "@,
            t2.text() == "BREAKING-CHANGE: "@,
            i <= n,
            forall|j: int| 0 <= j < i ==> !#[trigger] breaking_token_at(footer@, j),
        decreases n - i,
    {
        if i == 0 || f.char_at(i - 1) == '\n' {
            if occurs_at_exec(&f, i, &t1) || occurs_at_exec(&f, i, &t2) {
                assert(breaking_token_at(footer@, i as int));
                return true;
            }
        }
        assert(!breaking_token_at(footer@, i as int));
        i = i + 1;
    }
    proof {
        reveal_strlit("BREAKING CHANGE: ");
        reveal_strlit("BREAKING-CHANGE: ");
        assert forall|j: int| !#[trigger] breaking_token_at(footer@, j) by {
            if !(0 <= j < n) {
                assert(!occurs_at(footer@, j, "BREAKING CHANGE: "@));
                assert(!occurs_at(footer@, j, "BREAKING-CHANGE: "@));
            }
        }
    }
    false
}

} // verus!
