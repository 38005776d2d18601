//! What a commit message means: the positions of its elements, as functions
//! of its characters.
use vstd::prelude::*;
use crate::error::InvalidElement;
use crate::whitespace::is_ws;

verus! {

/// Whitespace that does not end a line.
pub open spec fn is_inline_ws(c: char) -> bool {
    is_ws(c) && c != '\n'
}

/// Characters that are not whitespace.
pub open spec fn not_ws() -> spec_fn(char) -> bool {
    |c: char| !is_ws(c)
}

/// Characters that end the type: the start of a scope, a `!`, a `:` or whitespace.
pub open spec fn type_stop() -> spec_fn(char) -> bool {
    |c: char| c == ':' || c == '(' || c == '!' || is_ws(c)
}

/// Characters that end the scope: a `)` or whitespace.
pub open spec fn scope_stop() -> spec_fn(char) -> bool {
    |c: char| c == ')' || is_ws(c)
}

/// The line feed.
pub open spec fn newline() -> spec_fn(char) -> bool {
    |c: char| c == '\n'
}

/// Any character but the line feed.
pub open spec fn not_newline() -> spec_fn(char) -> bool {
    |c: char| c != '\n'
}

/// Characters that are not whitespace within a line.
pub open spec fn not_inline_ws() -> spec_fn(char) -> bool {
    |c: char| !is_inline_ws(c)
}

/// The first index at or after `from` whose character satisfies `p`, or the
/// length of `s` where there is none.
pub open spec fn find_first(s: Seq<char>, from: int, p: spec_fn(char) -> bool) -> int
    decreases s.len() - from,
{
    if from >= s.len() {
        s.len() as int
    } else if p(s[from]) {
        from
    } else {
        find_first(s, from + 1, p)
    }
}

/// The first line of a commit message: where the type, the scope and the
/// `:` stand, and whether a `!` marks a breaking change.
pub struct Header {
    /// The start and the end of the type.
    pub ty: (int, int),
    /// The start and the end of the scope, without its parentheses.
    pub scope: Option<(int, int)>,
    /// A `!` stands right before the `:`.
    pub breaking: bool,
    /// The index of the `:`.
    pub colon: int,
}

/// Reads the type, the optional scope and the optional `!` up to the `:`.
pub open spec fn spec_header(s: Seq<char>) -> Result<Header, InvalidElement> {
    let t0 = find_first(s, 0, not_ws());
    if t0 >= s.len() || type_stop()(s[t0]) {
        Err(InvalidElement::Type)
    } else {
        let p = find_first(s, t0 + 1, type_stop());
        if p >= s.len() || is_ws(s[p]) {
            Err(InvalidElement::Type)
        } else if s[p] == ':' {
            Ok(Header { ty: (t0, p), scope: None, breaking: false, colon: p })
        } else if s[p] == '!' {
            if p + 1 < s.len() && s[p + 1] == ':' {
                Ok(Header { ty: (t0, p), scope: None, breaking: true, colon: p + 1 })
            } else {
                Err(InvalidElement::Prefix)
            }
        } else {
            let q = find_first(s, p + 1, scope_stop());
            if q >= s.len() || s[q] != ')' {
                Err(InvalidElement::Scope)
            } else if q + 1 < s.len() && s[q + 1] == ':' {
                Ok(Header { ty: (t0, p), scope: Some((p + 1, q)), breaking: false, colon: q + 1 })
            } else if q + 2 < s.len() && s[q + 1] == '!' && s[q + 2] == ':' {
                Ok(Header { ty: (t0, p), scope: Some((p + 1, q)), breaking: true, colon: q + 2 })
            } else {
                Err(InvalidElement::Prefix)
            }
        }
    }
}

/// The start of the line that holds index `i`, for a body that starts at `b`.
pub open spec fn line_start(s: Seq<char>, b: int, i: int) -> int
    decreases i - b,
{
    if i <= b {
        b
    } else if s[i - 1] == '\n' {
        i
    } else {
        line_start(s, b, i - 1)
    }
}

/// No whitespace within the line stands before index `i` on its line.
pub open spec fn may_be_trailer(s: Seq<char>, b: int, i: int) -> bool {
    forall|k: int| line_start(s, b, i) <= k < i ==> !is_inline_ws(#[trigger] s[k])
}

/// Every character from `lo` up to `hi` is whitespace.
pub open spec fn all_ws(s: Seq<char>, lo: int, hi: int) -> bool {
    forall|k: int| lo <= k < hi ==> is_ws(#[trigger] s[k])
}

/// The line that holds index `i` is the first line of the body, or follows
/// a blank line (one that holds only whitespace).
pub open spec fn after_blank_line(s: Seq<char>, b: int, i: int) -> bool {
    let ls = line_start(s, b, i);
    ls == b || all_ws(s, line_start(s, b, ls - 1), ls - 1)
}

/// The word `BREAKING` fills its line up to index `i`, and ` CHANGE: ` or
/// ` CHANGE #` follows it there.
pub open spec fn breaking_token_before(s: Seq<char>, b: int, i: int) -> bool {
    let ls = line_start(s, b, i);
    &&& occurs_at(s, ls, "BREAKING"@)
    &&& ls + "BREAKING"@.len() == i
    &&& occurs_at(s, i, " CHANGE: "@) || occurs_at(s, i, " CHANGE #"@)
}

/// Index `i` ends the token of a trailer: on the first line of the body or a
/// line after a blank line, a word (or `BREAKING CHANGE`) fills the line up
/// to `i`, and `: ` or ` #` follows it.
pub open spec fn trailer_mark(s: Seq<char>, b: int, i: int) -> bool {
    &&& line_start(s, b, i) < i
    &&& i + 1 < s.len()
    &&& may_be_trailer(s, b, i)
    &&& after_blank_line(s, b, i)
    &&& {
        ||| s[i] == ':' && s[i + 1] == ' '
        ||| s[i] == ' ' && s[i + 1] == '#'
        ||| s[i] == ' ' && breaking_token_before(s, b, i)
    }
}

/// The first trailer mark at or after `i`.
pub open spec fn first_mark(s: Seq<char>, b: int, i: int) -> Option<int>
    decreases s.len() - i,
{
    if i >= s.len() {
        None
    } else if trailer_mark(s, b, i) {
        Some(i)
    } else {
        first_mark(s, b, i + 1)
    }
}

/// The index after the last character from `lo` up to `i` that is not
/// whitespace, or `lo` where there is none.
pub open spec fn trim_end(s: Seq<char>, lo: int, i: int) -> int
    decreases i - lo,
{
    if i <= lo {
        lo
    } else if !is_ws(s[i - 1]) {
        i
    } else {
        trim_end(s, lo, i - 1)
    }
}

/// The body and the footer of a message whose body starts at `b`: the
/// footer starts at the line of the first trailer mark and runs to the end;
/// the body is what comes before it. Both leave out whitespace at their end.
pub open spec fn body_and_footer(s: Seq<char>, b: int) -> ((int, int), (int, int)) {
    match first_mark(s, b, b + 1) {
        Some(p) => {
            let f = line_start(s, b, p);
            ((b, trim_end(s, b, f)), (f, trim_end(s, f, s.len() as int)))
        },
        None => ((b, trim_end(s, b, s.len() as int)), (s.len() as int, s.len() as int)),
    }
}

/// Where each element of a commit message stands.
pub struct Spans {
    /// The elements of the first line before the description.
    pub header: Header,
    /// The start and the end of the description.
    pub desc: (int, int),
    /// The start and the end of the body; both are the length of the
    /// message where there is no body.
    pub body: (int, int),
    /// The start and the end of the footer; both are the length of the
    /// message where there is no footer.
    pub footer: (int, int),
}

/// Reads a whole commit message.
pub open spec fn spec_spans(s: Seq<char>) -> Result<Spans, InvalidElement> {
    match spec_header(s) {
        Err(k) => Err(k),
        Ok(h) => {
            let c = h.colon;
            let none = (s.len() as int, s.len() as int);
            if c + 1 >= s.len() || s[c + 1] != ' ' {
                Err(InvalidElement::Prefix)
            } else if c + 2 >= s.len() || is_ws(s[c + 2]) {
                Err(InvalidElement::Desc)
            } else {
                let d = c + 2;
                let e = find_first(s, d + 1, newline());
                if e + 1 >= s.len() {
                    Ok(Spans { header: h, desc: (d, e), body: none, footer: none })
                } else if s[e + 1] != '\n' {
                    Err(InvalidElement::Body)
                } else {
                    let b = find_first(s, e + 2, not_newline());
                    if b >= s.len() {
                        Ok(Spans { header: h, desc: (d, e), body: none, footer: none })
                    } else {
                        let (body, footer) = body_and_footer(s, b);
                        Ok(Spans { header: h, desc: (d, e), body, footer })
                    }
                }
            }
        }
    }
}

/// A commit message as its elements.
#[verifier::ext_equal]
pub struct CommitView {
    /// The type.
    pub ty: Seq<char>,
    /// The scope, without its parentheses.
    pub scope: Option<Seq<char>>,
    /// A `!` stands before the `:` of the first line.
    pub breaking: bool,
    /// The description.
    pub desc: Seq<char>,
    /// The body; empty where there is none.
    pub body: Seq<char>,
    /// The footer; empty where there is none.
    pub footer: Seq<char>,
}

/// The characters of `s` in the span `r`.
pub open spec fn piece(s: Seq<char>, r: (int, int)) -> Seq<char> {
    s.subrange(r.0, r.1)
}

/// The elements of `s` at the spans `sp`.
pub open spec fn commit_at(s: Seq<char>, sp: Spans) -> CommitView {
    CommitView {
        ty: piece(s, sp.header.ty),
        scope: match sp.header.scope {
            Some(r) => Some(piece(s, r)),
            None => None,
        },
        breaking: sp.header.breaking,
        desc: piece(s, sp.desc),
        body: piece(s, sp.body),
        footer: piece(s, sp.footer),
    }
}

/// What parsing the commit message `s` gives.
pub open spec fn spec_parse(s: Seq<char>) -> Result<CommitView, InvalidElement> {
    match spec_spans(s) {
        Ok(sp) => Ok(commit_at(s, sp)),
        Err(k) => Err(k),
    }
}

/// `find_first` gives the first index at or after `from` whose character
/// satisfies `p`.
pub proof fn lemma_find_first(s: Seq<char>, from: int, p: spec_fn(char) -> bool)
    requires
        0 <= from <= s.len(),
    ensures
        from <= find_first(s, from, p) <= s.len(),
        find_first(s, from, p) < s.len() ==> p(s[find_first(s, from, p)]),
        forall|k: int| from <= k < find_first(s, from, p) ==> !p(#[trigger] s[k]),
    decreases s.len() - from,
{
    if from < s.len() && !p(s[from]) {
        lemma_find_first(s, from + 1, p);
    }
}

/// An index at or after `from`, before which no character satisfies `p`, and
/// at which one does (or the end), is what `find_first` gives.
pub proof fn lemma_find_first_is(s: Seq<char>, from: int, p: spec_fn(char) -> bool, r: int)
    requires
        0 <= from <= r <= s.len(),
        r < s.len() ==> p(s[r]),
        forall|k: int| from <= k < r ==> !p(#[trigger] s[k]),
    ensures
        find_first(s, from, p) == r,
    decreases r - from,
{
    if from < r {
        assert(!p(s[from]));
        lemma_find_first_is(s, from + 1, p, r);
    }
}

/// A line starts at or after the body, and at or before any index on it.
pub proof fn lemma_line_start_bounds(s: Seq<char>, b: int, i: int)
    requires
        b <= i,
    ensures
        b <= line_start(s, b, i) <= i,
    decreases i - b,
{
    if i > b && s[i - 1] != '\n' {
        lemma_line_start_bounds(s, b, i - 1);
    }
}

/// `trim_end` gives the index after the last character from `lo` up to `i`
/// that is not whitespace, or `lo`.
pub proof fn lemma_trim_end(s: Seq<char>, lo: int, i: int)
    requires
        0 <= lo <= i <= s.len(),
    ensures
        lo <= trim_end(s, lo, i) <= i,
        forall|k: int| trim_end(s, lo, i) <= k < i ==> is_ws(#[trigger] s[k]),
        trim_end(s, lo, i) > lo ==> !is_ws(s[trim_end(s, lo, i) - 1]),
    decreases i - lo,
{
    if i > lo && is_ws(s[i - 1]) {
        lemma_trim_end(s, lo, i - 1);
    }
}

/// A line starts after every line feed before it.
pub proof fn lemma_line_start_after_newline(s: Seq<char>, b: int, i: int, j: int)
    requires
        b <= j < i,
        s[j] == '\n',
    ensures
        j + 1 <= line_start(s, b, i),
    decreases i - b,
{
    if s[i - 1] != '\n' {
        lemma_line_start_after_newline(s, b, i - 1, j);
    }
}

/// A line starts at the body or right after a line feed.
pub proof fn lemma_line_start_at_line(s: Seq<char>, b: int, i: int)
    requires
        b <= i,
    ensures
        line_start(s, b, i) == b || s[line_start(s, b, i) - 1] == '\n',
    decreases i - b,
{
    if i > b && s[i - 1] != '\n' {
        lemma_line_start_at_line(s, b, i - 1);
    }
}

/// The first trailer mark at or after `i` is one, and none comes before it.
pub proof fn lemma_first_mark(s: Seq<char>, b: int, i: int)
    requires
        0 <= i,
    ensures
        first_mark(s, b, i) matches Some(p) ==> i <= p && trailer_mark(s, b, p),
    decreases s.len() - i,
{
    if i < s.len() && !trailer_mark(s, b, i) {
        lemma_first_mark(s, b, i + 1);
    }
}

/// The body of a message that starts at `b` comes before its footer; the
/// body ends after a character that is not whitespace; the footer, where
/// there is one, starts a line at a character that is not a line feed, and
/// ends after a character that is not whitespace.
pub proof fn lemma_body_and_footer(s: Seq<char>, b: int)
    requires
        0 <= b < s.len(),
    ensures
        ({
            let (bs, fs) = body_and_footer(s, b);
            &&& bs.0 == b
            &&& b <= bs.1 <= fs.0 <= fs.1 <= s.len()
            &&& bs.1 > b ==> !is_ws(s[bs.1 - 1])
            &&& fs.0 < s.len() ==> {
                &&& fs.0 < fs.1
                &&& fs.0 == b || s[fs.0 - 1] == '\n'
                &&& s[fs.0] != '\n'
                &&& !is_ws(s[fs.1 - 1])
            }
            &&& fs.0 == s.len() ==> fs.1 == s.len()
        }),
{
    lemma_first_mark(s, b, b + 1);
    match first_mark(s, b, b + 1) {
        Some(p) => {
            let ls = line_start(s, b, p);
            lemma_line_start_bounds(s, b, p);
            lemma_line_start_at_line(s, b, p);
            lemma_trim_end(s, b, ls);
            assert(!is_inline_ws(s[p - 1]));
            if s[p - 1] == '\n' {
                lemma_line_start_after_newline(s, b, p, p - 1);
            }
            lemma_trim_end(s, ls, s.len() as int);
            if s[ls] == '\n' {
                assert(!is_inline_ws(s[ls]));
                lemma_line_start_after_newline(s, b, p, ls);
            }
        },
        None => {
            lemma_trim_end(s, b, s.len() as int);
        },
    }
}

/// `t` occurs in `f` at index `i`.
pub open spec fn occurs_at(f: Seq<char>, i: int, t: Seq<char>) -> bool {
    &&& 0 <= i
    &&& i + t.len() <= f.len()
    &&& f.subrange(i, i + t.len()) == t
}

/// The line of the footer `f` that starts at index `i` starts with the
/// `BREAKING CHANGE` or the `BREAKING-CHANGE` token and its `: ` separator.
pub open spec fn breaking_token_at(f: Seq<char>, i: int) -> bool {
    &&& i == 0 || (0 < i <= f.len() && f[i - 1] == '\n')
    &&& occurs_at(f, i, "BREAKING CHANGE: "@) || occurs_at(f, i, "BREAKING-CHANGE: "@)
}

/// A line of the footer `f` starts with a breaking change token.
pub open spec fn breaking_change_trailer(f: Seq<char>) -> bool {
    exists|i: int| #[trigger] breaking_token_at(f, i)
}

/// The commit announces a breaking change: by a `!` before the `:` of its
/// first line, or by a breaking change trailer in its footer.
pub open spec fn is_breaking(c: CommitView) -> bool {
    c.breaking || breaking_change_trailer(c.footer)
}

/// Characters appended after the first match do not move it.
pub proof fn lemma_find_first_prefix(s: Seq<char>, t: Seq<char>, i: int, p: spec_fn(char) -> bool)
    requires
        0 <= i,
        find_first(s, i, p) < s.len(),
    ensures
        find_first(s + t, i, p) == find_first(s, i, p),
{
    if i > s.len() {
        assert(find_first(s, i, p) == s.len());
    }
    lemma_find_first(s, i, p);
    let r = find_first(s, i, p);
    assert forall|k: int| i <= k < r implies !p(#[trigger] (s + t)[k]) by {
        assert((s + t)[k] == s[k]);
    }
    assert((s + t)[r] == s[r]);
    lemma_find_first_is(s + t, i, p, r);
}

/// Characters put before the text move every match by their number.
pub proof fn lemma_find_first_shift(w: Seq<char>, s: Seq<char>, i: int, p: spec_fn(char) -> bool)
    requires
        0 <= i <= s.len(),
    ensures
        find_first(w + s, w.len() + i, p) == w.len() + find_first(s, i, p),
{
    lemma_find_first(s, i, p);
    let r = find_first(s, i, p);
    let ws = w + s;
    assert forall|k: int| w.len() + i <= k < w.len() + r implies !p(#[trigger] ws[k]) by {
        assert(ws[k] == s[k - w.len()]);
    }
    if r < s.len() {
        assert(ws[w.len() + r] == s[r]);
    }
    lemma_find_first_is(ws, w.len() + i, p, w.len() + r);
}

/// What follows a first line that reads well does not change how it reads.
pub proof fn lemma_header_prefix(l: Seq<char>, r: Seq<char>)
    requires
        spec_header(l) is Ok,
    ensures
        spec_header(l + r) == spec_header(l),
        spec_header(l)->Ok_0.colon < l.len(),
{
    let s = l + r;
    let t0 = find_first(l, 0, not_ws());
    assert(t0 < l.len());
    lemma_find_first_prefix(l, r, 0, not_ws());
    lemma_find_first(l, 0, not_ws());
    let p = find_first(l, t0 + 1, type_stop());
    assert(p < l.len());
    lemma_find_first(l, t0 + 1, type_stop());
    lemma_find_first_prefix(l, r, t0 + 1, type_stop());
    assert(s[p] == l[p]);
    if l[p] == '(' {
        let q = find_first(l, p + 1, scope_stop());
        assert(q < l.len());
        lemma_find_first(l, p + 1, scope_stop());
        lemma_find_first_prefix(l, r, p + 1, scope_stop());
        assert(s[q] == l[q]);
        if q + 1 < l.len() {
            assert(s[q + 1] == l[q + 1]);
        }
        if q + 2 < l.len() {
            assert(s[q + 2] == l[q + 2]);
        }
    } else if l[p] == '!' {
        assert(p + 1 < l.len());
        assert(s[p + 1] == l[p + 1]);
    }
}

/// Where characters are put before the text, lines start as many places later.
pub proof fn lemma_line_start_shift(w: Seq<char>, s: Seq<char>, b: int, i: int)
    requires
        0 <= b <= i <= s.len(),
    ensures
        line_start(w + s, w.len() + b, w.len() + i) == w.len() + line_start(s, b, i),
    decreases i - b,
{
    if i > b {
        assert((w + s)[w.len() + i - 1] == s[i - 1]);
        if s[i - 1] != '\n' {
            lemma_line_start_shift(w, s, b, i - 1);
        }
    }
}

/// Where characters are put before the text, what occurs at an index of it
/// occurs as many places later.
pub proof fn lemma_occurs_shift(w: Seq<char>, s: Seq<char>, i: int, k: Seq<char>)
    requires
        0 <= i,
    ensures
        occurs_at(w + s, w.len() + i, k) == occurs_at(s, i, k),
{
    if i + k.len() <= s.len() {
        assert((w + s).subrange(w.len() + i, w.len() + i + k.len()) =~= s.subrange(i, i + k.len()));
    }
}

/// Where characters are put before the text, trailer marks move with it.
pub proof fn lemma_trailer_mark_shift(w: Seq<char>, s: Seq<char>, b: int, i: int)
    requires
        0 <= b <= i <= s.len(),
    ensures
        may_be_trailer(w + s, w.len() + b, w.len() + i) == may_be_trailer(s, b, i),
        i < s.len() ==> trailer_mark(w + s, w.len() + b, w.len() + i) == trailer_mark(s, b, i),
{
    let t = w + s;
    let n = w.len() as int;
    lemma_line_start_shift(w, s, b, i);
    lemma_line_start_bounds(s, b, i);
    let ls = line_start(s, b, i);
    if may_be_trailer(s, b, i) {
        assert forall|k: int| n + ls <= k < n + i implies !is_inline_ws(#[trigger] t[k]) by {
            assert(t[k] == s[k - n]);
        }
    }
    if may_be_trailer(t, n + b, n + i) {
        assert forall|k: int| ls <= k < i implies !is_inline_ws(#[trigger] s[k]) by {
            assert(t[n + k] == s[k]);
        }
    }
    if ls > b {
        lemma_line_start_shift(w, s, b, ls - 1);
        lemma_line_start_bounds(s, b, ls - 1);
        let pl = line_start(s, b, ls - 1);
        if all_ws(s, pl, ls - 1) {
            assert forall|k: int| n + pl <= k < n + ls - 1 implies is_ws(#[trigger] t[k]) by {
                assert(t[k] == s[k - n]);
            }
        }
        if all_ws(t, n + pl, n + ls - 1) {
            assert forall|k: int| pl <= k < ls - 1 implies is_ws(#[trigger] s[k]) by {
                assert(t[n + k] == s[k]);
            }
        }
    }
    lemma_occurs_shift(w, s, ls, "BREAKING"@);
    lemma_occurs_shift(w, s, i, " CHANGE: "@);
    lemma_occurs_shift(w, s, i, " CHANGE #"@);
    if i < s.len() {
        assert(t[n + i] == s[i]);
        if i + 1 < s.len() {
            assert(t[n + i + 1] == s[i + 1]);
        }
    }
}

/// Where characters are put before the text, the first trailer mark moves
/// with it.
pub proof fn lemma_first_mark_shift(w: Seq<char>, s: Seq<char>, b: int, i: int)
    requires
        0 <= b <= i <= s.len(),
    ensures
        first_mark(w + s, w.len() + b, w.len() + i) == (match first_mark(s, b, i) {
            Some(p) => Some(w.len() + p),
            None => None::<int>,
        }),
    decreases s.len() - i,
{
    if i < s.len() {
        lemma_trailer_mark_shift(w, s, b, i);
        if !trailer_mark(s, b, i) {
            lemma_first_mark_shift(w, s, b, i + 1);
        }
    }
}

/// Where characters are put before the text, the end of its last
/// non-whitespace character moves with it.
pub proof fn lemma_trim_end_shift(w: Seq<char>, s: Seq<char>, lo: int, i: int)
    requires
        0 <= lo <= i <= s.len(),
    ensures
        trim_end(w + s, w.len() + lo, w.len() + i) == w.len() + trim_end(s, lo, i),
    decreases i - lo,
{
    if i > lo {
        assert((w + s)[w.len() + i - 1] == s[i - 1]);
        if is_ws(s[i - 1]) {
            lemma_trim_end_shift(w, s, lo, i - 1);
        }
    }
}

/// Where characters are put before the text, its body and footer move with
/// it.
pub proof fn lemma_body_and_footer_shift(w: Seq<char>, s: Seq<char>, b: int)
    requires
        0 <= b < s.len(),
    ensures
        ({
            let n = w.len() as int;
            let (bs, fs) = body_and_footer(s, b);
            body_and_footer(w + s, n + b) == ((n + bs.0, n + bs.1), (n + fs.0, n + fs.1))
        }),
{
    let n = w.len() as int;
    let t = w + s;
    lemma_first_mark_shift(w, s, b, b + 1);
    lemma_first_mark(s, b, b + 1);
    lemma_body_and_footer(s, b);
    assert(t.len() == n + s.len());
    match first_mark(s, b, b + 1) {
        Some(p) => {
            let f = line_start(s, b, p);
            lemma_line_start_shift(w, s, b, p);
            lemma_line_start_bounds(s, b, p);
            lemma_trim_end_shift(w, s, b, f);
            lemma_trim_end_shift(w, s, f, s.len() as int);
        },
        None => {
            lemma_trim_end_shift(w, s, b, s.len() as int);
        },
    }
}

/// The spans `h` moved `n` places later.
pub open spec fn shift_header(h: Header, n: int) -> Header {
    Header {
        ty: (h.ty.0 + n, h.ty.1 + n),
        scope: match h.scope {
            Some(r) => Some((r.0 + n, r.1 + n)),
            None => None,
        },
        breaking: h.breaking,
        colon: h.colon + n,
    }
}

/// The spans `sp` moved `n` places later.
pub open spec fn shift_spans(sp: Spans, n: int) -> Spans {
    Spans {
        header: shift_header(sp.header, n),
        desc: (sp.desc.0 + n, sp.desc.1 + n),
        body: (sp.body.0 + n, sp.body.1 + n),
        footer: (sp.footer.0 + n, sp.footer.1 + n),
    }
}

/// Whitespace put before a text moves the first line's elements, and keeps
/// its errors.
pub proof fn lemma_header_shift(w: Seq<char>, s: Seq<char>)
    requires
        forall|k: int| 0 <= k < w.len() ==> is_ws(#[trigger] w[k]),
    ensures
        spec_header(w + s) == (match spec_header(s) {
            Ok(h) => Ok(shift_header(h, w.len() as int)),
            Err(k) => Err::<Header, InvalidElement>(k),
        }),
{
    let n = w.len() as int;
    let t = w + s;
    let f = find_first(s, 0, not_ws());
    lemma_find_first(s, 0, not_ws());
    assert forall|k: int| 0 <= k < n + f implies !not_ws()(#[trigger] t[k]) by {
        if k < n {
            assert(t[k] == w[k]);
        } else {
            assert(t[k] == s[k - n]);
        }
    }
    if f < s.len() {
        assert(t[n + f] == s[f]);
    }
    lemma_find_first_is(t, 0, not_ws(), n + f);
    if f < s.len() {
        let p = find_first(s, f + 1, type_stop());
        lemma_find_first(s, f + 1, type_stop());
        lemma_find_first_shift(w, s, f + 1, type_stop());
        if p < s.len() {
            assert(t[n + p] == s[p]);
            if p + 1 < s.len() {
                assert(t[n + p + 1] == s[p + 1]);
            }
            let q = find_first(s, p + 1, scope_stop());
            lemma_find_first(s, p + 1, scope_stop());
            lemma_find_first_shift(w, s, p + 1, scope_stop());
            if q < s.len() {
                assert(t[n + q] == s[q]);
            }
            if q + 1 < s.len() {
                assert(t[n + q + 1] == s[q + 1]);
            }
            if q + 2 < s.len() {
                assert(t[n + q + 2] == s[q + 2]);
            }
        }
    }
}

/// Whitespace put before a text moves the spans of its elements, and keeps
/// its errors.
pub proof fn lemma_spans_shift(w: Seq<char>, s: Seq<char>)
    requires
        forall|k: int| 0 <= k < w.len() ==> is_ws(#[trigger] w[k]),
    ensures
        spec_spans(w + s) == (match spec_spans(s) {
            Ok(sp) => Ok(shift_spans(sp, w.len() as int)),
            Err(k) => Err::<Spans, InvalidElement>(k),
        }),
{
    let n = w.len() as int;
    let t = w + s;
    lemma_header_shift(w, s);
    if spec_header(s) is Ok {
        let h = spec_header(s)->Ok_0;
        let c = h.colon;
        let f = find_first(s, 0, not_ws());
        lemma_find_first(s, 0, not_ws());
        let p = find_first(s, f + 1, type_stop());
        lemma_find_first(s, f + 1, type_stop());
        lemma_find_first(s, p + 1, scope_stop());
        assert(0 <= c < s.len());
        if c + 1 < s.len() {
            assert(t[n + c + 1] == s[c + 1]);
        }
        if c + 2 < s.len() {
            assert(t[n + c + 2] == s[c + 2]);
            let d = c + 2;
            let e = find_first(s, d + 1, newline());
            lemma_find_first(s, d + 1, newline());
            lemma_find_first_shift(w, s, d + 1, newline());
            if e + 1 < s.len() {
                assert(t[n + e + 1] == s[e + 1]);
                let b = find_first(s, e + 2, not_newline());
                lemma_find_first(s, e + 2, not_newline());
                lemma_find_first_shift(w, s, e + 2, not_newline());
                if b < s.len() {
                    lemma_body_and_footer_shift(w, s, b);
                }
            }
        }
    }
}

/// An index on the line that starts at `ls`, with no line feed between,
/// belongs to that line.
pub proof fn lemma_line_start_within(s: Seq<char>, b: int, ls: int, j: int)
    requires
        b <= ls <= j,
        ls == b || s[ls - 1] == '\n',
        forall|k: int| ls <= k < j ==> #[trigger] s[k] != '\n',
    ensures
        line_start(s, b, j) == ls,
    decreases j - ls,
{
    if j > ls {
        assert(s[j - 1] != '\n');
        lemma_line_start_within(s, b, ls, j - 1);
    }
}

/// Lines start in the order of the indices on them.
pub proof fn lemma_line_start_monotone(s: Seq<char>, b: int, i: int, j: int)
    requires
        b <= i <= j,
    ensures
        line_start(s, b, i) <= line_start(s, b, j),
    decreases j - i,
{
    if i < j {
        lemma_line_start_bounds(s, b, i);
        if s[j - 1] != '\n' {
            lemma_line_start_monotone(s, b, i, j - 1);
        }
    }
}

/// Where a trailer mark stands at `j`, the first one at or after `i <= j`
/// stands no later.
pub proof fn lemma_first_mark_before(s: Seq<char>, b: int, i: int, j: int)
    requires
        i <= j < s.len(),
        trailer_mark(s, b, j),
    ensures
        first_mark(s, b, i) matches Some(p) && i <= p <= j,
    decreases j - i,
{
    if i < j && !trailer_mark(s, b, i) {
        lemma_first_mark_before(s, b, i + 1, j);
    }
}

} // verus!
