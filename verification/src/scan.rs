//! A cursor over the characters of a text, and the small readers that the
//! parser is made of.
use vstd::prelude::*;
use vstd::string::*;
use crate::grammar::{find_first, lemma_find_first, newline, not_inline_ws, not_ws, scope_stop};
use crate::whitespace::{is_newline_ch, is_whitespace, is_ws};

verus! {

/// The characters of a text with the index of the next one to read.
pub struct CharIndices {
    chars: Vec<char>,
    pos: usize,
}

impl CharIndices {
    /// The characters of the text.
    pub closed spec fn text(&self) -> Seq<char> {
        self.chars@
    }

    /// The index of the next character to read.
    pub closed spec fn pos(&self) -> int {
        self.pos as int
    }

    /// The next index does not pass the end of the text.
    pub open spec fn wf(&self) -> bool {
        0 <= self.pos() <= self.text().len() <= usize::MAX
    }

    /// A cursor at the start of `text`.
    pub fn new(text: &str) -> (it: CharIndices)
        ensures
            it.wf(),
            it.text() == text@,
            it.pos() == 0,
    {
        let mut chars: Vec<char> = Vec::new();
        for c in iter: text.chars()
            invariant
                iter.seq() == text@,
                chars@ == iter.seq().take(iter.index() as int),
        {
            chars.push(c);
        }
        assert(chars@.len() == chars.len());
        CharIndices { chars, pos: 0 }
    }

    /// The number of characters of the text.
    pub fn len(&self) -> (n: usize)
        ensures
            n == self.text().len(),
    {
        self.chars.len()
    }

    /// The character at index `i`.
    pub fn char_at(&self, i: usize) -> (c: char)
        requires
            i < self.text().len(),
        ensures
            c == self.text()[i as int],
    {
        self.chars[i]
    }

    /// Reads the next character with its index.
    pub fn next(&mut self) -> (r: Option<(usize, char)>)
        requires
            old(self).wf(),
        ensures
            final(self).wf(),
            final(self).text() == old(self).text(),
            old(self).pos() < old(self).text().len() ==> {
                &&& r == Some((old(self).pos() as usize, old(self).text()[old(self).pos()]))
                &&& final(self).pos() == old(self).pos() + 1
            },
            old(self).pos() >= old(self).text().len() ==> {
                &&& r is None
                &&& final(self).pos() == old(self).pos()
            },
    {
        if self.pos < self.chars.len() {
            let p = self.pos;
            self.pos = self.pos + 1;
            Some((p, self.chars[p]))
        } else {
            None
        }
    }

    /// The next character with its index, without reading it.
    pub fn peek(&self) -> (r: Option<(usize, char)>)
        requires
            self.wf(),
        ensures
            self.pos() < self.text().len() ==> r == Some(
                (self.pos() as usize, self.text()[self.pos()]),
            ),
            self.pos() >= self.text().len() ==> r is None,
    {
        if self.pos < self.chars.len() {
            Some((self.pos, self.chars[self.pos]))
        } else {
            None
        }
    }
}

/// Reads up to the first character that is not whitespace, and returns it.
pub fn skip_whitespace(it: &mut CharIndices) -> (r: Option<(usize, char)>)
    requires
        old(it).wf(),
    ensures
        final(it).wf(),
        final(it).text() == old(it).text(),
        ({
            let s = old(it).text();
            let f = find_first(s, old(it).pos(), not_ws());
            &&& f < s.len() ==> r == Some((f as usize, s[f])) && final(it).pos() == f + 1
            &&& f >= s.len() ==> r is None && final(it).pos() == s.len()
        }),
{
    let ghost s = it.text();
    let ghost start = it.pos();
    proof {
        lemma_find_first(s, start, not_ws());
    }
    loop
        invariant
            it.wf(),
            it.text() == s,
            s == old(it).text(),
            start == old(it).pos(),
            start <= it.pos(),
            find_first(s, start, not_ws()) == find_first(s, it.pos(), not_ws()),
        decreases s.len() - it.pos(),
    {
        let (pos, ch) = match it.next() {
            Some(x) => x,
            None => {
                return None;
            },
        };
        if !is_whitespace(ch) {
            return Some((pos, ch));
        }
    }
}

/// Reads one character, which must be a `:`.
pub fn expect_colon(it: &mut CharIndices) -> (r: Option<(usize, char)>)
    requires
        old(it).wf(),
    ensures
        final(it).wf(),
        final(it).text() == old(it).text(),
        ({
            let s = old(it).text();
            let p = old(it).pos();
            &&& p < s.len() ==> final(it).pos() == p + 1 && r == (if s[p] == ':' {
                Some((p as usize, ':'))
            } else {
                None
            })
            &&& p >= s.len() ==> r is None && final(it).pos() == p
        }),
{
    let (pos, ch) = match it.next() {
        Some(x) => x,
        None => {
            return None;
        },
    };
    if ch == ':' {
        Some((pos, ch))
    } else {
        None
    }
}

/// Reads whitespace within the line, then a `:`.
pub fn expect_colon_with_whitespace(it: &mut CharIndices) -> (r: Option<(usize, char)>)
    requires
        old(it).wf(),
    ensures
        final(it).wf(),
        final(it).text() == old(it).text(),
        ({
            let s = old(it).text();
            let f = find_first(s, old(it).pos(), not_inline_ws());
            &&& f < s.len() ==> final(it).pos() == f + 1 && r == (if s[f] == ':' {
                Some((f as usize, ':'))
            } else {
                None
            })
            &&& f >= s.len() ==> r is None && final(it).pos() == s.len()
        }),
{
    let ghost s = it.text();
    let ghost start = it.pos();
    proof {
        lemma_find_first(s, start, not_inline_ws());
    }
    loop
        invariant
            it.wf(),
            it.text() == s,
            s == old(it).text(),
            start == old(it).pos(),
            start <= it.pos(),
            find_first(s, start, not_inline_ws()) == find_first(s, it.pos(), not_inline_ws()),
        decreases s.len() - it.pos(),
    {
        let (pos, ch) = match it.next() {
            Some(x) => x,
            None => {
                return None;
            },
        };
        match ch {
            ':' => {
                return Some((pos, ch));
            },
            _ => {
                if is_whitespace(ch) {
                    if is_newline_ch(ch) {
                        return None;
                    }
                } else {
                    return None;
                }
            },
        }
    }
}

/// Reads one character, which must be a space.
pub fn expect_space(it: &mut CharIndices) -> (r: Option<(usize, char)>)
    requires
        old(it).wf(),
    ensures
        final(it).wf(),
        final(it).text() == old(it).text(),
        ({
            let s = old(it).text();
            let p = old(it).pos();
            &&& p < s.len() ==> final(it).pos() == p + 1 && r == (if s[p] == ' ' {
                Some((p as usize, ' '))
            } else {
                None
            })
            &&& p >= s.len() ==> r is None && final(it).pos() == p
        }),
{
    let (pos, ch) = match it.next() {
        Some(x) => x,
        None => {
            return None;
        },
    };
    if ch == ' ' {
        Some((pos, ch))
    } else {
        None
    }
}

/// Reads one character, which must not be whitespace.
pub fn expect_non_whitespace(it: &mut CharIndices) -> (r: Option<(usize, char)>)
    requires
        old(it).wf(),
    ensures
        final(it).wf(),
        final(it).text() == old(it).text(),
        ({
            let s = old(it).text();
            let p = old(it).pos();
            &&& p < s.len() ==> final(it).pos() == p + 1 && r == (if !is_ws(s[p]) {
                Some((p as usize, s[p]))
            } else {
                None
            })
            &&& p >= s.len() ==> r is None && final(it).pos() == p
        }),
{
    let (pos, ch) = match it.next() {
        Some(x) => x,
        None => {
            return None;
        },
    };
    if is_whitespace(ch) {
        return None;
    }
    Some((pos, ch))
}

/// Reads the scope after the `(` up to and with the `)`, and returns where
/// the scope starts and ends.
pub fn parse_scope(it: &mut CharIndices) -> (r: Option<(usize, usize)>)
    requires
        old(it).wf(),
    ensures
        final(it).wf(),
        final(it).text() == old(it).text(),
        ({
            let s = old(it).text();
            let p = old(it).pos();
            let q = find_first(s, p, scope_stop());
            &&& q < s.len() && s[q] == ')' ==> r == Some((p as usize, q as usize))
                && final(it).pos() == q + 1
            &&& !(q < s.len() && s[q] == ')') ==> r is None
            &&& final(it).pos() == if q < s.len() {
                q + 1
            } else {
                s.len() as int
            }
        }),
{
    let ghost s = it.text();
    let ghost start = it.pos();
    proof {
        lemma_find_first(s, start, scope_stop());
    }
    let end_scope_idx;
    let (pos, ch) = match it.next() {
        Some(x) => x,
        None => {
            return None;
        },
    };
    let start_scope_idx = pos;
    if ch == ')' {
        end_scope_idx = pos;
    } else if is_whitespace(ch) {
        return None;
    } else {
        loop
            invariant_except_break
                start < it.pos(),
                find_first(s, start, scope_stop()) == find_first(s, it.pos(), scope_stop()),
            invariant
                it.wf(),
                it.text() == s,
                s == old(it).text(),
                start == old(it).pos(),
                start_scope_idx == start,
            ensures
                find_first(s, start, scope_stop()) == end_scope_idx,
                s[end_scope_idx as int] == ')',
                it.pos() == end_scope_idx + 1,
            decreases s.len() - it.pos(),
        {
            let (pos, ch) = match it.next() {
                Some(x) => x,
                None => {
                    return None;
                },
            };
            if ch == ')' {
                end_scope_idx = pos;
                break ;
            } else if is_whitespace(ch) {
                return None;
            }
        }
    }
    Some((start_scope_idx, end_scope_idx))
}

/// Reads the description: a first character that is not whitespace, then
/// everything up to and with the end of the line. Returns where the
/// description starts, and where the line feed after it stands, if there is one.
pub fn parse_desc(it: &mut CharIndices) -> (r: Option<(usize, Option<usize>)>)
    requires
        old(it).wf(),
    ensures
        final(it).wf(),
        final(it).text() == old(it).text(),
        ({
            let s = old(it).text();
            let p = old(it).pos();
            let e = find_first(s, p + 1, newline());
            &&& p < s.len() && !is_ws(s[p]) ==> {
                &&& e < s.len() ==> r == Some((p as usize, Some(e as usize))) && final(it).pos()
                    == e + 1
                &&& e >= s.len() ==> r == Some((p as usize, None::<usize>)) && final(it).pos()
                    == s.len()
            }
            &&& !(p < s.len() && !is_ws(s[p])) ==> r is None && final(it).pos() == if p
                < s.len() {
                p + 1
            } else {
                p
            }
        }),
{
    let ghost s = it.text();
    let ghost start = it.pos();
    let (start_desc_idx, _) = match expect_non_whitespace(it) {
        Some(x) => x,
        None => {
            return None;
        },
    };
    proof {
        lemma_find_first(s, start + 1, newline());
    }
    loop
        invariant
            it.wf(),
            it.text() == s,
            s == old(it).text(),
            start == old(it).pos(),
            start < s.len(),
            !is_ws(s[start]),
            start_desc_idx == start,
            start + 1 <= it.pos(),
            find_first(s, start + 1, newline()) == find_first(s, it.pos(), newline()),
        decreases s.len() - it.pos(),
    {
        if let Some((pos, ch)) = it.next() {
            if is_newline_ch(ch) {
                return Some((start_desc_idx, Some(pos)));
            }
        } else {
            return Some((start_desc_idx, None));
        }
    }
}

} // verus!
