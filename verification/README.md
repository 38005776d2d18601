# convcommits

A verified parser for commit messages written in the
[Conventional Commits](https://www.conventionalcommits.org/) format.

`parse` splits a message into its type, optional scope, breaking-change
marker, description, body and footer. Its contract says, for every input,
what it returns: the elements of `grammar::spec_parse` on the message's
characters, or the element that could not be read.

A type is at least one character with no whitespace, `:`, `(` or `!` in
it; a message that starts (after whitespace) with one of those is refused.
The body starts after the blank line that follows the description. The
footer starts at the first line that opens a block (the first line of the
body, or a line after a blank line) and starts with a trailer token: a word
followed by `: ` or ` #`, or `BREAKING CHANGE` followed by them. Body and
footer leave out the whitespace at their ends. `is_breaking_change` holds for
a `!` before the `:` of the first line, or for a footer line that starts with
`BREAKING CHANGE: ` or `BREAKING-CHANGE: `.

Layout:

- `src/whitespace.rs`: the Unicode `White_Space` characters.
- `src/grammar.rs`: the meaning of a message as spec functions, with the
  lemmas about them.
- `src/scan.rs`: a cursor over the characters and the small readers.
- `src/commit.rs`: `Commit`, its getters and `parse`.
- `src/error.rs`: `Error` and `InvalidElement`.
- `src/laws.rs`: properties of parsing over all messages (round trip of the
  first line, order of the elements, leading whitespace, bodies, footers).
- `app/lib.rs`: `Display` and `std::error::Error` for the error.
