use convcommits::whitespace::is_whitespace;
use convcommits::{parse, Error, InvalidElement};

fn kind(msg: &str) -> InvalidElement {
    parse(msg).unwrap_err().code()
}

#[test]
fn doc_example_ty() {
    let c = parse("feat: add parse() function").unwrap();
    assert_eq!(c.ty(), "feat");
}

#[test]
fn doc_example_scope() {
    let c = parse("feat: add no scope parsing").unwrap();
    assert_eq!(c.scope(), None);
    let c = parse("feat(parser): add scope parsing").unwrap();
    assert_eq!(c.scope(), Some("parser"));
}

#[test]
fn doc_example_desc() {
    let c = parse("feat: add desc parsing").unwrap();
    assert_eq!(c.desc(), "add desc parsing");
}

#[test]
fn doc_example_breaking_change() {
    let c = parse("feat!: add breaking change parsing").unwrap();
    assert!(c.is_breaking_change());
    let c = parse("feat(parser)!: add breaking change parsing").unwrap();
    assert!(c.is_breaking_change());
}

#[test]
fn breaking_change_two_word_token() {
    let c = parse("feat: x\n\nBREAKING CHANGE: y").unwrap();
    assert_eq!(c.body(), "");
    assert_eq!(c.footer(), "BREAKING CHANGE: y");
    assert!(c.is_breaking_change());
    let c = parse("feat: x\n\nBREAKING-CHANGE: y").unwrap();
    assert_eq!(c.footer(), "BREAKING-CHANGE: y");
    assert!(c.is_breaking_change());
    let c = parse("feat: x\n\nThe api changed.\n\nBREAKING CHANGE: use the new call\n").unwrap();
    assert_eq!(c.body(), "The api changed.");
    assert_eq!(c.footer(), "BREAKING CHANGE: use the new call");
    assert!(c.is_breaking_change());
    let c = parse("feat: x\n\nBREAKING CHANGE #12").unwrap();
    assert_eq!(c.footer(), "BREAKING CHANGE #12");
    assert!(!c.is_breaking_change());
    let c = parse("feat: x\n\nNOT BREAKING CHANGE: y").unwrap();
    assert_eq!(c.footer(), "");
    assert!(!c.is_breaking_change());
}

#[test]
fn breaking_change_footer_tokens() {
    let c = parse("feat: drop api\n\nThe old call is gone.\n\nBREAKING-CHANGE: use new api\n").unwrap();
    assert_eq!(c.footer(), "BREAKING-CHANGE: use new api");
    assert!(c.is_breaking_change());
    let c = parse("feat: drop api\n\nReviewed-By: a\nBREAKING CHANGE: use new api").unwrap();
    assert_eq!(c.footer(), "Reviewed-By: a\nBREAKING CHANGE: use new api");
    assert!(c.is_breaking_change());
    let c = parse("feat: drop api\n\nReviewed-By: a BREAKING CHANGE: no").unwrap();
    assert!(!c.is_breaking_change());
    let c = parse("feat: drop api\n\nReviewed-By: BREAKING-CHANGE:x").unwrap();
    assert!(!c.is_breaking_change());
}

#[test]
fn leading_whitespace_is_ignored() {
    let a = parse("feat(x)!: add y\n\nSome body text.\n\nRefs: 1").unwrap();
    let b = parse(" \t\n\u{a0}feat(x)!: add y\n\nSome body text.\n\nRefs: 1").unwrap();
    assert_eq!(a, b);
    assert_eq!(kind("  feat x"), kind("feat x"));
}

#[test]
fn header_round_trip() {
    let c = parse("fix(core)!: do the thing").unwrap();
    assert_eq!(c.ty(), "fix");
    assert_eq!(c.scope(), Some("core"));
    assert!(c.is_breaking_change());
    assert_eq!(c.desc(), "do the thing");
    let rendered = format!("{}({})!: {}", c.ty(), c.scope().unwrap(), c.desc());
    assert_eq!(rendered, "fix(core)!: do the thing");
    let empty_scope = parse("feat(): x").unwrap();
    assert_eq!(empty_scope.scope(), Some(""));
}

#[test]
fn body_keeps_header() {
    let alone = parse("docs(readme): fix typo").unwrap();
    let with_body = parse("docs(readme): fix typo\n\nnot: a header\n(any text at all)").unwrap();
    assert_eq!(alone.ty(), with_body.ty());
    assert_eq!(alone.scope(), with_body.scope());
    assert_eq!(alone.desc(), with_body.desc());
    assert_eq!(alone.is_breaking_change(), with_body.is_breaking_change());
}

#[test]
fn body_and_footer_are_trimmed() {
    let c = parse("feat: x\n\n\n\nHello big world  \t\n\n").unwrap();
    assert_eq!(c.body(), "Hello big world");
    assert_eq!(c.footer(), "");
    let c = parse("feat: x\n\nSome text here\n\nFixes #12   \n\n").unwrap();
    assert_eq!(c.body(), "Some text here");
    assert_eq!(c.footer(), "Fixes #12");
}

#[test]
fn body_of_one_word_lines() {
    let c = parse("feat: x\n\nHello\n").unwrap();
    assert_eq!(c.body(), "Hello");
    let c = parse("feat: x\n\nHello").unwrap();
    assert_eq!(c.body(), "Hello");
    let c = parse("feat: x\n\nHello\nWorld\n\n").unwrap();
    assert_eq!(c.body(), "Hello\nWorld");
}

#[test]
fn trailers_open_a_block() {
    let c = parse("feat: x\n\nIntro\nNote: more").unwrap();
    assert_eq!(c.body(), "Intro\nNote: more");
    assert_eq!(c.footer(), "");
    let c = parse("feat: x\n\nIntro\n  \nNote: more\nRefs #4").unwrap();
    assert_eq!(c.body(), "Intro");
    assert_eq!(c.footer(), "Note: more\nRefs #4");
    let c = parse("feat: x\n\n   \nKey: v").unwrap();
    assert_eq!(c.body(), "");
    assert_eq!(c.footer(), "Key: v");
    let c = parse("feat: x\n\n: y").unwrap();
    assert_eq!(c.body(), ": y");
    assert_eq!(c.footer(), "");
}

#[test]
fn blank_lines_only_after_description() {
    let c = parse("feat: x\n").unwrap();
    assert_eq!(c.desc(), "x");
    assert_eq!(c.body(), "");
    let c = parse("feat: x\n\n\n\n").unwrap();
    assert_eq!(c.body(), "");
    assert_eq!(c.footer(), "");
}

#[test]
fn trailer_on_first_body_line() {
    let c = parse("feat: x\n\nbody: text\nmore").unwrap();
    assert_eq!(c.body(), "");
    assert_eq!(c.footer(), "body: text\nmore");
}

#[test]
fn multibyte_characters() {
    let c = parse("féat(ßcope)!: ünïcode désc\n\nbödy wörds\n\nSïgned: ö").unwrap();
    assert_eq!(c.ty(), "féat");
    assert_eq!(c.scope(), Some("ßcope"));
    assert_eq!(c.desc(), "ünïcode désc");
    assert_eq!(c.body(), "bödy wörds");
    assert_eq!(c.footer(), "Sïgned: ö");
}

#[test]
fn type_errors() {
    assert_eq!(kind(""), InvalidElement::Type);
    assert_eq!(kind(" \n\t "), InvalidElement::Type);
    assert_eq!(kind("feat"), InvalidElement::Type);
    assert_eq!(kind("feat x: y"), InvalidElement::Type);
    assert!(parse("feat x").unwrap_err().is_invalid_type());
    assert_eq!(kind(":: x"), InvalidElement::Type);
    assert_eq!(kind("(x): y"), InvalidElement::Type);
    assert_eq!(kind("  !: y"), InvalidElement::Type);
    assert_eq!(kind(": y"), InvalidElement::Type);
}

#[test]
fn scope_errors() {
    assert_eq!(kind("feat(a b): x"), InvalidElement::Scope);
    assert_eq!(kind("feat(abc"), InvalidElement::Scope);
    assert_eq!(kind("feat( a): x"), InvalidElement::Scope);
    assert!(parse("feat(").unwrap_err().is_invalid_scope());
}

#[test]
fn prefix_errors() {
    assert_eq!(kind("feat(a)"), InvalidElement::Prefix);
    assert_eq!(kind("feat(a)x: y"), InvalidElement::Prefix);
    assert_eq!(kind("feat(a)!x"), InvalidElement::Prefix);
    assert_eq!(kind("feat!x"), InvalidElement::Prefix);
    assert_eq!(kind("feat!"), InvalidElement::Prefix);
    assert_eq!(kind("feat:x"), InvalidElement::Prefix);
    assert_eq!(kind("feat:"), InvalidElement::Prefix);
    assert!(parse("feat:\tx").unwrap_err().is_invalid_prefix());
}

#[test]
fn desc_errors() {
    assert_eq!(kind("feat: "), InvalidElement::Desc);
    assert_eq!(kind("feat:  x"), InvalidElement::Desc);
    assert!(parse("feat: \nx").unwrap_err().is_invalid_desc());
}

#[test]
fn body_errors() {
    assert_eq!(kind("feat: x\ny"), InvalidElement::Body);
    assert!(parse("feat: x\n y").unwrap_err().is_invalid_body());
}

#[test]
fn error_predicates_and_messages() {
    let all = [
        (InvalidElement::Type, "invalid element"),
        (InvalidElement::Scope, "invalid scope"),
        (InvalidElement::Prefix, "invalid prefix"),
        (InvalidElement::Desc, "invalid description"),
        (InvalidElement::Body, "invalid body"),
    ];
    for (code, text) in all {
        let e = Error::new(code);
        assert_eq!(e.code(), code);
        assert_eq!(e.message(), text);
        let flags = [
            e.is_invalid_type(),
            e.is_invalid_scope(),
            e.is_invalid_prefix(),
            e.is_invalid_desc(),
            e.is_invalid_body(),
        ];
        assert_eq!(flags.iter().filter(|b| **b).count(), 1);
    }
    assert!(Error::new(InvalidElement::Desc).is_invalid_desc());
}

#[test]
fn whitespace_matches_unicode() {
    for c in 0u32..0x11_0000 {
        if let Some(ch) = char::from_u32(c) {
            assert_eq!(is_whitespace(ch), ch.is_whitespace(), "{:x}", c);
        }
    }
}

#[test]
fn commit_clone_and_eq() {
    let c = parse("chore: tidy").unwrap();
    let d = c.clone();
    assert_eq!(c, d);
    assert_ne!(c, parse("chore: tidy up").unwrap());
}
