use convcommits::{parse, Result};

#[test]
fn parse_basic_msg() -> Result<()> {
    let msg = r#"feat: add parser to implementation"#;
    let c = parse(msg)?;
    assert_eq!(c.ty(), "feat");
    assert_eq!(c.scope(), None);
    assert!(!c.is_breaking_change());
    assert_eq!(c.desc(), "add parser to implementation");
    assert_eq!(c.body(), "");
    assert_eq!(c.footer(), "");
    Ok(())
}

#[test]
fn parse_breaking_change() -> Result<()> {
    let msg = r#"fix!: remove whitespace in scope"#;
    let c = parse(msg)?;
    assert_eq!(c.ty(), "fix");
    assert_eq!(c.scope(), None);
    assert!(c.is_breaking_change());
    assert_eq!(c.desc(), "remove whitespace in scope");
    assert_eq!(c.body(), "");
    assert_eq!(c.footer(), "");
    Ok(())
}

#[test]
fn parse_scope_and_breaking_change() -> Result<()> {
    let msg = r#"fix(api)!: remove whitespace in scope"#;
    let c = parse(msg)?;
    assert_eq!(c.ty(), "fix");
    assert_eq!(c.scope(), Some("api"));
    assert!(c.is_breaking_change());
    assert_eq!(c.desc(), "remove whitespace in scope");
    assert_eq!(c.body(), "");
    assert_eq!(c.footer(), "");
    Ok(())
}

#[test]
fn parse_no_body() -> Result<()> {
    let msg = r#"docs: fix spelling in README"#;
    let c = parse(msg)?;
    assert_eq!(c.ty(), "docs");
    assert_eq!(c.scope(), None);
    assert!(!c.is_breaking_change());
    assert_eq!(c.desc(), "fix spelling in README");
    assert_eq!(c.body(), "");
    assert_eq!(c.footer(), "");
    Ok(())
}

#[test]
fn parse_scope() -> Result<()> {
    let msg = r#"feat(api): add scope parsing"#;
    let c = parse(msg)?;
    assert_eq!(c.ty(), "feat");
    assert_eq!(c.scope(), Some("api"));
    assert!(!c.is_breaking_change());
    assert_eq!(c.desc(), "add scope parsing");
    assert_eq!(c.body(), "");
    assert_eq!(c.footer(), "");
    Ok(())
}

#[test]
fn parse_single_paragraph_body() -> Result<()> {
    let msg = r#"feat: add scope parsing

Parse the scope in parentheses.
"#;
    let c = parse(msg)?;
    assert_eq!(c.ty(), "feat");
    assert_eq!(c.scope(), None);
    assert!(!c.is_breaking_change());
    assert_eq!(c.desc(), "add scope parsing");
    assert_eq!(c.body(), "Parse the scope in parentheses.");
    assert_eq!(c.footer(), "");
    Ok(())
}

#[test]
fn parse_multi_paragraph_body() -> Result<()> {
    let msg = r#"feat: add scope parsing

Parse the scope in parentheses.

More description.
"#;
    let c = parse(msg)?;
    assert_eq!(c.ty(), "feat");
    assert_eq!(c.scope(), None);
    assert!(!c.is_breaking_change());
    assert_eq!(c.desc(), "add scope parsing");
    assert_eq!(
        c.body(),
        "Parse the scope in parentheses.\n\nMore description."
    );
    assert_eq!(c.footer(), "");
    Ok(())
}

#[test]
fn parse_single_footer() -> Result<()> {
    let msg = r#"feat: add scope parsing

Parse the scope in parentheses.

Reviewed-By: example
"#;
    let c = parse(msg)?;
    assert_eq!(c.ty(), "feat");
    assert_eq!(c.scope(), None);
    assert!(!c.is_breaking_change());
    assert_eq!(c.desc(), "add scope parsing");
    assert_eq!(c.body(), "Parse the scope in parentheses.");
    assert_eq!(c.footer(), "Reviewed-By: example");
    Ok(())
}
