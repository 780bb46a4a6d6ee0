use term_freqs::parser::{parse, Term};

#[test]
fn parse_not() {
    assert_eq!(
        parse("this -that"),
        vec![
            Box::new(Term::Simple("this".to_string().into())),
            Box::new(Term::Not(Box::new(Term::Simple("that".to_string().into()))))
        ]
    );

    assert_eq!(
        parse("this -"),
        vec![
            Box::new(Term::Simple("this".to_string().into())),
            Box::new(Term::Simple("-".to_string().into()))
        ]
    );
}

#[test]
fn double_not() {
    assert_eq!(
        parse("this --that"),
        vec![
            Box::new(Term::Simple("this".to_string().into())),
            Box::new(Term::Simple("--that".to_string().into()))
        ]
    );
}

#[test]
fn site() {
    assert_eq!(
        parse("this site:test.com"),
        vec![
            Box::new(Term::Simple("this".to_string().into())),
            Box::new(Term::Site("test.com".to_string()))
        ]
    );
}

#[test]
fn title() {
    assert_eq!(
        parse("this intitle:test"),
        vec![
            Box::new(Term::Simple("this".to_string().into())),
            Box::new(Term::Title("test".to_string()))
        ]
    );
}

#[test]
fn body() {
    assert_eq!(
        parse("this inbody:test"),
        vec![
            Box::new(Term::Simple("this".to_string().into())),
            Box::new(Term::Body("test".to_string()))
        ]
    );
}

#[test]
fn url() {
    assert_eq!(
        parse("this inurl:test"),
        vec![
            Box::new(Term::Simple("this".to_string().into())),
            Box::new(Term::Url("test".to_string()))
        ]
    );
}

#[test]
fn empty() {
    assert_eq!(parse(""), vec![]);
}

#[test]
fn phrase() {
    assert_eq!(
        parse("\"this is a\" inurl:test"),
        vec![
            Box::new(Term::Phrase("this is a".to_string(),)),
            Box::new(Term::Url("test".to_string()))
        ]
    );
    assert_eq!(
        parse("\"this is a inurl:test"),
        vec![
            Box::new(Term::Simple("\"this".to_string().into())),
            Box::new(Term::Simple("is".to_string().into())),
            Box::new(Term::Simple("a".to_string().into())),
            Box::new(Term::Url("test".to_string()))
        ]
    );
    assert_eq!(
        parse("this is a\" inurl:test"),
        vec![
            Box::new(Term::Simple("this".to_string().into())),
            Box::new(Term::Simple("is".to_string().into())),
            Box::new(Term::Simple("a\"".to_string().into())),
            Box::new(Term::Url("test".to_string()))
        ]
    );

    assert_eq!(
        parse("\"this is a inurl:test\""),
        vec![Box::new(Term::Phrase("this is a inurl:test".to_string(),)),]
    );

    assert_eq!(
        parse("\"\""),
        vec![Box::new(Term::Phrase("".to_string(),)),]
    );
    assert_eq!(
        parse("\u{201c}this is a\u{201c} inurl:test"),
        vec![
            Box::new(Term::Phrase("this is a".to_string(),)),
            Box::new(Term::Url("test".to_string()))
        ]
    );
}

#[test]
fn unicode() {
    let query = "\u{a0}";
    assert_eq!(parse(query).len(), 1);
}

#[test]
fn lowercasing_applies_before_tokenizing() {
    assert_eq!(
        parse("THIS Site:Test.COM"),
        vec![
            Box::new(Term::Simple("this".to_string().into())),
            Box::new(Term::Site("test.com".to_string()))
        ]
    );
}

#[test]
fn bang_prefix_is_kept() {
    assert_eq!(
        parse("!w rust"),
        vec![
            Box::new(Term::PossibleBang("w".to_string())),
            Box::new(Term::Simple("rust".to_string().into()))
        ]
    );
}

#[test]
fn simple_term_accessors() {
    let t: term_freqs::parser::SimpleTerm = "word".to_string().into();
    assert_eq!(t.as_str(), "word");
    let back: String = t.into();
    assert_eq!(back, "word");
    let term = Term::Phrase("a b".to_string());
    assert_eq!(term.as_simple_text(), Some("a b"));
    let site = Term::Site("x.com".to_string());
    assert_eq!(site.as_simple_text(), None);
}
