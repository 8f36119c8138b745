use cade::parse::ParseError;
use cade::types::Keyword;

#[test]
fn bare_uppercase_assignment_parses() {
    match Keyword::from_str("FOO=bar").unwrap() {
        Keyword::Assign(env) => assert_eq!(env.get("FOO").unwrap(), &vec!["bar".to_string()]),
        other => panic!("expected Set, got {other:?}"),
    }
}

#[test]
fn hard_replace_assignment_is_marked() {
    match Keyword::from_str("PATH:=/x").unwrap() {
        Keyword::Assign(env) => {
            assert_eq!(env.get("PATH").unwrap(), &vec!["/x".to_string()]);
            assert!(env.is_hard("PATH"));
        }
        other => panic!("expected Set, got {other:?}"),
    }
}

#[test]
fn lowercase_key_is_not_an_assignment() {
    // not all-caps, so it falls through to keyword lookup and is rejected
    assert!(matches!(
        Keyword::from_str("foo=bar"),
        Err(ParseError::InvalidKeyword)
    ));
}

#[test]
fn keyword_with_equals_in_args_stays_a_keyword() {
    // the `=` belongs to the hook command, not a bare assignment
    assert!(matches!(
        Keyword::from_str("hook load export X=1"),
        Ok(Keyword::Hook(_))
    ));
}
