use cade::envrc::{parse_line, Directive};

#[test]
fn recognizes_declarative_directives() {
    assert_eq!(parse_line("use flake"), Some(Directive::UseFlake(None)));
    assert_eq!(parse_line("use flake ."), Some(Directive::UseFlake(None)));
    assert_eq!(
        parse_line("use flake .#dev"),
        Some(Directive::UseFlake(Some("dev".to_string())))
    );
    assert_eq!(
        parse_line("use nix shell.nix"),
        Some(Directive::UseNix("shell.nix".to_string()))
    );
    assert_eq!(
        parse_line("dotenv_if_exists .env.local"),
        Some(Directive::Dotenv {
            file: ".env.local".to_string(),
            if_exists: true
        })
    );
    assert_eq!(
        parse_line("export FOO=bar"),
        Some(Directive::Export("FOO".to_string(), "bar".to_string()))
    );
    assert_eq!(
        parse_line("PATH_add ./bin"),
        Some(Directive::PathAdd(vec!["./bin".to_string()]))
    );
}

#[test]
fn comments_and_blanks_are_ignored() {
    assert_eq!(parse_line(""), None);
    assert_eq!(parse_line("   # a comment"), None);
    assert_eq!(parse_line("#!/usr/bin/env bash"), None);
}

#[test]
fn unmappable_lines_are_flagged_not_dropped() {
    // expansion in a value can't be reproduced literally
    assert!(matches!(
        parse_line("export PATH=$PATH:./bin"),
        Some(Directive::Unhandled(_))
    ));
    assert!(matches!(
        parse_line("export X=$(date)"),
        Some(Directive::Unhandled(_))
    ));
    // flags we can't honor
    assert!(matches!(
        parse_line("use flake . --impure"),
        Some(Directive::Unhandled(_))
    ));
    // remote flake refs aren't supported by the loader
    assert!(matches!(
        parse_line("use flake github:foo/bar"),
        Some(Directive::Unhandled(_))
    ));
    // unknown stdlib functions
    assert!(matches!(
        parse_line("layout python"),
        Some(Directive::Unhandled(_))
    ));
    assert!(matches!(
        parse_line("source_up"),
        Some(Directive::Unhandled(_))
    ));
}
