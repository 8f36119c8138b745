use cade::cadefile::{
    config_keywords, envrc_reads, plan_keyword, try_parse_cade_file, watched_files, CadeLineError,
    LayerStep, LoadRequest,
};
use cade::parse::ParseError;
use cade::types::{Keyword, Loadable};

#[test]
fn read_cade_errors_on_invalid_utf8_instead_of_truncating() {
    let mut body = b"FOO=bar\n".to_vec();
    body.extend_from_slice(&[0xff, b'\n']);
    body.extend_from_slice(b"pure\n");
    let err = try_parse_cade_file(&body).unwrap().expect_err("invalid UTF-8 must be an error");
    assert_eq!(err.line, 2);
    assert!(matches!(err.kind, CadeLineError::NotUtf8(_)));
    let msg = err.message("/p/.cade");
    assert!(msg.starts_with("parse cade file at /p/.cade: line 2 is not valid UTF-8"), "{msg}");
}

#[test]
fn cade_file_reads_directives_and_skips_blanks() {
    let ks = try_parse_cade_file(b"# note\r\n\npure\r\nload env .env.local\nwatch a b\n").unwrap().unwrap();
    assert_eq!(ks.len(), 3);
    assert!(matches!(ks[0], Keyword::Pure));
    assert!(matches!(&ks[1], Keyword::Load(Loadable::Env(f)) if f == ".env.local"));
    assert!(matches!(&ks[2], Keyword::Watch(w) if w.len() == 2));
}

#[test]
fn cade_file_refuses_unknown_directive() {
    let err = try_parse_cade_file(b"pure\nfrobnicate\n").unwrap().unwrap_err();
    assert_eq!(err.line, 2);
    assert!(matches!(err.kind, CadeLineError::Parse(ParseError::InvalidKeyword)));
    assert_eq!(err.message("f"), "parse cade file at f: line 2: invalid keyword");
}

#[test]
fn envrc_is_autodetected_when_no_cade() {
    let ks = config_keywords(None).unwrap().unwrap();
    assert_eq!(ks.len(), 1);
    assert!(matches!(&ks[0], Keyword::Load(Loadable::Envrc(f)) if f.is_empty()));
}

#[test]
fn directives_plan_their_layer() {
    assert!(matches!(plan_keyword(Keyword::Pure), LayerStep::Act(_)));
    assert!(matches!(
        plan_keyword(Keyword::Load(Loadable::Default)),
        LayerStep::Load(LoadRequest::Flake(None))
    ));
    assert!(matches!(
        plan_keyword(Keyword::Load(Loadable::Flake("dev".into()))),
        LayerStep::Load(LoadRequest::Flake(Some(o))) if o == "dev"
    ));
    assert!(matches!(plan_keyword(Keyword::Watch(vec!["x".into()])), LayerStep::Skip));
}

#[test]
fn layer_watches_its_files() {
    let ks = vec![
        Keyword::Load(Loadable::Default),
        Keyword::Load(Loadable::Shell(String::new())),
        Keyword::Load(Loadable::Env("my.env".into())),
        Keyword::Watch(vec!["token.txt".into(), "/abs".into()]),
        Keyword::Load(Loadable::Envrc(String::new())),
    ];
    let reads = envrc_reads("/p", &ks);
    assert_eq!(reads[4], Some("/p/.envrc".to_string()));
    assert!(reads[0].is_none());
    let texts = vec![None, None, None, None, Some("dotenv\nuse nix\n".to_string())];
    let files = watched_files("/p", &ks, &texts);
    assert_eq!(
        files,
        vec![
            "/p/.cade", "/p/flake.nix", "/p/flake.lock", "/p/shell.nix", "/p/my.env",
            "/p/token.txt", "/abs", "/p/.envrc", "/p/.env", "/p/shell.nix",
        ]
    );
}
