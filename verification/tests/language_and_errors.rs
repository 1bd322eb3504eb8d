use topiary::language::Language;
use topiary::error::{FormatterError, ReadingError, WritingError};

#[test]
fn new_accepts_magic_strings_case_insensitively() {
    assert_eq!(Language::new("bash").unwrap(), Language::Bash);
    assert_eq!(Language::new("BASH").unwrap(), Language::Bash);
    assert_eq!(Language::new("Json").unwrap(), Language::Json);
    assert_eq!(Language::new("nickel").unwrap(), Language::Nickel);
    assert_eq!(Language::new("ocaml").unwrap(), Language::Ocaml);
    assert_eq!(
        Language::new("ocaml-implementation").unwrap(),
        Language::OcamlImplementation
    );
    assert_eq!(Language::new("OCaml-Interface").unwrap(), Language::OcamlInterface);
    assert_eq!(Language::new("rust").unwrap(), Language::Rust);
    assert_eq!(Language::new("toml").unwrap(), Language::Toml);
    assert_eq!(
        Language::new("tree-sitter-query").unwrap(),
        Language::TreeSitterQuery
    );
}

#[test]
fn new_rejects_unknown_names() {
    match Language::new("cobol") {
        Err(e) => {
            assert!(matches!(e, FormatterError::LanguageDetection(_, None)));
            assert_eq!(e.message(), "Could not detect a supported language for: cobol");
        },
        Ok(_) => panic!("expected a language-detection error"),
    }
}

#[test]
fn detect_maps_extensions() {
    assert_eq!(Language::detect("foo/bar.rs").unwrap(), Language::Rust);
    assert_eq!(Language::detect("a.sh").unwrap(), Language::Bash);
    assert_eq!(Language::detect("a.bash").unwrap(), Language::Bash);
    assert_eq!(Language::detect("x/y/z.json").unwrap(), Language::Json);
    assert_eq!(Language::detect("m.geojson").unwrap(), Language::Json);
    assert_eq!(Language::detect("w.JSON-tmLanguage").unwrap(), Language::Json);
    assert_eq!(Language::detect("n.ncl").unwrap(), Language::Nickel);
    assert_eq!(Language::detect("m.ml").unwrap(), Language::OcamlImplementation);
    assert_eq!(Language::detect("m.mli").unwrap(), Language::OcamlInterface);
    assert_eq!(Language::detect("c.toml").unwrap(), Language::Toml);
    assert_eq!(Language::detect("q.scm").unwrap(), Language::TreeSitterQuery);
}

#[test]
fn detect_rejects_unknown_or_missing_extensions() {
    assert!(matches!(
        Language::detect("noextension"),
        Err(FormatterError::LanguageDetection(_, None))
    ));
    assert!(matches!(
        Language::detect(".bashrc"),
        Err(FormatterError::LanguageDetection(_, None))
    ));
    match Language::detect("dir/file.xyz") {
        Err(FormatterError::LanguageDetection(p, Some(x))) => {
            assert_eq!(p, "dir/file.xyz");
            assert_eq!(x, "xyz");
        },
        _ => panic!("expected a language-detection error"),
    }
}

#[test]
fn query_file_basenames() {
    assert_eq!(Language::Bash.query_file(), "bash.scm");
    assert_eq!(Language::Json.query_file(), "json.scm");
    assert_eq!(Language::Nickel.query_file(), "nickel.scm");
    assert_eq!(Language::Ocaml.query_file(), "ocaml.scm");
    assert_eq!(Language::OcamlImplementation.query_file(), "ocaml.scm");
    assert_eq!(Language::OcamlInterface.query_file(), "ocaml.scm");
    assert_eq!(Language::Rust.query_file(), "rust.scm");
    assert_eq!(Language::Toml.query_file(), "toml.scm");
    assert_eq!(Language::TreeSitterQuery.query_file(), "tree-sitter-query.scm");
}

#[test]
fn grammar_names_by_priority() {
    assert_eq!(Language::Bash.grammar_names(), vec!["bash".to_string()]);
    assert_eq!(
        Language::Ocaml.grammar_names(),
        vec!["ocaml".to_string(), "ocaml_interface".to_string()]
    );
    assert_eq!(Language::OcamlInterface.grammar_names(), vec!["ocaml_interface".to_string()]);
    assert_eq!(Language::TreeSitterQuery.grammar_names(), vec!["query".to_string()]);
}

#[test]
fn error_messages() {
    let e = FormatterError::Idempotence("a".to_string(), "b".to_string());
    assert_eq!(
        e.message(),
        "The formatter is not idempotent on this input. Please log an error."
    );
    let e = FormatterError::Internal("boom".to_string());
    assert_eq!(e.message(), "boom");
    let e = FormatterError::Query("bad".to_string());
    assert_eq!(e.message(), "bad");
    let e = FormatterError::Reading(ReadingError::Io("cannot read".to_string()));
    assert_eq!(e.message(), "cannot read");
    let e = FormatterError::Reading(ReadingError::Utf8("byte 3".to_string()));
    assert_eq!(e.message(), "Input is not UTF8");
    let e = FormatterError::Writing(WritingError::Io("disk full".to_string()));
    assert_eq!(e.message(), "Writing error");
    let e = FormatterError::Writing(WritingError::Fmt("fmt".to_string()));
    assert_eq!(e.message(), "Writing error");
    let e = FormatterError::Writing(WritingError::IntoInner("inner".to_string()));
    assert_eq!(e.message(), "Writing error");
    let e = FormatterError::Writing(WritingError::FromUtf8("utf8".to_string()));
    assert_eq!(e.message(), "Writing error");
    let e = FormatterError::LanguageDetection("a.xyz".to_string(), Some("xyz".to_string()));
    assert_eq!(e.message(), "Could not detect a supported language for: a.xyz");
}
