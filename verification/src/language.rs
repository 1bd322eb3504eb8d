//! The languages that the formatter supports with query files, and how a
//! language is chosen from a name token or a file extension.
//!
//! Reading a path from disk and searching the query-file directories are a
//! caller's concern; this module only performs the pure mapping from names
//! and extensions to languages, and from languages to query-file basenames
//! and grammar names.

use vstd::prelude::*;
use vstd::string::*;
use crate::error::{FormatterError, FormatterErrorV};
use crate::strutil::{lower_seq, str_eq, str_eq_fold};

verus! {

/// The languages that we support with query files.
#[derive(Clone, Copy, Debug, Eq, PartialEq, Structural)]
pub enum Language {
    Bash,
    Json,
    Nickel,
    Ocaml,
    OcamlImplementation,
    OcamlInterface,
    Rust,
    Toml,
    TreeSitterQuery,
}

/// The language a "magic string" names, compared case-insensitively.
pub open spec fn lang_of_name(s: Seq<char>) -> Option<Language> {
    if lower_seq(s) == lower_seq("bash"@) {
        Some(Language::Bash)
    } else if lower_seq(s) == lower_seq("json"@) {
        Some(Language::Json)
    } else if lower_seq(s) == lower_seq("nickel"@) {
        Some(Language::Nickel)
    } else if lower_seq(s) == lower_seq("ocaml"@) {
        Some(Language::Ocaml)
    } else if lower_seq(s) == lower_seq("ocaml-implementation"@) {
        Some(Language::OcamlImplementation)
    } else if lower_seq(s) == lower_seq("ocaml-interface"@) {
        Some(Language::OcamlInterface)
    } else if lower_seq(s) == lower_seq("rust"@) {
        Some(Language::Rust)
    } else if lower_seq(s) == lower_seq("toml"@) {
        Some(Language::Toml)
    } else if lower_seq(s) == lower_seq("tree-sitter-query"@) {
        Some(Language::TreeSitterQuery)
    } else {
        None
    }
}

/// The index of the last occurrence of `c` in `s`, or `-1` if `c` does not
/// occur.
pub open spec fn last_index_of(s: Seq<char>, c: char) -> int
    decreases s.len(),
{
    if s.len() == 0 {
        -1
    } else if s.last() == c {
        s.len() - 1
    } else {
        last_index_of(s.drop_last(), c)
    }
}

/// `last_index_of` finds the last occurrence: the result is in range, holds
/// `c` when non-negative, and nothing after it is `c`.
pub proof fn lemma_last_index_of(s: Seq<char>, c: char)
    ensures
        -1 <= last_index_of(s, c) < s.len(),
        last_index_of(s, c) >= 0 ==> s[last_index_of(s, c)] == c,
        forall|j: int| last_index_of(s, c) < j < s.len() ==> s[j] != c,
    decreases s.len(),
{
    if s.len() > 0 && s.last() != c {
        lemma_last_index_of(s.drop_last(), c);
        assert forall|j: int| last_index_of(s, c) < j < s.len() implies s[j] != c by {
            if j < s.len() - 1 {
                assert(s.drop_last()[j] == s[j]);
            }
        }
    }
}

/// The file name of a path: everything after the last `/`.
pub open spec fn file_name_of(p: Seq<char>) -> Seq<char> {
    p.subrange(last_index_of(p, '/') + 1, p.len() as int)
}

/// The extension of a path: the portion of the file name after its last
/// `.`, provided that dot is neither absent nor the leading character of
/// the file name.
pub open spec fn ext_of(p: Seq<char>) -> Option<Seq<char>> {
    let name = file_name_of(p);
    let d = last_index_of(name, '.');
    if d <= 0 {
        None
    } else {
        Some(name.subrange(d + 1, name.len() as int))
    }
}

/// The language detected from a file extension.  The table mirrors the
/// query files that ship with the formatter; several extensions map to the
/// same language.
pub open spec fn lang_of_ext(x: Seq<char>) -> Option<Language> {
    if x == "sh"@ || x == "bash"@ {
        Some(Language::Bash)
    } else if x == "json"@ || x == "avsc"@ || x == "geojson"@ || x == "gltf"@ || x == "har"@
        || x == "ice"@ || x == "JSON-tmLanguage"@ || x == "jsonl"@ || x == "mcmeta"@
        || x == "tfstate"@ || x == "tfstate.backup"@ || x == "topojson"@ || x == "webapp"@
        || x == "webmanifest"@ {
        Some(Language::Json)
    } else if x == "ncl"@ {
        Some(Language::Nickel)
    } else if x == "ml"@ {
        Some(Language::OcamlImplementation)
    } else if x == "mli"@ {
        Some(Language::OcamlInterface)
    } else if x == "rs"@ {
        Some(Language::Rust)
    } else if x == "toml"@ {
        Some(Language::Toml)
    } else if x == "scm"@ {
        Some(Language::TreeSitterQuery)
    } else {
        None
    }
}

/// The canonical basename of the query file for each language.  Different
/// languages may map to the same query file, because their grammars produce
/// similar trees.
pub open spec fn query_file_name(l: Language) -> Seq<char> {
    match l {
        Language::Bash => "bash.scm"@,
        Language::Json => "json.scm"@,
        Language::Nickel => "nickel.scm"@,
        Language::Ocaml => "ocaml.scm"@,
        Language::OcamlImplementation => "ocaml.scm"@,
        Language::OcamlInterface => "ocaml.scm"@,
        Language::Rust => "rust.scm"@,
        Language::Toml => "toml.scm"@,
        Language::TreeSitterQuery => "tree-sitter-query.scm"@,
    }
}

/// The grammar names of each language, ordered by priority.
pub open spec fn grammar_names_spec(l: Language) -> Seq<Seq<char>> {
    match l {
        Language::Bash => seq!["bash"@],
        Language::Json => seq!["json"@],
        Language::Nickel => seq!["nickel"@],
        Language::Ocaml => seq!["ocaml"@, "ocaml_interface"@],
        Language::OcamlImplementation => seq!["ocaml"@],
        Language::OcamlInterface => seq!["ocaml_interface"@],
        Language::Rust => seq!["rust"@],
        Language::Toml => seq!["toml"@],
        Language::TreeSitterQuery => seq!["query"@],
    }
}

/// The index of the last occurrence of `c`, if any.
fn find_last(s: &str, c: char) -> (r: Option<usize>)
    ensures
        (match r {
            Some(i) => last_index_of(s@, c) == i,
            None => last_index_of(s@, c) == -1,
        }),
{
    let n: usize = s.unicode_len();
    let mut i: usize = n;
    while i > 0
        invariant
            i <= n,
            n == s@.len(),
            forall|j: int| i <= j < n ==> s@[j] != c,
        decreases i,
    {
        i = i - 1;
        if s.get_char(i) == c {
            proof {
                lemma_last_index_of(s@, c);
                let r = last_index_of(s@, c);
                if r < i {
                    assert(s@[i as int] != c);
                } else if r > i {
                    assert(s@[r] != c);
                }
            }
            return Some(i);
        }
    }
    proof {
        lemma_last_index_of(s@, c);
        let r = last_index_of(s@, c);
        if r >= 0 {
            assert(s@[r] != c);
        }
    }
    None
}

impl Language {
    /// Convenience alias to create a Language from "magic strings".  An
    /// unrecognized name token is a language-detection failure naming the
    /// offending token, not a pattern-document fault.
    pub fn new(s: &str) -> (r: Result<Language, FormatterError>)
        ensures
            (match r {
                Ok(l) => lang_of_name(s@) == Some(l),
                Err(e) => lang_of_name(s@) == None::<Language> && e@
                    == FormatterErrorV::LanguageDetection(s@, None::<Seq<char>>),
            }),
    {
        if str_eq_fold(s, "bash") {
            Ok(Language::Bash)
        } else if str_eq_fold(s, "json") {
            Ok(Language::Json)
        } else if str_eq_fold(s, "nickel") {
            Ok(Language::Nickel)
        } else if str_eq_fold(s, "ocaml") {
            Ok(Language::Ocaml)
        } else if str_eq_fold(s, "ocaml-implementation") {
            Ok(Language::OcamlImplementation)
        } else if str_eq_fold(s, "ocaml-interface") {
            Ok(Language::OcamlInterface)
        } else if str_eq_fold(s, "rust") {
            Ok(Language::Rust)
        } else if str_eq_fold(s, "toml") {
            Ok(Language::Toml)
        } else if str_eq_fold(s, "tree-sitter-query") {
            Ok(Language::TreeSitterQuery)
        } else {
            Err(FormatterError::LanguageDetection(s.to_owned(), None))
        }
    }

    /// Convenience alias to detect the Language from a path's extension.
    ///
    /// The path is taken as text; extracting it from an OS path value is a
    /// caller's concern.
    pub fn detect(path: &str) -> (r: Result<Language, FormatterError>)
        ensures
            (match r {
                Ok(l) => ext_of(path@) matches Some(x) && lang_of_ext(x) == Some(l),
                Err(e) => (match ext_of(path@) {
                    None => e@ == FormatterErrorV::LanguageDetection(path@, None::<Seq<char>>),
                    Some(x) => lang_of_ext(x) == None::<Language> && e@
                        == FormatterErrorV::LanguageDetection(path@, Some(x)),
                }),
            }),
    {
        let n: usize = s_len(path);
        proof {
            lemma_last_index_of(path@, '/');
        }
        let fstart: usize = match find_last(path, '/') {
            Some(i) => i + 1,
            None => 0,
        };
        let name: &str = path.substring_char(fstart, n);
        assert(name@ == file_name_of(path@));
        let nn: usize = s_len(name);
        let dot: Option<usize> = find_last(name, '.');
        let d: usize = match dot {
            None => {
                return Err(FormatterError::LanguageDetection(path.to_owned(), None));
            },
            Some(0) => {
                return Err(FormatterError::LanguageDetection(path.to_owned(), None));
            },
            Some(d) => d,
        };
        proof {
            lemma_last_index_of(name@, '.');
        }
        let ext: &str = name.substring_char(d + 1, nn);
        assert(Some(ext@) == ext_of(path@));
        let found: Option<Language> = lang_of_ext_exec(ext);
        match found {
            Some(l) => Ok(l),
            None => Err(FormatterError::LanguageDetection(
                path.to_owned(),
                Some(ext.to_owned()),
            )),
        }
    }

    /// Convenience alias to return the query file basename for the
    /// Language.  Locating the file on disk, under the configured search
    /// paths, is a caller's concern.
    pub fn query_file(&self) -> (r: String)
        ensures
            r@ == query_file_name(*self),
    {
        match self {
            Language::Bash => String::from_str("bash.scm"),
            Language::Json => String::from_str("json.scm"),
            Language::Nickel => String::from_str("nickel.scm"),
            Language::Ocaml => String::from_str("ocaml.scm"),
            Language::OcamlImplementation => String::from_str("ocaml.scm"),
            Language::OcamlInterface => String::from_str("ocaml.scm"),
            Language::Rust => String::from_str("rust.scm"),
            Language::Toml => String::from_str("toml.scm"),
            Language::TreeSitterQuery => String::from_str("tree-sitter-query.scm"),
        }
    }

    /// The names of the supported grammars for the Language, ordered by
    /// priority.  Loading or linking the grammars themselves is a caller's
    /// concern.
    pub fn grammar_names(&self) -> (r: Vec<String>)
        ensures
            r.deep_view() == grammar_names_spec(*self),
    {
        let r: Vec<String> = match self {
            Language::Bash => vec![String::from_str("bash")],
            Language::Json => vec![String::from_str("json")],
            Language::Nickel => vec![String::from_str("nickel")],
            Language::Ocaml => vec![
                String::from_str("ocaml"),
                String::from_str("ocaml_interface"),
            ],
            Language::OcamlImplementation => vec![String::from_str("ocaml")],
            Language::OcamlInterface => vec![String::from_str("ocaml_interface")],
            Language::Rust => vec![String::from_str("rust")],
            Language::Toml => vec![String::from_str("toml")],
            Language::TreeSitterQuery => vec![String::from_str("query")],
        };
        proof {
            assert(r.deep_view() =~= grammar_names_spec(*self));
        }
        r
    }
}

/// The unicode length of a string slice.
fn s_len(s: &str) -> (r: usize)
    ensures
        r == s@.len(),
{
    s.unicode_len()
}

/// The table of `lang_of_ext`, executed by exact comparison.
fn lang_of_ext_exec(x: &str) -> (r: Option<Language>)
    ensures
        r == lang_of_ext(x@),
{
    if str_eq(x, "sh") || str_eq(x, "bash") {
        Some(Language::Bash)
    } else if str_eq(x, "json") || str_eq(x, "avsc") || str_eq(x, "geojson") || str_eq(x, "gltf")
        || str_eq(x, "har") || str_eq(x, "ice") || str_eq(x, "JSON-tmLanguage") || str_eq(
        x,
        "jsonl",
    ) || str_eq(x, "mcmeta") || str_eq(x, "tfstate") || str_eq(x, "tfstate.backup") || str_eq(
        x,
        "topojson",
    ) || str_eq(x, "webapp") || str_eq(x, "webmanifest") {
        Some(Language::Json)
    } else if str_eq(x, "ncl") {
        Some(Language::Nickel)
    } else if str_eq(x, "ml") {
        Some(Language::OcamlImplementation)
    } else if str_eq(x, "mli") {
        Some(Language::OcamlInterface)
    } else if str_eq(x, "rs") {
        Some(Language::Rust)
    } else if str_eq(x, "toml") {
        Some(Language::Toml)
    } else if str_eq(x, "scm") {
        Some(Language::TreeSitterQuery)
    } else {
        None
    }
}

} // verus!
