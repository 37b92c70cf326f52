use swiftide::integrations::treesitter::SupportedLanguages;
use vstd::prelude::*;
use vstd::string::*;

verus! {

/// The programming languages whose files the code branch can chunk.
#[derive(Clone, Copy, Debug, PartialEq, Eq, Structural)]
pub enum Language {
    Rust,
    Typescript,
    Python,
    Ruby,
    Javascript,
    Java,
}

/// The error returned for a language name that names no supported language.
#[derive(Clone, Copy, Debug, PartialEq, Eq, Structural)]
pub struct UnsupportedLanguage;

/// A character folded to ASCII lower case.
pub open spec fn ascii_fold(c: char) -> int {
    if 'A' <= c && c <= 'Z' {
        (c as int) + 32
    } else {
        c as int
    }
}

/// `a` and `b` are equal when ASCII case is ignored.
pub open spec fn eq_ignore_ascii_case(a: Seq<char>, b: Seq<char>) -> bool {
    a.len() == b.len() && forall|i: int| 0 <= i < a.len() ==> ascii_fold(a[i]) == ascii_fold(b[i])
}

/// The name of each language.
pub open spec fn language_name(l: Language) -> Seq<char> {
    match l {
        Language::Rust => seq!['r', 'u', 's', 't'],
        Language::Typescript => seq!['t', 'y', 'p', 'e', 's', 'c', 'r', 'i', 'p', 't'],
        Language::Python => seq!['p', 'y', 't', 'h', 'o', 'n'],
        Language::Ruby => seq!['r', 'u', 'b', 'y'],
        Language::Javascript => seq!['j', 'a', 'v', 'a', 's', 'c', 'r', 'i', 'p', 't'],
        Language::Java => seq!['j', 'a', 'v', 'a'],
    }
}

/// The language that `s` names, ignoring ASCII case.
pub open spec fn language_named(s: Seq<char>) -> Option<Language> {
    if eq_ignore_ascii_case(s, language_name(Language::Rust)) {
        Some(Language::Rust)
    } else if eq_ignore_ascii_case(s, language_name(Language::Typescript)) {
        Some(Language::Typescript)
    } else if eq_ignore_ascii_case(s, language_name(Language::Python)) {
        Some(Language::Python)
    } else if eq_ignore_ascii_case(s, language_name(Language::Ruby)) {
        Some(Language::Ruby)
    } else if eq_ignore_ascii_case(s, language_name(Language::Javascript)) {
        Some(Language::Javascript)
    } else if eq_ignore_ascii_case(s, language_name(Language::Java)) {
        Some(Language::Java)
    } else {
        None
    }
}

/// The file extensions of each language's source files.
pub open spec fn language_extensions(l: Language) -> Seq<Seq<char>> {
    match l {
        Language::Rust => seq![seq!['r', 's']],
        Language::Typescript => seq![
            seq!['t', 's'],
            seq!['t', 's', 'x'],
            seq!['j', 's'],
            seq!['j', 's', 'x'],
        ],
        Language::Python => seq![seq!['p', 'y']],
        Language::Ruby => seq![seq!['r', 'b']],
        Language::Javascript => seq![seq!['j', 's'], seq!['j', 's', 'x']],
        Language::Java => seq![seq!['j', 'a', 'v', 'a']],
    }
}

/// The extensions that an indexing run loads for a language: those of its
/// source files, then `md`.
pub open spec fn index_extensions_of(l: Language) -> Seq<Seq<char>> {
    language_extensions(l).push(seq!['m', 'd'])
}

/// Relies on the `FromStr` impl of swiftide's `SupportedLanguages`, which
/// matches a variant's name ignoring ASCII case.
#[verifier::external_body]
fn supported_language_from_str(name: &str) -> (r: Option<Language>)
    ensures
        r == language_named(name@),
{
    match <SupportedLanguages as std::str::FromStr>::from_str(name) {
        Ok(SupportedLanguages::Rust) => Some(Language::Rust),
        Ok(SupportedLanguages::Typescript) => Some(Language::Typescript),
        Ok(SupportedLanguages::Python) => Some(Language::Python),
        Ok(SupportedLanguages::Ruby) => Some(Language::Ruby),
        Ok(SupportedLanguages::Javascript) => Some(Language::Javascript),
        Ok(SupportedLanguages::Java) => Some(Language::Java),
        _ => None,
    }
}

/// Relies on `SupportedLanguages::file_extensions`, the fixed list of
/// extensions of each language.
#[verifier::external_body]
fn supported_language_extensions(l: Language) -> (r: Vec<String>)
    ensures
        r.deep_view() == language_extensions(l),
{
    let s = match l {
        Language::Rust => SupportedLanguages::Rust,
        Language::Typescript => SupportedLanguages::Typescript,
        Language::Python => SupportedLanguages::Python,
        Language::Ruby => SupportedLanguages::Ruby,
        Language::Javascript => SupportedLanguages::Javascript,
        Language::Java => SupportedLanguages::Java,
    };
    s.file_extensions().iter().map(|e| e.to_string()).collect()
}

impl Language {
    /// The language named by `name`, ignoring ASCII case.
    pub fn from_name(name: &str) -> (r: Result<Language, UnsupportedLanguage>)
        ensures
            match language_named(name@) {
                Some(l) => r == Ok::<Language, UnsupportedLanguage>(l),
                None => r is Err,
            },
    {
        match supported_language_from_str(name) {
            Some(l) => Ok(l),
            None => Err(UnsupportedLanguage),
        }
    }

    /// The extensions of this language's source files.
    pub fn file_extensions(&self) -> (r: Vec<String>)
        ensures
            r.deep_view() == language_extensions(*self),
    {
        supported_language_extensions(*self)
    }
}

/// The extensions an indexing run loads for the language named `language`:
/// its source extensions followed by `md`.
pub fn index_extensions(language: &str) -> (r: Result<Vec<String>, UnsupportedLanguage>)
    ensures
        match language_named(language@) {
            Some(l) => r is Ok && r->Ok_0.deep_view() == index_extensions_of(l),
            None => r is Err,
        },
{
    let l = Language::from_name(language)?;
    let mut extensions = l.file_extensions();
    let ghost before = extensions@;
    assert(before.len() == language_extensions(l).len());
    let md = <String as StringExecFns>::from_str("md");
    proof {
        reveal_strlit("md");
    }
    extensions.push(md);
    proof {
        assert(extensions@ == before.push(md));
        assert(md@ =~= seq!['m', 'd']);
        assert forall|i: int| 0 <= i < before.len() implies extensions.deep_view()[i]
            == language_extensions(l)[i] by {
            assert(extensions@[i] == before[i]);
        }
        assert(extensions.deep_view() =~= index_extensions_of(l));
    }
    Ok(extensions)
}

} // verus!
