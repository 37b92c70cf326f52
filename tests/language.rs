use swiftide_rag::language::{index_extensions, Language, UnsupportedLanguage};

#[test]
fn language_names_ignore_ascii_case() {
    assert_eq!(Language::from_name("rust"), Ok(Language::Rust));
    assert_eq!(Language::from_name("Python"), Ok(Language::Python));
    assert_eq!(Language::from_name("TypeScript"), Ok(Language::Typescript));
    assert_eq!(Language::from_name("JAVA"), Ok(Language::Java));
    assert_eq!(Language::from_name("cobol"), Err(UnsupportedLanguage));
    assert_eq!(Language::from_name(""), Err(UnsupportedLanguage));
}

#[test]
fn file_extensions_of_languages() {
    assert_eq!(Language::Typescript.file_extensions(), vec!["ts", "tsx", "js", "jsx"]);
    assert_eq!(Language::Ruby.file_extensions(), vec!["rb"]);
}

#[test]
fn index_extensions_add_markdown() {
    assert_eq!(index_extensions("python").unwrap(), vec!["py", "md"]);
    assert_eq!(index_extensions("javascript").unwrap(), vec!["js", "jsx", "md"]);
    assert_eq!(index_extensions("klingon"), Err(UnsupportedLanguage));
}
