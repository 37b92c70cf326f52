use swiftide_rag::chunk::{chunk_code, chunk_item, chunk_markdown, select_chunks, total_chars, ChunkRange};
use swiftide_rag::item::SourceItem;
use swiftide_rag::language::Language;

fn python_source(len: usize) -> String {
    let mut s = String::new();
    let mut i = 0;
    while s.len() + 20 < len {
        s.push_str(&format!("value_{:03} = {:05}\n", i, i));
        i += 1;
    }
    while s.len() < len - 1 {
        s.push('#');
    }
    s.push('x');
    s
}

#[test]
fn chunk_range_must_not_be_empty() {
    assert_eq!(ChunkRange::new(50, 1024), Some(ChunkRange { min: 50, max: 1024 }));
    assert_eq!(ChunkRange::new(5, 5), Some(ChunkRange { min: 5, max: 5 }));
    assert_eq!(ChunkRange::new(6, 5), None);
    assert_eq!(ChunkRange::new(0, 0), None);
    assert_eq!(ChunkRange::new(0, 1), Some(ChunkRange { min: 0, max: 1 }));
}

#[test]
fn select_keeps_fitting_pieces_with_running_offsets() {
    let range = ChunkRange { min: 3, max: 5 };
    let pieces = vec![
        String::from("ab"),
        String::from("abc"),
        String::from("abcdef"),
        String::from("abcde"),
        String::from("é€ö"),
    ];
    let chunks = select_chunks(&String::from("f.md"), 9, pieces, range);
    let texts: Vec<&str> = chunks.iter().map(|c| c.text.as_str()).collect();
    let offsets: Vec<usize> = chunks.iter().map(|c| c.offset).collect();
    assert_eq!(texts, vec!["abc", "abcde", "é€ö"]);
    assert_eq!(offsets, vec![2, 11, 16]);
    assert!(chunks.iter().all(|c| c.path == "f.md" && c.fingerprint == 9));
}

#[test]
fn select_of_no_pieces() {
    let chunks = select_chunks(&String::from("f"), 1, Vec::new(), ChunkRange { min: 0, max: 10 });
    assert!(chunks.is_empty());
}

#[test]
fn total_chars_counts_characters() {
    assert_eq!(total_chars(&vec![String::from("ab"), String::from("é")]), Some(3));
    assert_eq!(total_chars(&Vec::new()), Some(0));
}

#[test]
fn short_markdown_gives_no_chunk() {
    let item = SourceItem { path: String::from("a.md"), content: "x".repeat(40), fingerprint: 1 };
    let chunks = chunk_markdown(&item, ChunkRange { min: 50, max: 1024 }).unwrap();
    assert!(chunks.is_empty());
}

#[test]
fn markdown_is_cut_within_bounds() {
    let mut text = String::new();
    for i in 0..40 {
        text.push_str(&format!("# Heading {i}\n\nParagraph number {i} with some words in it.\n\n"));
    }
    let item = SourceItem { path: String::from("doc.md"), content: text, fingerprint: 3 };
    let range = ChunkRange { min: 50, max: 200 };
    let chunks = chunk_markdown(&item, range).unwrap();
    assert!(chunks.len() > 1);
    let mut end = 0;
    for c in &chunks {
        let n = c.text.chars().count();
        assert!(50 <= n && n <= 200);
        assert!(c.offset >= end);
        end = c.offset + n;
        assert!(item.content.contains(c.text.as_str()));
    }
}

#[test]
fn python_file_of_300_chars_is_one_chunk() {
    let src = python_source(300);
    assert_eq!(src.len(), 300);
    let item = SourceItem { path: String::from("b.py"), content: src.clone(), fingerprint: 2 };
    let chunks = chunk_code(&item, Language::Python, ChunkRange { min: 50, max: 1024 }).unwrap();
    assert_eq!(chunks.len(), 1);
    assert_eq!(chunks[0].text, src);
    assert_eq!(chunks[0].offset, 0);
    assert_eq!(chunks[0].source_offset, Some(0));
}

#[test]
fn unparsable_code_falls_back_to_plain_text() {
    let mut src = String::from("fn ( {{{ ]\n");
    for i in 0..30 {
        src.push_str(&format!("broken line number {i} of text\n"));
    }
    let item = SourceItem { path: String::from("bad.rs"), content: src.clone(), fingerprint: 4 };
    let range = ChunkRange { min: 50, max: 200 };
    let chunks = chunk_code(&item, Language::Rust, range).unwrap();
    assert!(chunks.len() > 1);
    for c in &chunks {
        let n = c.text.chars().count();
        assert!(50 <= n && n <= 200);
        assert!(src.contains(c.text.as_str()));
    }
}

#[test]
fn chunk_item_routes_by_path() {
    let src = python_source(300);
    let as_markdown = SourceItem { path: String::from("notes"), content: src.clone(), fingerprint: 5 };
    let as_code = SourceItem { path: String::from("b.py"), content: src, fingerprint: 6 };
    let range = ChunkRange { min: 50, max: 1024 };
    assert_eq!(chunk_item(&as_markdown, Language::Python, range).unwrap().len(), 1);
    assert_eq!(chunk_item(&as_code, Language::Python, range).unwrap().len(), 1);
    let bad = SourceItem { path: String::from("bad.py"), content: String::from("def (:\n"), fingerprint: 7 };
    assert!(chunk_item(&bad, Language::Python, range).unwrap().is_empty());
}

#[test]
fn metadata_set_replaces_by_key_and_keeps_text() {
    let mut chunks = select_chunks(&String::from("a.rs"), 1, vec![String::from("abc")], ChunkRange { min: 1, max: 10 });
    let c = &mut chunks[0];
    c.source_offset = Some(4);
    assert_eq!(c.embeddable_text(), "\nabc");
    c.set_metadata(String::from("questions"), String::from("Q1"));
    c.set_metadata(String::from("summary"), String::from("S"));
    c.set_metadata(String::from("questions"), String::from("Q2"));
    assert_eq!(
        c.metadata,
        vec![(String::from("questions"), String::from("Q2")), (String::from("summary"), String::from("S"))]
    );
    assert_eq!(c.text, "abc");
    assert_eq!(c.source_offset, Some(4));
    assert_eq!(c.embeddable_text(), "questions: Q2\nsummary: S\nabc");
}

#[test]
fn code_is_cut_at_syntax_nodes() {
    let src = "fn alpha() { let a = 1; let b = 2; }\n\nfn beta() { let c = 3; let d = 4; }\n\nfn gamma() { let e = 5; let f = 6; }";
    let item = SourceItem { path: String::from("lib.rs"), content: String::from(src), fingerprint: 8 };
    let chunks = chunk_code(&item, Language::Rust, ChunkRange { min: 10, max: 50 }).unwrap();
    assert_eq!(chunks.len(), 3);
    assert_eq!(chunks[0].text, "fn alpha() { let a = 1; let b = 2; }");
    let joined: String = chunks.iter().map(|c| c.text.as_str()).collect();
    assert_eq!(joined, src);
    let offsets: Vec<usize> = chunks.iter().map(|c| c.offset).collect();
    assert_eq!(offsets, vec![0, 36, 73]);
    let found: Vec<Option<usize>> = chunks.iter().map(|c| c.source_offset).collect();
    assert_eq!(found, vec![Some(0), Some(36), Some(73)]);
}

#[test]
fn markdown_chunks_sit_in_order_in_the_file() {
    let mut text = String::new();
    for i in 0..30 {
        text.push_str(&format!("## Part {i}\n\nSome text for part {i}, long enough to matter.\n\n"));
    }
    let item = SourceItem { path: String::from("doc.md"), content: text.clone(), fingerprint: 3 };
    let chunks = chunk_markdown(&item, ChunkRange { min: 20, max: 120 }).unwrap();
    assert!(chunks.len() > 1);
    let mut end = 0;
    for c in &chunks {
        let o = c.source_offset.unwrap();
        assert!(o >= end);
        assert_eq!(&text[o..o + c.text.len()], c.text);
        end = o + c.text.len();
    }
}

#[test]
fn repeated_text_is_found_after_the_previous_chunk() {
    let pieces = vec![String::from("abc"), String::from("abc")];
    let chunks = select_chunks(&String::from("f"), 1, pieces, ChunkRange { min: 1, max: 5 });
    let located = swiftide_rag::chunk::locate(chunks, "xxabcabc");
    let found: Vec<Option<usize>> = located.iter().map(|c| c.source_offset).collect();
    assert_eq!(found, vec![Some(2), Some(5)]);
    let missing = swiftide_rag::chunk::locate(
        select_chunks(&String::from("f"), 1, vec![String::from("zz")], ChunkRange { min: 1, max: 5 }),
        "abc",
    );
    assert_eq!(missing[0].source_offset, None);
}
