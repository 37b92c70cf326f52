use swiftide_rag::dedup::{admits, filter_cached, DedupCache};
use swiftide_rag::item::{Loaded, LoadError, SourceItem};
use swiftide_rag::route::{extension_dot, is_markdown_file, merge, routes_to_markdown, split_by_kind};

fn item(path: &str, fingerprint: u64) -> Loaded {
    Ok(SourceItem { path: path.to_string(), content: String::from("x"), fingerprint })
}

fn path_of(x: &Loaded) -> String {
    match x {
        Ok(i) => i.path.clone(),
        Err(e) => e.path.clone(),
    }
}

#[test]
fn extension_dot_finds_last_dot_of_file_name() {
    assert_eq!(extension_dot("docs/a.md"), Some(6));
    assert_eq!(extension_dot("src/lib.tar.gz"), Some(11));
    assert_eq!(extension_dot("dir.d/file"), None);
    assert_eq!(extension_dot("dir/.hidden"), None);
    assert_eq!(extension_dot(".md"), None);
    assert_eq!(extension_dot("README"), None);
    assert_eq!(extension_dot(""), None);
}

#[test]
fn extension_of_last_named_segment() {
    assert_eq!(extension_dot("docs/a.md/"), Some(6));
    assert_eq!(extension_dot("docs/a.md//"), Some(6));
    assert_eq!(extension_dot(".."), None);
    assert_eq!(extension_dot("x.py/.."), None);
    assert_eq!(extension_dot("a..b"), Some(2));
    assert!(!is_markdown_file("src/lib.rs/"));
    assert!(is_markdown_file("notes.md/"));
    assert!(is_markdown_file("x.py/.."));
    assert!(is_markdown_file("/"));
}

#[test]
fn markdown_route_by_extension() {
    assert!(is_markdown_file("a.md"));
    assert!(is_markdown_file("docs/guide.md"));
    assert!(is_markdown_file("LICENSE"));
    assert!(is_markdown_file("dir/.md"));
    assert!(!is_markdown_file("b.py"));
    assert!(!is_markdown_file("notes.MD"));
    assert!(!is_markdown_file("a.mdx"));
    assert!(!is_markdown_file("src/main.rs"));
}

#[test]
fn load_errors_go_to_markdown_branch() {
    let failed: Loaded = Err(LoadError { path: String::from("broken.rs") });
    assert!(routes_to_markdown(&failed));
    assert!(!routes_to_markdown(&item("ok.rs", 1)));
}

#[test]
fn split_then_merge_keeps_every_item_once() {
    let items = vec![
        item("a.md", 1),
        item("b.py", 2),
        Err(LoadError { path: String::from("c.py") }),
        item("d.py", 3),
        item("README", 4),
    ];
    let (markdown, code) = split_by_kind(items);
    let md: Vec<String> = markdown.iter().map(path_of).collect();
    let cd: Vec<String> = code.iter().map(path_of).collect();
    assert_eq!(md, vec!["a.md", "c.py", "README"]);
    assert_eq!(cd, vec!["b.py", "d.py"]);
    let merged: Vec<String> = merge(code, markdown).iter().map(path_of).collect();
    assert_eq!(merged, vec!["b.py", "d.py", "a.md", "c.py", "README"]);
}

#[test]
fn merge_of_empty_branches() {
    let merged: Vec<u32> = merge(Vec::new(), Vec::new());
    assert!(merged.is_empty());
    assert_eq!(merge(vec![1u32], Vec::new()), vec![1]);
}

#[test]
fn dedup_cache_contains_after_insert() {
    let mut cache = DedupCache::new();
    assert!(!cache.contains(7));
    cache.insert(7);
    cache.insert(7);
    cache.insert(9);
    assert!(cache.contains(7));
    assert!(cache.contains(9));
    assert!(!cache.contains(8));
    assert_eq!(cache.len(), 2);
}

#[test]
fn filter_cached_drops_known_fingerprints() {
    let mut cache = DedupCache::new();
    cache.insert(2);
    let items = vec![item("a.md", 1), item("b.py", 2), Err(LoadError { path: String::from("c") })];
    let kept: Vec<String> = filter_cached(items, &cache).iter().map(path_of).collect();
    assert_eq!(kept, vec!["a.md", "c"]);
}

#[test]
fn unreachable_cache_fails_open() {
    assert!(admits(None));
    assert!(admits(Some(false)));
    assert!(!admits(Some(true)));
}
