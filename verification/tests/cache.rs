use pipeline::cache::Cache;

fn cache_at(root: &str) -> Cache {
    Cache { root: root.to_string() }
}

#[test]
fn path_bucketing() {
    let cache = cache_at("/tmp/test");
    let hash: u128 = 0xdeadbeef_00000000_00000000_00000000;
    let p = cache.path(hash);
    assert!(p.contains("de")); // first two hex chars of hash
    assert!(p.ends_with(".webp"));
}

#[test]
fn thumb_path_is_separate_namespace() {
    let cache = cache_at("/tmp/test");
    let hash: u128 = 0x1234;
    let t = cache.thumb_path(hash);
    let p = cache.path(hash);
    assert!(t.contains("thumbs"));
    assert!(p.contains("previews"));
    assert_ne!(t, p);
}

#[test]
fn preview_path_has_the_full_layout() {
    let cache = cache_at("/tmp/test");
    let hash: u128 = 0xdeadbeef_00000000_00000000_00000000;
    assert_eq!(
        cache.path(hash),
        "/tmp/test/previews/de/deadbeef000000000000000000000000.webp"
    );
    assert_eq!(
        cache.thumb_path(0x1234),
        "/tmp/test/thumbs/00/00000000000000000000000000001234.webp"
    );
}

#[test]
fn trailing_slash_root_adds_no_empty_component() {
    let cache = cache_at("/tmp/test/");
    assert_eq!(
        cache.path(0xab),
        "/tmp/test/previews/00/000000000000000000000000000000ab.webp"
    );
}

#[test]
fn distinct_hashes_get_distinct_files() {
    let cache = cache_at("/c");
    let a = cache.path(1);
    let b = cache.path(2);
    let c = cache.path(1u128 << 124);
    assert_ne!(a, b);
    assert_ne!(a, c);
    assert_ne!(cache.thumb_path(1), cache.thumb_path(2));
    assert_ne!(cache.path(7), cache.thumb_path(7));
}
