use pipeline::library::{find_library_for_file, library_key, sort_libraries, LibraryInfo, LibraryRoots, RootsError};

fn info(key: &str, last: Option<i64>) -> LibraryInfo {
    LibraryInfo { folder: format!("/f/{key}"), key: key.to_string(), created_at: 0, last_analyzed: last, photo_count: 1 }
}

#[test]
fn library_key_is_32_hex_digits_of_the_xxh3_of_the_path() {
    let k = library_key("/photos/2023");
    assert_eq!(k.len(), 32);
    assert!(k.chars().all(|c| c.is_ascii_hexdigit() && !c.is_ascii_uppercase()));
    assert_eq!(k, format!("{:032x}", xxhash_rust::xxh3::xxh3_128(b"/photos/2023")));
    assert_eq!(library_key("/photos/2023"), k);
    assert_ne!(library_key("/photos/2024"), k);
    assert_eq!(library_key(""), format!("{:032x}", xxhash_rust::xxh3::xxh3_128(b"")));
}

#[test]
fn roots_live_under_photopipe() {
    let r = LibraryRoots::under(Some("/home/u/.local/share".into()), Some("/home/u/.cache".into())).ok().unwrap();
    assert_eq!(r.data, "/home/u/.local/share/photopipe");
    assert_eq!(r.cache, "/home/u/.cache/photopipe");
    assert_eq!(r.libraries_dir(), "/home/u/.local/share/photopipe/libraries");
    assert_eq!(r.catalog_path("abc"), "/home/u/.local/share/photopipe/libraries/abc/catalog.duckdb");
    assert_eq!(r.cache_dir("abc"), "/home/u/.cache/photopipe/libraries/abc");
    assert!(matches!(LibraryRoots::under(None, Some("/c".into())), Err(RootsError::NoDataDir)));
    assert!(matches!(LibraryRoots::under(Some("/d".into()), None), Err(RootsError::NoCacheDir)));
    assert_eq!(RootsError::NoDataDir.message(), "cannot determine OS data dir");
}

#[test]
fn libraries_list_most_recently_analyzed_first() {
    let libs = vec![info("a", None), info("b", Some(5)), info("c", Some(9)), info("d", Some(5)), info("e", None)];
    let sorted = sort_libraries(libs);
    let keys: Vec<&str> = sorted.iter().map(|l| l.key.as_str()).collect();
    assert_eq!(keys, vec!["c", "b", "d", "a", "e"]);
    assert!(sort_libraries(vec![]).is_empty());
}

#[test]
fn the_nearest_directory_with_a_catalog_holds_the_file() {
    let roots = LibraryRoots { data: "/data/photopipe".into(), cache: "/cache/photopipe".into() };
    let searched = vec![
        ("/p/2023/trip".to_string(), "/p/2023/trip".to_string()),
        ("/p/2023".to_string(), "/p/2023".to_string()),
        ("/p".to_string(), "/p".to_string()),
    ];
    let outer = format!("/data/photopipe/libraries/{}/catalog.duckdb", library_key("/p"));
    let middle = roots.catalog_path(&library_key("/p/2023"));
    assert_eq!(
        find_library_for_file(&roots, &searched, &[outer.clone(), middle.clone()]),
        Some("/p/2023".to_string())
    );
    assert_eq!(find_library_for_file(&roots, &searched, &[outer.clone()]), Some("/p".to_string()));
    assert_eq!(find_library_for_file(&roots, &searched, &[]), None);
    let by_name = "/data/photopipe/libraries//p/catalog.duckdb".to_string();
    assert_eq!(find_library_for_file(&roots, &searched, &[by_name]), None);
}
