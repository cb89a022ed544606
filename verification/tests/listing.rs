use pipeline::listing::{count_photos, drive_root, drive_roots, fs_roots, sort_by_name};
use pipeline::serve::FsEntry;

fn entry(name: &str) -> FsEntry {
    FsEntry { name: name.to_string(), path: format!("/p/{name}"), photo_count: 0 }
}

#[test]
fn folders_list_by_lowercased_name() {
    let sorted = sort_by_name(vec![entry("b"), entry("A"), entry("a"), entry("Été"), entry("c")]);
    let names: Vec<&str> = sorted.iter().map(|e| e.name.as_str()).collect();
    assert_eq!(names, vec!["A", "a", "b", "c", "Été"]);
}

#[test]
fn the_browser_starts_at_home_and_root() {
    let r = fs_roots(Some("/home/u".into()));
    let got: Vec<(&str, &str)> = r.iter().map(|e| (e.name.as_str(), e.path.as_str())).collect();
    assert_eq!(got, vec![("~", "/home/u"), ("/", "/")]);
    assert_eq!(fs_roots(None).len(), 1);
}

#[test]
fn photos_are_counted_by_extension() {
    let exts: Vec<String> = vec!["arw".into(), "jpg".into()];
    let files: Vec<String> = vec!["ARW".into(), "txt".into(), "jpg".into(), "".into()];
    assert_eq!(count_photos(&exts, &files), 2);
}

#[test]
fn windows_roots_are_the_existing_drives_in_letter_order() {
    assert_eq!(drive_root(0), "A:\\");
    assert_eq!(drive_root(25), "Z:\\");
    let mut exists = vec![false; 26];
    exists[2] = true;
    exists[3] = true;
    let roots = drive_roots(&exists);
    let names: Vec<&str> = roots.iter().map(|e| e.name.as_str()).collect();
    assert_eq!(names, vec!["C:\\", "D:\\"]);
    assert!(roots.iter().all(|e| e.path == e.name && e.photo_count == 0));
    assert!(drive_roots(&vec![false; 26]).is_empty());
}
