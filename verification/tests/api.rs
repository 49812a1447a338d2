use gallery::api::{directory_listing, is_readme_name, DirectoryEntry};
use gallery::assets::content_type_for;
use gallery::page::EntryKind;

fn entry(name: Option<&str>, kind: EntryKind, readme: Option<&str>) -> DirectoryEntry {
    DirectoryEntry {
        name: name.map(String::from),
        kind,
        readme_text: readme.map(String::from),
    }
}

#[test]
fn readme_name() {
    assert!(is_readme_name("readme.md"));
    assert!(!is_readme_name("README.md"));
    assert!(!is_readme_name("readme.md.bak"));
}

#[test]
fn listing_of_a_directory() {
    let entries = vec![
        entry(Some("b.jpg"), EntryKind::File, None),
        entry(Some("sub"), EntryKind::Directory, None),
        entry(Some("readme.md"), EntryKind::File, Some("*hi*")),
        entry(None, EntryKind::File, None),
        entry(None, EntryKind::Directory, None),
        entry(Some("link"), EntryKind::Other, None),
        entry(Some("a.png"), EntryKind::File, None),
    ];
    let l = directory_listing(&entries);
    assert_eq!(l.files, vec!["/content/b.jpg", "/content/a.png"]);
    assert_eq!(l.directories, vec!["sub"]);
    assert_eq!(l.info, Some("<p><em>hi</em></p>".to_string()));
}

#[test]
fn unreadable_readme_gives_no_info_and_is_not_listed() {
    let entries = vec![entry(Some("readme.md"), EntryKind::File, None)];
    let l = directory_listing(&entries);
    assert_eq!(l.info, None);
    assert!(l.files.is_empty());
    assert!(l.directories.is_empty());
}

#[test]
fn content_types() {
    assert_eq!(content_type_for("css/site.css"), "text/css");
    assert_eq!(content_type_for("material/folder.svg"), "image/svg+xml");
    assert_eq!(content_type_for("logo.PNG"), "image/png");
    assert_eq!(content_type_for("noextension"), "text/plain");
    assert_eq!(content_type_for("file.unknownextension"), "text/plain");
    assert_eq!(content_type_for("trailing."), "text/plain");
}
