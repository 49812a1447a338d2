use gallery::page::{
    breadcrumbs, directory_record, is_info_file, item_view, listing_file,
    listing_files, listing_info, neighbours, sort_by_folded_name,
};
use gallery::web_path::WebPath;

#[test]
fn neighbours_by_name_order() {
    let names = vec!["c.jpg", "a.jpg", "e.jpg", "b.jpg"];
    assert_eq!(neighbours(&names, "c.jpg"), (Some(3), Some(2)));
    assert_eq!(neighbours(&names, "a.jpg"), (None, Some(3)));
    assert_eq!(neighbours(&names, "e.jpg"), (Some(0), None));
    assert_eq!(neighbours(&vec!["only.png"], "only.png"), (None, None));
}

#[test]
fn neighbours_are_case_sensitive_byte_order() {
    // 'B' (66) sorts before 'a' (97)
    let names = vec!["a.jpg", "B.jpg", "c.jpg"];
    assert_eq!(neighbours(&names, "a.jpg"), (Some(1), Some(2)));
}

#[test]
fn law_neighbours_inverse_example() {
    let names = vec!["d", "b", "a", "c"];
    let (_, next) = neighbours(&names, "b");
    let next_name = names[next.unwrap()];
    assert_eq!(next_name, "c");
    let (prev, _) = neighbours(&names, next_name);
    assert_eq!(names[prev.unwrap()], "b");
}

#[test]
fn item_view_of_a_picture() {
    let request = WebPath::from("/trips/2024/b.jpg");
    let siblings = vec!["c.jpg", "a.jpg", "b.jpg"];
    let v = item_view(&request, &siblings);
    assert_eq!(v.name, "b.jpg");
    assert_eq!(v.public_path, "trips/2024/b.jpg");
    assert_eq!(v.public_content_path, "content/trips/2024/b.jpg");
    assert_eq!(v.thumbnail_path, "thumb/trips/2024/b.jpg");
    assert_eq!(v.parent_path, "trips/2024");
    assert_eq!(v.prev_path, "trips/2024/a.jpg");
    assert_eq!(v.prev_thumb_path, "thumb/trips/2024/a.jpg");
    assert_eq!(v.next_path, "trips/2024/c.jpg");
    assert_eq!(v.next_thumb_path, "thumb/trips/2024/c.jpg");
}

#[test]
fn item_view_at_the_ends() {
    let request = WebPath::from("x.png");
    let siblings = vec!["x.png"];
    let v = item_view(&request, &siblings);
    assert_eq!(v.parent_path, "");
    assert_eq!(v.prev_path, "");
    assert_eq!(v.next_path, "");
    assert_eq!(v.prev_thumb_path, "");
    assert_eq!(v.next_thumb_path, "");
    assert_eq!(v.public_content_path, "content/x.png");
}

#[test]
fn info_files_end_in_md() {
    assert!(is_info_file("readme.md"));
    assert!(is_info_file("notes.md"));
    assert!(!is_info_file("readme.MD"));
    assert!(!is_info_file("md"));
    assert!(!is_info_file("photo.jpg"));
}

#[test]
fn listing_file_addresses() {
    let request = WebPath::from("a/b");
    let f = listing_file(&request, "p.jpg");
    assert_eq!(f.name, "p.jpg");
    assert_eq!(f.public_path, "a/b/p.jpg");
    assert_eq!(f.public_content_path, "content/a/b/p.jpg");
    assert_eq!(f.thumbnail_path, "thumb/a/b/p.jpg");
    assert_eq!(f.next_path, "");
    assert_eq!(f.parent_path, "");
}

#[test]
fn listing_files_leaves_out_info_files() {
    let request = WebPath::from("");
    let names = vec!["a.jpg", "about.md", "b.png"];
    let files = listing_files(&request, &names);
    let shown: Vec<&str> = files.iter().map(|f| f.name.as_str()).collect();
    assert_eq!(shown, vec!["a.jpg", "b.png"]);
    assert_eq!(files[1].public_content_path, "content/b.png");
    assert_eq!(files[1].public_path, "b.png");
}

#[test]
fn listing_info_renders_the_last_text() {
    assert_eq!(listing_info(&vec![]), "");
    let texts = vec!["first".to_string(), "# Holiday".to_string()];
    assert_eq!(listing_info(&texts), "<h1>Holiday</h1>");
}

#[test]
fn directory_record_with_and_without_picture() {
    let request = WebPath::from("trips");
    let found = vec!["content", "trips", "2024", "x", "p.jpg"];
    let d = directory_record(&request, "2024", Some(&found));
    assert_eq!(d.name, "2024");
    assert_eq!(d.public_path, "trips/2024");
    assert_eq!(d.thumbnail_path, "/thumb/trips/2024/x/p.jpg");
    let e = directory_record(&request, "empty", None);
    assert_eq!(e.thumbnail_path, "/static/material/folder.svg");
    assert_eq!(e.public_path, "trips/empty");
    let short = vec!["content"];
    assert_eq!(directory_record(&request, "z", Some(&short)).thumbnail_path, "/thumb/");
}

#[test]
fn breadcrumb_trail() {
    let request = WebPath::from("a/b/c");
    let crumbs = breadcrumbs(&request);
    let got: Vec<(String, String)> = crumbs.iter().map(|b| (b.name.clone(), b.href.clone())).collect();
    assert_eq!(
        got,
        vec![
            ("a".to_string(), "/a".to_string()),
            ("b".to_string(), "/a/b".to_string()),
            ("c".to_string(), "/a/b/c".to_string()),
        ]
    );
    assert!(breadcrumbs(&WebPath::from("/")).is_empty());
}

#[test]
fn law_breadcrumb_reaches_page_example() {
    let request = WebPath::from("//x/y//z");
    let crumbs = breadcrumbs(&request);
    assert_eq!(crumbs.last().unwrap().href, format!("/{}", request.to_string()));
}

#[test]
fn sort_is_case_insensitive_for_ascii() {
    let names = vec!["b.jpg", "A.jpg", "c.jpg", "a.md", "B0.jpg"]
        .into_iter()
        .map(String::from)
        .collect();
    let sorted = sort_by_folded_name(names);
    assert_eq!(sorted, vec!["A.jpg", "a.md", "b.jpg", "B0.jpg", "c.jpg"]);
}

#[test]
fn sort_keeps_every_name() {
    let names: Vec<String> = vec!["x", "X", "x", ""].into_iter().map(String::from).collect();
    let mut sorted = sort_by_folded_name(names.clone());
    assert_eq!(sorted[0], "");
    sorted.sort();
    let mut expected = names;
    expected.sort();
    assert_eq!(sorted, expected);
}

#[test]
fn law_same_segments_same_page_example() {
    let r1 = WebPath::from("a/b.jpg");
    let r2 = WebPath::from("/a//b.jpg/");
    let siblings = vec!["a.jpg", "b.jpg", "c.jpg"];
    let v1 = item_view(&r1, &siblings);
    let v2 = item_view(&r2, &siblings);
    assert_eq!(
        (v1.name, v1.public_path, v1.public_content_path, v1.thumbnail_path, v1.prev_path, v1.next_path),
        (v2.name, v2.public_path, v2.public_content_path, v2.thumbnail_path, v2.prev_path, v2.next_path)
    );
    let c1: Vec<String> = breadcrumbs(&r1).into_iter().map(|b| b.href).collect();
    let c2: Vec<String> = breadcrumbs(&r2).into_iter().map(|b| b.href).collect();
    assert_eq!(c1, c2);
}
