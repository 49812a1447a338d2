use gallery::web_path::WebPath;

fn parts(p: &WebPath) -> Vec<String> {
    p.parts.iter().map(|s| s.to_string()).collect()
}

#[test]
fn from_splits_on_slashes_and_drops_empty_segments() {
    let p = WebPath::from("/albums//2024/summer/");
    assert_eq!(parts(&p), vec!["albums", "2024", "summer"]);
    assert_eq!(p.len(), 3);
}

#[test]
fn from_empty_and_slash_only_give_no_segments() {
    assert_eq!(WebPath::from("").len(), 0);
    assert_eq!(WebPath::from("/").len(), 0);
    assert_eq!(WebPath::from("///").len(), 0);
    assert_eq!(WebPath::from("").to_string(), "");
}

#[test]
fn to_string_joins_with_slashes() {
    let p = WebPath::from("a/b/c.jpg");
    assert_eq!(p.to_string(), "a/b/c.jpg");
    assert_eq!(WebPath::from("single").to_string(), "single");
}

#[test]
fn non_ascii_segments_are_kept_whole() {
    let p = WebPath::from("ä/日本/ß.png");
    assert_eq!(parts(&p), vec!["ä", "日本", "ß.png"]);
    assert_eq!(p.to_string(), "ä/日本/ß.png");
}

#[test]
fn law_read_after_write_example() {
    let first = WebPath::from("//x//y/z//");
    let written = first.to_string();
    assert_eq!(written, "x/y/z");
    let again = WebPath::from(written.as_str());
    assert_eq!(parts(&again), parts(&first));
}

#[test]
fn law_read_concat_example() {
    let a = "a//b/";
    let b = "/c/d";
    let joined = format!("{}/{}", a, b);
    let whole = WebPath::from(joined.as_str());
    let mut expected = parts(&WebPath::from(a));
    expected.extend(parts(&WebPath::from(b)));
    assert_eq!(parts(&whole), expected);
}

#[test]
fn push_last_parent() {
    let mut p = WebPath::from("a/b");
    p.push("c.jpg");
    assert_eq!(p.last(), Some("c.jpg"));
    assert_eq!(p.to_string(), "a/b/c.jpg");
    let parent = p.parent();
    assert_eq!(parent.to_string(), "a/b");
    assert_eq!(WebPath::from("").parent().len(), 0);
    assert_eq!(WebPath::from("").last(), None);
}

#[test]
fn extend_appends_segments() {
    let mut p = WebPath::from("content");
    p.extend(&WebPath::from("x/y"));
    assert_eq!(p.to_string(), "content/x/y");
}

#[test]
fn clone_keeps_segments() {
    let p = WebPath::from("a/b");
    let q = p.clone();
    assert_eq!(parts(&q), vec!["a", "b"]);
}

#[test]
fn deref_gives_the_segment_vector() {
    let mut p = WebPath::from("a/b");
    assert_eq!(p.iter().count(), 2);
    assert_eq!(p.first(), Some(&"a"));
    p.push("c");
    let mut q = WebPath::from("d");
    p.append(&mut q.parts);
    assert_eq!(p.to_string(), "a/b/c/d");
    assert!(q.is_empty());
}
