use gallery::page::EntryKind;
use gallery::search::{FirstPictureSearch, SearchAction, SearchEvent};

enum Node {
    Dir(Option<Vec<Node>>),
    File(&'static str),
    Other,
}

/// Drives the search over an in-memory tree and returns the positions of the
/// entry it answers with.
fn run(root: Option<Vec<Node>>) -> Option<Vec<usize>> {
    let (mut search, mut action) = FirstPictureSearch::start();
    let mut open: Vec<(&Vec<Node>, usize)> = vec![];
    let mut pending: Option<&Option<Vec<Node>>> = Some(&root);
    loop {
        let event = match action {
            SearchAction::OpenDirectory => match pending.take().unwrap() {
                Some(items) => {
                    open.push((items, 0));
                    SearchEvent::Opened(true)
                }
                None => SearchEvent::Opened(false),
            },
            SearchAction::ReadEntry => {
                let top = open.last_mut().unwrap();
                if top.1 >= top.0.len() {
                    open.pop();
                    SearchEvent::End
                } else {
                    let item = &top.0[top.1];
                    top.1 += 1;
                    match item {
                        Node::Dir(sub) => {
                            pending = Some(sub);
                            SearchEvent::Entry { kind: EntryKind::Directory, name: String::new() }
                        }
                        Node::File(n) => SearchEvent::Entry { kind: EntryKind::File, name: n.to_string() },
                        Node::Other => SearchEvent::Entry { kind: EntryKind::Other, name: String::new() },
                    }
                }
            }
            SearchAction::Found => return Some(open.iter().map(|o| o.1 - 1).collect()),
            SearchAction::NotFound => return None,
        };
        action = search.step(event);
    }
}

#[test]
fn unreadable_start_directory_has_no_picture() {
    assert_eq!(run(None), None);
}

#[test]
fn empty_tree_has_no_picture() {
    assert_eq!(run(Some(vec![])), None);
    assert_eq!(run(Some(vec![Node::Dir(Some(vec![])), Node::Dir(None), Node::Other])), None);
}

#[test]
fn first_picture_depth_first_in_listing_order() {
    let tree = Some(vec![
        Node::File("notes.txt"),
        Node::Dir(Some(vec![Node::Other, Node::Dir(Some(vec![Node::File("deep.PNG")]))])),
        Node::File("top.jpg"),
    ]);
    assert_eq!(run(tree), Some(vec![1, 1, 0]));
}

#[test]
fn pictures_after_an_unreadable_sub_directory_are_found() {
    let tree = Some(vec![Node::Dir(None), Node::File("a.gif")]);
    assert_eq!(run(tree), Some(vec![1]));
}
