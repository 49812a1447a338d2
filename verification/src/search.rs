//! The search for the first picture of a directory tree, depth first and in
//! listing order, as a state machine: the caller opens directories and reads
//! their entries, the machine decides what to do next.

use vstd::prelude::*;

use crate::media::{is_picture_name, is_supported_image_name};
use crate::page::EntryKind;

verus! {

/// What the caller reports back.
pub enum SearchEvent {
    /// Whether the directory could be opened.
    Opened(bool),
    /// The next entry of the innermost open directory; `name` matters for files.
    Entry { kind: EntryKind, name: String },
    /// The innermost open directory has no more entries (or reading failed);
    /// the caller has closed it.
    End,
}

/// The view of an event: names as character sequences.
pub enum SearchEventView {
    Opened(bool),
    Entry(EntryKind, Seq<char>),
    End,
}

impl View for SearchEvent {
    type V = SearchEventView;

    open spec fn view(&self) -> SearchEventView {
        match self {
            SearchEvent::Opened(b) => SearchEventView::Opened(*b),
            SearchEvent::Entry { kind, name } => SearchEventView::Entry(*kind, name@),
            SearchEvent::End => SearchEventView::End,
        }
    }
}

/// What the caller is to do next.
#[derive(Clone, Copy, Debug, PartialEq, Eq, Structural)]
pub enum SearchAction {
    /// Open the start directory (first step) or the sub-directory just read,
    /// and report whether that worked.
    OpenDirectory,
    /// Read the next entry of the innermost open directory.
    ReadEntry,
    /// The entry just read is the first picture: the search ends.
    Found,
    /// There is no picture: the search ends.
    NotFound,
}

/// Where the search stands: how many directories are open, whether it waits
/// for a directory to be opened, and whether it has ended.
#[derive(Clone, Copy, Debug, PartialEq, Eq, Structural)]
pub struct FirstPictureSearch {
    pub depth: usize,
    pub awaiting_open: bool,
    pub finished: bool,
}

/// The event that the search can take in `s`.
pub open spec fn search_event_fits(s: FirstPictureSearch, e: SearchEventView) -> bool {
    !s.finished && (s.awaiting_open <==> e is Opened)
}

/// One transition: an opened directory is read; a directory that cannot be
/// opened, or whose entries are exhausted, hands the search back to the
/// directory around it (the search ends without a picture when there is none);
/// a sub-directory is opened and searched first; a picture file ends the
/// search; any other entry is passed over.
pub open spec fn search_transition(s: FirstPictureSearch, e: SearchEventView) -> (
    FirstPictureSearch,
    SearchAction,
) {
    match e {
        SearchEventView::Opened(true) => (
            FirstPictureSearch { depth: (s.depth + 1) as usize, awaiting_open: false, finished: false },
            SearchAction::ReadEntry,
        ),
        SearchEventView::Opened(false) => if s.depth == 0 {
            (FirstPictureSearch { depth: 0, awaiting_open: false, finished: true }, SearchAction::NotFound)
        } else {
            (
                FirstPictureSearch { depth: s.depth, awaiting_open: false, finished: false },
                SearchAction::ReadEntry,
            )
        },
        SearchEventView::End => if s.depth <= 1 {
            (FirstPictureSearch { depth: 0, awaiting_open: false, finished: true }, SearchAction::NotFound)
        } else {
            (
                FirstPictureSearch {
                    depth: (s.depth - 1) as usize,
                    awaiting_open: false,
                    finished: false,
                },
                SearchAction::ReadEntry,
            )
        },
        SearchEventView::Entry(kind, name) => if kind == EntryKind::Directory {
            (
                FirstPictureSearch { depth: s.depth, awaiting_open: true, finished: false },
                SearchAction::OpenDirectory,
            )
        } else if kind == EntryKind::File && is_picture_name(name) {
            (FirstPictureSearch { depth: s.depth, awaiting_open: false, finished: true }, SearchAction::Found)
        } else {
            (
                FirstPictureSearch { depth: s.depth, awaiting_open: false, finished: false },
                SearchAction::ReadEntry,
            )
        },
    }
}

impl FirstPictureSearch {
    /// The search before anything is opened: open the start directory.
    pub fn start() -> (r: (FirstPictureSearch, SearchAction))
        ensures
            r.0 == (FirstPictureSearch { depth: 0, awaiting_open: true, finished: false }),
            r.1 == SearchAction::OpenDirectory,
    {
        (FirstPictureSearch { depth: 0, awaiting_open: true, finished: false }, SearchAction::OpenDirectory)
    }

    /// Takes the outcome of the last action and says what to do next.
    pub fn step(&mut self, event: SearchEvent) -> (r: SearchAction)
        requires
            search_event_fits(*old(self), event@),
            old(self).depth < usize::MAX,
        ensures
            (*final(self), r) == search_transition(*old(self), event@),
    {
        match event {
            SearchEvent::Opened(opened) => {
                if opened {
                    self.depth = self.depth + 1;
                    self.awaiting_open = false;
                    SearchAction::ReadEntry
                } else if self.depth == 0 {
                    self.awaiting_open = false;
                    self.finished = true;
                    SearchAction::NotFound
                } else {
                    self.awaiting_open = false;
                    SearchAction::ReadEntry
                }
            },
            SearchEvent::End => {
                if self.depth <= 1 {
                    self.depth = 0;
                    self.finished = true;
                    SearchAction::NotFound
                } else {
                    self.depth = self.depth - 1;
                    SearchAction::ReadEntry
                }
            },
            SearchEvent::Entry { kind, name } => {
                match kind {
                    EntryKind::Directory => {
                        self.awaiting_open = true;
                        SearchAction::OpenDirectory
                    },
                    EntryKind::File => {
                        if is_supported_image_name(name.as_str()) {
                            self.finished = true;
                            SearchAction::Found
                        } else {
                            SearchAction::ReadEntry
                        }
                    },
                    EntryKind::Other => SearchAction::ReadEntry,
                }
            },
        }
    }
}


/// A directory as the search meets it: unreadable, or listed with its entries
/// in the order in which they are read (a listing that fails part-way ends
/// where it fails).
pub enum DirTree {
    Unreadable,
    Listed(Seq<DirItem>),
}

/// An entry of a listed directory.
pub enum DirItem {
    Directory(DirTree),
    File(Seq<char>),
    Other,
}

/// The first picture of `t`, depth first in listing order, as the positions of
/// the entries that lead to it.
pub open spec fn first_in_tree(t: DirTree) -> Option<Seq<int>>
    decreases t, 0int,
{
    match t {
        DirTree::Unreadable => None,
        DirTree::Listed(items) => first_in_items(items, 0),
    }
}

/// The first picture among the entries of `items` from position `from` on.
pub open spec fn first_in_items(items: Seq<DirItem>, from: int) -> Option<Seq<int>>
    decreases items, items.len() - from,
{
    if from < 0 || from >= items.len() {
        None
    } else {
        match items[from] {
            DirItem::Directory(sub) => match first_in_tree(sub) {
                Some(p) => Some(seq![from] + p),
                None => first_in_items(items, from + 1),
            },
            DirItem::File(name) => if is_picture_name(name) {
                Some(seq![from])
            } else {
                first_in_items(items, from + 1)
            },
            DirItem::Other => first_in_items(items, from + 1),
        }
    }
}

/// The number of events that reading all of `t` produces.
pub open spec fn steps_tree(t: DirTree) -> nat
    decreases t, 0int,
{
    match t {
        DirTree::Unreadable => 1,
        DirTree::Listed(items) => 1 + steps_items(items, 0),
    }
}

/// The number of events that reading `items` from position `from` on produces.
pub open spec fn steps_items(items: Seq<DirItem>, from: int) -> nat
    decreases items, items.len() - from,
{
    if from < 0 || from >= items.len() {
        1
    } else {
        match items[from] {
            DirItem::Directory(sub) => 1 + steps_tree(sub) + steps_items(items, from + 1),
            _ => 1 + steps_items(items, from + 1),
        }
    }
}

/// The search together with the directories it walks: the listings that are
/// open (with the position of the next entry to read) and the directory it
/// is about to open.
pub struct SearchWorld {
    pub search: FirstPictureSearch,
    pub last: SearchAction,
    pub open: Seq<(Seq<DirItem>, int)>,
    pub pending: DirTree,
}

/// The event that the directories report in `w`, and the directories after it.
pub open spec fn world_event(w: SearchWorld) -> (SearchEventView, SearchWorld) {
    if w.search.awaiting_open {
        match w.pending {
            DirTree::Unreadable => (SearchEventView::Opened(false), w),
            DirTree::Listed(items) => (
                SearchEventView::Opened(true),
                SearchWorld { open: w.open.push((items, 0int)), ..w },
            ),
        }
    } else {
        let top = w.open.last();
        let items = top.0;
        let i = top.1;
        if i < 0 || i >= items.len() {
            (SearchEventView::End, SearchWorld { open: w.open.drop_last(), ..w })
        } else {
            let advanced = w.open.update(w.open.len() - 1, (items, i + 1));
            match items[i] {
                DirItem::Directory(sub) => (
                    SearchEventView::Entry(EntryKind::Directory, Seq::<char>::empty()),
                    SearchWorld { open: advanced, pending: sub, ..w },
                ),
                DirItem::File(name) => (
                    SearchEventView::Entry(EntryKind::File, name),
                    SearchWorld { open: advanced, ..w },
                ),
                DirItem::Other => (
                    SearchEventView::Entry(EntryKind::Other, Seq::<char>::empty()),
                    SearchWorld { open: advanced, ..w },
                ),
            }
        }
    }
}

/// One exchange between the search and the directories.
pub open spec fn world_step(w: SearchWorld) -> SearchWorld {
    let (e, w1) = world_event(w);
    let (s, a) = search_transition(w.search, e);
    SearchWorld { search: s, last: a, ..w1 }
}

/// `n` exchanges, or fewer when the search ends.
pub open spec fn drive_search(w: SearchWorld, n: nat) -> SearchWorld
    decreases n,
{
    if n == 0 || w.search.finished {
        w
    } else {
        drive_search(world_step(w), (n - 1) as nat)
    }
}

/// The positions of the entries being read in the open listings.
pub open spec fn reading_path(open: Seq<(Seq<DirItem>, int)>) -> Seq<int> {
    open.map_values(|o: (Seq<DirItem>, int)| o.1 - 1)
}

proof fn lemma_drive_compose(w: SearchWorld, a: nat, b: nat)
    ensures
        drive_search(w, a + b) == drive_search(drive_search(w, a), b),
    decreases a,
{
    if a == 0 || w.search.finished {
        if w.search.finished {
            assert(drive_search(w, b) == w) by {
                reveal_with_fuel(drive_search, 1);
            }
        }
    } else {
        lemma_drive_compose(world_step(w), (a - 1) as nat, b);
        assert((a + b - 1) as nat == ((a - 1) as nat + b) as nat);
    }
}

proof fn lemma_drive_finished(w: SearchWorld, n: nat)
    requires
        w.search.finished,
    ensures
        drive_search(w, n) == w,
{
}

proof fn lemma_search_tree(t: DirTree, w: SearchWorld)
    requires
        w.search == (FirstPictureSearch { depth: w.open.len() as usize, awaiting_open: true, finished: false }),
        w.pending == t,
        w.open.len() + steps_tree(t) < usize::MAX,
    ensures
        ({
            let w2 = drive_search(w, steps_tree(t));
            match first_in_tree(t) {
                Some(p) => w2.search.finished && w2.last == SearchAction::Found && reading_path(w2.open)
                    == reading_path(w.open) + p,
                None => if w.open.len() == 0 {
                    w2.search.finished && w2.last == SearchAction::NotFound
                } else {
                    w2.search == (FirstPictureSearch {
                        depth: w.open.len() as usize,
                        awaiting_open: false,
                        finished: false,
                    }) && w2.open == w.open
                },
            }
        }),
    decreases t, 0int,
{
    match t {
        DirTree::Unreadable => {
            reveal_with_fuel(drive_search, 2);
        },
        DirTree::Listed(items) => {
            let w1 = world_step(w);
            assert(w1.open == w.open.push((items, 0int)));
            assert(w1.search == (FirstPictureSearch {
                depth: w1.open.len() as usize,
                awaiting_open: false,
                finished: false,
            }));
            lemma_drive_compose(w, 1, steps_items(items, 0));
            reveal_with_fuel(drive_search, 2);
            assert(drive_search(w, 1) == w1);
            assert(w1.open.drop_last() =~= w.open);
            lemma_search_items(items, 0, w1);
        },
    }
}

proof fn lemma_search_items(items: Seq<DirItem>, from: int, w: SearchWorld)
    requires
        0 <= from <= items.len(),
        w.open.len() >= 1,
        w.open.last() == (items, from),
        w.search == (FirstPictureSearch { depth: w.open.len() as usize, awaiting_open: false, finished: false }),
        w.open.len() + steps_items(items, from) < usize::MAX,
    ensures
        ({
            let w2 = drive_search(w, steps_items(items, from));
            match first_in_items(items, from) {
                Some(q) => w2.search.finished && w2.last == SearchAction::Found && reading_path(w2.open)
                    == reading_path(w.open.drop_last()) + q,
                None => if w.open.len() == 1 {
                    w2.search.finished && w2.last == SearchAction::NotFound
                } else {
                    w2.search == (FirstPictureSearch {
                        depth: (w.open.len() - 1) as usize,
                        awaiting_open: false,
                        finished: false,
                    }) && w2.open == w.open.drop_last()
                },
            }
        }),
    decreases items, items.len() - from,
{
    let w1 = world_step(w);
    if from >= items.len() {
        reveal_with_fuel(drive_search, 2);
    } else {
        let rest = steps_items(items, from + 1);
        let advanced = w.open.update(w.open.len() - 1, (items, from + 1));
        assert(reading_path(advanced) =~= reading_path(w.open.drop_last()) + seq![from]);
        match items[from] {
            DirItem::Directory(sub) => {
                assert(w1.open == advanced && w1.pending == sub);
                assert(w1.search == (FirstPictureSearch {
                    depth: w1.open.len() as usize,
                    awaiting_open: true,
                    finished: false,
                }));
                lemma_drive_compose(w, 1, steps_tree(sub) + rest);
                lemma_drive_compose(w1, steps_tree(sub), rest);
                reveal_with_fuel(drive_search, 2);
                assert(drive_search(w, 1) == w1);
                lemma_search_tree(sub, w1);
                let w2 = drive_search(w1, steps_tree(sub));
                match first_in_tree(sub) {
                    Some(p) => {
                        lemma_drive_finished(w2, rest);
                        assert(reading_path(w.open.drop_last()) + seq![from] + p
                            =~= reading_path(w.open.drop_last()) + (seq![from] + p));
                    },
                    None => {
                        assert(w2.open.drop_last() =~= w.open.drop_last());
                        lemma_search_items(items, from + 1, w2);
                    },
                }
            },
            DirItem::File(name) => {
                lemma_drive_compose(w, 1, rest);
                reveal_with_fuel(drive_search, 2);
                assert(drive_search(w, 1) == w1);
                if is_picture_name(name) {
                    lemma_drive_finished(w1, rest);
                } else {
                    assert(w1.open.drop_last() =~= w.open.drop_last());
                    lemma_search_items(items, from + 1, w1);
                }
            },
            DirItem::Other => {
                lemma_drive_compose(w, 1, rest);
                reveal_with_fuel(drive_search, 2);
                assert(drive_search(w, 1) == w1);
                assert(w1.open.drop_last() =~= w.open.drop_last());
                lemma_search_items(items, from + 1, w1);
            },
        }
    }
}

/// Law: started on a directory tree `t` (with fewer entries than `usize`
/// can count), the search answers with the first picture of `t`, depth first
/// in listing order: `Found` at the entry that [`first_in_tree`] names, or
/// `NotFound` when `t` holds no picture.
pub proof fn law_search_finds_first_picture(t: DirTree)
    requires
        steps_tree(t) < usize::MAX,
    ensures
        ({
            let w = SearchWorld {
                search: FirstPictureSearch { depth: 0, awaiting_open: true, finished: false },
                last: SearchAction::OpenDirectory,
                open: Seq::<(Seq<DirItem>, int)>::empty(),
                pending: t,
            };
            let w2 = drive_search(w, steps_tree(t));
            &&& w2.search.finished
            &&& match first_in_tree(t) {
                Some(p) => w2.last == SearchAction::Found && reading_path(w2.open) == p,
                None => w2.last == SearchAction::NotFound,
            }
        }),
{
    let w = SearchWorld {
        search: FirstPictureSearch { depth: 0, awaiting_open: true, finished: false },
        last: SearchAction::OpenDirectory,
        open: Seq::<(Seq<DirItem>, int)>::empty(),
        pending: t,
    };
    lemma_search_tree(t, w);
    assert(reading_path(w.open) =~= Seq::<int>::empty());
    if let Some(p) = first_in_tree(t) {
        assert(Seq::<int>::empty() + p =~= p);
    }
}

} // verus!
