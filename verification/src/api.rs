//! The JSON directory listing of the gallery's programming interface.

use vstd::prelude::*;
use vstd::string::*;

use crate::markup::{markdown_html, markdown_to_html};
use crate::page::EntryKind;
use crate::text::{chars_eq, chars_of};

verus! {

/// A directory entry as the listing sees it.
pub struct DirectoryEntry {
    /// The entry's name, when it is valid Unicode.
    pub name: Option<String>,
    pub kind: EntryKind,
    /// For a `readme.md` file: its contents, when they are valid UTF-8.
    pub readme_text: Option<String>,
}

/// The JSON body of a directory listing.
pub struct DirectoryListing {
    pub info: Option<String>,
    pub files: Vec<String>,
    pub directories: Vec<String>,
}

/// The name of the file that holds a directory's description.
pub open spec fn readme_name() -> Seq<char> {
    "readme.md"@
}

/// Whether a file called `name` is the directory's description.
pub fn is_readme_name(name: &str) -> (r: bool)
    ensures
        r == (name@ == readme_name()),
{
    let a = chars_of(name);
    let b = chars_of("readme.md");
    chars_eq(&a, &b)
}

/// `e` is the description file.
pub open spec fn is_readme(e: DirectoryEntry) -> bool {
    e.kind == EntryKind::File && e.name is Some && e.name->0@ == readme_name()
}

/// The names of the sub-directories, in entry order.
pub open spec fn listed_directories(es: Seq<DirectoryEntry>) -> Seq<Seq<char>>
    decreases es.len(),
{
    if es.len() == 0 {
        Seq::<Seq<char>>::empty()
    } else {
        let rest = listed_directories(es.drop_last());
        let e = es.last();
        if e.kind == EntryKind::Directory && e.name is Some {
            rest.push(e.name->0@)
        } else {
            rest
        }
    }
}

/// The addresses of the files other than the description, in entry order:
/// `/content/` followed by the name.
pub open spec fn listed_files(es: Seq<DirectoryEntry>) -> Seq<Seq<char>>
    decreases es.len(),
{
    if es.len() == 0 {
        Seq::<Seq<char>>::empty()
    } else {
        let rest = listed_files(es.drop_last());
        let e = es.last();
        if e.kind == EntryKind::File && e.name is Some && !is_readme(e) {
            rest.push("/content/"@ + e.name->0@)
        } else {
            rest
        }
    }
}

/// The text of the last description file whose contents are valid UTF-8.
pub open spec fn readme_source(es: Seq<DirectoryEntry>) -> Option<Seq<char>>
    decreases es.len(),
{
    if es.len() == 0 {
        None
    } else {
        let e = es.last();
        if is_readme(e) && e.readme_text is Some {
            Some(e.readme_text->0@)
        } else {
            readme_source(es.drop_last())
        }
    }
}

/// The position of the description text that the listing renders.
pub fn readme_position(entries: &Vec<DirectoryEntry>) -> (r: Option<usize>)
    ensures
        match r {
            Some(i) => i < entries@.len() && entries@[i as int].readme_text is Some
                && readme_source(entries@) == Some(entries@[i as int].readme_text->0@),
            None => readme_source(entries@) is None,
        },
{
    let mut found: Option<usize> = None;
    let mut i: usize = 0;
    while i < entries.len()
        invariant
            i <= entries@.len(),
            match found {
                Some(k) => k < i && entries@[k as int].readme_text is Some && readme_source(
                    entries@.take(i as int),
                ) == Some(entries@[k as int].readme_text->0@),
                None => readme_source(entries@.take(i as int)) is None,
            },
        decreases entries@.len() - i,
    {
        let e = &entries[i];
        let mut hit = false;
        if e.kind == EntryKind::File && e.readme_text.is_some() {
            match &e.name {
                Some(n) => {
                    hit = is_readme_name(n.as_str());
                },
                None => {},
            }
        }
        assert(entries@.take(i + 1).drop_last() =~= entries@.take(i as int));
        assert(entries@.take(i + 1).last() == entries@[i as int]);
        if hit {
            found = Some(i);
        }
        i = i + 1;
    }
    assert(entries@.take(entries@.len() as int) =~= entries@);
    found
}

/// The listing of `entries`, with `info` as its description: the
/// sub-directories by name and the other files by address, in entry order.
pub fn assemble_directory_listing(entries: &Vec<DirectoryEntry>, info: Option<String>) -> (r:
    DirectoryListing)
    ensures
        r.info == info,
        r.directories@.map_values(|d: String| d@) == listed_directories(entries@),
        r.files@.map_values(|f: String| f@) == listed_files(entries@),
{
    let mut files: Vec<String> = Vec::new();
    let mut directories: Vec<String> = Vec::new();
    let mut i: usize = 0;
    while i < entries.len()
        invariant
            i <= entries@.len(),
            directories@.map_values(|d: String| d@) == listed_directories(entries@.take(i as int)),
            files@.map_values(|f: String| f@) == listed_files(entries@.take(i as int)),
        decreases entries@.len() - i,
    {
        let e = &entries[i];
        let ghost d0 = directories@;
        let ghost f0 = files@;
        assert(entries@.take(i + 1).drop_last() =~= entries@.take(i as int));
        assert(entries@.take(i + 1).last() == entries@[i as int]);
        match &e.name {
            Some(n) => {
                if e.kind == EntryKind::Directory {
                    directories.push(n.clone());
                    assert(directories@.map_values(|d: String| d@) =~= d0.map_values(
                        |d: String| d@,
                    ).push(n@));
                }
                if e.kind == EntryKind::File && !is_readme_name(n.as_str()) {
                    let mut path = String::from_str("/content/");
                    path.append(n.as_str());
                    files.push(path);
                    assert(files@.map_values(|f: String| f@) =~= f0.map_values(|f: String| f@).push(
                        "/content/"@ + n@,
                    ));
                }
            },
            None => {},
        }
        i = i + 1;
    }
    assert(entries@.take(entries@.len() as int) =~= entries@);
    DirectoryListing { info, files, directories }
}

/// The listing of `entries`: the sub-directories by name, the other files by
/// address (in entry order), and the HTML rendering of the description, if
/// there is one with a readable text.
pub fn directory_listing(entries: &Vec<DirectoryEntry>) -> (r: DirectoryListing)
    ensures
        match readme_source(entries@) {
            Some(t) => r.info is Some && r.info->0@ == markdown_html(t),
            None => r.info is None,
        },
        r.directories@.map_values(|d: String| d@) == listed_directories(entries@),
        r.files@.map_values(|f: String| f@) == listed_files(entries@),
{
    let info = match readme_position(entries) {
        Some(i) => match &entries[i].readme_text {
            Some(t) => Some(markdown_to_html(t.as_str())),
            None => None,
        },
        None => None,
    };
    assemble_directory_listing(entries, info)
}


/// Law: the JSON listing lists every regular file with a readable name other
/// than `readme.md`, whatever its extension, as `/content/` followed by the
/// name, in entry order; it lists every sub-directory with a readable name by
/// name; and its description comes from the last readable `readme.md` file.
pub proof fn law_directory_listing(es: Seq<DirectoryEntry>, e: DirectoryEntry)
    ensures
        listed_files(Seq::<DirectoryEntry>::empty()).len() == 0,
        listed_directories(Seq::<DirectoryEntry>::empty()).len() == 0,
        readme_source(Seq::<DirectoryEntry>::empty()) is None,
        listed_files(es.push(e)) == (if e.kind == EntryKind::File && e.name is Some && e.name->0@
            != "readme.md"@ {
            listed_files(es).push("/content/"@ + e.name->0@)
        } else {
            listed_files(es)
        }),
        listed_directories(es.push(e)) == (if e.kind == EntryKind::Directory && e.name is Some {
            listed_directories(es).push(e.name->0@)
        } else {
            listed_directories(es)
        }),
        readme_source(es.push(e)) == (if e.kind == EntryKind::File && e.name is Some && e.name->0@
            == "readme.md"@ && e.readme_text is Some {
            Some(e.readme_text->0@)
        } else {
            readme_source(es)
        }),
{
    assert(es.push(e).drop_last() =~= es);
    assert(es.push(e).last() == e);
}

} // verus!
