//! What the gallery pages show: the view of one picture with links to its
//! neighbours, and the listing of a directory (its pictures, sub-directories,
//! information text and breadcrumbs).

use vstd::prelude::*;
use vstd::string::*;

use crate::text::{chars_of, fold_ascii, fold_ascii_exec, has_suffix, has_suffix_exec, lemma_lex_le_lt, lex_le, lex_lt, lemma_lex_total, lemma_lex_transitive, lex_lt_exec};
use crate::markup::{markdown_html, markdown_to_html};
use crate::web_path::{join_parts, path_parts, WebPath};

verus! {

/// A picture as the page templates show it.
pub struct File {
    pub name: String,
    pub public_path: String,
    pub public_content_path: String,
    pub thumbnail_path: String,
    pub next_path: String,
    pub prev_path: String,
    pub parent_path: String,
    pub next_thumb_path: String,
    pub prev_thumb_path: String,
}

/// A sub-directory as the listing shows it.
pub struct Directory {
    pub name: String,
    pub public_path: String,
    pub thumbnail_path: String,
}

/// One step of the trail of links from the gallery root to a directory.
pub struct Breadcrumb {
    pub href: String,
    pub name: String,
}

/// The views of a list of names.
pub open spec fn name_views<'a>(names: Seq<&'a str>) -> Seq<Seq<char>> {
    names.map_values(|n: &'a str| n@)
}

/// `p` is the greatest of `names` that precedes `x`.
pub open spec fn is_predecessor(names: Seq<Seq<char>>, x: Seq<char>, p: Seq<char>) -> bool {
    &&& names.contains(p)
    &&& lex_lt(p, x)
    &&& forall|i: int| 0 <= i < names.len() && lex_lt(#[trigger] names[i], x) ==> lex_le(names[i], p)
}

/// `s` is the least of `names` that follows `x`.
pub open spec fn is_successor(names: Seq<Seq<char>>, x: Seq<char>, s: Seq<char>) -> bool {
    &&& names.contains(s)
    &&& lex_lt(x, s)
    &&& forall|i: int| 0 <= i < names.len() && lex_lt(x, #[trigger] names[i]) ==> lex_le(s, names[i])
}

/// The name just before `x` in the order of `names`, if any name precedes it.
pub open spec fn predecessor(names: Seq<Seq<char>>, x: Seq<char>) -> Option<Seq<char>> {
    if exists|p: Seq<char>| is_predecessor(names, x, p) {
        Some(choose|p: Seq<char>| is_predecessor(names, x, p))
    } else {
        None
    }
}

/// The name just after `x` in the order of `names`, if any name follows it.
pub open spec fn successor(names: Seq<Seq<char>>, x: Seq<char>) -> Option<Seq<char>> {
    if exists|s: Seq<char>| is_successor(names, x, s) {
        Some(choose|s: Seq<char>| is_successor(names, x, s))
    } else {
        None
    }
}

proof fn lemma_predecessor_unique(names: Seq<Seq<char>>, x: Seq<char>, p: Seq<char>)
    requires
        is_predecessor(names, x, p),
    ensures
        predecessor(names, x) == Some(p),
{
    let q = choose|q: Seq<char>| is_predecessor(names, x, q);
    assert(is_predecessor(names, x, q));
    let ip = choose|i: int| 0 <= i < names.len() && names[i] == p;
    let iq = choose|i: int| 0 <= i < names.len() && names[i] == q;
    assert(lex_le(names[ip], q));
    assert(lex_le(names[iq], p));
    lemma_lex_total(p, q);
}

proof fn lemma_successor_unique(names: Seq<Seq<char>>, x: Seq<char>, s: Seq<char>)
    requires
        is_successor(names, x, s),
    ensures
        successor(names, x) == Some(s),
{
    let q = choose|q: Seq<char>| is_successor(names, x, q);
    assert(is_successor(names, x, q));
    let ip = choose|i: int| 0 <= i < names.len() && names[i] == s;
    let iq = choose|i: int| 0 <= i < names.len() && names[i] == q;
    assert(lex_le(s, names[iq]));
    assert(lex_le(q, names[ip]));
    lemma_lex_total(s, q);
}

/// The positions in `names` of the names just before and just after `current`
/// in lexicographic order (by character value, which for UTF-8 text is the
/// byte order of file names).
pub fn neighbours(names: &Vec<&str>, current: &str) -> (r: (Option<usize>, Option<usize>))
    ensures
        match r.0 {
            Some(i) => i < names@.len() && predecessor(name_views(names@), current@) == Some(
                names@[i as int]@,
            ),
            None => predecessor(name_views(names@), current@) is None,
        },
        match r.1 {
            Some(i) => i < names@.len() && successor(name_views(names@), current@) == Some(
                names@[i as int]@,
            ),
            None => successor(name_views(names@), current@) is None,
        },
{
    let ghost views = name_views(names@);
    let cur = chars_of(current);
    let mut prev: Option<usize> = None;
    let mut prev_chars: Vec<char> = Vec::new();
    let mut next: Option<usize> = None;
    let mut next_chars: Vec<char> = Vec::new();
    let mut i: usize = 0;
    while i < names.len()
        invariant
            i <= names@.len(),
            views == name_views(names@),
            cur@ == current@,
            match prev {
                Some(j) => j < i && prev_chars@ == views[j as int] && lex_lt(prev_chars@, cur@)
                    && forall|k: int|
                    0 <= k < i && lex_lt(#[trigger] views[k], cur@) ==> lex_le(views[k], prev_chars@),
                None => forall|k: int| 0 <= k < i ==> !lex_lt(#[trigger] views[k], cur@),
            },
            match next {
                Some(j) => j < i && next_chars@ == views[j as int] && lex_lt(cur@, next_chars@)
                    && forall|k: int|
                    0 <= k < i && lex_lt(cur@, #[trigger] views[k]) ==> lex_le(next_chars@, views[k]),
                None => forall|k: int| 0 <= k < i ==> !lex_lt(cur@, #[trigger] views[k]),
            },
        decreases names@.len() - i,
    {
        let c = chars_of(names[i]);
        assert(c@ == views[i as int]);
        if lex_lt_exec(&c, &cur) {
            proof {
                lemma_lex_total(c@, cur@);
            }
            let better = match prev {
                None => true,
                Some(_) => lex_lt_exec(&prev_chars, &c),
            };
            if better {
                proof {
                    if let Some(j) = prev {
                        assert forall|k: int|
                            0 <= k < i + 1 && lex_lt(#[trigger] views[k], cur@) implies lex_le(
                            views[k],
                            c@,
                        ) by {
                            if k < i && lex_lt(views[k], prev_chars@) {
                                lemma_lex_transitive(views[k], prev_chars@, c@);
                            }
                        }
                    }
                }
                prev = Some(i);
                prev_chars = c;
            } else {
                proof {
                    lemma_lex_total(prev_chars@, c@);
                }
            }
        } else if lex_lt_exec(&cur, &c) {
            let better = match next {
                None => true,
                Some(_) => lex_lt_exec(&c, &next_chars),
            };
            if better {
                proof {
                    if let Some(j) = next {
                        assert forall|k: int|
                            0 <= k < i + 1 && lex_lt(cur@, #[trigger] views[k]) implies lex_le(
                            c@,
                            views[k],
                        ) by {
                            if k < i && lex_lt(next_chars@, views[k]) {
                                lemma_lex_transitive(c@, next_chars@, views[k]);
                            }
                        }
                    }
                }
                next = Some(i);
                next_chars = c;
            } else {
                proof {
                    lemma_lex_total(next_chars@, c@);
                }
            }
        }
        i = i + 1;
    }
    proof {
        match prev {
            Some(j) => {
                assert(views[j as int] == names@[j as int]@);
                assert(views.contains(prev_chars@));
                lemma_predecessor_unique(views, cur@, prev_chars@);
            },
            None => {
                if exists|p: Seq<char>| is_predecessor(views, cur@, p) {
                    let p = choose|p: Seq<char>| is_predecessor(views, cur@, p);
                    let k = choose|k: int| 0 <= k < views.len() && views[k] == p;
                    assert(!lex_lt(views[k], cur@));
                }
            },
        }
        match next {
            Some(j) => {
                assert(views[j as int] == names@[j as int]@);
                assert(views.contains(next_chars@));
                lemma_successor_unique(views, cur@, next_chars@);
            },
            None => {
                if exists|s: Seq<char>| is_successor(views, cur@, s) {
                    let s = choose|s: Seq<char>| is_successor(views, cur@, s);
                    let k = choose|k: int| 0 <= k < views.len() && views[k] == s;
                    assert(!lex_lt(cur@, views[k]));
                }
            },
        }
    }
    (prev, next)
}


/// `parts` below the top-level directory `root`.
pub open spec fn below(root: Seq<char>, parts: Seq<Seq<char>>) -> Seq<Seq<char>> {
    seq![root] + parts
}

/// The path `root/parts...`.
pub fn rooted<'a>(root: &'a str, parts: &WebPath<'a>) -> (r: WebPath<'a>)
    ensures
        r@ == below(root@, parts@),
{
    let mut r = WebPath { parts: Vec::new() };
    r.push(root);
    r.extend(parts);
    assert(r@ =~= below(root@, parts@));
    r
}

/// The links of a neighbouring picture `name` in the directory `parent`: its
/// page and its thumbnail.
pub open spec fn neighbour_links(parent: Seq<Seq<char>>, name: Option<Seq<char>>) -> (Seq<char>, Seq<char>) {
    match name {
        Some(n) => (join_parts(parent.push(n)), join_parts(below("thumb"@, parent.push(n)))),
        None => (Seq::<char>::empty(), Seq::<char>::empty()),
    }
}

fn neighbour_paths<'a>(parent: &WebPath<'a>, name: Option<&'a str>) -> (r: (String, String))
    ensures
        (r.0@, r.1@) == neighbour_links(
            parent@,
            match name {
                Some(n) => Some(n@),
                None => None,
            },
        ),
{
    match name {
        Some(n) => {
            let mut page = parent.clone();
            page.push(n);
            let thumb = rooted("thumb", &page);
            (page.to_string(), thumb.to_string())
        },
        None => (String::new(), String::new()),
    }
}

/// The texts that a picture shows, in field order: name, page, picture,
/// thumbnail, next page, previous page, directory, next thumbnail, previous
/// thumbnail.
pub open spec fn file_view(f: File) -> Seq<Seq<char>> {
    seq![
        f.name@,
        f.public_path@,
        f.public_content_path@,
        f.thumbnail_path@,
        f.next_path@,
        f.prev_path@,
        f.parent_path@,
        f.next_thumb_path@,
        f.prev_thumb_path@,
    ]
}

/// The texts of the picture view of `request` among the files `siblings`,
/// in the order of [`file_view`].
pub open spec fn item_page(request: Seq<Seq<char>>, siblings: Seq<Seq<char>>) -> Seq<Seq<char>> {
    let parent = request.drop_last();
    let prev = neighbour_links(parent, predecessor(siblings, request.last()));
    let next = neighbour_links(parent, successor(siblings, request.last()));
    seq![
        request.last(),
        join_parts(request),
        join_parts(below("content"@, request)),
        join_parts(below("thumb"@, request)),
        next.0,
        prev.0,
        join_parts(parent),
        next.1,
        prev.1,
    ]
}

/// The page of the picture that `request` names, in a directory whose regular
/// files are called `siblings`: its name, its page, picture and thumbnail
/// addresses, its directory, and the pages and thumbnails of the pictures just
/// before and just after it in name order (empty when there is none).
pub fn item_view<'a>(request: &WebPath<'a>, siblings: &Vec<&'a str>) -> (r: File)
    requires
        request@.len() > 0,
        name_views(siblings@).contains(request@.last()),
    ensures
        r.name@ == request@.last(),
        r.public_path@ == join_parts(request@),
        r.public_content_path@ == join_parts(below("content"@, request@)),
        r.thumbnail_path@ == join_parts(below("thumb"@, request@)),
        r.parent_path@ == join_parts(request@.drop_last()),
        (r.prev_path@, r.prev_thumb_path@) == neighbour_links(
            request@.drop_last(),
            predecessor(name_views(siblings@), request@.last()),
        ),
        (r.next_path@, r.next_thumb_path@) == neighbour_links(
            request@.drop_last(),
            successor(name_views(siblings@), request@.last()),
        ),
        file_view(r) == item_page(request@, name_views(siblings@)),
        match predecessor(name_views(siblings@), request@.last()) {
            Some(p) => r.prev_path@ == join_parts(request@.drop_last().push(p))
                && r.prev_thumb_path@ == join_parts(seq!["thumb"@] + request@.drop_last().push(p)),
            None => r.prev_path@.len() == 0 && r.prev_thumb_path@.len() == 0,
        },
        match successor(name_views(siblings@), request@.last()) {
            Some(q) => r.next_path@ == join_parts(request@.drop_last().push(q))
                && r.next_thumb_path@ == join_parts(seq!["thumb"@] + request@.drop_last().push(q)),
            None => r.next_path@.len() == 0 && r.next_thumb_path@.len() == 0,
        },
{
    let name = match request.last() {
        Some(n) => n,
        None => "",
    };
    let parent = request.parent();
    let (before, after) = neighbours(siblings, name);
    let prev_name = match before {
        Some(i) => Some(siblings[i]),
        None => None,
    };
    let next_name = match after {
        Some(i) => Some(siblings[i]),
        None => None,
    };
    let (prev_path, prev_thumb_path) = neighbour_paths(&parent, prev_name);
    let (next_path, next_thumb_path) = neighbour_paths(&parent, next_name);
    let content = rooted("content", request);
    let thumb = rooted("thumb", request);
    proof {
        let parent_view = request@.drop_last();
        match predecessor(name_views(siblings@), request@.last()) {
            Some(p) => law_neighbour_link(parent_view, p),
            None => law_neighbour_link(parent_view, Seq::<char>::empty()),
        }
        match successor(name_views(siblings@), request@.last()) {
            Some(q) => law_neighbour_link(parent_view, q),
            None => law_neighbour_link(parent_view, Seq::<char>::empty()),
        }
    }
    let r = File {
        name: String::from_str(name),
        public_path: request.to_string(),
        public_content_path: content.to_string(),
        thumbnail_path: thumb.to_string(),
        next_path,
        prev_path,
        parent_path: parent.to_string(),
        next_thumb_path,
        prev_thumb_path,
    };
    assert(file_view(r) =~= item_page(request@, name_views(siblings@)));
    r
}


/// Files whose name ends in `.md` hold the information text of a listing
/// instead of being listed.
pub open spec fn is_info_name(name: Seq<char>) -> bool {
    has_suffix(name, ".md"@)
}

/// Whether the file called `name` holds information text (ends in `.md`).
pub fn is_info_file(name: &str) -> (r: bool)
    ensures
        r == is_info_name(name@),
{
    let chars = chars_of(name);
    let suffix = chars_of(".md");
    has_suffix_exec(&chars, &suffix)
}

/// The texts of the listing entry of the picture `name` in the directory
/// `request`, in the order of [`file_view`]: its page, picture and thumbnail
/// addresses, and no neighbour links.
pub open spec fn listing_entry(request: Seq<Seq<char>>, name: Seq<char>) -> Seq<Seq<char>> {
    seq![
        name,
        join_parts(request.push(name)),
        join_parts(below("content"@, request.push(name))),
        join_parts(below("thumb"@, request.push(name))),
        Seq::<char>::empty(),
        Seq::<char>::empty(),
        Seq::<char>::empty(),
        Seq::<char>::empty(),
        Seq::<char>::empty(),
    ]
}

/// `f` shows the picture `name` of the directory `request` in a listing.
pub open spec fn is_listing_file(f: File, request: Seq<Seq<char>>, name: Seq<char>) -> bool {
    file_view(f) == listing_entry(request, name)
}

/// The listing entry of the picture `name` in the directory `request`.
pub fn listing_file<'a>(request: &WebPath<'a>, name: &'a str) -> (r: File)
    ensures
        is_listing_file(r, request@, name@),
{
    let mut page = request.clone();
    page.push(name);
    let content = rooted("content", &page);
    let thumb = rooted("thumb", &page);
    let r = File {
        name: String::from_str(name),
        public_path: page.to_string(),
        public_content_path: content.to_string(),
        thumbnail_path: thumb.to_string(),
        next_path: String::new(),
        prev_path: String::new(),
        parent_path: String::new(),
        next_thumb_path: String::new(),
        prev_thumb_path: String::new(),
    };
    assert(file_view(r) =~= listing_entry(request@, name@));
    r
}

/// The names that a listing shows as pictures: all but the information files,
/// in the given order.
pub open spec fn shown_names(names: Seq<Seq<char>>) -> Seq<Seq<char>> {
    names.filter(|n: Seq<char>| !is_info_name(n))
}

/// The listing entries of the files `names` of the directory `request`, in
/// order, leaving out the information files.
pub fn listing_files<'a>(request: &WebPath<'a>, names: &Vec<&'a str>) -> (r: Vec<File>)
    ensures
        r@.len() == shown_names(name_views(names@)).len(),
        forall|i: int|
            0 <= i < r@.len() ==> is_listing_file(
                #[trigger] r@[i],
                request@,
                shown_names(name_views(names@))[i],
            ),
{
    let ghost views = name_views(names@);
    let mut r: Vec<File> = Vec::new();
    let mut i: usize = 0;
    while i < names.len()
        invariant
            i <= names@.len(),
            views == name_views(names@),
            r@.len() == shown_names(views.take(i as int)).len(),
            forall|k: int|
                0 <= k < r@.len() ==> is_listing_file(
                    #[trigger] r@[k],
                    request@,
                    shown_names(views.take(i as int))[k],
                ),
        decreases names@.len() - i,
    {
        let ghost before = shown_names(views.take(i as int));
        proof {
            assert(views.take(i + 1).drop_last() =~= views.take(i as int));
            assert(views.take(i + 1).last() == names@[i as int]@);
            reveal_with_fuel(Seq::filter, 1);
        }
        if !is_info_file(names[i]) {
            let f = listing_file(request, names[i]);
            r.push(f);
            assert(shown_names(views.take(i + 1)) == before.push(names@[i as int]@));
        } else {
            assert(shown_names(views.take(i + 1)) == before);
        }
        i = i + 1;
    }
    assert(views.take(names@.len() as int) =~= views);
    r
}

/// The parts `ps`, each preceded by `/`.
pub open spec fn slash_prefixed(ps: Seq<Seq<char>>) -> Seq<char>
    decreases ps.len(),
{
    if ps.len() == 0 {
        Seq::<char>::empty()
    } else {
        slash_prefixed(ps.drop_last()) + seq!['/'] + ps.last()
    }
}

fn slash_prefixed_exec(ps: &Vec<&str>, from: usize) -> (r: String)
    requires
        from <= ps@.len(),
    ensures
        r@ == slash_prefixed(name_views(ps@).skip(from as int)),
{
    let ghost views = name_views(ps@);
    let mut r = String::new();
    let mut i: usize = from;
    while i < ps.len()
        invariant
            from <= i <= ps@.len(),
            views == name_views(ps@),
            r@ == slash_prefixed(views.subrange(from as int, i as int)),
        decreases ps@.len() - i,
    {
        let ghost r0 = r@;
        proof {
            reveal_strlit("/");
        }
        r.append("/");
        r.append(ps[i]);
        proof {
            let now = views.subrange(from as int, i + 1);
            assert(now.drop_last() =~= views.subrange(from as int, i as int));
            assert(now.last() == ps@[i as int]@);
            assert(r@ =~= r0 + seq!['/'] + ps@[i as int]@);
        }
        i = i + 1;
    }
    assert(views.subrange(from as int, ps@.len() as int) =~= views.skip(from as int));
    r
}

/// The thumbnail address of a directory whose first picture was found at
/// the path with components `found` (the first of which is the gallery's
/// content directory), or the folder icon when none was found.
pub open spec fn directory_thumbnail(found: Option<Seq<Seq<char>>>) -> Seq<char> {
    match found {
        Some(c) => if c.len() <= 1 {
            "/thumb/"@
        } else {
            "/thumb"@ + slash_prefixed(c.skip(1))
        },
        None => "/static/material/folder.svg"@,
    }
}

/// The listing entry of the sub-directory `name` of the directory `request`,
/// whose first picture (if any) lies at the path with components `found`.
pub fn directory_record<'a>(request: &WebPath<'a>, name: &'a str, found: Option<&Vec<&str>>) -> (r:
    Directory)
    ensures
        r.name@ == name@,
        r.public_path@ == join_parts(request@.push(name@)),
        r.thumbnail_path@ == directory_thumbnail(
            match found {
                Some(c) => Some(name_views(c@)),
                None => None,
            },
        ),
        match found {
            Some(c) => c@.len() >= 2 ==> r.thumbnail_path@ == "/thumb/"@ + join_parts(
                name_views(c@).skip(1),
            ),
            None => r.thumbnail_path@ == "/static/material/folder.svg"@,
        },
{
    let mut page = request.clone();
    page.push(name);
    let thumbnail_path = match found {
        Some(c) => {
            if c.len() <= 1 {
                String::from_str("/thumb/")
            } else {
                let mut t = String::from_str("/thumb");
                let rest = slash_prefixed_exec(c, 1);
                t.append(rest.as_str());
                t
            }
        },
        None => String::from_str("/static/material/folder.svg"),
    };
    proof {
        match found {
            Some(c) => law_directory_thumbnail(name_views(c@)),
            None => {},
        }
    }
    Directory { name: String::from_str(name), public_path: page.to_string(), thumbnail_path }
}

/// The trail of links to the directory `request`: one per segment, named by
/// the segment and linking to `/` followed by the segments up to it.
pub fn breadcrumbs(request: &WebPath) -> (r: Vec<Breadcrumb>)
    ensures
        r@.len() == request@.len(),
        forall|i: int|
            0 <= i < r@.len() ==> {
                &&& (#[trigger] r@[i]).name@ == request@[i]
                &&& r@[i].href@ == slash_prefixed(request@.take(i + 1))
            },
        r@.map_values(|b: Breadcrumb| b.href@) == breadcrumb_links(request@),
{
    let mut r: Vec<Breadcrumb> = Vec::new();
    let mut href = String::new();
    let mut i: usize = 0;
    while i < request.parts.len()
        invariant
            i <= request.parts@.len(),
            r@.len() == i,
            href@ == slash_prefixed(request@.take(i as int)),
            forall|k: int|
                0 <= k < i ==> {
                    &&& (#[trigger] r@[k]).name@ == request@[k]
                    &&& r@[k].href@ == slash_prefixed(request@.take(k + 1))
                },
        decreases request.parts@.len() - i,
    {
        let part = request.parts[i];
        let ghost h0 = href@;
        proof {
            reveal_strlit("/");
        }
        href.append("/");
        href.append(part);
        proof {
            let now = request@.take(i + 1);
            assert(now.drop_last() =~= request@.take(i as int));
            assert(now.last() == part@);
            assert(href@ =~= h0 + seq!['/'] + part@);
        }
        r.push(Breadcrumb { href: href.clone(), name: String::from_str(part) });
        i = i + 1;
    }
    r
}


/// The listing order: by name, ASCII letters compared case-insensitively.
pub open spec fn folded_le(a: Seq<char>, b: Seq<char>) -> bool {
    lex_le(fold_ascii(a), fold_ascii(b))
}

/// `s` is in listing order.
pub open spec fn sorted_by_folded_name(s: Seq<String>) -> bool {
    forall|i: int, j: int| 0 <= i < j < s.len() ==> folded_le(#[trigger] s[i]@, #[trigger] s[j]@)
}

proof fn lemma_insert_multiset<A>(s: Seq<A>, p: int, x: A)
    requires
        0 <= p <= s.len(),
    ensures
        s.insert(p, x).to_multiset() =~= s.to_multiset().insert(x),
{
    broadcast use vstd::seq_lib::group_to_multiset_ensures;
    broadcast use vstd::multiset::group_multiset_axioms;

    let t = s.insert(p, x);
    s.insert_ensures(p, x);
    assert(t.remove(p) =~= s);
    assert(t[p] == x);
    assert(t.contains(x));
    assert(t.to_multiset().count(x) > 0);
    assert(s.to_multiset() =~= t.to_multiset().remove(x));
}

/// The names in listing order: sorted by name with ASCII letters compared
/// case-insensitively; names equal in that order may come in any order.
pub fn sort_by_folded_name(names: Vec<String>) -> (r: Vec<String>)
    ensures
        r@.to_multiset() == names@.to_multiset(),
        sorted_by_folded_name(r@),
{
    broadcast use vstd::seq_lib::group_to_multiset_ensures;

    let mut r: Vec<String> = Vec::new();
    let mut keys: Vec<Vec<char>> = Vec::new();
    let mut i: usize = 0;
    while i < names.len()
        invariant
            i <= names@.len(),
            r@.len() == keys@.len(),
            forall|k: int| 0 <= k < keys@.len() ==> (#[trigger] keys@[k])@ == fold_ascii(r@[k]@),
            sorted_by_folded_name(r@),
            r@.to_multiset() == names@.take(i as int).to_multiset(),
        decreases names@.len() - i,
    {
        let name = names[i].clone();
        let key = fold_ascii_exec(&chars_of(name.as_str()));
        let mut p: usize = 0;
        let mut found = false;
        while p < keys.len() && !found
            invariant
                p <= keys@.len(),
                found ==> p < keys@.len() && lex_lt(key@, keys@[p as int]@),
                forall|k: int| 0 <= k < p ==> lex_le(#[trigger] keys@[k]@, key@),
            decreases keys@.len() - p + (if found { 0int } else { 1int }),
        {
            if lex_lt_exec(&key, &keys[p]) {
                found = true;
            } else {
                proof {
                    lemma_lex_total(key@, keys@[p as int]@);
                }
                p = p + 1;
            }
        }
        let ghost r0 = r@;
        let ghost k0 = keys@;
        r.insert(p, name);
        keys.insert(p, key);
        proof {
            r0.insert_ensures(p as int, name);
            k0.insert_ensures(p as int, key);
            assert forall|k: int| 0 <= k < keys@.len() implies (#[trigger] keys@[k])@ == fold_ascii(
                r@[k]@,
            ) by {
                if k < p {
                    assert(keys@[k] == k0[k]);
                } else if k > p {
                    assert(keys@[k] == k0[k - 1]);
                }
            }
            assert forall|a: int, b: int| 0 <= a < b < r@.len() implies folded_le(
                #[trigger] r@[a]@,
                #[trigger] r@[b]@,
            ) by {
                assert(keys@[a]@ == fold_ascii(r@[a]@));
                assert(keys@[b]@ == fold_ascii(r@[b]@));
                if b < p {
                    assert(r@[a] == r0[a] && r@[b] == r0[b]);
                } else if a > p {
                    assert(r@[a] == r0[a - 1] && r@[b] == r0[b - 1]);
                } else if a == p {
                    // key precedes the name that was at p, which is not after r0[b - 1]
                    assert(lex_lt(key@, k0[p as int]@));
                    if b - 1 > p {
                        assert(folded_le(r0[p as int]@, r0[b - 1]@));
                        assert(k0[p as int]@ == fold_ascii(r0[p as int]@));
                        assert(k0[b - 1]@ == fold_ascii(r0[b - 1]@));
                        lemma_lex_le_lt(key@, k0[p as int]@, k0[b - 1]@);
                    }
                } else if b == p {
                    assert(lex_le(k0[a]@, key@));
                } else {
                    assert(r@[a] == r0[a] && r@[b] == r0[b - 1]);
                }
            }
            lemma_insert_multiset(r0, p as int, name);
            assert(names@.take(i + 1) =~= names@.take(i as int).push(names@[i as int]));
            assert(name == names@[i as int]);
            names@.take(i as int).to_multiset_ensures();
            assert(names@.take(i as int).push(names@[i as int]).to_multiset()
                =~= names@.take(i as int).to_multiset().insert(names@[i as int]));
            assert(names@.take(i + 1).to_multiset() =~= names@.take(i as int).to_multiset().insert(
                names@[i as int],
            ));
            assert(r@.to_multiset() =~= r0.to_multiset().insert(name));
        }
        i = i + 1;
    }
    assert(names@.take(names@.len() as int) =~= names@);
    r
}


/// The information text of a listing: the HTML rendering of the last of the
/// information files (in listing order), or nothing when there is none.
pub fn listing_info(texts: &Vec<String>) -> (r: String)
    ensures
        r@ == (if texts@.len() == 0 {
            Seq::<char>::empty()
        } else {
            markdown_html(texts@.last()@)
        }),
{
    if texts.len() == 0 {
        String::new()
    } else {
        markdown_to_html(texts[texts.len() - 1].as_str())
    }
}

/// Law: the last link of the breadcrumb trail of a non-empty path is `/`
/// followed by the path written out, which is the page's own address.
pub proof fn law_breadcrumb_reaches_page(parts: Seq<Seq<char>>)
    requires
        parts.len() > 0,
    ensures
        slash_prefixed(parts) == seq!['/'] + join_parts(parts),
    decreases parts.len(),
{
    if parts.len() == 1 {
        assert(parts.drop_last() =~= Seq::<Seq<char>>::empty());
        assert(slash_prefixed(parts.drop_last()) =~= Seq::<char>::empty());
        assert(parts.last() == parts[0]);
        assert(slash_prefixed(parts) =~= Seq::<char>::empty() + seq!['/'] + parts[0]);
        assert(slash_prefixed(parts) =~= seq!['/'] + join_parts(parts));
    } else {
        law_breadcrumb_reaches_page(parts.drop_last());
        assert(slash_prefixed(parts) =~= seq!['/'] + join_parts(parts));
    }
}

/// What a directory entry is.
#[derive(Clone, Copy, Debug, PartialEq, Eq, Structural)]
pub enum EntryKind {
    Directory,
    File,
    Other,
}


/// Law: stepping to the next picture and then to the previous one comes back
/// to the picture one started from (and the other way round).
pub proof fn law_neighbours_inverse(names: Seq<Seq<char>>, x: Seq<char>)
    requires
        names.contains(x),
    ensures
        successor(names, x) matches Some(s) ==> predecessor(names, s) == Some(x),
        predecessor(names, x) matches Some(p) ==> successor(names, p) == Some(x),
{
    if successor(names, x) is Some {
        let s = choose|s: Seq<char>| is_successor(names, x, s);
        assert(is_successor(names, x, s));
        assert forall|i: int| 0 <= i < names.len() && lex_lt(#[trigger] names[i], s) implies lex_le(
            names[i],
            x,
        ) by {
            lemma_lex_total(names[i], x);
            if lex_lt(x, names[i]) {
                assert(lex_le(s, names[i]));
                lemma_lex_total(names[i], s);
            }
        }
        lemma_predecessor_unique(names, s, x);
    }
    if predecessor(names, x) is Some {
        let p = choose|p: Seq<char>| is_predecessor(names, x, p);
        assert(is_predecessor(names, x, p));
        assert forall|i: int| 0 <= i < names.len() && lex_lt(p, #[trigger] names[i]) implies lex_le(
            x,
            names[i],
        ) by {
            lemma_lex_total(names[i], x);
            if lex_lt(names[i], x) {
                assert(lex_le(names[i], p));
                lemma_lex_total(names[i], p);
            }
        }
        lemma_successor_unique(names, p, x);
    }
}

/// What a gallery page shows for a requested path.
#[derive(Clone, Copy, Debug, PartialEq, Eq, Structural)]
pub enum PageKind {
    /// The view of one picture.
    Item,
    /// The listing of a directory.
    Listing,
    /// Nothing: the path is neither a file nor a directory.
    NotFound,
}

/// The page for a path that is a regular file (`is_file`) or a directory
/// (`is_dir`): a file gets its picture view, a directory its listing, and
/// anything else is not found.
pub fn page_kind(is_file: bool, is_dir: bool) -> (r: PageKind)
    ensures
        r == (if is_file {
            PageKind::Item
        } else if is_dir {
            PageKind::Listing
        } else {
            PageKind::NotFound
        }),
{
    if is_file {
        PageKind::Item
    } else if is_dir {
        PageKind::Listing
    } else {
        PageKind::NotFound
    }
}


/// The trail of breadcrumb links of the directory `request`.
pub open spec fn breadcrumb_links(request: Seq<Seq<char>>) -> Seq<Seq<char>> {
    Seq::new(request.len(), |i: int| slash_prefixed(request.take(i + 1)))
}

/// Law: two request paths with the same segments (such as `a/b` and
/// `/a//b/`) give the same page: the same file-system path and address, the
/// same picture view, the same listing entries, sub-directory entries and
/// breadcrumb trail.
pub proof fn law_same_segments_same_page(
    p1: Seq<char>,
    p2: Seq<char>,
    siblings: Seq<Seq<char>>,
    names: Seq<Seq<char>>,
    dir: Seq<char>,
)
    requires
        path_parts(p1) == path_parts(p2),
    ensures
        join_parts(path_parts(p1)) == join_parts(path_parts(p2)),
        item_page(path_parts(p1), siblings) == item_page(path_parts(p2), siblings),
        forall|i: int|
            0 <= i < shown_names(names).len() ==> listing_entry(path_parts(p1), #[trigger] shown_names(names)[i])
                == listing_entry(path_parts(p2), shown_names(names)[i]),
        join_parts(path_parts(p1).push(dir)) == join_parts(path_parts(p2).push(dir)),
        breadcrumb_links(path_parts(p1)) == breadcrumb_links(path_parts(p2)),
{
}


/// Law: adding a segment to a path appends `/` and the segment to its written
/// form (or gives the segment alone for the empty path).
pub proof fn law_join_push(ps: Seq<Seq<char>>, n: Seq<char>)
    ensures
        join_parts(ps.push(n)) == (if ps.len() == 0 {
            n
        } else {
            join_parts(ps) + seq!['/'] + n
        }),
        has_suffix(join_parts(ps.push(n)), n),
        join_parts(ps.push(n)).len() >= n.len(),
{
    assert(ps.push(n).drop_last() =~= ps);
    let j = join_parts(ps.push(n));
    assert(j.skip(j.len() - n.len()) =~= n);
}

/// Law: the link of a neighbouring picture `n` in the directory `parent` is
/// the directory's path with `n` added, for every directory including the
/// gallery's top one, and its thumbnail link is the same below `thumb`; both
/// end with the neighbour's name (so they are non-empty for a named
/// neighbour). Without a neighbour both links are empty.
pub proof fn law_neighbour_link(parent: Seq<Seq<char>>, n: Seq<char>)
    ensures
        neighbour_links(parent, Some(n)).0 == join_parts(parent.push(n)),
        neighbour_links(parent, Some(n)).1 == join_parts(seq!["thumb"@] + parent.push(n)),
        has_suffix(neighbour_links(parent, Some(n)).0, n),
        has_suffix(neighbour_links(parent, Some(n)).1, n),
        n.len() > 0 ==> neighbour_links(parent, Some(n)).0.len() > 0
            && neighbour_links(parent, Some(n)).1.len() > 0,
        neighbour_links(parent, None).0.len() == 0,
        neighbour_links(parent, None).1.len() == 0,
{
    law_join_push(parent, n);
    assert(seq!["thumb"@] + parent.push(n) =~= (seq!["thumb"@] + parent).push(n));
    law_join_push(seq!["thumb"@] + parent, n);
}

/// Law: the thumbnail address of a sub-directory whose first picture was found
/// at the components `c` (at least the content directory and the picture) is
/// `/thumb/` followed by the components after the first, joined with `/`; it
/// ends with the picture's file name. Without a picture it is the folder icon.
pub proof fn law_directory_thumbnail(c: Seq<Seq<char>>)
    ensures
        c.len() >= 2 ==> directory_thumbnail(Some(c)) == "/thumb/"@ + join_parts(c.skip(1)),
        c.len() >= 2 ==> has_suffix(directory_thumbnail(Some(c)), c.last()),
        directory_thumbnail(None) == "/static/material/folder.svg"@,
{
    if c.len() >= 2 {
        reveal_strlit("/thumb/");
        reveal_strlit("/thumb");
        let rest = c.skip(1);
        law_breadcrumb_reaches_page(rest);
        assert("/thumb/"@ =~= "/thumb"@ + seq!['/']);
        assert("/thumb"@ + (seq!['/'] + join_parts(rest)) =~= "/thumb/"@ + join_parts(rest));
        assert(rest =~= rest.drop_last().push(c.last()));
        law_join_push(rest.drop_last(), c.last());
        let d = "/thumb/"@ + join_parts(rest);
        let j = join_parts(rest);
        assert(j.skip(j.len() - c.last().len()) =~= c.last());
        assert(d.skip(d.len() - c.last().len()) =~= j.skip(j.len() - c.last().len()));
    }
}

/// Law: a listing shows exactly the files whose names do not end in `.md`,
/// in the given order: a name ending in `.md` adds nothing, any other name
/// (whatever its extension) adds itself at the end.
pub proof fn law_shown_names(names: Seq<Seq<char>>, n: Seq<char>)
    ensures
        shown_names(Seq::<Seq<char>>::empty()).len() == 0,
        shown_names(names.push(n)) == (if has_suffix(n, ".md"@) {
            shown_names(names)
        } else {
            shown_names(names).push(n)
        }),
        shown_names(names).contains(n) <==> (names.contains(n) && !has_suffix(n, ".md"@)),
{
    reveal_with_fuel(Seq::filter, 1);
    assert(names.push(n).drop_last() =~= names);
    let pred = |m: Seq<char>| !is_info_name(m);
    if shown_names(names).contains(n) {
        names.lemma_filter_contains_rev(pred, n);
        let k = choose|k: int| 0 <= k < shown_names(names).len() && shown_names(names)[k] == n;
        names.lemma_filter_pred(pred, k);
    }
    if names.contains(n) && !has_suffix(n, ".md"@) {
        let k = choose|k: int| 0 <= k < names.len() && names[k] == n;
        names.lemma_filter_contains(pred, k);
    }
}


proof fn lemma_predecessor_exists(names: Seq<Seq<char>>, x: Seq<char>)
    requires
        exists|i: int| 0 <= i < names.len() && lex_lt(#[trigger] names[i], x),
    ensures
        exists|p: Seq<char>| is_predecessor(names, x, p),
    decreases names.len(),
{
    let rest = names.drop_last();
    let last = names.last();
    if exists|i: int| 0 <= i < rest.len() && lex_lt(#[trigger] rest[i], x) {
        lemma_predecessor_exists(rest, x);
        let p = choose|p: Seq<char>| is_predecessor(rest, x, p);
        let ip = choose|i: int| 0 <= i < rest.len() && rest[i] == p;
        assert(names[ip] == p);
        lemma_lex_total(p, last);
        if lex_lt(last, x) && lex_lt(p, last) {
            assert forall|i: int| 0 <= i < names.len() && lex_lt(#[trigger] names[i], x) implies lex_le(
                names[i],
                last,
            ) by {
                if i < rest.len() {
                    assert(names[i] == rest[i]);
                    if lex_lt(names[i], p) {
                        lemma_lex_transitive(names[i], p, last);
                    }
                }
            }
            assert(names[names.len() - 1] == last);
            assert(is_predecessor(names, x, last));
        } else {
            assert forall|i: int| 0 <= i < names.len() && lex_lt(#[trigger] names[i], x) implies lex_le(
                names[i],
                p,
            ) by {
                if i < rest.len() {
                    assert(names[i] == rest[i]);
                }
            }
            assert(is_predecessor(names, x, p));
        }
    } else {
        assert forall|i: int| 0 <= i < names.len() && lex_lt(#[trigger] names[i], x) implies lex_le(
            names[i],
            last,
        ) by {
            if i < rest.len() {
                assert(names[i] == rest[i]);
            }
        }
        let i0 = choose|i: int| 0 <= i < names.len() && lex_lt(#[trigger] names[i], x);
        if i0 < rest.len() {
            assert(rest[i0] == names[i0]);
        }
        assert(names[names.len() - 1] == last);
        assert(is_predecessor(names, x, last));
    }
}

proof fn lemma_successor_exists(names: Seq<Seq<char>>, x: Seq<char>)
    requires
        exists|i: int| 0 <= i < names.len() && lex_lt(x, #[trigger] names[i]),
    ensures
        exists|q: Seq<char>| is_successor(names, x, q),
    decreases names.len(),
{
    let rest = names.drop_last();
    let last = names.last();
    if exists|i: int| 0 <= i < rest.len() && lex_lt(x, #[trigger] rest[i]) {
        lemma_successor_exists(rest, x);
        let q = choose|q: Seq<char>| is_successor(rest, x, q);
        let iq = choose|i: int| 0 <= i < rest.len() && rest[i] == q;
        assert(names[iq] == q);
        lemma_lex_total(q, last);
        if lex_lt(x, last) && lex_lt(last, q) {
            assert forall|i: int| 0 <= i < names.len() && lex_lt(x, #[trigger] names[i]) implies lex_le(
                last,
                names[i],
            ) by {
                if i < rest.len() {
                    assert(names[i] == rest[i]);
                    if lex_lt(q, names[i]) {
                        lemma_lex_transitive(last, q, names[i]);
                    }
                }
            }
            assert(names[names.len() - 1] == last);
            assert(is_successor(names, x, last));
        } else {
            assert forall|i: int| 0 <= i < names.len() && lex_lt(x, #[trigger] names[i]) implies lex_le(
                q,
                names[i],
            ) by {
                if i < rest.len() {
                    assert(names[i] == rest[i]);
                }
            }
            assert(is_successor(names, x, q));
        }
    } else {
        assert forall|i: int| 0 <= i < names.len() && lex_lt(x, #[trigger] names[i]) implies lex_le(
            last,
            names[i],
        ) by {
            if i < rest.len() {
                assert(names[i] == rest[i]);
            }
        }
        let i0 = choose|i: int| 0 <= i < names.len() && lex_lt(x, #[trigger] names[i]);
        if i0 < rest.len() {
            assert(rest[i0] == names[i0]);
        }
        assert(names[names.len() - 1] == last);
        assert(is_successor(names, x, last));
    }
}

/// Law: a picture has a previous neighbour exactly when some name precedes
/// it; that neighbour is one of the names, precedes it, and no name lies
/// strictly between the two. Likewise for the next neighbour, on the other
/// side.
pub proof fn law_neighbour_is_closest(names: Seq<Seq<char>>, x: Seq<char>)
    ensures
        predecessor(names, x) is Some <==> exists|i: int|
            0 <= i < names.len() && lex_lt(#[trigger] names[i], x),
        predecessor(names, x) matches Some(p) ==> names.contains(p) && lex_lt(p, x) && forall|i: int|
            0 <= i < names.len() ==> !(lex_lt(p, #[trigger] names[i]) && lex_lt(names[i], x)),
        successor(names, x) is Some <==> exists|i: int|
            0 <= i < names.len() && lex_lt(x, #[trigger] names[i]),
        successor(names, x) matches Some(q) ==> names.contains(q) && lex_lt(x, q) && forall|i: int|
            0 <= i < names.len() ==> !(lex_lt(x, #[trigger] names[i]) && lex_lt(names[i], q)),
{
    if exists|i: int| 0 <= i < names.len() && lex_lt(#[trigger] names[i], x) {
        lemma_predecessor_exists(names, x);
    }
    if predecessor(names, x) is Some {
        let p = choose|p: Seq<char>| is_predecessor(names, x, p);
        assert(is_predecessor(names, x, p));
        let ip = choose|i: int| 0 <= i < names.len() && names[i] == p;
        assert(lex_lt(names[ip], x));
        assert forall|i: int| 0 <= i < names.len() implies !(lex_lt(p, #[trigger] names[i]) && lex_lt(
            names[i],
            x,
        )) by {
            if lex_lt(names[i], x) {
                lemma_lex_total(p, names[i]);
            }
        }
    }
    if exists|i: int| 0 <= i < names.len() && lex_lt(x, #[trigger] names[i]) {
        lemma_successor_exists(names, x);
    }
    if successor(names, x) is Some {
        let q = choose|q: Seq<char>| is_successor(names, x, q);
        assert(is_successor(names, x, q));
        let iq = choose|i: int| 0 <= i < names.len() && names[i] == q;
        assert(lex_lt(x, names[iq]));
        assert forall|i: int| 0 <= i < names.len() implies !(lex_lt(x, #[trigger] names[i]) && lex_lt(
            names[i],
            q,
        )) by {
            if lex_lt(x, names[i]) {
                lemma_lex_total(q, names[i]);
            }
        }
    }
}

} // verus!
