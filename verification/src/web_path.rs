//! Request paths as lists of non-empty segments.
//!
//! A [`WebPath`] is read from a URL path by splitting it on `/` and dropping
//! empty segments, and is written back by joining its segments with `/`.

use vstd::prelude::*;
use vstd::string::*;

use crate::text::chars_of;

verus! {

/// Every `/`-separated field of `s`, empty fields included, in order.
pub open spec fn slash_fields(s: Seq<char>) -> Seq<Seq<char>>
    decreases s.len(),
{
    if s.len() == 0 {
        seq![Seq::<char>::empty()]
    } else {
        let init = slash_fields(s.drop_last());
        if s.last() == '/' {
            init.push(Seq::<char>::empty())
        } else {
            init.update(init.len() - 1, init.last().push(s.last()))
        }
    }
}

/// A segment that a parsed path can hold: non-empty and free of `/`.
pub open spec fn is_segment(p: Seq<char>) -> bool {
    p.len() > 0 && !p.contains('/')
}

/// The segments of a URL path: its non-empty `/`-separated fields.
pub open spec fn path_parts(s: Seq<char>) -> Seq<Seq<char>> {
    slash_fields(s).filter(|f: Seq<char>| f.len() > 0)
}

/// Segments joined with `/` between neighbours.
pub open spec fn join_parts(parts: Seq<Seq<char>>) -> Seq<char>
    decreases parts.len(),
{
    if parts.len() == 0 {
        Seq::<char>::empty()
    } else if parts.len() == 1 {
        parts[0]
    } else {
        join_parts(parts.drop_last()) + seq!['/'] + parts.last()
    }
}

/// Every segment of `parts` can be held by a parsed path.
pub open spec fn all_segments(parts: Seq<Seq<char>>) -> bool {
    forall|i: int| 0 <= i < parts.len() ==> is_segment(#[trigger] parts[i])
}

proof fn lemma_fields_nonempty(s: Seq<char>)
    ensures
        slash_fields(s).len() >= 1,
    decreases s.len(),
{
    if s.len() > 0 {
        lemma_fields_nonempty(s.drop_last());
    }
}

proof fn lemma_fields_concat(a: Seq<char>, b: Seq<char>)
    ensures
        slash_fields(a + seq!['/'] + b) == slash_fields(a) + slash_fields(b),
    decreases b.len(),
{
    let s = a + seq!['/'] + b;
    if b.len() == 0 {
        assert(s.drop_last() =~= a);
        assert(slash_fields(b) =~= seq![Seq::<char>::empty()]);
        assert(slash_fields(s) =~= slash_fields(a) + slash_fields(b));
    } else {
        let b0 = b.drop_last();
        lemma_fields_concat(a, b0);
        lemma_fields_nonempty(b0);
        lemma_fields_nonempty(a);
        assert(s.drop_last() =~= a + seq!['/'] + b0);
        assert(s.last() == b.last());
        assert(slash_fields(s) =~= slash_fields(a) + slash_fields(b));
    }
}

proof fn lemma_fields_of_segment(t: Seq<char>)
    requires
        !t.contains('/'),
    ensures
        slash_fields(t) == seq![t],
    decreases t.len(),
{
    if t.len() > 0 {
        let t0 = t.drop_last();
        assert(!t0.contains('/')) by {
            if t0.contains('/') {
                let k = choose|k: int| 0 <= k < t0.len() && t0[k] == '/';
                assert(t[k] == '/');
            }
        }
        lemma_fields_of_segment(t0);
        assert(t[t.len() - 1] != '/');
        assert(t0.push(t.last()) =~= t);
        assert(slash_fields(t) =~= seq![t]);
    } else {
        assert(t =~= Seq::<char>::empty());
    }
}

proof fn lemma_fields_slash_free(s: Seq<char>)
    ensures
        forall|i: int| 0 <= i < slash_fields(s).len() ==> !(#[trigger] slash_fields(s)[i]).contains('/'),
    decreases s.len(),
{
    if s.len() > 0 {
        let s0 = s.drop_last();
        lemma_fields_slash_free(s0);
        lemma_fields_nonempty(s0);
        let init = slash_fields(s0);
        if s.last() != '/' {
            let l = init.last().push(s.last());
            assert(!l.contains('/')) by {
                if l.contains('/') {
                    let k = choose|k: int| 0 <= k < l.len() && l[k] == '/';
                    if k < l.len() - 1 {
                        assert(init[init.len() - 1][k] == '/');
                    }
                }
            }
        }
        assert forall|i: int| 0 <= i < slash_fields(s).len() implies !(
        #[trigger] slash_fields(s)[i]).contains('/') by {
            if s.last() == '/' {
                if i < init.len() {
                    assert(slash_fields(s)[i] == init[i]);
                } else {
                    assert(slash_fields(s)[i] =~= Seq::<char>::empty());
                }
            } else {
                if i < init.len() - 1 {
                    assert(slash_fields(s)[i] == init[i]);
                }
            }
        }
    }
}

/// Splitting at a `/` splits the segments: the parts of `a/b` are the parts of
/// `a` followed by the parts of `b`.
proof fn lemma_parts_concat(a: Seq<char>, b: Seq<char>)
    ensures
        path_parts(a + seq!['/'] + b) == path_parts(a) + path_parts(b),
{
    lemma_fields_concat(a, b);
    Seq::filter_distributes_over_add(slash_fields(a), slash_fields(b), |f: Seq<char>| f.len() > 0);
}

/// A text without `/` has itself as its only part, or no part when it is empty.
proof fn lemma_parts_of_segment(t: Seq<char>)
    requires
        !t.contains('/'),
    ensures
        path_parts(t) == (if t.len() > 0 {
            seq![t]
        } else {
            Seq::<Seq<char>>::empty()
        }),
{
    lemma_fields_of_segment(t);
    reveal_with_fuel(Seq::filter, 2);
    assert(seq![t].drop_last() =~= Seq::<Seq<char>>::empty());
    assert(path_parts(t) =~= (if t.len() > 0 {
        seq![t]
    } else {
        Seq::<Seq<char>>::empty()
    }));
}

/// Parsing only ever yields segments that are non-empty and free of `/`.
pub proof fn lemma_parts_are_segments(s: Seq<char>)
    ensures
        all_segments(path_parts(s)),
{
    let pred = |f: Seq<char>| f.len() > 0;
    lemma_fields_slash_free(s);
    assert forall|i: int| 0 <= i < path_parts(s).len() implies is_segment(
        #[trigger] path_parts(s)[i],
    ) by {
        slash_fields(s).lemma_filter_pred(pred, i);
        assert(path_parts(s).contains(path_parts(s)[i]));
        slash_fields(s).lemma_filter_contains_rev(pred, path_parts(s)[i]);
        let k = choose|k: int| 0 <= k < slash_fields(s).len() && slash_fields(s)[k] == path_parts(s)[i];
        assert(!slash_fields(s)[k].contains('/'));
    }
}

/// Law: a path written out and read back gives back its segments, whenever
/// every segment is non-empty and free of `/`.
pub proof fn law_read_after_write(parts: Seq<Seq<char>>)
    requires
        all_segments(parts),
    ensures
        path_parts(join_parts(parts)) == parts,
    decreases parts.len(),
{
    if parts.len() == 0 {
        lemma_parts_of_segment(Seq::<char>::empty());
        assert(parts =~= Seq::<Seq<char>>::empty());
    } else if parts.len() == 1 {
        assert(is_segment(parts[0]));
        lemma_parts_of_segment(parts[0]);
        assert(parts =~= seq![parts[0]]);
    } else {
        let init = parts.drop_last();
        assert(all_segments(init)) by {
            assert forall|i: int| 0 <= i < init.len() implies is_segment(#[trigger] init[i]) by {
                assert(init[i] == parts[i]);
            }
        }
        law_read_after_write(init);
        assert(is_segment(parts[parts.len() - 1]));
        lemma_parts_concat(join_parts(init), parts.last());
        lemma_parts_of_segment(parts.last());
        assert(parts =~= init + seq![parts.last()]);
    }
}

/// Law: reading a path, writing it out and reading it again gives the same
/// segments as reading it once.
pub proof fn law_read_write_idempotent(s: Seq<char>)
    ensures
        path_parts(join_parts(path_parts(s))) == path_parts(s),
{
    lemma_parts_are_segments(s);
    law_read_after_write(path_parts(s));
}

/// Law: the segments of `a/b` are those of `a` followed by those of `b`.
pub proof fn law_read_concat(a: Seq<char>, b: Seq<char>)
    ensures
        path_parts(a + seq!['/'] + b) == path_parts(a) + path_parts(b),
{
    lemma_parts_concat(a, b);
}

/// A URL path split into its non-empty segments, borrowed from the text it was
/// read from.
pub struct WebPath<'a> {
    pub parts: Vec<&'a str>,
}

impl<'a> View for WebPath<'a> {
    type V = Seq<Seq<char>>;

    open spec fn view(&self) -> Seq<Seq<char>> {
        self.parts@.map_values(|p: &'a str| p@)
    }
}

impl<'a> From<&'a str> for WebPath<'a> {
    /// Reads a path: its segments are the non-empty `/`-separated fields of `s`.
    fn from(s: &'a str) -> (r: WebPath<'a>)
        ensures
            r@ == path_parts(s@),
            all_segments(r@),
    {
        let chars = chars_of(s);
        let n = chars.len();
        let mut parts: Vec<&'a str> = Vec::new();
        let mut start: usize = 0;
        let mut i: usize = 0;
        while i < n
            invariant
                n == chars@.len(),
                chars@ == s@,
                start <= i <= n,
                start > 0 ==> s@[start - 1] == '/',
                forall|k: int| start <= k < i ==> s@[k] != '/',
                parts@.map_values(|p: &'a str| p@) == (if start == 0 {
                    Seq::<Seq<char>>::empty()
                } else {
                    path_parts(s@.take(start - 1))
                }),
            decreases n - i,
        {
            if chars[i] == '/' {
                let ghost seg = s@.subrange(start as int, i as int);
                let ghost before = parts@.map_values(|p: &'a str| p@);
                proof {
                    assert(!seg.contains('/')) by {
                        if seg.contains('/') {
                            let k = choose|k: int| 0 <= k < seg.len() && seg[k] == '/';
                            assert(s@[start + k] == '/');
                        }
                    }
                    lemma_parts_of_segment(seg);
                    if start == 0 {
                        assert(s@.take(i as int) =~= seg);
                    } else {
                        assert(s@.take(i as int) =~= s@.take(start - 1) + seq!['/'] + seg);
                        lemma_parts_concat(s@.take(start - 1), seg);
                    }
                }
                if i > start {
                    let p = s.substring_char(start, i);
                    parts.push(p);
                    assert(parts@.map_values(|p: &'a str| p@) =~= before + seq![seg]);
                } else {
                    assert(seg.len() == 0);
                    assert(before =~= before + Seq::<Seq<char>>::empty());
                }
                start = i + 1;
            }
            i = i + 1;
        }
        let ghost seg = s@.subrange(start as int, n as int);
        let ghost before = parts@.map_values(|p: &'a str| p@);
        proof {
            assert(!seg.contains('/')) by {
                if seg.contains('/') {
                    let k = choose|k: int| 0 <= k < seg.len() && seg[k] == '/';
                    assert(s@[start + k] == '/');
                }
            }
            lemma_parts_of_segment(seg);
            if start == 0 {
                assert(s@ =~= seg);
            } else {
                assert(s@ =~= s@.take(start - 1) + seq!['/'] + seg);
                lemma_parts_concat(s@.take(start - 1), seg);
            }
        }
        if n > start {
            let p = s.substring_char(start, n);
            parts.push(p);
            assert(parts@.map_values(|p: &'a str| p@) =~= before + seq![seg]);
        } else {
            assert(before =~= before + Seq::<Seq<char>>::empty());
        }
        proof {
            lemma_parts_are_segments(s@);
        }
        WebPath { parts }
    }

}

impl<'a> vstd::std_specs::convert::FromSpecImpl<&'a str> for WebPath<'a> {
    /// The generic `From` contract is not used: the contract of `from` above
    /// states the result exactly, by its segments.
    open spec fn obeys_from_spec() -> bool {
        false
    }

    open spec fn from_spec(s: &'a str) -> WebPath<'a> {
        choose|w: WebPath<'a>| w@ == path_parts(s@)
    }
}

impl<'a> WebPath<'a> {
    /// Writes the path out: its segments joined with `/`.
    pub fn to_string(&self) -> (r: String)
        ensures
            r@ == join_parts(self@),
    {
        let mut r = String::new();
        let mut i: usize = 0;
        proof {
            reveal_strlit("/");
        }
        while i < self.parts.len()
            invariant
                i <= self.parts@.len(),
                r@ == join_parts(self@.take(i as int)),
            decreases self.parts@.len() - i,
        {
            let ghost before = self@.take(i as int);
            let ghost r0 = r@;
            proof {
                reveal_strlit("/");
            }
            if i > 0 {
                r.append("/");
            }
            r.append(self.parts[i]);
            proof {
                let now = self@.take(i + 1);
                assert(now.drop_last() =~= before);
                assert(now.last() == self.parts@[i as int]@);
                if i == 0 {
                    assert(before =~= Seq::<Seq<char>>::empty());
                    assert(r@ =~= join_parts(now));
                } else {
                    assert(r@ =~= r0 + seq!['/'] + self.parts@[i as int]@);
                    assert(r@ =~= join_parts(now));
                }
            }
            i = i + 1;
        }
        assert(self@.take(self.parts@.len() as int) =~= self@);
        r
    }

    /// Adds a segment at the end.
    pub fn push(&mut self, part: &'a str)
        ensures
            final(self)@ == old(self)@.push(part@),
    {
        self.parts.push(part);
        assert(self@ =~= old(self)@.push(part@));
    }

    /// Adds the segments of `other` at the end, in order.
    pub fn extend(&mut self, other: &WebPath<'a>)
        ensures
            final(self)@ == old(self)@ + other@,
    {
        let mut i: usize = 0;
        while i < other.parts.len()
            invariant
                i <= other.parts@.len(),
                self@ == old(self)@ + other@.take(i as int),
            decreases other.parts@.len() - i,
        {
            self.push(other.parts[i]);
            assert(old(self)@ + other@.take(i + 1) =~= (old(self)@ + other@.take(i as int)).push(
                other@[i as int],
            ));
            i = i + 1;
        }
        assert(other@.take(other.parts@.len() as int) =~= other@);
    }

    /// The number of segments.
    pub fn len(&self) -> (r: usize)
        ensures
            r == self@.len(),
    {
        self.parts.len()
    }

    /// The last segment, if there is one.
    pub fn last(&self) -> (r: Option<&'a str>)
        ensures
            match r {
                Some(p) => self@.len() > 0 && p@ == self@.last(),
                None => self@.len() == 0,
            },
    {
        if self.parts.len() == 0 {
            None
        } else {
            Some(self.parts[self.parts.len() - 1])
        }
    }

    /// The path without its last segment; the empty path is its own parent.
    pub fn parent(&self) -> (r: WebPath<'a>)
        ensures
            r@ == (if self@.len() == 0 {
                self@
            } else {
                self@.drop_last()
            }),
    {
        let mut parts: Vec<&'a str> = Vec::new();
        let n = self.parts.len();
        let keep = if n == 0 {
            0
        } else {
            n - 1
        };
        let mut i: usize = 0;
        while i < keep
            invariant
                keep <= n == self.parts@.len(),
                i <= keep,
                parts@.map_values(|p: &'a str| p@) == self@.take(i as int),
            decreases keep - i,
        {
            let ghost before = parts@;
            parts.push(self.parts[i]);
            assert(parts@ == before.push(self.parts@[i as int]));
            assert(self@[i as int] == self.parts@[i as int]@);
            assert(parts@.map_values(|p: &'a str| p@) =~= before.map_values(|p: &'a str| p@).push(
                self.parts@[i as int]@,
            ));
            assert(self@.take(i + 1) =~= self@.take(i as int).push(self@[i as int]));
            i = i + 1;
        }
        let r = WebPath { parts };
        assert(r@ =~= (if self@.len() == 0 {
            self@
        } else {
            self@.drop_last()
        }));
        r
    }
}

impl<'a> Clone for WebPath<'a> {
    /// A path with the same segments.
    fn clone(&self) -> (r: Self)
        ensures
            r@ == self@,
    {
        let mut r = WebPath { parts: Vec::new() };
        r.extend(self);
        assert(r@ =~= self@);
        r
    }
}

impl<'a> core::ops::Deref for WebPath<'a> {
    type Target = Vec<&'a str>;

    /// The segments, as a vector.
    fn deref(&self) -> (r: &Vec<&'a str>)
        ensures
            r@ == self.parts@,
    {
        &self.parts
    }
}

impl<'a> core::ops::DerefMut for WebPath<'a> {
    /// The segments, as a vector that the caller may change.
    fn deref_mut(&mut self) -> (r: &mut Vec<&'a str>)
        ensures
            *r == old(self).parts,
            final(self).parts == *final(r),
    {
        &mut self.parts
    }
}

} // verus!
