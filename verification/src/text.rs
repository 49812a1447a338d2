//! Character-sequence helpers shared by the gallery: ASCII case folding,
//! lexicographic order, file-name extensions and suffix tests.

use vstd::prelude::*;
use vstd::string::*;

verus! {

/// `c` with ASCII upper-case letters mapped to lower case; other characters unchanged.
pub open spec fn fold_char(c: char) -> char {
    if 65 <= (c as u32) && (c as u32) <= 90 {
        (((c as u32) + 32) as u8) as char
    } else {
        c
    }
}

/// ASCII lower-casing of a character sequence.
pub open spec fn fold_ascii(s: Seq<char>) -> Seq<char> {
    s.map_values(|c: char| fold_char(c))
}

/// Executable counterpart of [`fold_char`].
pub fn fold_char_exec(c: char) -> (r: char)
    ensures
        r == fold_char(c),
{
    let v: u32 = c as u32;
    if 65 <= v && v <= 90 {
        ((v + 32) as u8) as char
    } else {
        c
    }
}

/// The characters of a string slice, in order.
pub fn chars_of(s: &str) -> (r: Vec<char>)
    ensures
        r@ == s@,
{
    let mut r: Vec<char> = Vec::new();
    for c in it: s.chars()
        invariant
            r@ == it.seq().take(it.index() as int),
    {
        r.push(c);
    }
    r
}


/// Distinct characters have distinct scalar values.
pub proof fn lemma_char_scalar_injective(c: char, d: char)
    ensures
        (c as u32) == (d as u32) ==> c == d,
{
    vstd::utf8::char_u32_cast(c, c as u32);
    vstd::utf8::char_u32_cast(d, d as u32);
}

/// Strict lexicographic order on character sequences, characters compared by
/// their scalar values (for UTF-8 text this is also the byte order).
pub open spec fn lex_lt(a: Seq<char>, b: Seq<char>) -> bool
    decreases a.len(),
{
    if b.len() == 0 {
        false
    } else if a.len() == 0 {
        true
    } else if (a[0] as u32) < (b[0] as u32) {
        true
    } else if a[0] == b[0] {
        lex_lt(a.drop_first(), b.drop_first())
    } else {
        false
    }
}

/// Non-strict lexicographic order.
pub open spec fn lex_le(a: Seq<char>, b: Seq<char>) -> bool {
    lex_lt(a, b) || a == b
}

/// Of two distinct sequences, exactly one precedes the other.
pub proof fn lemma_lex_total(a: Seq<char>, b: Seq<char>)
    ensures
        a != b ==> (lex_lt(a, b) || lex_lt(b, a)),
        !(lex_lt(a, b) && lex_lt(b, a)),
    decreases a.len(),
{
    if a.len() > 0 && b.len() > 0 && a[0] == b[0] {
        lemma_lex_total(a.drop_first(), b.drop_first());
        if a != b {
            assert(a =~= seq![a[0]] + a.drop_first());
            assert(b =~= seq![b[0]] + b.drop_first());
        }
    } else if a.len() > 0 && b.len() > 0 {
        lemma_char_scalar_injective(a[0], b[0]);
    } else if a.len() == 0 && b.len() == 0 {
        assert(a =~= b);
    }
}

/// The strict order is transitive.
pub proof fn lemma_lex_transitive(a: Seq<char>, b: Seq<char>, c: Seq<char>)
    requires
        lex_lt(a, b),
        lex_lt(b, c),
    ensures
        lex_lt(a, c),
    decreases a.len(),
{
    if a.len() > 0 && b.len() > 0 && c.len() > 0 && a[0] == b[0] && b[0] == c[0] {
        lemma_lex_transitive(a.drop_first(), b.drop_first(), c.drop_first());
    }
}

/// Mixed transitivity of the non-strict and the strict order.
pub proof fn lemma_lex_le_lt(a: Seq<char>, b: Seq<char>, c: Seq<char>)
    ensures
        lex_le(a, b) && lex_lt(b, c) ==> lex_lt(a, c),
        lex_lt(a, b) && lex_le(b, c) ==> lex_lt(a, c),
        lex_le(a, b) && lex_le(b, c) ==> lex_le(a, c),
{
    if lex_lt(a, b) && lex_lt(b, c) {
        lemma_lex_transitive(a, b, c);
    }
}

/// Executable strict lexicographic comparison.
pub fn lex_lt_exec(a: &Vec<char>, b: &Vec<char>) -> (r: bool)
    ensures
        r == lex_lt(a@, b@),
{
    let mut i: usize = 0;
    assert(a@.skip(0) =~= a@);
    assert(b@.skip(0) =~= b@);
    while i < a.len() && i < b.len()
        invariant
            i <= a.len(),
            i <= b.len(),
            lex_lt(a@, b@) == lex_lt(a@.skip(i as int), b@.skip(i as int)),
        decreases a.len() - i,
    {
        let x: u32 = a[i] as u32;
        let y: u32 = b[i] as u32;
        if x < y {
            return true;
        }
        proof {
            lemma_char_scalar_injective(a[i as int], b[i as int]);
        }
        if x != y {
            return false;
        }
        assert(a@.skip(i as int).drop_first() =~= a@.skip(i + 1));
        assert(b@.skip(i as int).drop_first() =~= b@.skip(i + 1));
        i = i + 1;
    }
    i < b.len()
}


/// Executable ASCII lower-casing of a character vector.
pub fn fold_ascii_exec(s: &Vec<char>) -> (r: Vec<char>)
    ensures
        r@ == fold_ascii(s@),
{
    let mut r: Vec<char> = Vec::new();
    let mut i: usize = 0;
    while i < s.len()
        invariant
            i <= s@.len(),
            r@ == fold_ascii(s@.take(i as int)),
        decreases s@.len() - i,
    {
        let c = fold_char_exec(s[i]);
        r.push(c);
        assert(fold_ascii(s@.take(i + 1)) =~= fold_ascii(s@.take(i as int)).push(fold_char(s@[i as int])));
        i = i + 1;
    }
    assert(s@.take(s@.len() as int) =~= s@);
    r
}

/// Executable equality of character vectors.
pub fn chars_eq(a: &Vec<char>, b: &Vec<char>) -> (r: bool)
    ensures
        r == (a@ == b@),
{
    if a.len() != b.len() {
        return false;
    }
    let mut i: usize = 0;
    while i < a.len()
        invariant
            a@.len() == b@.len(),
            i <= a@.len(),
            forall|k: int| 0 <= k < i ==> a@[k] == b@[k],
        decreases a@.len() - i,
    {
        if a[i] != b[i] {
            return false;
        }
        i = i + 1;
    }
    assert(a@ =~= b@);
    true
}

/// `s` ends with `suffix`.
pub open spec fn has_suffix(s: Seq<char>, suffix: Seq<char>) -> bool {
    suffix.len() <= s.len() && s.skip(s.len() - suffix.len()) == suffix
}

/// Executable suffix test.
pub fn has_suffix_exec(s: &Vec<char>, suffix: &Vec<char>) -> (r: bool)
    ensures
        r == has_suffix(s@, suffix@),
{
    if suffix.len() > s.len() {
        return false;
    }
    let off = s.len() - suffix.len();
    let mut i: usize = 0;
    while i < suffix.len()
        invariant
            off + suffix@.len() == s@.len(),
            s@.len() == s.len(),
            suffix@.len() == suffix.len(),
            i <= suffix@.len(),
            forall|k: int| 0 <= k < i ==> s@[off + k] == suffix@[k],
        decreases suffix@.len() - i,
    {
        if s[off + i] != suffix[i] {
            assert(s@.skip(off as int)[i as int] != suffix@[i as int]);
            return false;
        }
        i = i + 1;
    }
    assert(s@.skip(off as int) =~= suffix@);
    true
}

/// The text after the last `.` of `s`, or all of `s` when it holds no `.`
/// (the last field of `s` split on `.`).
pub open spec fn after_last_dot(s: Seq<char>) -> Seq<char>
    decreases s.len(),
{
    if s.len() == 0 {
        s
    } else if s.last() == '.' {
        Seq::<char>::empty()
    } else {
        after_last_dot(s.drop_last()).push(s.last())
    }
}

proof fn lemma_after_last_dot_split(s: Seq<char>, j: int)
    requires
        0 <= j <= s.len(),
        j == 0 || s[j - 1] == '.',
        forall|k: int| j <= k < s.len() ==> s[k] != '.',
    ensures
        after_last_dot(s) == s.subrange(j, s.len() as int),
    decreases s.len(),
{
    if s.len() == j {
        if j > 0 {
            assert(s.last() == '.');
        }
        assert(s.subrange(j, s.len() as int) =~= Seq::<char>::empty());
    } else {
        lemma_after_last_dot_split(s.drop_last(), j);
        assert(s.subrange(j, s.len() as int) =~= s.drop_last().subrange(j, s.len() - 1).push(s.last()));
    }
}

/// Where the text after the last `.` of `s` starts (0 when `s` holds no `.`).
pub fn after_last_dot_start(s: &Vec<char>) -> (j: usize)
    ensures
        j <= s@.len(),
        after_last_dot(s@) == s@.subrange(j as int, s@.len() as int),
{
    let n = s.len();
    let mut j: usize = n;
    while j > 0 && s[j - 1] != '.'
        invariant
            j <= n == s@.len(),
            forall|k: int| j <= k < n ==> s@[k] != '.',
        decreases j,
    {
        j = j - 1;
    }
    proof {
        lemma_after_last_dot_split(s@, j as int);
    }
    j
}

/// Executable counterpart of [`after_last_dot`].
pub fn after_last_dot_exec(s: &Vec<char>) -> (r: Vec<char>)
    ensures
        r@ == after_last_dot(s@),
{
    let n = s.len();
    let j = after_last_dot_start(s);
    let mut r: Vec<char> = Vec::new();
    let mut i: usize = j;
    while i < n
        invariant
            j <= i <= n == s@.len(),
            r@ == s@.subrange(j as int, i as int),
        decreases n - i,
    {
        r.push(s[i]);
        assert(r@ =~= s@.subrange(j as int, i + 1));
        i = i + 1;
    }
    r
}


/// Law: ASCII folding keeps every character, in place: the folded text has
/// the length of the text, upper-case ASCII letters (`A` to `Z`) become the
/// letter 32 code points higher, and every other character stays as it is.
pub proof fn law_fold_ascii(s: Seq<char>)
    ensures
        fold_ascii(s).len() == s.len(),
        forall|i: int|
            0 <= i < s.len() ==> (#[trigger] fold_ascii(s)[i] as u32) as int == (if 65 <= (s[i] as u32)
                && (s[i] as u32) <= 90 {
                (s[i] as u32) + 32
            } else {
                s[i] as u32 as int
            }),
{
    assert forall|i: int| 0 <= i < s.len() implies (#[trigger] fold_ascii(s)[i] as u32) as int == (if 65
        <= (s[i] as u32) && (s[i] as u32) <= 90 {
        (s[i] as u32) + 32
    } else {
        s[i] as u32 as int
    }) by {
        let v = s[i] as u32;
        if 65 <= v && v <= 90 {
            let b = (v + 32) as u8;
            assert(b == v + 32);
            let c = b as char;
            assert(c as u32 == b as u32);
        }
    }
}


/// Law: `a` precedes `b` exactly when, after a common beginning of some
/// length `k`, either `a` ends while `b` goes on, or the character of `a` at
/// `k` has a smaller scalar value than that of `b`.
pub proof fn law_lex_lt(a: Seq<char>, b: Seq<char>)
    ensures
        lex_lt(a, b) <==> exists|k: int|
            0 <= k <= a.len() && k <= b.len() && #[trigger] a.take(k) == b.take(k) && ((k == a.len()
                && k < b.len()) || (k < a.len() && k < b.len() && (a[k] as u32) < (b[k] as u32))),
    decreases a.len(),
{
    if b.len() == 0 {
        if exists|k: int|
            0 <= k <= a.len() && k <= b.len() && #[trigger] a.take(k) == b.take(k) && ((k == a.len()
                && k < b.len()) || (k < a.len() && k < b.len() && (a[k] as u32) < (b[k] as u32))) {
            let k = choose|k: int|
                0 <= k <= a.len() && k <= b.len() && #[trigger] a.take(k) == b.take(k) && ((k
                    == a.len() && k < b.len()) || (k < a.len() && k < b.len() && (a[k] as u32) < (
                b[k] as u32)));
            assert(k == 0);
        }
    } else if a.len() == 0 {
        assert(a.take(0) =~= b.take(0));
    } else if (a[0] as u32) < (b[0] as u32) {
        assert(a.take(0) =~= b.take(0));
    } else if a[0] == b[0] {
        let a1 = a.drop_first();
        let b1 = b.drop_first();
        law_lex_lt(a1, b1);
        if lex_lt(a, b) {
            let k1 = choose|k: int|
                0 <= k <= a1.len() && k <= b1.len() && #[trigger] a1.take(k) == b1.take(k) && ((k
                    == a1.len() && k < b1.len()) || (k < a1.len() && k < b1.len() && (a1[k] as u32)
                    < (b1[k] as u32)));
            assert(a.take(k1 + 1) =~= seq![a[0]] + a1.take(k1));
            assert(b.take(k1 + 1) =~= seq![b[0]] + b1.take(k1));
            assert(a.take(k1 + 1) == b.take(k1 + 1));
        }
        if exists|k: int|
            0 <= k <= a.len() && k <= b.len() && #[trigger] a.take(k) == b.take(k) && ((k == a.len()
                && k < b.len()) || (k < a.len() && k < b.len() && (a[k] as u32) < (b[k] as u32))) {
            let k = choose|k: int|
                0 <= k <= a.len() && k <= b.len() && #[trigger] a.take(k) == b.take(k) && ((k
                    == a.len() && k < b.len()) || (k < a.len() && k < b.len() && (a[k] as u32) < (
                b[k] as u32)));
            assert(k >= 1);
            assert(a1.take(k - 1) =~= a.take(k).drop_first());
            assert(b1.take(k - 1) =~= b.take(k).drop_first());
            assert(a1.take(k - 1) == b1.take(k - 1));
            assert(k - 1 < a1.len() ==> a1[k - 1] == a[k]);
            assert(k - 1 < b1.len() ==> b1[k - 1] == b[k]);
        }
    } else {
        lemma_char_scalar_injective(a[0], b[0]);
        if exists|k: int|
            0 <= k <= a.len() && k <= b.len() && #[trigger] a.take(k) == b.take(k) && ((k == a.len()
                && k < b.len()) || (k < a.len() && k < b.len() && (a[k] as u32) < (b[k] as u32))) {
            let k = choose|k: int|
                0 <= k <= a.len() && k <= b.len() && #[trigger] a.take(k) == b.take(k) && ((k
                    == a.len() && k < b.len()) || (k < a.len() && k < b.len() && (a[k] as u32) < (
                b[k] as u32)));
            if k >= 1 {
                assert(a.take(k)[0] == b.take(k)[0]);
            }
        }
    }
}

/// Law: the text after the last `.` holds no `.`, ends the name, and is
/// either the whole name or preceded by a `.` in it.
pub proof fn law_after_last_dot(s: Seq<char>)
    ensures
        !after_last_dot(s).contains('.'),
        has_suffix(s, after_last_dot(s)),
        after_last_dot(s).len() == s.len() || s[s.len() - after_last_dot(s).len() - 1] == '.',
    decreases s.len(),
{
    if s.len() > 0 && s.last() != '.' {
        let s0 = s.drop_last();
        law_after_last_dot(s0);
        let t0 = after_last_dot(s0);
        let t = after_last_dot(s);
        assert(t == t0.push(s.last()));
        assert(!t.contains('.')) by {
            if t.contains('.') {
                let k = choose|k: int| 0 <= k < t.len() && t[k] == '.';
                if k < t0.len() {
                    assert(t0[k] == '.');
                }
            }
        }
        assert(s.skip(s.len() - t.len()) =~= s0.skip(s0.len() - t0.len()).push(s.last()));
        if t0.len() < s0.len() {
            assert(s[s.len() - t.len() - 1] == s0[s0.len() - t0.len() - 1]);
        }
    } else if s.len() > 0 {
        assert(s.skip(s.len() as int) =~= Seq::<char>::empty());
    } else {
        assert(s.skip(0) =~= s);
    }
}

} // verus!
