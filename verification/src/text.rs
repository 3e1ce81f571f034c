//! Executable counterparts of the character-level model, over `[char]`.

use crate::lemmas::{lemma_nonempty_push, lemma_trim_subrange};
use crate::model;
use crate::model::{nonempty, views, Separator};
use crate::std_specs::lowercase;
use vstd::prelude::*;

verus! {

/// Whether `c` is whitespace.
pub fn is_whitespace(c: char) -> (b: bool)
    ensures
        b == model::is_whitespace(c),
{
    let n: u32 = c as u32;
    (0x09 <= n && n <= 0x0D) || n == 0x20 || n == 0x85 || n == 0xA0 || n == 0x1680 || (0x2000 <= n
        && n <= 0x200A) || n == 0x2028 || n == 0x2029 || n == 0x202F || n == 0x205F || n == 0x3000
}

/// The characters of a string.
pub fn chars_of(s: &str) -> (v: Vec<char>)
    ensures
        v@ == s@,
{
    let mut v: Vec<char> = Vec::new();
    for c in it: s.chars()
        invariant
            v@ == s@.take(it.index() as int),
            it.seq() == s@,
    {
        v.push(c);
    }
    v
}

/// The string made of the characters `s[from..to]`.
pub fn string_of(s: &[char], from: usize, to: usize) -> (r: String)
    requires
        from <= to <= s.len(),
    ensures
        r@ == s@.subrange(from as int, to as int),
{
    let mut r = String::new();
    let mut i: usize = from;
    while i < to
        invariant
            from <= i <= to <= s.len(),
            r@ == s@.subrange(from as int, i as int),
        decreases to - i,
    {
        r.push(s[i]);
        i += 1;
        assert(r@ =~= s@.subrange(from as int, i as int));
    }
    r
}

/// The lowercase equivalent of a string, as characters.
pub fn lowercase_of(s: &str) -> (v: Vec<char>)
    ensures
        v@ == lowercase(s@),
{
    let lowered = s.to_lowercase();
    chars_of(lowered.as_str())
}

/// The bounds `(from, to)` of `s` without its leading and trailing whitespace.
pub fn trim_bounds(s: &[char]) -> (r: (usize, usize))
    ensures
        r.0 <= r.1 <= s.len(),
        s@.subrange(r.0 as int, r.1 as int) == model::trim(s@),
{
    let mut from: usize = 0;
    while from < s.len() && is_whitespace(s[from])
        invariant
            from <= s.len(),
            model::is_blank(s@.take(from as int)),
        decreases s.len() - from,
    {
        from += 1;
    }
    let mut to: usize = s.len();
    while to > from && is_whitespace(s[to - 1])
        invariant
            from <= to <= s.len(),
            model::is_blank(s@.skip(to as int)),
        decreases to,
    {
        to -= 1;
        assert forall|i: int| 0 <= i < s.len() - to implies model::is_whitespace(
            #[trigger] s@.skip(to as int)[i],
        ) by {
            if i > 0 {
                assert(s@.skip(to as int)[i] == s@.skip(to + 1)[i - 1]);
            }
        }
    }
    proof {
        lemma_trim_subrange(s@, from as int, to as int);
    }
    (from, to)
}

/// Whether text is split at `c`.
fn separates(sep: Separator, c: char) -> (b: bool)
    ensures
        b == sep.separates(c),
{
    match sep {
        Separator::Newline => c == '\n',
        Separator::Whitespace => is_whitespace(c),
    }
}

/// The pieces of `s` between separators.
pub fn split(s: &[char], sep: Separator) -> (r: Vec<Vec<char>>)
    ensures
        views(r@) == model::split(s@, sep),
{
    let mut done: Vec<Vec<char>> = Vec::new();
    let mut piece: Vec<char> = Vec::new();
    assert(views(done@).push(piece@) =~= model::split(s@.take(0), sep));
    for i in 0..s.len()
        invariant
            views(done@).push(piece@) == model::split(s@.take(i as int), sep),
    {
        let ghost before = model::split(s@.take(i as int), sep);
        assert(s@.take(i + 1).drop_last() =~= s@.take(i as int));
        if separates(sep, s[i]) {
            done.push(piece);
            piece = Vec::new();
            assert(views(done@) =~= before);
        } else {
            piece.push(s[i]);
            assert(views(done@) =~= before.drop_last());
        }
    }
    assert(s@.take(s.len() as int) =~= s@);
    done.push(piece);
    assert(views(done@) =~= model::split(s@, sep));
    done
}

/// The words of `s`.
pub fn words(s: &[char]) -> (r: Vec<Vec<char>>)
    ensures
        views(r@) == model::words(s@),
{
    let pieces = split(s, Separator::Whitespace);
    let mut r: Vec<Vec<char>> = Vec::new();
    assert(views(pieces@).take(0) =~= Seq::<Seq<char>>::empty());
    assert(nonempty(Seq::<Seq<char>>::empty()) =~= views(r@)) by {
        reveal(Seq::filter);
    }
    for i in 0..pieces.len()
        invariant
            views(r@) == nonempty(views(pieces@).take(i as int)),
    {
        proof {
            let seen = views(pieces@).take(i as int);
            assert(views(pieces@).take(i + 1) =~= seen.push(pieces@[i as int]@));
            lemma_nonempty_push(seen, pieces@[i as int]@);
        }
        if pieces[i].len() > 0 {
            let ghost before = views(r@);
            r.push(pieces[i].clone());
            assert(views(r@) =~= before.push(pieces@[i as int]@));
        }
    }
    assert(views(pieces@).take(pieces.len() as int) =~= views(pieces@));
    r
}

/// Whether `needle` stands in `hay` at position `i`.
fn matches_at(hay: &[char], needle: &[char], i: usize) -> (b: bool)
    requires
        i + needle.len() <= hay.len(),
    ensures
        b == model::occurs_at(hay@, needle@, i as int),
{
    let mut j: usize = 0;
    while j < needle.len()
        invariant
            j <= needle.len(),
            i + needle.len() <= hay.len(),
            hay@.subrange(i as int, i + j) == needle@.take(j as int),
        decreases needle.len() - j,
    {
        if hay[i + j] != needle[j] {
            assert(hay@.subrange(i as int, i + needle.len())[j as int] != needle@[j as int]);
            return false;
        }
        j += 1;
        assert(hay@.subrange(i as int, i + j) =~= needle@.take(j as int)) by {
            assert(hay@.subrange(i as int, i + j).drop_last() =~= hay@.subrange(
                i as int,
                i + j - 1,
            ));
            assert(needle@.take(j as int).drop_last() =~= needle@.take(j - 1));
        }
    }
    assert(needle@.take(needle.len() as int) =~= needle@);
    true
}

/// Whether `needle` is a contiguous part of `hay`.
pub fn contains(hay: &[char], needle: &[char]) -> (b: bool)
    ensures
        b == model::contains(hay@, needle@),
{
    if needle.len() > hay.len() {
        return false;
    }
    let last: usize = hay.len() - needle.len();
    let mut i: usize = 0;
    loop
        invariant
            last == hay.len() - needle.len(),
            i <= last,
            forall|k: int| 0 <= k < i ==> !model::occurs_at(hay@, needle@, k),
        decreases last - i,
    {
        if matches_at(hay, needle, i) {
            return true;
        }
        if i == last {
            return false;
        }
        i += 1;
    }
}

} // verus!
