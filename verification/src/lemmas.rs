//! Supporting lemmas about the model.

use crate::model;
use crate::model::{
    arc, arcs, blocks, dashes, delimiter_free, is_blank, is_delimiter, is_entry, is_trimmed,
    is_whitespace, join, lines, nonempty, parse, queries_of, referred, split, trim, trim_end,
    trim_start, trimmed, unlines, words, Separator,
};
use vstd::prelude::*;

verus! {

// Sequences

/// Filtering a sequence with one more member keeps that member exactly when
/// the predicate holds of it.
pub proof fn lemma_filter_push<A>(s: Seq<A>, a: A, pred: spec_fn(A) -> bool)
    ensures
        s.push(a).filter(pred) == if pred(a) {
            s.filter(pred).push(a)
        } else {
            s.filter(pred)
        },
{
    reveal(Seq::filter);
    assert(s.push(a).drop_last() =~= s);
}

/// `nonempty` of a sequence with one more member.
pub proof fn lemma_nonempty_push<T>(items: Seq<Seq<T>>, item: Seq<T>)
    ensures
        nonempty(items.push(item)) == if item.len() > 0 {
            nonempty(items).push(item)
        } else {
            nonempty(items)
        },
{
    lemma_filter_push(items, item, |item: Seq<T>| item.len() > 0);
}

/// A sequence with one more member holds what it held before, and that
/// member.
pub proof fn lemma_contains_push<A>(s: Seq<A>, a: A)
    ensures
        forall|e: A| #[trigger] s.push(a).contains(e) <==> s.contains(e) || e == a,
{
    let more = s.push(a);
    assert forall|e: A| #[trigger] more.contains(e) <==> s.contains(e) || e == a by {
        if s.contains(e) {
            let k = choose|k: int| 0 <= k < s.len() && #[trigger] s[k] == e;
            assert(more[k] == e);
        }
        if e == a {
            assert(more[s.len() as int] == a);
        }
        if more.contains(e) {
            let k = choose|k: int| 0 <= k < more.len() && #[trigger] more[k] == e;
            if k < s.len() {
                assert(s[k] == e);
            }
        }
    }
}

// Trimming

/// With `k` blank characters in front and none right after them, trimming
/// the start skips exactly `k`.
pub proof fn lemma_trim_start_skip(s: Seq<char>, k: int)
    requires
        0 <= k <= s.len(),
        is_blank(s.take(k)),
        k < s.len() ==> !is_whitespace(s[k]),
    ensures
        trim_start(s) == s.skip(k),
    decreases k,
{
    if k == 0 {
        assert(s.skip(0) =~= s);
    } else {
        assert(s.take(k)[0] == s[0]);
        let rest = s.drop_first();
        assert forall|i: int| 0 <= i < k - 1 implies is_whitespace(
            #[trigger] rest.take(k - 1)[i],
        ) by {
            assert(rest.take(k - 1)[i] == s.take(k)[i + 1]);
        }
        lemma_trim_start_skip(rest, k - 1);
        assert(rest.skip(k - 1) =~= s.skip(k));
    }
}

/// With only blank characters from `k` on and none right before them,
/// trimming the end keeps exactly the first `k`.
pub proof fn lemma_trim_end_take(s: Seq<char>, k: int)
    requires
        0 <= k <= s.len(),
        is_blank(s.skip(k)),
        k > 0 ==> !is_whitespace(s[k - 1]),
    ensures
        trim_end(s) == s.take(k),
    decreases s.len() - k,
{
    if k == s.len() {
        assert(s.take(k) =~= s);
    } else {
        assert(s.skip(k)[s.len() - k - 1] == s.last());
        let rest = s.drop_last();
        assert forall|i: int| 0 <= i < rest.len() - k implies is_whitespace(
            #[trigger] rest.skip(k)[i],
        ) by {
            assert(rest.skip(k)[i] == s.skip(k)[i]);
        }
        lemma_trim_end_take(rest, k);
        assert(rest.take(k) =~= s.take(k));
    }
}

/// Trimming keeps `s[from..to]` when all before and all after it is blank
/// and the part itself neither starts nor ends with whitespace.
pub proof fn lemma_trim_subrange(s: Seq<char>, from: int, to: int)
    requires
        0 <= from <= to <= s.len(),
        is_blank(s.take(from)),
        is_blank(s.skip(to)),
        from < to ==> !is_whitespace(s[from]) && !is_whitespace(s[to - 1]),
    ensures
        trim(s) == s.subrange(from, to),
{
    if from < to {
        lemma_trim_start_skip(s, from);
        let rest = s.skip(from);
        assert(rest.skip(to - from) =~= s.skip(to));
        lemma_trim_end_take(rest, to - from);
        assert(rest.take(to - from) =~= s.subrange(from, to));
    } else {
        assert forall|i: int| 0 <= i < s.len() implies is_whitespace(#[trigger] s[i]) by {
            if i < from {
                assert(s.take(from)[i] == s[i]);
            } else {
                assert(s.skip(to)[i - to] == s[i]);
            }
        }
        assert(s.take(s.len() as int) =~= s);
        lemma_trim_start_skip(s, s.len() as int);
        assert(s.skip(s.len() as int) =~= Seq::<char>::empty());
        assert(s.subrange(from, to) =~= Seq::<char>::empty());
    }
}

/// What trimming the start leaves does not start with whitespace, and is a
/// tail of the text.
pub proof fn lemma_trim_start_tail(s: Seq<char>) -> (k: int)
    ensures
        0 <= k <= s.len(),
        trim_start(s) == s.skip(k),
        is_blank(s.take(k)),
        k < s.len() ==> !is_whitespace(s[k]),
    decreases s.len(),
{
    if s.len() > 0 && is_whitespace(s.first()) {
        let rest = s.drop_first();
        let j = lemma_trim_start_tail(rest);
        assert(rest.skip(j) =~= s.skip(j + 1));
        assert forall|i: int| 0 <= i < j + 1 implies is_whitespace(#[trigger] s.take(j + 1)[i]) by {
            if i > 0 {
                assert(s.take(j + 1)[i] == rest.take(j)[i - 1]);
            }
        }
        j + 1
    } else {
        assert(s.skip(0) =~= s);
        0
    }
}

/// What trimming the end leaves does not end with whitespace, and is a head
/// of the text.
pub proof fn lemma_trim_end_head(s: Seq<char>) -> (k: int)
    ensures
        0 <= k <= s.len(),
        trim_end(s) == s.take(k),
        is_blank(s.skip(k)),
        k > 0 ==> !is_whitespace(s[k - 1]),
    decreases s.len(),
{
    if s.len() > 0 && is_whitespace(s.last()) {
        let rest = s.drop_last();
        let k = lemma_trim_end_head(rest);
        assert(rest.take(k) =~= s.take(k));
        assert forall|i: int| 0 <= i < s.len() - k implies is_whitespace(
            #[trigger] s.skip(k)[i],
        ) by {
            if i < s.len() - k - 1 {
                assert(s.skip(k)[i] == rest.skip(k)[i]);
            }
        }
        k
    } else {
        assert(s.take(s.len() as int) =~= s);
        s.len() as int
    }
}

/// Trimmed text neither starts nor ends with whitespace.
pub proof fn lemma_trim_is_trimmed(s: Seq<char>)
    ensures
        is_trimmed(trim(s)),
{
    let from = lemma_trim_start_tail(s);
    let rest = s.skip(from);
    let to = lemma_trim_end_head(rest);
    if to > 0 {
        assert(rest.take(to).first() == s[from]);
        assert(rest.take(to).last() == rest[to - 1]);
    }
}

/// Whitespace at the end does not change what trimming the start leaves,
/// unless all before it is blank.
pub proof fn lemma_trim_start_push(s: Seq<char>, c: char)
    requires
        is_whitespace(c),
    ensures
        trim_start(s.push(c)) == if is_blank(s) {
            Seq::<char>::empty()
        } else {
            trim_start(s).push(c)
        },
    decreases s.len(),
{
    if s.len() == 0 {
        assert(s.push(c).first() == c);
        assert(s.push(c).drop_first() =~= Seq::<char>::empty());
        assert(trim_start(Seq::<char>::empty()) =~= Seq::<char>::empty());
    } else if is_whitespace(s.first()) {
        let rest = s.drop_first();
        assert(s.push(c).first() == s.first());
        assert(s.push(c).drop_first() =~= rest.push(c));
        lemma_trim_start_push(rest, c);
        assert(is_blank(s) <==> is_blank(rest)) by {
            if is_blank(s) {
                assert forall|i: int| 0 <= i < rest.len() implies is_whitespace(
                    #[trigger] rest[i],
                ) by {
                    assert(rest[i] == s[i + 1]);
                }
            }
            if is_blank(rest) {
                assert forall|i: int| 0 <= i < s.len() implies is_whitespace(#[trigger] s[i]) by {
                    if i > 0 {
                        assert(s[i] == rest[i - 1]);
                    }
                }
            }
        }
    } else {
        assert(!is_blank(s));
        assert(s.push(c).first() == s.first());
    }
}

/// Whitespace at the end does not change what trimming leaves.
pub proof fn lemma_trim_push(s: Seq<char>, c: char)
    requires
        is_whitespace(c),
    ensures
        trim(s.push(c)) == trim(s),
{
    lemma_trim_start_push(s, c);
    if is_blank(s) {
        assert(s.take(s.len() as int) =~= s);
        lemma_trim_start_skip(s, s.len() as int);
        assert(s.skip(s.len() as int) =~= Seq::<char>::empty());
    } else {
        assert(trim_start(s).push(c).drop_last() =~= trim_start(s));
    }
}

/// `trimmed` of a sequence with one more member.
pub proof fn lemma_trimmed_push(items: Seq<Seq<char>>, item: Seq<char>)
    ensures
        trimmed(items.push(item)) == trimmed(items).push(trim(item)),
{
    assert(trimmed(items.push(item)) =~= trimmed(items).push(trim(item)));
}

// Splitting

/// There is always at least one piece.
pub proof fn lemma_split_len(s: Seq<char>, sep: Separator)
    ensures
        split(s, sep).len() >= 1,
    decreases s.len(),
{
    if s.len() > 0 {
        lemma_split_len(s.drop_last(), sep);
    }
}

/// A separator splits the text: the pieces of the whole are those before it
/// followed by those after it.
pub proof fn lemma_split_concat(a: Seq<char>, c: char, b: Seq<char>, sep: Separator)
    requires
        sep.separates(c),
    ensures
        split(a.push(c) + b, sep) == split(a, sep) + split(b, sep),
    decreases b.len(),
{
    let whole = a.push(c) + b;
    if b.len() == 0 {
        assert(whole =~= a.push(c));
        assert(a.push(c).drop_last() =~= a);
        assert(split(a, sep) + split(b, sep) =~= split(a, sep).push(Seq::<char>::empty()));
    } else {
        let head = b.drop_last();
        assert(whole.drop_last() =~= a.push(c) + head);
        lemma_split_concat(a, c, head, sep);
        lemma_split_len(head, sep);
        let before = split(a, sep) + split(head, sep);
        if sep.separates(b.last()) {
            assert(before.push(Seq::<char>::empty()) =~= split(a, sep) + split(b, sep));
        } else {
            assert(before.drop_last().push(before.last().push(b.last())) =~= split(a, sep) + split(
                b,
                sep,
            ));
        }
    }
}

/// Text without a separator is one piece.
pub proof fn lemma_split_whole(s: Seq<char>, sep: Separator)
    requires
        forall|i: int| 0 <= i < s.len() ==> !sep.separates(#[trigger] s[i]),
    ensures
        split(s, sep) == seq![s],
    decreases s.len(),
{
    if s.len() > 0 {
        let head = s.drop_last();
        lemma_split_whole(head, sep);
        assert(seq![head].drop_last().push(seq![head].last().push(s.last())) =~= seq![s]) by {
            assert(head.push(s.last()) =~= s);
        }
    } else {
        assert(s =~= Seq::<char>::empty());
    }
}

/// The lines of a text spell the text, with one more line feed at the end.
pub proof fn lemma_unlines_lines(s: Seq<char>)
    ensures
        unlines(lines(s)) == s.push('\n'),
    decreases s.len(),
{
    if s.len() == 0 {
        let only = seq![Seq::<char>::empty()];
        assert(s =~= Seq::<char>::empty());
        assert(only.drop_last() =~= Seq::<Seq<char>>::empty());
        assert(unlines(only.drop_last()) =~= Seq::<char>::empty());
        assert(unlines(only) =~= s.push('\n'));
    } else {
        let head = s.drop_last();
        let before = lines(head);
        lemma_unlines_lines(head);
        lemma_split_len(head, Separator::Newline);
        if s.last() == '\n' {
            assert(before.push(Seq::<char>::empty()).drop_last() =~= before);
            assert(head.push('\n').push('\n') =~= s.push('\n'));
            assert(unlines(before) + Seq::<char>::empty().push('\n') =~= s.push('\n'));
        } else {
            let after = before.drop_last().push(before.last().push(s.last()));
            assert(after.drop_last() =~= before.drop_last());
            let front = unlines(before.drop_last());
            assert(front + before.last().push('\n') == head.push('\n'));
            assert(front + before.last() =~= head) by {
                assert((front + before.last().push('\n')).drop_last() =~= front + before.last());
                assert(head.push('\n').drop_last() =~= head);
            }
            assert(front + before.last().push(s.last()).push('\n') =~= s.push('\n')) by {
                assert(head.push(s.last()) =~= s);
            }
        }
    }
}

// Blocks and entries

/// There is always at least one block.
pub proof fn lemma_blocks_len(lines: Seq<Seq<char>>)
    ensures
        blocks(lines).len() >= 1,
    decreases lines.len(),
{
    if lines.len() > 0 {
        lemma_blocks_len(lines.drop_last());
    }
}

/// A delimiter line splits the lines: the blocks of the whole are those
/// before it followed by those after it.
pub proof fn lemma_blocks_concat(a: Seq<Seq<char>>, d: Seq<char>, b: Seq<Seq<char>>)
    requires
        is_delimiter(d),
    ensures
        blocks(a.push(d) + b) == blocks(a) + blocks(b),
    decreases b.len(),
{
    let whole = a.push(d) + b;
    if b.len() == 0 {
        assert(whole =~= a.push(d));
        assert(a.push(d).drop_last() =~= a);
        assert(blocks(a) + blocks(b) =~= blocks(a).push(Seq::<char>::empty()));
    } else {
        let head = b.drop_last();
        assert(whole.drop_last() =~= a.push(d) + head);
        lemma_blocks_concat(a, d, head);
        lemma_blocks_len(head);
        let before = blocks(a) + blocks(head);
        if is_delimiter(b.last()) {
            assert(before.push(Seq::<char>::empty()) =~= blocks(a) + blocks(b));
        } else {
            assert(before.drop_last().push(before.last() + b.last().push('\n')) =~= blocks(a)
                + blocks(b));
        }
    }
}

/// Lines without a delimiter line make one block.
pub proof fn lemma_blocks_single(ls: Seq<Seq<char>>)
    requires
        forall|i: int| 0 <= i < ls.len() ==> !is_delimiter(#[trigger] ls[i]),
    ensures
        blocks(ls) == seq![unlines(ls)],
    decreases ls.len(),
{
    if ls.len() > 0 {
        let head = ls.drop_last();
        assert forall|i: int| 0 <= i < head.len() implies !is_delimiter(#[trigger] head[i]) by {
            assert(head[i] == ls[i]);
        }
        lemma_blocks_single(head);
        assert(!is_delimiter(ls[ls.len() - 1]));
        assert(seq![unlines(head)].drop_last().push(unlines(head) + ls.last().push('\n'))
            =~= seq![unlines(ls)]);
    }
}

/// One more block adds its trimmed text to the entries, unless that is empty.
pub proof fn lemma_entries_push(parts: Seq<Seq<char>>, part: Seq<char>)
    ensures
        nonempty(trimmed(parts.push(part))) == if trim(part).len() > 0 {
            nonempty(trimmed(parts)).push(trim(part))
        } else {
            nonempty(trimmed(parts))
        },
{
    lemma_trimmed_push(parts, part);
    lemma_nonempty_push(trimmed(parts), trim(part));
}

/// Every entry that parsing gives is trimmed and not empty.
pub proof fn lemma_parse_entries(text: Seq<char>)
    ensures
        forall|i: int| 0 <= i < parse(text).len() ==> is_entry(#[trigger] parse(text)[i]),
{
    let parts = trimmed(blocks(lines(text)));
    let pred = |item: Seq<char>| item.len() > 0;
    assert forall|i: int| 0 <= i < parse(text).len() implies is_entry(
        #[trigger] parse(text)[i],
    ) by {
        parts.lemma_filter_pred(pred, i);
        let e = parts.filter(pred)[i];
        parts.lemma_filter_contains_rev(pred, e);
        let j = choose|j: int| 0 <= j < parts.len() && parts[j] == e;
        lemma_trim_is_trimmed(blocks(lines(text))[j]);
    }
}

/// A line feed at the end of a text does not change its entries.
pub proof fn lemma_parse_push_newline(s: Seq<char>)
    ensures
        parse(s.push('\n')) == parse(s),
{
    let before = lines(s);
    assert(s.push('\n').drop_last() =~= s);
    let after = before.push(Seq::<char>::empty());
    assert(lines(s.push('\n')) == after);
    assert(after.drop_last() =~= before);
    lemma_blocks_len(before);
    let old_blocks = blocks(before);
    let new_blocks = old_blocks.drop_last().push(
        old_blocks.last() + Seq::<char>::empty().push('\n'),
    );
    assert(!is_delimiter(Seq::<char>::empty()));
    assert(blocks(after) == new_blocks);
    assert(old_blocks.last() + Seq::<char>::empty().push('\n') =~= old_blocks.last().push('\n'));
    lemma_trim_push(old_blocks.last(), '\n');
    assert(trimmed(new_blocks) =~= trimmed(old_blocks));
}

/// A delimiter line between two texts keeps their entries apart: the entries
/// of the whole are those of the first text followed by those of the second.
pub proof fn lemma_parse_concat(a: Seq<char>, d: Seq<char>, b: Seq<char>)
    requires
        is_delimiter(d),
    ensures
        parse(a.push('\n') + d.push('\n') + b) == parse(a) + parse(b),
{
    let whole = a.push('\n') + d.push('\n') + b;
    assert(whole =~= a.push('\n') + (d.push('\n') + b));
    lemma_split_concat(a, '\n', d.push('\n') + b, Separator::Newline);
    lemma_split_concat(d, '\n', b, Separator::Newline);
    assert forall|i: int| 0 <= i < d.len() implies !Separator::Newline.separates(
        #[trigger] d[i],
    ) by {
        assert(d[i] == '-');
    }
    lemma_split_whole(d, Separator::Newline);
    assert(lines(whole) =~= lines(a).push(d) + lines(b));
    lemma_blocks_concat(lines(a), d, lines(b));
    let first = blocks(lines(a));
    let second = blocks(lines(b));
    assert(trimmed(first + second) =~= trimmed(first) + trimmed(second));
    Seq::filter_distributes_over_add(
        trimmed(first),
        trimmed(second),
        |item: Seq<char>| item.len() > 0,
    );
}

/// A text that is one entry without a delimiter line holds that entry alone.
pub proof fn lemma_parse_entry(e: Seq<char>)
    requires
        is_entry(e),
        delimiter_free(e),
    ensures
        parse(e) == seq![e],
{
    lemma_blocks_single(lines(e));
    lemma_unlines_lines(e);
    let block = e.push('\n');
    assert(block.take(0) =~= Seq::<char>::empty());
    assert(block.skip(e.len() as int) =~= seq!['\n']);
    assert(block[0] == e.first());
    assert(block[e.len() - 1] == e.last());
    lemma_trim_subrange(block, 0, e.len() as int);
    assert(block.subrange(0, e.len() as int) =~= e);
    assert(trimmed(seq![block]) =~= seq![e]);
    assert(seq![e] =~= Seq::<Seq<char>>::empty().push(e));
    lemma_nonempty_push(Seq::<Seq<char>>::empty(), e);
    assert(nonempty(Seq::<Seq<char>>::empty()) =~= Seq::<Seq<char>>::empty()) by {
        reveal(Seq::filter);
    }
}

/// The empty text holds no entry.
pub proof fn lemma_parse_empty()
    ensures
        parse(Seq::<char>::empty()) == Seq::<Seq<char>>::empty(),
{
    let nothing = Seq::<char>::empty();
    assert(lines(nothing) == seq![nothing]);
    assert(seq![nothing].drop_last() =~= Seq::<Seq<char>>::empty());
    assert(!is_delimiter(nothing));
    assert(blocks(Seq::<Seq<char>>::empty()) =~= seq![nothing]);
    let block = nothing + nothing.push('\n');
    assert(blocks(seq![nothing]) =~= seq![block]);
    assert(block =~= seq!['\n']);
    assert(block.take(1) =~= block);
    lemma_trim_start_skip(block, 1);
    assert(block.skip(1) =~= nothing);
    assert(trimmed(seq![block]) =~= seq![nothing]);
    assert(seq![nothing] =~= Seq::<Seq<char>>::empty().push(nothing));
    lemma_nonempty_push(Seq::<Seq<char>>::empty(), nothing);
    assert(nonempty(Seq::<Seq<char>>::empty()) =~= Seq::<Seq<char>>::empty()) by {
        reveal(Seq::filter);
    }
}

/// `join` of a sequence with one more part.
pub proof fn lemma_join_push(parts: Seq<Seq<char>>, part: Seq<char>)
    ensures
        join(parts.push(part)) == if parts.len() == 0 {
            part.push('\n')
        } else {
            join(parts) + dashes().push('\n') + part.push('\n')
        },
{
    assert(parts.push(part).drop_last() =~= parts);
}

/// Joined text is empty exactly when there are no parts.
pub proof fn lemma_join_len(parts: Seq<Seq<char>>)
    ensures
        join(parts).len() > 0 <==> parts.len() > 0,
{
}

// Queries

/// The queries of lines with one more line.
pub proof fn lemma_queries_of_push(lines: Seq<Seq<char>>, line: Seq<char>)
    ensures
        queries_of(lines.push(line)) == if words(line).len() > 0 {
            queries_of(lines).push(words(line))
        } else {
            queries_of(lines)
        },
{
    let f = |line: Seq<char>| words(line);
    assert(lines.push(line).map_values(f) =~= lines.map_values(f).push(words(line)));
    lemma_nonempty_push(lines.map_values(f), words(line));
}

/// The queries of two runs of lines, one after the other.
pub proof fn lemma_queries_of_add(first: Seq<Seq<char>>, second: Seq<Seq<char>>)
    ensures
        queries_of(first + second) == queries_of(first) + queries_of(second),
    decreases second.len(),
{
    if second.len() == 0 {
        assert(first + second =~= first);
        assert(queries_of(second) =~= Seq::<Seq<Seq<char>>>::empty()) by {
            reveal(Seq::filter);
        }
        assert(queries_of(first) + queries_of(second) =~= queries_of(first));
    } else {
        let head = second.drop_last();
        lemma_queries_of_add(first, head);
        assert(first + second =~= (first + head).push(second.last()));
        assert(second =~= head.push(second.last()));
        lemma_queries_of_push(first + head, second.last());
        lemma_queries_of_push(head, second.last());
        assert(queries_of(first) + queries_of(head).push(words(second.last())) =~= (queries_of(
            first,
        ) + queries_of(head)).push(words(second.last())));
    }
}

/// The arcs of queries with one more query.
pub proof fn lemma_arcs_push(
    entries: Seq<Seq<char>>,
    queries: Seq<Seq<Seq<char>>>,
    query: Seq<Seq<char>>,
)
    ensures
        arcs(entries, queries.push(query)) == if arc(entries, query).len() > 0 {
            arcs(entries, queries).push(arc(entries, query))
        } else {
            arcs(entries, queries)
        },
{
    let f = |q: Seq<Seq<char>>| arc(entries, q);
    assert(queries.push(query).map_values(f) =~= queries.map_values(f).push(arc(entries, query)));
    lemma_nonempty_push(queries.map_values(f), arc(entries, query));
}

/// An entry is referred to by queries with one more query exactly when it
/// was before or matches the new one.
pub proof fn lemma_referred_push(
    entry: Seq<char>,
    queries: Seq<Seq<Seq<char>>>,
    query: Seq<Seq<char>>,
)
    ensures
        referred(entry, queries.push(query)) <==> referred(entry, queries) || model::matches(
            entry,
            query,
        ),
{
    let more = queries.push(query);
    if referred(entry, queries) {
        let k = choose|k: int|
            0 <= k < queries.len() && model::matches(entry, #[trigger] queries[k]);
        assert(more[k] == queries[k]);
    }
    if model::matches(entry, query) {
        assert(more[queries.len() as int] == query);
    }
    if referred(entry, more) {
        let k = choose|k: int| 0 <= k < more.len() && model::matches(entry, #[trigger] more[k]);
        if k < queries.len() {
            assert(more[k] == queries[k]);
        }
    }
}

} // verus!
