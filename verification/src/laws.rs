//! What holds of the format, of searching and of composing, for all inputs.

use crate::lemmas::{
    lemma_blocks_concat, lemma_filter_push, lemma_nonempty_push, lemma_parse_concat,
    lemma_parse_empty, lemma_parse_entry, lemma_parse_push_newline, lemma_split_concat,
    lemma_split_len, lemma_split_whole, lemma_trim_is_trimmed, lemma_trim_subrange,
    lemma_unlines_lines,
};
use crate::model;
use crate::model::{
    blocks, dashes, delimiter_free, generate, is_delimiter, is_entry, join, lines, nonempty, parse,
    queries, select, selected, split, trim, trimmed, unlines, unreferred, Separator,
};
use vstd::prelude::*;

verus! {

/// Joined parts, read back, are the parts again, when each part is an entry
/// without a delimiter line.
pub proof fn law_parse_join(parts: Seq<Seq<char>>)
    requires
        forall|i: int|
            0 <= i < parts.len() ==> is_entry(#[trigger] parts[i]) && delimiter_free(parts[i]),
    ensures
        parse(join(parts)) == parts,
    decreases parts.len(),
{
    if parts.len() == 0 {
        lemma_parse_empty();
        assert(parts =~= Seq::<Seq<char>>::empty());
    } else if parts.len() == 1 {
        let part = parts.last();
        assert(parts[0] == part);
        lemma_parse_push_newline(part);
        lemma_parse_entry(part);
        assert(parts =~= seq![part]);
    } else {
        let head = parts.drop_last();
        let part = parts.last();
        assert forall|i: int| 0 <= i < head.len() implies is_entry(#[trigger] head[i])
            && delimiter_free(head[i]) by {
            assert(head[i] == parts[i]);
        }
        law_parse_join(head);
        let before = join(head);
        let body = before.drop_last();
        assert(before.last() == '\n');
        assert(before =~= body.push('\n'));
        let inner = body.push('\n') + dashes().push('\n') + part;
        assert(join(parts) =~= inner.push('\n'));
        lemma_parse_push_newline(inner);
        assert(is_delimiter(dashes()));
        lemma_parse_concat(body, dashes(), part);
        lemma_parse_push_newline(body);
        assert(parts[parts.len() - 1] == part);
        lemma_parse_entry(part);
        assert(head + seq![part] =~= parts);
    }
}

/// Writing entries and reading the text back gives the entries again, each
/// trimmed, when none of them is blank and none, trimmed, has a delimiter
/// line.
pub proof fn law_round_trip(entries: Seq<Seq<char>>)
    requires
        forall|i: int|
            0 <= i < entries.len() ==> trim(#[trigger] entries[i]).len() > 0 && delimiter_free(
                trim(entries[i]),
            ),
    ensures
        parse(generate(entries)) == trimmed(entries),
{
    let parts = trimmed(entries);
    assert forall|i: int| 0 <= i < parts.len() implies is_entry(#[trigger] parts[i])
        && delimiter_free(parts[i]) by {
        assert(parts[i] == trim(entries[i]));
        lemma_trim_is_trimmed(entries[i]);
    }
    law_parse_join(parts);
}

/// No piece of a split text holds a separator.
pub proof fn law_split_pieces(s: Seq<char>, sep: Separator)
    ensures
        forall|i: int, j: int|
            0 <= i < split(s, sep).len() && 0 <= j < split(s, sep)[i].len() ==> !sep.separates(
                #[trigger] split(s, sep)[i][j],
            ),
    decreases s.len(),
{
    if s.len() > 0 {
        law_split_pieces(s.drop_last(), sep);
        lemma_split_len(s.drop_last(), sep);
    }
}

/// The lines of a text, each followed by a line feed, spell the text with
/// one line feed more.
pub proof fn law_lines_spell_text(s: Seq<char>)
    ensures
        unlines(lines(s)) == s.push('\n'),
{
    lemma_unlines_lines(s);
}

/// What a store holds reads back as it is, when no entry has a delimiter
/// line.
pub proof fn law_stored_round_trip(entries: Seq<Seq<char>>)
    requires
        forall|i: int|
            0 <= i < entries.len() ==> is_entry(#[trigger] entries[i]) && delimiter_free(
                entries[i],
            ),
    ensures
        parse(generate(entries)) == entries,
{
    assert forall|i: int| 0 <= i < entries.len() implies trim(#[trigger] entries[i])
        == entries[i] by {
        let e = entries[i];
        assert(e.take(0) =~= Seq::<char>::empty());
        assert(e.skip(e.len() as int) =~= Seq::<char>::empty());
        lemma_trim_subrange(e, 0, e.len() as int);
        assert(e.subrange(0, e.len() as int) =~= e);
    }
    assert(trimmed(entries) =~= entries);
    law_parse_join(entries);
}

/// A delimiter line between two texts keeps their entries apart: the entries
/// of the whole are those of the first text followed by those of the second.
pub proof fn law_delimiter_splits(before: Seq<char>, delimiter: Seq<char>, after: Seq<char>)
    requires
        is_delimiter(delimiter),
    ensures
        parse(before.push('\n') + delimiter.push('\n') + after) == parse(before) + parse(after),
{
    lemma_parse_concat(before, delimiter, after);
}

/// How many dashes a delimiter line has makes no difference to what is read.
pub proof fn law_delimiter_length(
    before: Seq<char>,
    one: Seq<char>,
    other: Seq<char>,
    after: Seq<char>,
)
    requires
        is_delimiter(one),
        is_delimiter(other),
    ensures
        parse(before.push('\n') + one.push('\n') + after) == parse(
            before.push('\n') + other.push('\n') + after,
        ),
{
    lemma_parse_concat(before, one, after);
    lemma_parse_concat(before, other, after);
}

/// A delimiter line at the start of a text adds no entry.
pub proof fn law_leading_delimiter(delimiter: Seq<char>, after: Seq<char>)
    requires
        is_delimiter(delimiter),
    ensures
        parse(delimiter.push('\n') + after) == parse(after),
{
    let nothing = Seq::<char>::empty();
    lemma_split_concat(delimiter, '\n', after, Separator::Newline);
    assert forall|i: int| 0 <= i < delimiter.len() implies !Separator::Newline.separates(
        #[trigger] delimiter[i],
    ) by {
        assert(delimiter[i] == '-');
    }
    lemma_split_whole(delimiter, Separator::Newline);
    let none = Seq::<Seq<char>>::empty();
    assert(lines(delimiter.push('\n') + after) =~= none.push(delimiter) + lines(after));
    lemma_blocks_concat(none, delimiter, lines(after));
    let first = blocks(none);
    let second = blocks(lines(after));
    assert(first =~= none.push(nothing));
    assert(trimmed(first + second) =~= trimmed(first) + trimmed(second));
    Seq::filter_distributes_over_add(
        trimmed(first),
        trimmed(second),
        |item: Seq<char>| item.len() > 0,
    );
    assert(trimmed(first) =~= none.push(nothing));
    lemma_nonempty_push(none, nothing);
    assert(nonempty(none) =~= none) by {
        reveal(Seq::filter);
    }
    assert(none + parse(after) =~= parse(after));
}

/// A delimiter line at the end of a text adds no entry.
pub proof fn law_trailing_delimiter(before: Seq<char>, delimiter: Seq<char>)
    requires
        is_delimiter(delimiter),
    ensures
        parse(before.push('\n') + delimiter) == parse(before),
{
    let nothing = Seq::<char>::empty();
    lemma_parse_push_newline(before.push('\n') + delimiter);
    assert((before.push('\n') + delimiter).push('\n') =~= before.push('\n') + delimiter.push('\n')
        + nothing);
    lemma_parse_concat(before, delimiter, nothing);
    lemma_parse_empty();
    assert(parse(before) + Seq::<Seq<char>>::empty() =~= parse(before));
}

/// Searching the result of a search with the same needles changes nothing:
/// the same entries come out, in the same order.
pub proof fn law_search_idempotent(entries: Seq<Seq<char>>, needles: Seq<Seq<char>>)
    ensures
        select(select(entries, needles), needles) == select(entries, needles),
    decreases entries.len(),
{
    let pred = |e: Seq<char>| model::matches(e, needles);
    if entries.len() == 0 {
        reveal(Seq::filter);
        assert(select(entries, needles) =~= Seq::<Seq<char>>::empty());
    } else {
        let head = entries.drop_last();
        let e = entries.last();
        law_search_idempotent(head, needles);
        assert(entries =~= head.push(e));
        lemma_filter_push(head, e, pred);
        if model::matches(e, needles) {
            lemma_filter_push(select(head, needles), e, pred);
        }
    }
}

/// An entry matches two needles exactly when it matches each of them alone.
pub proof fn law_and_semantics(entry: Seq<char>, a: Seq<char>, b: Seq<char>)
    ensures
        model::matches(entry, seq![a, b]) <==> model::matches(entry, seq![a]) && model::matches(
            entry,
            seq![b],
        ),
{
    let both = seq![a, b];
    if model::matches(entry, both) {
        assert(both[0] == a);
        assert(both[1] == b);
    }
    if model::matches(entry, seq![a]) && model::matches(entry, seq![b]) {
        assert(seq![a][0] == a);
        assert(seq![b][0] == b);
    }
}

/// An entry matches needles taken together exactly when it matches each run
/// of them.
pub proof fn law_matches_all(entry: Seq<char>, first: Seq<Seq<char>>, second: Seq<Seq<char>>)
    ensures
        model::matches(entry, first + second) <==> model::matches(entry, first) && model::matches(
            entry,
            second,
        ),
{
    let all = first + second;
    if model::matches(entry, all) {
        assert forall|k: int| 0 <= k < first.len() implies model::contains(
            crate::std_specs::lowercase(entry),
            crate::std_specs::lowercase(#[trigger] first[k]),
        ) by {
            assert(all[k] == first[k]);
        }
        assert forall|k: int| 0 <= k < second.len() implies model::contains(
            crate::std_specs::lowercase(entry),
            crate::std_specs::lowercase(#[trigger] second[k]),
        ) by {
            assert(all[first.len() + k] == second[k]);
        }
    }
    if model::matches(entry, first) && model::matches(entry, second) {
        assert forall|k: int| 0 <= k < all.len() implies model::contains(
            crate::std_specs::lowercase(entry),
            crate::std_specs::lowercase(#[trigger] all[k]),
        ) by {
            if k < first.len() {
                assert(all[k] == first[k]);
            } else {
                assert(all[k] == second[k - first.len()]);
            }
        }
    }
}

/// No needles match every entry: a search without needles selects every
/// entry, in their order.
pub proof fn law_vacuous_match(entries: Seq<Seq<char>>)
    ensures
        forall|e: Seq<char>| model::matches(e, Seq::<Seq<char>>::empty()),
        select(entries, Seq::<Seq<char>>::empty()) == entries,
    decreases entries.len(),
{
    let none = Seq::<Seq<char>>::empty();
    if entries.len() == 0 {
        reveal(Seq::filter);
        assert(select(entries, none) =~= entries);
    } else {
        let head = entries.drop_last();
        law_vacuous_match(head);
        assert(entries =~= head.push(entries.last()));
        lemma_filter_push(head, entries.last(), |e: Seq<char>| model::matches(e, none));
    }
}

/// The entries that narratives leave out are exactly the entries that no
/// query of theirs selects.
pub proof fn law_missing_covers(entries: Seq<Seq<char>>, narratives: Seq<Seq<char>>)
    ensures
        forall|e: Seq<char>| #[trigger]
            unreferred(entries, queries(narratives)).contains(e) <==> entries.contains(e)
                && !selected(entries, queries(narratives), e),
{
    let asked = queries(narratives);
    let left = |e: Seq<char>| !model::referred(e, asked);
    assert forall|e: Seq<char>| #[trigger]
        unreferred(entries, asked).contains(e) <==> entries.contains(e) && !selected(
            entries,
            asked,
            e,
        ) by {
        if unreferred(entries, asked).contains(e) {
            entries.lemma_filter_contains_rev(left, e);
            if selected(entries, asked, e) {
                let k = choose|k: int|
                    0 <= k < asked.len() && select(entries, #[trigger] asked[k]).contains(e);
                entries.lemma_filter_contains_rev(|x: Seq<char>| model::matches(x, asked[k]), e);
            }
        }
        if entries.contains(e) && !selected(entries, asked, e) {
            let i = choose|i: int| 0 <= i < entries.len() && entries[i] == e;
            if model::referred(e, asked) {
                let k = choose|k: int|
                    0 <= k < asked.len() && model::matches(e, #[trigger] asked[k]);
                entries.lemma_filter_contains(|x: Seq<char>| model::matches(x, asked[k]), i);
            }
            entries.lemma_filter_contains(left, i);
        }
    }
}

} // verus!
