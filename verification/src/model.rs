//! The mathematical model: what text, entries, searches and narratives mean,
//! as functions on sequences of characters. The contracts of the executable
//! functions are stated over these.

use crate::std_specs::lowercase;
use vstd::prelude::*;

verus! {

/// Whether `c` carries the Unicode property `White_Space`.
pub open spec fn is_whitespace(c: char) -> bool {
    let n = c as u32;
    ||| 0x09 <= n <= 0x0D
    ||| n == 0x20
    ||| n == 0x85
    ||| n == 0xA0
    ||| n == 0x1680
    ||| 0x2000 <= n <= 0x200A
    ||| n == 0x2028
    ||| n == 0x2029
    ||| n == 0x202F
    ||| n == 0x205F
    ||| n == 0x3000
}

/// Whether every character of `s` is whitespace.
pub open spec fn is_blank(s: Seq<char>) -> bool {
    forall|i: int| 0 <= i < s.len() ==> is_whitespace(#[trigger] s[i])
}

/// `s` without its leading whitespace.
pub open spec fn trim_start(s: Seq<char>) -> Seq<char>
    decreases s.len(),
{
    if s.len() > 0 && is_whitespace(s.first()) {
        trim_start(s.drop_first())
    } else {
        s
    }
}

/// `s` without its trailing whitespace.
pub open spec fn trim_end(s: Seq<char>) -> Seq<char>
    decreases s.len(),
{
    if s.len() > 0 && is_whitespace(s.last()) {
        trim_end(s.drop_last())
    } else {
        s
    }
}

/// `s` without its leading and trailing whitespace.
pub open spec fn trim(s: Seq<char>) -> Seq<char> {
    trim_end(trim_start(s))
}

/// Whether `s` neither starts nor ends with whitespace.
pub open spec fn is_trimmed(s: Seq<char>) -> bool {
    s.len() > 0 ==> !is_whitespace(s.first()) && !is_whitespace(s.last())
}

/// The two kinds of character at which text is split.
#[derive(Clone, Copy, Debug)]
pub enum Separator {
    /// The line feed character.
    Newline,
    /// Any whitespace character.
    Whitespace,
}

impl Separator {
    /// Whether text is split at `c`.
    pub open spec fn separates(self, c: char) -> bool {
        match self {
            Separator::Newline => c == '\n',
            Separator::Whitespace => is_whitespace(c),
        }
    }
}

/// The pieces of `s` between separators, in order. There is always one piece
/// more than there are separators in `s`, so pieces may be empty.
pub open spec fn split(s: Seq<char>, sep: Separator) -> Seq<Seq<char>>
    decreases s.len(),
{
    if s.len() == 0 {
        seq![Seq::<char>::empty()]
    } else {
        let before = split(s.drop_last(), sep);
        if sep.separates(s.last()) {
            before.push(Seq::<char>::empty())
        } else {
            before.drop_last().push(before.last().push(s.last()))
        }
    }
}

/// The lines of `s`: its pieces between line feeds.
pub open spec fn lines(s: Seq<char>) -> Seq<Seq<char>> {
    split(s, Separator::Newline)
}

/// The lines of a text, each followed by a line feed, one after the other.
pub open spec fn unlines(lines: Seq<Seq<char>>) -> Seq<char>
    decreases lines.len(),
{
    if lines.len() == 0 {
        Seq::<char>::empty()
    } else {
        unlines(lines.drop_last()) + lines.last().push('\n')
    }
}

/// The members of `items` that are not empty, in their order.
pub open spec fn nonempty<T>(items: Seq<Seq<T>>) -> Seq<Seq<T>> {
    items.filter(|item: Seq<T>| item.len() > 0)
}

/// The words of `s`: its maximal runs of characters that are not whitespace.
pub open spec fn words(s: Seq<char>) -> Seq<Seq<char>> {
    nonempty(split(s, Separator::Whitespace))
}

/// Whether `needle` stands in `hay` at position `i`.
pub open spec fn occurs_at(hay: Seq<char>, needle: Seq<char>, i: int) -> bool {
    &&& 0 <= i
    &&& i + needle.len() <= hay.len()
    &&& hay.subrange(i, i + needle.len()) == needle
}

/// Whether `needle` is a contiguous part of `hay`.
pub open spec fn contains(hay: Seq<char>, needle: Seq<char>) -> bool {
    exists|i: int| occurs_at(hay, needle, i)
}

/// The character sequences that a sequence of strings stands for.
pub open spec fn views<T: View<V = Seq<char>>>(items: Seq<T>) -> Seq<Seq<char>> {
    items.map_values(|item: T| item@)
}

/// Every member of `items`, trimmed.
pub open spec fn trimmed(items: Seq<Seq<char>>) -> Seq<Seq<char>> {
    items.map_values(|item: Seq<char>| trim(item))
}

/// Whether `e` can be stored as an entry: it is not empty and neither starts
/// nor ends with whitespace.
pub open spec fn is_entry(e: Seq<char>) -> bool {
    e.len() > 0 && is_trimmed(e)
}

/// Whether `line` separates entries: it is not empty and all dashes.
pub open spec fn is_delimiter(line: Seq<char>) -> bool {
    line.len() > 0 && forall|i: int| 0 <= i < line.len() ==> #[trigger] line[i] == '-'
}

/// The text between the delimiter lines of `lines`, as one block per gap.
/// A block is made of its lines, each followed by a line feed. There is always
/// one block more than there are delimiter lines, so blocks may be empty.
pub open spec fn blocks(lines: Seq<Seq<char>>) -> Seq<Seq<char>>
    decreases lines.len(),
{
    if lines.len() == 0 {
        seq![Seq::<char>::empty()]
    } else {
        let before = blocks(lines.drop_last());
        if is_delimiter(lines.last()) {
            before.push(Seq::<char>::empty())
        } else {
            before.drop_last().push(before.last() + lines.last().push('\n'))
        }
    }
}

/// Whether no line of `s` is a delimiter line.
pub open spec fn delimiter_free(s: Seq<char>) -> bool {
    forall|i: int| 0 <= i < lines(s).len() ==> !is_delimiter(#[trigger] lines(s)[i])
}

/// The entries that `text` holds: its blocks, trimmed, without those that
/// trimming leaves empty.
pub open spec fn parse(text: Seq<char>) -> Seq<Seq<char>> {
    nonempty(trimmed(blocks(lines(text))))
}

/// The delimiter line as it is written: four dashes.
pub open spec fn dashes() -> Seq<char> {
    seq!['-', '-', '-', '-']
}

/// `parts`, each followed by a line feed, with a delimiter line between
/// neighbours.
pub open spec fn join(parts: Seq<Seq<char>>) -> Seq<char>
    decreases parts.len(),
{
    if parts.len() == 0 {
        Seq::<char>::empty()
    } else if parts.len() == 1 {
        parts.last().push('\n')
    } else {
        join(parts.drop_last()) + dashes().push('\n') + parts.last().push('\n')
    }
}

/// The text that holds `entries`: each trimmed, with delimiter lines between.
pub open spec fn generate(entries: Seq<Seq<char>>) -> Seq<char> {
    join(trimmed(entries))
}

/// Whether `entry` holds every needle, letter case aside.
pub open spec fn matches(entry: Seq<char>, needles: Seq<Seq<char>>) -> bool {
    forall|k: int|
        0 <= k < needles.len() ==> contains(lowercase(entry), lowercase(#[trigger] needles[k]))
}

/// The entries that match `needles`, in their order.
pub open spec fn select(entries: Seq<Seq<char>>, needles: Seq<Seq<char>>) -> Seq<Seq<char>> {
    entries.filter(|e: Seq<char>| matches(e, needles))
}

/// The entries that do not match `needles`, in their order.
pub open spec fn reject(entries: Seq<Seq<char>>, needles: Seq<Seq<char>>) -> Seq<Seq<char>> {
    entries.filter(|e: Seq<char>| !matches(e, needles))
}

/// What reading a file gave: the text that it holds, or why it could not be
/// read.
pub type Reading = Result<Seq<char>, Seq<char>>;

/// What a sequence of outcomes of reading stands for.
pub open spec fn readings<T: View<V = Seq<char>>>(items: Seq<Result<T, T>>) -> Seq<Reading> {
    items.map_values(
        |item: Result<T, T>|
            match item {
                Ok(text) => Ok(text@),
                Err(why) => Err(why@),
            },
    )
}

/// Whether every reading gave a text.
pub open spec fn all_read(readings: Seq<Reading>) -> bool {
    forall|i: int| 0 <= i < readings.len() ==> (#[trigger] readings[i]) is Ok
}

/// Whether the reading at `i` is the first that failed.
pub open spec fn first_failure(readings: Seq<Reading>, i: int) -> bool {
    &&& 0 <= i < readings.len()
    &&& readings[i] is Err
    &&& all_read(readings.take(i))
}

/// Whether some reading failed, the first of them for the reason `why`.
pub open spec fn fails_with(readings: Seq<Reading>, why: Seq<char>) -> bool {
    exists|i: int| first_failure(readings, i) && #[trigger] readings[i] == Err::<
        Seq<char>,
        Seq<char>,
    >(why)
}

/// The texts that the readings gave, where all of them gave one.
pub open spec fn texts(readings: Seq<Reading>) -> Seq<Seq<char>> {
    readings.map_values(
        |reading: Reading|
            match reading {
                Ok(text) => text,
                Err(_) => Seq::<char>::empty(),
            },
    )
}

/// The lines of all `narratives`, in order.
pub open spec fn all_lines(narratives: Seq<Seq<char>>) -> Seq<Seq<char>>
    decreases narratives.len(),
{
    if narratives.len() == 0 {
        Seq::<Seq<char>>::empty()
    } else {
        all_lines(narratives.drop_last()) + lines(narratives.last())
    }
}

/// The queries that `lines` hold: the words of each line that has any.
pub open spec fn queries_of(lines: Seq<Seq<char>>) -> Seq<Seq<Seq<char>>> {
    nonempty(lines.map_values(|line: Seq<char>| words(line)))
}

/// The queries that `narratives` hold, in order.
pub open spec fn queries(narratives: Seq<Seq<char>>) -> Seq<Seq<Seq<char>>> {
    queries_of(all_lines(narratives))
}

/// The arc of one query: the text of the entries it selects, trimmed.
pub open spec fn arc(entries: Seq<Seq<char>>, needles: Seq<Seq<char>>) -> Seq<char> {
    trim(generate(select(entries, needles)))
}

/// The arcs of `queries` that are not empty, in order.
pub open spec fn arcs(entries: Seq<Seq<char>>, queries: Seq<Seq<Seq<char>>>) -> Seq<Seq<char>> {
    nonempty(queries.map_values(|q: Seq<Seq<char>>| arc(entries, q)))
}

/// The story that `narratives` tell from `entries`: one arc for each query
/// that selects anything, with delimiter lines between.
pub open spec fn narrate(entries: Seq<Seq<char>>, narratives: Seq<Seq<char>>) -> Seq<char> {
    join(arcs(entries, queries(narratives)))
}

/// Whether some query matches `entry`.
pub open spec fn referred(entry: Seq<char>, queries: Seq<Seq<Seq<char>>>) -> bool {
    exists|k: int| 0 <= k < queries.len() && matches(entry, #[trigger] queries[k])
}

/// The entries that no query matches, in their order.
pub open spec fn unreferred(entries: Seq<Seq<char>>, queries: Seq<Seq<Seq<char>>>) -> Seq<
    Seq<char>,
> {
    entries.filter(|e: Seq<char>| !referred(e, queries))
}

/// Whether some query selects `entry` from `entries`.
pub open spec fn selected(
    entries: Seq<Seq<char>>,
    queries: Seq<Seq<Seq<char>>>,
    entry: Seq<char>,
) -> bool {
    exists|k: int| 0 <= k < queries.len() && select(entries, #[trigger] queries[k]).contains(entry)
}

/// The text of the entries that `narratives` leave out.
pub open spec fn missing(entries: Seq<Seq<char>>, narratives: Seq<Seq<char>>) -> Seq<char> {
    generate(unreferred(entries, queries(narratives)))
}

} // verus!
