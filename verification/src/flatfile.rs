//! Reading and writing the flat-file format.

use crate::lemmas::{lemma_blocks_len, lemma_entries_push, lemma_join_push, lemma_trimmed_push};
use crate::model;
use crate::model::{blocks, nonempty, trim, trimmed, views, Separator};
use crate::text::{chars_of, split, string_of, trim_bounds};
use vstd::prelude::*;

verus! {

/// Whether `line` separates entries.
pub fn is_delimiter(line: &[char]) -> (b: bool)
    ensures
        b == model::is_delimiter(line@),
{
    if line.len() == 0 {
        return false;
    }
    for i in 0..line.len()
        invariant
            forall|k: int| 0 <= k < i ==> line@[k] == '-',
    {
        if line[i] != '-' {
            return false;
        }
    }
    true
}

/// Appends `s[from..to]` to `out`.
pub fn append_range(out: &mut Vec<char>, s: &[char], from: usize, to: usize)
    requires
        from <= to <= s.len(),
    ensures
        final(out)@ == old(out)@ + s@.subrange(from as int, to as int),
{
    let mut i: usize = from;
    assert(out@ =~= old(out)@ + s@.subrange(from as int, i as int));
    while i < to
        invariant
            from <= i <= to <= s.len(),
            out@ == old(out)@ + s@.subrange(from as int, i as int),
        decreases to - i,
    {
        out.push(s[i]);
        i += 1;
        assert(out@ =~= old(out)@ + s@.subrange(from as int, i as int));
    }
}

/// Ends a block: its trimmed text becomes an entry, unless it is empty.
fn flush(entries: &mut Vec<String>, block: &[char])
    ensures
        views(final(entries)@) == if trim(block@).len() > 0 {
            views(old(entries)@).push(trim(block@))
        } else {
            views(old(entries)@)
        },
{
    let (from, to) = trim_bounds(block);
    if from < to {
        let entry = string_of(block, from, to);
        entries.push(entry);
        assert(views(entries@) =~= views(old(entries)@).push(trim(block@)));
    }
}

/// The entries that `text` holds, in file order.
pub fn parse(text: &str) -> (entries: Vec<String>)
    ensures
        views(entries@) == model::parse(text@),
{
    let chars = chars_of(text);
    let lines = split(chars.as_slice(), Separator::Newline);
    let mut entries: Vec<String> = Vec::new();
    let mut block: Vec<char> = Vec::new();
    assert(views(lines@).take(0) =~= Seq::<Seq<char>>::empty());
    assert(views(entries@) =~= nonempty(trimmed(Seq::<Seq<char>>::empty()))) by {
        reveal(Seq::filter);
    }
    assert(blocks(views(lines@).take(0)).drop_last() =~= Seq::<Seq<char>>::empty());
    for i in 0..lines.len()
        invariant
            views(lines@) == model::lines(text@),
            views(entries@) == nonempty(trimmed(blocks(views(lines@).take(i as int)).drop_last())),
            block@ == blocks(views(lines@).take(i as int)).last(),
    {
        let ghost seen = blocks(views(lines@).take(i as int));
        proof {
            assert(views(lines@).take(i + 1).drop_last() =~= views(lines@).take(i as int));
            assert(views(lines@).take(i + 1).last() == lines@[i as int]@);
            lemma_blocks_len(views(lines@).take(i as int));
            assert(seen =~= seen.drop_last().push(seen.last()));
            lemma_entries_push(seen.drop_last(), seen.last());
        }
        if is_delimiter(lines[i].as_slice()) {
            flush(&mut entries, block.as_slice());
            block = Vec::new();
            assert(seen.push(Seq::<char>::empty()).drop_last() =~= seen);
        } else {
            let ghost before = block@;
            append_range(&mut block, lines[i].as_slice(), 0, lines[i].len());
            block.push('\n');
            assert(lines@[i as int]@.subrange(0, lines@[i as int]@.len() as int)
                =~= lines@[i as int]@);
            assert(block@ =~= before + lines@[i as int]@.push('\n'));
            assert(seen.drop_last().push(block@).drop_last() =~= seen.drop_last());
        }
    }
    proof {
        let all = blocks(views(lines@));
        assert(views(lines@).take(lines.len() as int) =~= views(lines@));
        lemma_blocks_len(views(lines@));
        assert(all =~= all.drop_last().push(all.last()));
        lemma_entries_push(all.drop_last(), all.last());
    }
    flush(&mut entries, block.as_slice());
    entries
}

/// The text that holds `entries`: each trimmed and followed by a line feed,
/// with a line of four dashes between neighbours.
pub fn generate(entries: &[&str]) -> (text: String)
    ensures
        text@ == model::generate(views(entries@)),
{
    let mut out: Vec<char> = Vec::new();
    assert(trimmed(views(entries@).take(0)) =~= Seq::<Seq<char>>::empty());
    for i in 0..entries.len()
        invariant
            out@ == model::generate(views(entries@).take(i as int)),
    {
        let chars = chars_of(entries[i]);
        let (from, to) = trim_bounds(chars.as_slice());
        proof {
            let seen = views(entries@).take(i as int);
            assert(views(entries@).take(i + 1) =~= seen.push(entries@[i as int]@));
            lemma_trimmed_push(seen, entries@[i as int]@);
            lemma_join_push(trimmed(seen), trim(entries@[i as int]@));
        }
        let ghost before = out@;
        if i > 0 {
            out.push('-');
            out.push('-');
            out.push('-');
            out.push('-');
            out.push('\n');
            assert(out@ =~= before + model::dashes().push('\n'));
        }
        append_range(&mut out, chars.as_slice(), from, to);
        out.push('\n');
        assert(out@ =~= if i > 0 {
            before + model::dashes().push('\n') + trim(chars@).push('\n')
        } else {
            trim(chars@).push('\n')
        });
    }
    assert(views(entries@).take(entries.len() as int) =~= views(entries@));
    let text = string_of(out.as_slice(), 0, out.len());
    assert(out@.subrange(0, out@.len() as int) =~= out@);
    text
}

} // verus!
