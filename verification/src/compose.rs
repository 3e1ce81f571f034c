//! Composition over narratives: each line of a narrative is one query
//! against the store.

use crate::flatfile::append_range;
use crate::lemmas::{
    lemma_arcs_push, lemma_contains_push, lemma_filter_push, lemma_join_len, lemma_join_push,
    lemma_queries_of_add, lemma_queries_of_push, lemma_referred_push,
};
use crate::matcher::{lower, lowers, matches_lowered};
use crate::model;
use crate::model::{all_read, fails_with, first_failure, readings, texts, views, Separator};
use crate::store::{borrow_all, Error, Gatherbrained};
use crate::text::{chars_of, split, string_of, trim_bounds, words};
use vstd::hash_set::StringHashSet;
use vstd::prelude::*;

verus! {

/// The needles that a sequence of queries stands for.
pub open spec fn needles_of(queries: Seq<Vec<String>>) -> Seq<Seq<Seq<char>>> {
    queries.map_values(|q: Vec<String>| views(q@))
}

/// The strings that `items` spell.
fn strings_of(items: &Vec<Vec<char>>) -> (r: Vec<String>)
    ensures
        views(r@) == views(items@),
{
    let mut r: Vec<String> = Vec::new();
    for i in 0..items.len()
        invariant
            r.len() == i,
            forall|k: int| 0 <= k < i ==> (#[trigger] r@[k])@ == items@[k]@,
    {
        let item = string_of(items[i].as_slice(), 0, items[i].len());
        assert(items@[i as int]@.subrange(0, items@[i as int]@.len() as int) =~= items@[i as int]@);
        r.push(item);
    }
    assert(views(r@) =~= views(items@));
    r
}

/// The words of `line`: the needles of the query that the line holds.
pub fn words_of(line: &str) -> (r: Vec<String>)
    ensures
        views(r@) == model::words(line@),
{
    let chars = chars_of(line);
    let found = words(chars.as_slice());
    strings_of(&found)
}

/// Appends the queries that the lines of `narrative` hold.
fn read_queries(found: &mut Vec<Vec<String>>, narrative: &str)
    ensures
        needles_of(final(found)@) == needles_of(old(found)@) + model::queries_of(
            model::lines(narrative@),
        ),
{
    let chars = chars_of(narrative);
    let lines = split(chars.as_slice(), Separator::Newline);
    proof {
        assert(views(lines@).take(0) =~= Seq::<Seq<char>>::empty());
        assert(model::queries_of(Seq::<Seq<char>>::empty()) =~= Seq::<Seq<Seq<char>>>::empty())
            by {
            reveal(Seq::filter);
        }
        assert(needles_of(found@) =~= needles_of(old(found)@) + Seq::<Seq<Seq<char>>>::empty());
    }
    for i in 0..lines.len()
        invariant
            views(lines@) == model::lines(narrative@),
            needles_of(found@) == needles_of(old(found)@) + model::queries_of(
                views(lines@).take(i as int),
            ),
    {
        let needles = words(lines[i].as_slice());
        proof {
            let seen = views(lines@).take(i as int);
            assert(views(lines@).take(i + 1) =~= seen.push(lines@[i as int]@));
            lemma_queries_of_push(seen, lines@[i as int]@);
        }
        if needles.len() > 0 {
            let ghost before = needles_of(found@);
            let query = strings_of(&needles);
            found.push(query);
            assert(needles_of(found@) =~= before.push(views(needles@)));
            assert(needles_of(old(found)@) + model::queries_of(views(lines@).take(i as int)).push(
                views(needles@),
            ) =~= before.push(views(needles@)));
        }
    }
    assert(views(lines@).take(lines.len() as int) =~= views(lines@));
}

/// The queries that `narratives` hold: for each line that has words, its
/// words, in the order of the narratives and of their lines.
pub fn queries(narratives: &[&str]) -> (found: Vec<Vec<String>>)
    ensures
        needles_of(found@) == model::queries(views(narratives@)),
{
    let mut found: Vec<Vec<String>> = Vec::new();
    proof {
        assert(views(narratives@).take(0) =~= Seq::<Seq<char>>::empty());
        assert(model::queries_of(Seq::<Seq<char>>::empty()) =~= needles_of(found@)) by {
            reveal(Seq::filter);
        }
    }
    for i in 0..narratives.len()
        invariant
            needles_of(found@) == model::queries(views(narratives@).take(i as int)),
    {
        proof {
            let seen = views(narratives@).take(i as int);
            assert(views(narratives@).take(i + 1).drop_last() =~= seen);
            assert(views(narratives@).take(i + 1).last() == narratives@[i as int]@);
            lemma_queries_of_add(model::all_lines(seen), model::lines(narratives@[i as int]@));
        }
        read_queries(&mut found, narratives[i]);
    }
    assert(views(narratives@).take(narratives.len() as int) =~= views(narratives@));
    found
}

/// The texts of `narratives`, each of them what reading one narrative file
/// gave, or the first failure among them.
fn gather<'a>(narratives: &[Result<&'a str, &'a str>]) -> (r: Result<Vec<&'a str>, Error>)
    ensures
        match r {
            Ok(found) => all_read(readings(narratives@)) && views(found@) == texts(
                readings(narratives@),
            ),
            Err(Error::System { what }) => fails_with(readings(narratives@), what@),
            Err(_) => false,
        },
{
    let ghost all = readings(narratives@);
    let mut found: Vec<&'a str> = Vec::new();
    for i in 0..narratives.len()
        invariant
            all == readings(narratives@),
            all_read(all.take(i as int)),
            found.len() == i,
            forall|k: int|
                0 <= k < i ==> all[k] == Ok::<Seq<char>, Seq<char>>((#[trigger] found@[k])@),
    {
        match narratives[i] {
            Ok(text) => {
                found.push(text);
                assert forall|k: int| 0 <= k < i + 1 implies (#[trigger] all.take(
                    i + 1,
                )[k]) is Ok by {
                    if k < i {
                        assert(all.take(i as int)[k] is Ok);
                    }
                }
            },
            Err(why) => {
                let what = why.to_owned();
                assert(first_failure(all, i as int));
                return Err(Error::System { what });
            },
        }
    }
    assert(all.take(narratives.len() as int) =~= all);
    assert(views(found@) =~= texts(all));
    Ok(found)
}

impl Gatherbrained {
    /// The story that `narratives` tell, each of them what reading one
    /// narrative file gave: for each line that has words, the text of the
    /// entries that match all of them, trimmed; the texts that are not empty
    /// follow one another with a line of four dashes between. A narrative
    /// that could not be read gives no story.
    pub fn narrate(&self, narratives: &[Result<&str, &str>]) -> (r: Result<String, Error>)
        ensures
            match r {
                Ok(text) => all_read(readings(narratives@)) && text@ == model::narrate(
                    self@.entries,
                    texts(readings(narratives@)),
                ),
                Err(Error::System { what }) => fails_with(readings(narratives@), what@),
                Err(_) => false,
            },
    {
        match gather(narratives) {
            Ok(read) => Ok(self.tell(read.as_slice())),
            Err(e) => Err(e),
        }
    }

    /// The text of the entries that `narratives` leave out, each of them what
    /// reading one narrative file gave: the entries, in file order, that no
    /// line with words matches. A narrative that could not be read gives no
    /// answer.
    pub fn missing(&self, narratives: &[Result<&str, &str>]) -> (r: Result<String, Error>)
        ensures
            match r {
                Ok(text) => all_read(readings(narratives@)) && text@ == model::missing(
                    self@.entries,
                    texts(readings(narratives@)),
                ),
                Err(Error::System { what }) => fails_with(readings(narratives@), what@),
                Err(_) => false,
            },
    {
        match gather(narratives) {
            Ok(read) => Ok(self.untold(read.as_slice())),
            Err(e) => Err(e),
        }
    }

    /// The story that the texts `narratives` tell.
    fn tell(&self, narratives: &[&str]) -> (text: String)
        ensures
            text@ == model::narrate(self@.entries, views(narratives@)),
    {
        let found = queries(narratives);
        let mut out: Vec<char> = Vec::new();
        proof {
            assert(needles_of(found@).take(0) =~= Seq::<Seq<Seq<char>>>::empty());
            assert(model::arcs(self@.entries, Seq::<Seq<Seq<char>>>::empty()) =~= Seq::<
                Seq<char>,
            >::empty()) by {
                reveal(Seq::filter);
            }
        }
        for i in 0..found.len()
            invariant
                needles_of(found@) == model::queries(views(narratives@)),
                out@ == model::join(model::arcs(self@.entries, needles_of(found@).take(i as int))),
        {
            let needles = borrow_all(&found[i]);
            let ghost seen = needles_of(found@).take(i as int);
            proof {
                assert(needles_of(found@).take(i + 1) =~= seen.push(views(needles@)));
                lemma_arcs_push(self@.entries, seen, views(needles@));
                lemma_join_len(model::arcs(self@.entries, seen));
                lemma_join_push(
                    model::arcs(self@.entries, seen),
                    model::arc(self@.entries, views(needles@)),
                );
            }
            let selected = self.found(needles.as_slice());
            let chars = chars_of(selected.as_str());
            let (from, to) = trim_bounds(chars.as_slice());
            if from < to {
                let ghost before = out@;
                if out.len() > 0 {
                    out.push('-');
                    out.push('-');
                    out.push('-');
                    out.push('-');
                    out.push('\n');
                    assert(out@ =~= before + model::dashes().push('\n'));
                }
                append_range(&mut out, chars.as_slice(), from, to);
                out.push('\n');
                assert(out@ =~= if before.len() > 0 {
                    before + model::dashes().push('\n') + model::trim(chars@).push('\n')
                } else {
                    model::trim(chars@).push('\n')
                });
            }
        }
        assert(needles_of(found@).take(found.len() as int) =~= needles_of(found@));
        let text = string_of(out.as_slice(), 0, out.len());
        assert(out@.subrange(0, out@.len() as int) =~= out@);
        text
    }

    /// The text of the entries that the texts `narratives` leave out. The
    /// working set is keyed by the text of an entry, so entries of equal text
    /// stay or leave together.
    fn untold(&self, narratives: &[&str]) -> (text: String)
        ensures
            text@ == model::missing(self@.entries, views(narratives@)),
    {
        let entries = self.entries();
        let found = queries(narratives);
        let ghost all = views(entries@);
        let ghost asked = needles_of(found@);
        let mut working = working_set(entries);
        assert(asked.take(0) =~= Seq::<Seq<Seq<char>>>::empty());
        for k in 0..found.len()
            invariant
                all == views(entries@),
                asked == needles_of(found@),
                forall|e: Seq<char>| #[trigger]
                    working@.contains(e) <==> all.contains(e) && !model::referred(
                        e,
                        asked.take(k as int),
                    ),
        {
            let needles = borrow_all(&found[k]);
            let ghost before = working@;
            strike(&mut working, entries, needles.as_slice());
            assert forall|e: Seq<char>| #[trigger]
                working@.contains(e) <==> all.contains(e) && !model::referred(
                    e,
                    asked.take(k + 1),
                ) by {
                assert(asked[k as int] == views(needles@));
                assert(asked.take(k + 1) =~= asked.take(k as int).push(views(needles@)));
                lemma_referred_push(e, asked.take(k as int), views(needles@));
                assert(before.contains(e) <==> all.contains(e) && !model::referred(
                    e,
                    asked.take(k as int),
                ));
            }
        }
        assert(asked.take(found.len() as int) =~= asked);
        let mut left: Vec<&str> = Vec::new();
        assert(all.take(0) =~= Seq::<Seq<char>>::empty());
        assert(views(left@) =~= model::unreferred(Seq::<Seq<char>>::empty(), asked)) by {
            reveal(Seq::filter);
        }
        for i in 0..entries.len()
            invariant
                all == views(entries@),
                forall|e: Seq<char>| #[trigger]
                    working@.contains(e) <==> all.contains(e) && !model::referred(e, asked),
                views(left@) == model::unreferred(all.take(i as int), asked),
        {
            proof {
                assert(all.take(i + 1) =~= all.take(i as int).push(all[i as int]));
                lemma_filter_push(
                    all.take(i as int),
                    all[i as int],
                    |e: Seq<char>| !model::referred(e, asked),
                );
                assert(all.contains(all[i as int]));
            }
            if working.contains(entries[i].as_str()) {
                let ghost before = views(left@);
                left.push(entries[i].as_str());
                assert(views(left@) =~= before.push(all[i as int]));
            }
        }
        assert(all.take(entries.len() as int) =~= all);
        Self::generate(left.as_slice())
    }
}

/// The set of the texts of `entries`.
fn working_set(entries: &Vec<String>) -> (working: StringHashSet)
    ensures
        forall|e: Seq<char>| #[trigger] working@.contains(e) <==> views(entries@).contains(e),
{
    let ghost all = views(entries@);
    let mut working = StringHashSet::new();
    assert(all.take(0) =~= Seq::<Seq<char>>::empty());
    for i in 0..entries.len()
        invariant
            all == views(entries@),
            forall|e: Seq<char>| #[trigger]
                working@.contains(e) <==> all.take(i as int).contains(e),
    {
        working.insert(entries[i].clone());
        proof {
            assert(all.take(i + 1) =~= all.take(i as int).push(all[i as int]));
            lemma_contains_push(all.take(i as int), all[i as int]);
        }
    }
    assert(all.take(entries.len() as int) =~= all);
    working
}

/// Takes out of `working` the text of every entry that matches all of
/// `needles`.
fn strike(working: &mut StringHashSet, entries: &Vec<String>, needles: &[&str])
    ensures
        forall|e: Seq<char>| #[trigger]
            final(working)@.contains(e) <==> old(working)@.contains(e) && !(model::matches(
                e,
                views(needles@),
            ) && views(entries@).contains(e)),
{
    let ghost all = views(entries@);
    let ghost query = views(needles@);
    let lowered = lower(needles);
    assert(all.take(0) =~= Seq::<Seq<char>>::empty());
    for i in 0..entries.len()
        invariant
            all == views(entries@),
            query == views(needles@),
            lowers(lowered@, query),
            forall|e: Seq<char>| #[trigger]
                working@.contains(e) <==> old(working)@.contains(e) && !(model::matches(e, query)
                    && all.take(i as int).contains(e)),
    {
        let ghost before = working@;
        if matches_lowered(entries[i].as_str(), &lowered, Ghost(query)) {
            working.remove(entries[i].as_str());
        }
        proof {
            assert(all[i as int] == entries@[i as int]@);
            assert(all.take(i + 1) =~= all.take(i as int).push(all[i as int]));
            lemma_contains_push(all.take(i as int), all[i as int]);
            assert forall|e: Seq<char>| #[trigger]
                working@.contains(e) <==> old(working)@.contains(e) && !(model::matches(e, query)
                    && all.take(i + 1).contains(e)) by {
                assert(before.contains(e) <==> old(working)@.contains(e) && !(model::matches(
                    e,
                    query,
                ) && all.take(i as int).contains(e)));
                assert(all.take(i + 1).contains(e) <==> all.take(i as int).contains(e) || e
                    == all[i as int]);
            }
        }
    }
    assert(all.take(entries.len() as int) =~= all);
}

} // verus!
