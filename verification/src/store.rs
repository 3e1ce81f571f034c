//! The entry store: an ordered collection of entries bound to the path of
//! the file that backs it.

use crate::flatfile;
use crate::lemmas::{lemma_filter_push, lemma_parse_entries};
use crate::matcher::{lower, lowers, matches_lowered};
use crate::model;
use crate::model::{is_entry, views};
use vstd::string::StringExecFns;
use vstd::prelude::*;

verus! {

/// What went wrong in an operation on a store.
#[derive(Debug, PartialEq, Eq)]
pub enum Error {
    /// A file could not be read or written; `what` says why.
    System { what: String },
    /// No editor command is configured.
    EnvVar,
    /// The editor did not exit with status zero.
    EditorFailed,
    /// The scratch file at `path` is already there.
    TempfileExists { path: String },
}

/// What a store stands for: its entries in file order, and its path.
pub struct Corpus {
    pub entries: Seq<Seq<char>>,
    pub path: Seq<char>,
}

/// What an editing session needs: the editor command to run, and the path of
/// the scratch file to run it on.
#[derive(Debug)]
pub struct Session {
    pub editor: String,
    pub scratch: String,
}

/// An active corpus of entries.
#[derive(Debug)]
pub struct Gatherbrained {
    entries: Vec<String>,
    path: String,
}

impl View for Gatherbrained {
    type V = Corpus;

    closed spec fn view(&self) -> Corpus {
        Corpus { entries: views(self.entries@), path: self.path@ }
    }
}

impl Gatherbrained {
    /// Every stored entry is trimmed and not empty.
    #[verifier::type_invariant]
    spec fn well_formed(self) -> bool {
        forall|i: int| 0 <= i < self.entries.len() ==> is_entry(#[trigger] self.entries[i]@)
    }

    /// The store of the file at `path`, `content` being what reading the file
    /// gave: the entries that its text holds, in file order. A file that could
    /// not be read gives no store.
    pub fn new(path: &str, content: Result<&str, &str>) -> (r: Result<Self, Error>)
        ensures
            match content {
                Ok(text) => r matches Ok(store) && store@ == (Corpus {
                    entries: model::parse(text@),
                    path: path@,
                }),
                Err(why) => r matches Err(Error::System { what }) && what@ == why@,
            },
    {
        match content {
            Ok(text) => Ok(Self::load(path, text)),
            Err(why) => Err(Error::System { what: why.to_owned() }),
        }
    }

    /// The store that `content` holds, bound to `path`.
    fn load(path: &str, content: &str) -> (store: Self)
        ensures
            store@ == (Corpus { entries: model::parse(content@), path: path@ }),
    {
        let entries = flatfile::parse(content);
        proof {
            lemma_parse_entries(content@);
            assert forall|i: int| 0 <= i < entries.len() implies is_entry(
                #[trigger] entries[i]@,
            ) by {
                assert(views(entries@)[i] == entries[i]@);
            }
        }
        Gatherbrained { entries, path: path.to_owned() }
    }

    /// The entries, in file order.
    pub fn entries(&self) -> (r: &Vec<String>)
        ensures
            views(r@) == self@.entries,
            forall|i: int| 0 <= i < r.len() ==> is_entry(#[trigger] r[i]@),
    {
        proof {
            use_type_invariant(self);
        }
        &self.entries
    }

    /// The path of the backing file.
    pub fn path(&self) -> (r: &str)
        ensures
            r@ == self@.path,
    {
        self.path.as_str()
    }

    /// The entries that match all of `needles`, in file order.
    fn select(&self, needles: &[&str]) -> (r: Vec<&str>)
        ensures
            views(r@) == model::select(self@.entries, views(needles@)),
    {
        let lowered = lower(needles);
        let mut r: Vec<&str> = Vec::new();
        assert(views(self.entries@).take(0) =~= Seq::<Seq<char>>::empty());
        assert(views(r@) =~= model::select(Seq::<Seq<char>>::empty(), views(needles@))) by {
            reveal(Seq::filter);
        }
        for i in 0..self.entries.len()
            invariant
                lowers(lowered@, views(needles@)),
                views(r@) == model::select(views(self.entries@).take(i as int), views(needles@)),
        {
            proof {
                let seen = views(self.entries@).take(i as int);
                assert(views(self.entries@).take(i + 1) =~= seen.push(self.entries@[i as int]@));
                lemma_filter_push(
                    seen,
                    self.entries@[i as int]@,
                    |e: Seq<char>| model::matches(e, views(needles@)),
                );
            }
            if matches_lowered(self.entries[i].as_str(), &lowered, Ghost(views(needles@))) {
                let ghost before = views(r@);
                r.push(self.entries[i].as_str());
                assert(views(r@) =~= before.push(self.entries@[i as int]@));
            }
        }
        assert(views(self.entries@).take(self.entries.len() as int) =~= views(self.entries@));
        r
    }

    /// The text of the entries that match all of `needles`, in file order.
    pub(crate) fn found(&self, needles: &[&str]) -> (text: String)
        ensures
            text@ == model::generate(model::select(self@.entries, views(needles@))),
    {
        let selected = self.select(needles);
        Self::generate(selected.as_slice())
    }

    /// The text of the entries that match all of `needles`, in file order.
    /// The store is left as it is, and the search never fails.
    pub fn search(&self, needles: &[&str]) -> (r: Result<String, Error>)
        ensures
            r matches Ok(text) && text@ == model::generate(
                model::select(self@.entries, views(needles@)),
            ),
    {
        Ok(self.found(needles))
    }

    /// Appends the entries of `other`, in their order.
    pub fn merge(&mut self, other: Gatherbrained)
        ensures
            final(self)@.entries == old(self)@.entries + other@.entries,
            final(self)@.path == old(self)@.path,
    {
        proof {
            use_type_invariant(&*self);
            use_type_invariant(&other);
        }
        let ghost before = self.entries@;
        let Gatherbrained { entries: mut added, path: _ } = other;
        let ghost after = added@;
        let mut entries: Vec<String> = Vec::new();
        core::mem::swap(&mut self.entries, &mut entries);
        entries.append(&mut added);
        self.entries = entries;
        assert(views(self.entries@) =~= views(before) + views(after));
    }

    /// The text that holds `entries`: each trimmed and followed by a line
    /// feed, with a line of four dashes between neighbours.
    pub fn generate(entries: &[&str]) -> (text: String)
        ensures
            text@ == model::generate(views(entries@)),
    {
        flatfile::generate(entries)
    }

    /// The text that holds the whole store, as it is written to the backing
    /// file.
    pub fn contents(&self) -> (text: String)
        ensures
            text@ == model::generate(self@.entries),
    {
        let all = borrow_all(&self.entries);
        Self::generate(all.as_slice())
    }

    /// Opens an editing session. It needs an editor command, and a scratch
    /// path that nothing occupies: the want of a command is reported first.
    pub fn begin(&self, editor: Option<&str>, occupied: bool) -> (r: Result<Session, Error>)
        ensures
            match r {
                Ok(session) => {
                    &&& editor matches Some(command) && session.editor@ == command@
                    &&& !occupied
                    &&& session.scratch@ == self@.path + ".tmp"@
                },
                Err(Error::EnvVar) => editor is None,
                Err(Error::TempfileExists { path }) => {
                    &&& editor is Some
                    &&& occupied
                    &&& path@ == self@.path + ".tmp"@
                },
                Err(_) => false,
            },
    {
        match editor {
            None => Err(Error::EnvVar),
            Some(command) => {
                let scratch = tmpfile_for(self.path.as_str());
                if occupied {
                    Err(Error::TempfileExists { path: scratch })
                } else {
                    Ok(Session { editor: command.to_owned(), scratch })
                }
            },
        }
    }

    /// Ends an editing session that was to add entries. `code` is the exit
    /// status of the editor and `scratch` what reading the scratch file gave,
    /// `Ok(None)` where no file is there. When the editor exited with status
    /// zero, the entries of the scratch text are appended; if there are any,
    /// the new text of the whole store is returned, to be written to the
    /// backing file. When the editor failed, or the scratch file could not be
    /// read, the store is left as it was; the editor's failure is reported
    /// first.
    pub fn add(&mut self, code: Option<i32>, scratch: Result<Option<&str>, &str>) -> (r: Result<
        Option<String>,
        Error,
    >)
        ensures
            final(self)@.path == old(self)@.path,
            match r {
                Ok(Some(text)) => {
                    &&& code == Some(0i32)
                    &&& scratch matches Ok(Some(edited)) && model::parse(edited@).len() > 0
                        && final(self)@.entries == old(self)@.entries + model::parse(edited@)
                    &&& text@ == model::generate(final(self)@.entries)
                },
                Ok(None) => {
                    &&& code == Some(0i32)
                    &&& scratch is Ok
                    &&& scratch matches Ok(Some(edited)) ==> model::parse(edited@).len() == 0
                    &&& final(self)@ == old(self)@
                },
                Err(Error::EditorFailed) => code != Some(0i32) && final(self)@ == old(self)@,
                Err(Error::System { what }) => {
                    &&& code == Some(0i32)
                    &&& scratch matches Err(why) && what@ == why@
                    &&& final(self)@ == old(self)@
                },
                Err(_) => false,
            },
    {
        if !accepted(code) {
            return Err(Error::EditorFailed);
        }
        match scratch {
            Err(why) => Err(Error::System { what: why.to_owned() }),
            Ok(None) => Ok(None),
            Ok(Some(edited)) => {
                let new = Self::load(self.path.as_str(), edited);
                if new.entries.len() > 0 {
                    self.merge(new);
                    Ok(Some(self.contents()))
                } else {
                    Ok(None)
                }
            },
        }
    }

    /// Ends an editing session on the entries that match all of `needles`.
    /// `code` is the exit status of the editor and `scratch` what reading the
    /// scratch file gave. When the editor exited with status zero, the entries
    /// that match are replaced by those of the scratch text, which come after
    /// the entries that stay; the new text of the whole store is returned, to
    /// be written to the backing file. When the editor failed, or the scratch
    /// file could not be read, the store is left as it was; the editor's
    /// failure is reported first.
    pub fn edit(&mut self, needles: &[&str], code: Option<i32>, scratch: Result<&str, &str>) -> (r:
        Result<String, Error>)
        ensures
            final(self)@.path == old(self)@.path,
            match r {
                Ok(text) => {
                    &&& code == Some(0i32)
                    &&& scratch matches Ok(edited) && final(self)@.entries == model::reject(
                        old(self)@.entries,
                        views(needles@),
                    ) + model::parse(edited@)
                    &&& text@ == model::generate(final(self)@.entries)
                },
                Err(Error::EditorFailed) => code != Some(0i32) && final(self)@ == old(self)@,
                Err(Error::System { what }) => {
                    &&& code == Some(0i32)
                    &&& scratch matches Err(why) && what@ == why@
                    &&& final(self)@ == old(self)@
                },
                Err(_) => false,
            },
    {
        if !accepted(code) {
            return Err(Error::EditorFailed);
        }
        match scratch {
            Err(why) => Err(Error::System { what: why.to_owned() }),
            Ok(edited) => {
                let kept = self.reject(needles);
                let new = Self::load(self.path.as_str(), edited);
                self.entries = kept;
                self.merge(new);
                Ok(self.contents())
            },
        }
    }

    /// Copies of the entries that do not match all of `needles`, in file
    /// order.
    fn reject(&self, needles: &[&str]) -> (r: Vec<String>)
        ensures
            views(r@) == model::reject(self@.entries, views(needles@)),
            forall|i: int| 0 <= i < r.len() ==> is_entry(#[trigger] r[i]@),
    {
        proof {
            use_type_invariant(self);
        }
        let lowered = lower(needles);
        let mut r: Vec<String> = Vec::new();
        assert(views(self.entries@).take(0) =~= Seq::<Seq<char>>::empty());
        assert(views(r@) =~= model::reject(Seq::<Seq<char>>::empty(), views(needles@))) by {
            reveal(Seq::filter);
        }
        for i in 0..self.entries.len()
            invariant
                lowers(lowered@, views(needles@)),
                views(r@) == model::reject(views(self.entries@).take(i as int), views(needles@)),
                forall|k: int| 0 <= k < r.len() ==> is_entry(#[trigger] r[k]@),
                forall|k: int|
                    0 <= k < self.entries.len() ==> is_entry(#[trigger] self.entries[k]@),
        {
            proof {
                let seen = views(self.entries@).take(i as int);
                assert(views(self.entries@).take(i + 1) =~= seen.push(self.entries@[i as int]@));
                lemma_filter_push(
                    seen,
                    self.entries@[i as int]@,
                    |e: Seq<char>| !model::matches(e, views(needles@)),
                );
            }
            if !matches_lowered(self.entries[i].as_str(), &lowered, Ghost(views(needles@))) {
                let ghost before = views(r@);
                r.push(self.entries[i].clone());
                assert(views(r@) =~= before.push(self.entries@[i as int]@));
            }
        }
        assert(views(self.entries@).take(self.entries.len() as int) =~= views(self.entries@));
        r
    }
}

impl Clone for Gatherbrained {
    fn clone(&self) -> (r: Self)
        ensures
            r@ == self@,
    {
        proof {
            use_type_invariant(self);
        }
        let mut entries: Vec<String> = Vec::new();
        for i in 0..self.entries.len()
            invariant
                entries@ == self.entries@.take(i as int),
        {
            entries.push(self.entries[i].clone());
            assert(entries@ =~= self.entries@.take(i + 1));
        }
        assert(self.entries@.take(self.entries.len() as int) =~= self.entries@);
        Gatherbrained { entries, path: self.path.clone() }
    }
}

/// The strings of `items`, borrowed.
pub(crate) fn borrow_all(items: &Vec<String>) -> (r: Vec<&str>)
    ensures
        views(r@) == views(items@),
{
    let mut r: Vec<&str> = Vec::new();
    for i in 0..items.len()
        invariant
            r.len() == i,
            forall|k: int| 0 <= k < i ==> (#[trigger] r@[k])@ == items@[k]@,
    {
        r.push(items[i].as_str());
    }
    assert(views(r@) =~= views(items@));
    r
}

/// Whether the editor's exit status accepts what was edited: only status
/// zero does; any other status, or none, rejects it.
pub fn accepted(code: Option<i32>) -> (b: bool)
    ensures
        b == (code == Some(0i32)),
{
    match code {
        Some(status) => status == 0,
        None => false,
    }
}

/// `path` with `ext` appended, character for character.
pub fn append_extension(path: &str, ext: &str) -> (r: String)
    ensures
        r@ == path@ + ext@,
{
    let mut r = path.to_owned();
    r.append(ext);
    r
}

/// The path of the history file that goes with the store at `path`.
pub fn history_for(path: &str) -> (r: String)
    ensures
        r@ == path@ + ".history"@,
{
    append_extension(path, ".history")
}

/// The path of the scratch file that goes with the store at `path`.
pub fn tmpfile_for(path: &str) -> (r: String)
    ensures
        r@ == path@ + ".tmp"@,
{
    append_extension(path, ".tmp")
}

} // verus!
