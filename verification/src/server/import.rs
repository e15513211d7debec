//! Importing a directory of projects: which folders count, and how many are opened.
use vstd::prelude::*;
use vstd::string::*;

use crate::lists::reversed;
use crate::proto::{Response, ResultBody};
#[allow(unused_imports)]
use crate::proto::{ok_view, ResultView};
use crate::text::{chars_of, str_eq, text_less, to_lowercase};
#[allow(unused_imports)]
use crate::text::{lowercase, opt_text, text_before, texts_view};

verus! {

/// Most workspaces that one import opens. Each one is a real shell, so an import that is aimed
/// wrong must not start hundreds.
pub const MAX_IMPORT: usize = 24;

/// An entry of the directory to import.
pub struct Entry {
    pub path: String,
    /// Its name, where that is text.
    pub name: Option<String>,
    pub is_dir: bool,
    /// Whether it holds a `.git`.
    pub has_git: bool,
}

/// The mathematical value of an [`Entry`].
pub struct EntryView {
    pub path: Seq<char>,
    pub name: Option<Seq<char>>,
    pub is_dir: bool,
    pub has_git: bool,
}

impl Entry {
    pub open spec fn view(&self) -> EntryView {
        EntryView {
            path: self.path@,
            name: opt_text(self.name),
            is_dir: self.is_dir,
            has_git: self.has_git,
        }
    }
}

/// The mathematical values of a list of entries.
pub open spec fn entries_view(entries: Seq<Entry>) -> Seq<EntryView> {
    Seq::new(entries.len(), |i: int| entries[i]@)
}

/// Whether an entry is a project: a folder with a `.git` (or any folder), unless its name starts
/// with a dot.
pub open spec fn is_project(e: EntryView, all: bool) -> bool {
    &&& e.is_dir
    &&& !(e.name matches Some(n) && n.len() > 0 && n[0] == '.')
    &&& all || e.has_git
}

/// A list with one more path, in front of those that come after it.
pub open spec fn placed_by_path(sorted: Seq<Seq<char>>, p: Seq<char>) -> Seq<Seq<char>>
    decreases sorted.len(),
{
    if sorted.len() > 0 && text_before(p, sorted.last(), 0) {
        placed_by_path(sorted.drop_last(), p).push(sorted.last())
    } else {
        sorted.push(p)
    }
}

/// The projects among entries, sorted by path.
pub open spec fn projects_of(entries: Seq<EntryView>, all: bool) -> Seq<Seq<char>>
    decreases entries.len(),
{
    if entries.len() == 0 {
        Seq::empty()
    } else {
        let front = projects_of(entries.drop_last(), all);
        if is_project(entries.last(), all) {
            placed_by_path(front, entries.last().path)
        } else {
            front
        }
    }
}

fn place_by_path(sorted: &mut Vec<String>, p: String)
    ensures
        texts_view(final(sorted)@) == placed_by_path(texts_view(old(sorted)@), p@),
    decreases old(sorted)@.len(),
{
    let ghost before = texts_view(sorted@);
    if sorted.len() > 0 && text_less(p.as_str(), sorted[sorted.len() - 1].as_str()) {
        if let Some(last) = sorted.pop() {
            assert(texts_view(sorted@) =~= before.drop_last());
            place_by_path(sorted, p);
            let ghost mid = texts_view(sorted@);
            sorted.push(last);
            assert(texts_view(sorted@) =~= mid.push(last@));
        }
    } else {
        sorted.push(p);
        assert(texts_view(sorted@) =~= before.push(p@));
    }
}

/// The projects among the entries of a directory, sorted by path. With `all`, every folder counts,
/// else those with a `.git`; names that start with a dot never do.
pub fn project_dirs(entries: &Vec<Entry>, all: bool) -> (r: Vec<String>)
    ensures
        texts_view(r@) == projects_of(entries_view(entries@), all),
{
    let ghost v = entries_view(entries@);
    let mut out: Vec<String> = Vec::new();
    let mut i: usize = 0;
    assert(texts_view(out@) =~= Seq::empty());
    assert(v.take(0) =~= Seq::empty());
    while i < entries.len()
        invariant
            i <= entries@.len(),
            v == entries_view(entries@),
            texts_view(out@) == projects_of(v.take(i as int), all),
        decreases entries@.len() - i,
    {
        assert(v.take(i + 1).drop_last() =~= v.take(i as int));
        assert(v.take(i + 1).last() == entries@[i as int]@);
        let e = &entries[i];
        let hidden = match &e.name {
            Some(n) => {
                let c = chars_of(n.as_str());
                c.len() > 0 && c[0] == '.'
            },
            None => false,
        };
        if e.is_dir && !hidden && (all || e.has_git) {
            place_by_path(&mut out, e.path.clone());
        }
        i = i + 1;
    }
    assert(v.take(i as int) =~= v);
    out
}

// ---------------------------------------------------------------------------
// The import.
// ---------------------------------------------------------------------------

/// An import under way.
pub struct Import {
    id: u64,
    /// Directories that are open, in lower case.
    open: Vec<String>,
    /// Candidates that are left, the next one last.
    rest: Vec<String>,
    created: usize,
    already_open: usize,
    capped: usize,
}

/// The mathematical value of an [`Import`].
pub struct ImportView {
    pub id: u64,
    pub open: Seq<Seq<char>>,
    /// Candidates that are left, in order.
    pub rest: Seq<Seq<char>>,
    pub created: nat,
    pub already_open: nat,
    pub capped: nat,
}

impl ImportView {
    /// The counts fit.
    pub open spec fn wf(self) -> bool {
        self.created + self.already_open + self.capped + self.rest.len() <= usize::MAX
    }
}

/// The import after skipping to the next folder to open, and that folder. Folders that are open
/// are skipped, and those over the cap are left out.
pub open spec fn advanced(m: ImportView) -> (ImportView, Option<Seq<char>>)
    decreases m.rest.len(),
{
    if m.rest.len() == 0 {
        (m, None)
    } else {
        let dir = m.rest[0];
        let next = ImportView { rest: m.rest.skip(1), ..m };
        if m.open.contains(lowercase(dir)) {
            advanced(ImportView { already_open: m.already_open + 1, ..next })
        } else if m.created >= MAX_IMPORT {
            advanced(ImportView { capped: m.capped + 1, ..next })
        } else {
            (next, Some(dir))
        }
    }
}

/// The outcome of an import.
pub open spec fn outcome(m: ImportView) -> crate::proto::ResponseView {
    ok_view(
        m.id,
        ResultView::Imported {
            created: m.created,
            already_open: m.already_open,
            capped: m.capped,
        },
    )
}

impl Import {
    pub closed spec fn view(&self) -> ImportView {
        ImportView {
            id: self.id,
            open: texts_view(self.open@),
            rest: texts_view(self.rest@.reverse()),
            created: self.created as nat,
            already_open: self.already_open as nat,
            capped: self.capped as nat,
        }
    }

    /// An import of candidates into a session whose windows are anchored to `open`, given in lower
    /// case.
    pub fn new(id: u64, open: Vec<String>, candidates: Vec<String>) -> (m: Import)
        ensures
            m@ == (ImportView {
                id,
                open: texts_view(open@),
                rest: texts_view(candidates@),
                created: 0,
                already_open: 0,
                capped: 0,
            }),
            m@.wf(),
    {
        let _fits: usize = candidates.len();
        let rest = reversed(candidates);
        assert(rest@.reverse() =~= candidates@);
        Import { id, open, rest, created: 0, already_open: 0, capped: 0 }
    }

    fn is_open(&self, dir: &str) -> (r: bool)
        ensures
            r == self@.open.contains(lowercase(dir@)),
    {
        let low = to_lowercase(dir);
        let ghost v = texts_view(self.open@);
        let mut i: usize = 0;
        while i < self.open.len()
            invariant
                i <= self.open@.len(),
                v == texts_view(self.open@),
                low@ == lowercase(dir@),
                forall|j: int| 0 <= j < i ==> #[trigger] v[j] != low@,
            decreases self.open@.len() - i,
        {
            if str_eq(self.open[i].as_str(), low.as_str()) {
                assert(v[i as int] == low@);
                return true;
            }
            i = i + 1;
        }
        false
    }

    /// The next folder to open; none at the end.
    pub fn next(&mut self) -> (r: Option<String>)
        requires
            old(self)@.wf(),
        ensures
            (final(self)@, opt_text(r)) == advanced(old(self)@),
            final(self)@.wf(),
            r is Some ==> final(self)@.created < MAX_IMPORT && final(self)@.created
                + final(self)@.already_open + final(self)@.capped + final(self)@.rest.len()
                < usize::MAX,
    {
        let ghost start = self@;
        while self.rest.len() > 0
            invariant
                self@.wf(),
                start == old(self)@,
                advanced(start) == advanced(self@),
            decreases self.rest@.len(),
        {
            let ghost now = self@;
            if let Some(dir) = self.rest.pop() {
                assert(self@.rest =~= now.rest.skip(1));
                assert(now.rest[0] == dir@);
                if self.is_open(dir.as_str()) {
                    self.already_open = self.already_open + 1;
                } else if self.created >= MAX_IMPORT {
                    self.capped = self.capped + 1;
                } else {
                    return Some(dir);
                }
            }
        }
        None
    }

    /// The last folder was opened.
    pub fn opened(&mut self)
        requires
            old(self)@.created + old(self)@.already_open + old(self)@.capped
                + old(self)@.rest.len() < usize::MAX,
        ensures
            final(self)@ == (ImportView { created: old(self)@.created + 1, ..old(self)@ }),
            final(self)@.wf(),
    {
        self.created = self.created + 1;
    }

    /// The answer to the request.
    pub fn finish(&self) -> (r: Response)
        ensures
            r@ == outcome(self@),
    {
        Response::ok(
            self.id,
            ResultBody::Imported {
                created: self.created,
                already_open: self.already_open,
                capped: self.capped,
            },
        )
    }
}

/// That a folder could not be opened, in words.
pub fn import_skipped(dir: &str, error: &str) -> (s: String)
    ensures
        s@ == "gmux: import skipped "@ + dir@ + ": "@ + error@,
{
    let mut s = String::from_str("gmux: import skipped ");
    s.append(dir);
    s.append(": ");
    s.append(error);
    s
}

// ---------------------------------------------------------------------------
// Laws.
// ---------------------------------------------------------------------------

/// An import opens no more than the cap, opens no folder that is open, and drops no candidate
/// unseen: what is skipped is counted.
pub proof fn imports_are_capped_and_counted(m: ImportView)
    ensures
        ({
            let (n, dir) = advanced(m);
            &&& n.created == m.created
            &&& dir matches Some(d) ==> n.created < MAX_IMPORT && !m.open.contains(lowercase(d))
            &&& n.already_open + n.capped + n.rest.len() + (if dir is Some {
                1int
            } else {
                0
            }) == m.already_open + m.capped + m.rest.len()
        }),
    decreases m.rest.len(),
{
    if m.rest.len() > 0 {
        let dir = m.rest[0];
        let next = ImportView { rest: m.rest.skip(1), ..m };
        if m.open.contains(lowercase(dir)) {
            imports_are_capped_and_counted(
                ImportView { already_open: m.already_open + 1, ..next },
            );
        } else if m.created >= MAX_IMPORT {
            imports_are_capped_and_counted(ImportView { capped: m.capped + 1, ..next });
        }
    }
}

/// A whole import: every candidate in turn is skipped, left out, or started, which fails where
/// `starts` says so.
pub open spec fn completed(m: ImportView, starts: spec_fn(Seq<char>) -> bool) -> ImportView
    decreases m.rest.len(),
{
    if m.rest.len() == 0 {
        m
    } else {
        let dir = m.rest[0];
        let next = ImportView { rest: m.rest.skip(1), ..m };
        if m.open.contains(lowercase(dir)) {
            completed(ImportView { already_open: m.already_open + 1, ..next }, starts)
        } else if m.created >= MAX_IMPORT {
            completed(ImportView { capped: m.capped + 1, ..next }, starts)
        } else if starts(dir) {
            completed(ImportView { created: m.created + 1, ..next }, starts)
        } else {
            completed(next, starts)
        }
    }
}

/// How many of the candidates that are left are not open.
pub open spec fn unopened(m: ImportView) -> nat
    decreases m.rest.len(),
{
    if m.rest.len() == 0 {
        0
    } else {
        unopened(ImportView { rest: m.rest.skip(1), ..m }) + (if m.open.contains(
            lowercase(m.rest[0]),
        ) {
            0nat
        } else {
            1nat
        })
    }
}

proof fn lemma_unopened(m: ImportView, n: ImportView)
    requires
        m.rest == n.rest,
        m.open == n.open,
    ensures
        unopened(m) == unopened(n),
        unopened(m) <= m.rest.len(),
    decreases m.rest.len(),
{
    if m.rest.len() > 0 {
        lemma_unopened(
            ImportView { rest: m.rest.skip(1), ..m },
            ImportView { rest: n.rest.skip(1), ..n },
        );
    }
}

/// Taking the folders one by one, and starting each, is the whole import.
pub proof fn stepping_completes_an_import(m: ImportView, starts: spec_fn(Seq<char>) -> bool)
    ensures
        ({
            let (n, dir) = advanced(m);
            completed(m, starts) == (match dir {
                None => n,
                Some(d) => if starts(d) {
                    completed(ImportView { created: n.created + 1, ..n }, starts)
                } else {
                    completed(n, starts)
                },
            })
        }),
    decreases m.rest.len(),
{
    if m.rest.len() > 0 {
        let dir = m.rest[0];
        let next = ImportView { rest: m.rest.skip(1), ..m };
        if m.open.contains(lowercase(dir)) {
            stepping_completes_an_import(
                ImportView { already_open: m.already_open + 1, ..next },
                starts,
            );
        } else if m.created >= MAX_IMPORT {
            stepping_completes_an_import(ImportView { capped: m.capped + 1, ..next }, starts);
        }
    }
}

/// A whole import opens as many folders as are not open, but no more than the cap; what is open is
/// counted as such, what the cap leaves out too, and the three counts are all candidates. Where a
/// folder cannot be started, it is in no count.
pub proof fn whole_imports_are_counted(m: ImportView, starts: spec_fn(Seq<char>) -> bool)
    requires
        m.created <= MAX_IMPORT,
    ensures
        ({
            let n = completed(m, starts);
            &&& n.rest.len() == 0
            &&& n.created <= MAX_IMPORT
            &&& n.already_open == m.already_open + m.rest.len() - unopened(m)
            &&& n.created + n.already_open + n.capped <= m.created + m.already_open + m.capped
                + m.rest.len()
            &&& (forall|d: Seq<char>| #[trigger] starts(d)) ==> {
                &&& n.created == (if m.created + unopened(m) <= MAX_IMPORT {
                    m.created + unopened(m)
                } else {
                    MAX_IMPORT as nat
                })
                &&& n.created + n.already_open + n.capped == m.created + m.already_open + m.capped
                    + m.rest.len()
            }
        }),
    decreases m.rest.len(),
{
    if m.rest.len() > 0 {
        let dir = m.rest[0];
        let next = ImportView { rest: m.rest.skip(1), ..m };
        let then = if m.open.contains(lowercase(dir)) {
            ImportView { already_open: m.already_open + 1, ..next }
        } else if m.created >= MAX_IMPORT {
            ImportView { capped: m.capped + 1, ..next }
        } else if starts(dir) {
            ImportView { created: m.created + 1, ..next }
        } else {
            next
        };
        lemma_unopened(next, then);
        whole_imports_are_counted(then, starts);
    }
}

} // verus!
