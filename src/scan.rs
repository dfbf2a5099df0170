//! The walk over a directory tree, as a state machine: it names the next
//! directory to list, takes that directory's entries, and records each
//! regular file in the catalog in depth-first order.
use vstd::prelude::*;
use crate::catalog::{Catalog, FileRecord};
use crate::extension::{extension_key, key_of};
use vstd::string::StringExecFns;

verus! {

/// What an entry of a directory listing is.
#[derive(Clone, Copy, Debug, PartialEq, Eq, Structural)]
pub enum EntryKind {
    Directory,
    File,
    Other,
}

/// One entry of a directory listing: its name and what it is.
pub struct DirEntry {
    pub name: String,
    pub kind: EntryKind,
}

impl View for DirEntry {
    type V = (Seq<char>, EntryKind);

    open spec fn view(&self) -> (Seq<char>, EntryKind) {
        (self.name@, self.kind)
    }
}

/// An entry still to be visited: its path relative to the root, its name,
/// and what it is.
pub type PendingView = (Seq<char>, Seq<char>, EntryKind);

struct Pending {
    path: String,
    name: String,
    kind: EntryKind,
}

impl View for Pending {
    type V = PendingView;

    closed spec fn view(&self) -> PendingView {
        (self.path@, self.name@, self.kind)
    }
}

/// The relative path of entry `name` of directory `dir`; the root is the
/// empty path.
pub open spec fn child_path(sep: Seq<char>, dir: Seq<char>, name: Seq<char>) -> Seq<char> {
    if dir.len() == 0 {
        name
    } else {
        dir + sep + name
    }
}

/// What the listing `es` of directory `dir` adds on top of the pending
/// stack: its entries, last one first, so that the first is visited first.
pub open spec fn stacked(sep: Seq<char>, dir: Seq<char>, es: Seq<(Seq<char>, EntryKind)>) -> Seq<
    PendingView,
> {
    Seq::new(
        es.len(),
        |t: int| (child_path(sep, dir, es[es.len() - 1 - t].0), es[es.len() - 1 - t].0, es[es.len() - 1 - t].1),
    )
}

/// Visits pending entries from the top of the stack: each file is recorded,
/// each other entry that is no directory is passed over, and the first
/// directory met is handed out to be listed. Gives the stack and the files
/// afterwards, and that directory if there was one.
pub open spec fn advance(pending: Seq<PendingView>, files: Seq<FileRecord>) -> (
    Seq<PendingView>,
    Seq<FileRecord>,
    Option<Seq<char>>,
)
    decreases pending.len(),
{
    if pending.len() == 0 {
        (pending, files, None)
    } else {
        let top = pending.last();
        let rest = pending.drop_last();
        match top.2 {
            EntryKind::Directory => (rest, files, Some(top.0)),
            EntryKind::File => advance(rest, files.push((key_of(top.1), top.0))),
            EntryKind::Other => advance(rest, files),
        }
    }
}

/// A walk in progress.
pub struct Scan {
    separator: String,
    pending: Vec<Pending>,
    catalog: Catalog,
}

impl Scan {
    /// The separator placed between the segments of a relative path.
    pub closed spec fn separator(&self) -> Seq<char> {
        self.separator@
    }

    /// The entries still to visit; the last one is visited first.
    pub closed spec fn pending(&self) -> Seq<PendingView> {
        self.pending@.map_values(|p: Pending| p@)
    }

    /// The files recorded so far.
    pub closed spec fn files(&self) -> Seq<FileRecord> {
        self.catalog.files()
    }

    /// The catalog kept so far is well formed.
    pub closed spec fn wf(&self) -> bool {
        self.catalog.wf()
    }

    /// A walk that starts at the root, whose relative path is empty.
    pub fn new(separator: &str) -> (r: Scan)
        ensures
            r.wf(),
            r.separator() == separator@,
            r.pending() == seq![(Seq::<char>::empty(), Seq::<char>::empty(), EntryKind::Directory)],
            r.files() == Seq::<FileRecord>::empty(),
    {
        let mut pending: Vec<Pending> = Vec::new();
        pending.push(Pending { path: String::new(), name: String::new(), kind: EntryKind::Directory });
        let r = Scan { separator: String::from_str(separator), pending, catalog: Catalog::new() };
        assert(r.pending() =~= seq![(Seq::<char>::empty(), Seq::<char>::empty(), EntryKind::Directory)]);
        r
    }

    /// Visits pending entries until a directory turns up, and returns its
    /// relative path; `None` once the walk is over.
    pub fn next_directory(&mut self) -> (r: Option<String>)
        requires
            old(self).wf(),
        ensures
            final(self).wf(),
            final(self).separator() == old(self).separator(),
            final(self).pending() == advance(old(self).pending(), old(self).files()).0,
            final(self).files() == advance(old(self).pending(), old(self).files()).1,
            r matches Some(d) ==> advance(old(self).pending(), old(self).files()).2 == Some(d@),
            r is None ==> advance(old(self).pending(), old(self).files()).2 is None,
    {
        let ghost goal = advance(self.pending(), self.files());
        loop
            invariant
                self.wf(),
                self.separator() == old(self).separator(),
                advance(self.pending(), self.files()) == goal,
                goal == advance(old(self).pending(), old(self).files()),
            decreases self.pending.len(),
        {
            let ghost before = self.pending();
            match self.pending.pop() {
                None => {
                    return None;
                },
                Some(p) => {
                    assert(self.pending() =~= before.drop_last());
                    assert(before.last() == p@);
                    match p.kind {
                        EntryKind::Directory => {
                            return Some(p.path);
                        },
                        EntryKind::File => {
                            let key = extension_key(p.name.as_str());
                            self.catalog.add(key, p.path);
                        },
                        EntryKind::Other => {},
                    }
                },
            }
        }
    }

    /// Takes the listing of directory `dir` (a relative path that
    /// `next_directory` gave): its entries are visited next, in the order given.
    pub fn add_listing(&mut self, dir: &str, entries: Vec<DirEntry>)
        requires
            old(self).wf(),
        ensures
            final(self).wf(),
            final(self).separator() == old(self).separator(),
            final(self).files() == old(self).files(),
            final(self).pending() == old(self).pending() + stacked(
                old(self).separator(),
                dir@,
                entries@.map_values(|e: DirEntry| e@),
            ),
    {
        let ghost es = entries@.map_values(|e: DirEntry| e@);
        let ghost sep = self.separator@;
        let ghost start = self.pending();
        let mut entries = entries;
        let n = entries.len();
        let is_root = dir.unicode_len() == 0;
        while entries.len() > 0
            invariant
                self.wf(),
                self.separator() == sep,
                self.files() == old(self).files(),
                start == old(self).pending(),
                sep == old(self).separator(),
                is_root == (dir@.len() == 0),
                n == es.len(),
                entries.len() <= n,
                entries@.map_values(|e: DirEntry| e@) == es.subrange(0, entries.len() as int),
                self.pending() == start + stacked(sep, dir@, es).subrange(0, n - entries.len()),
            decreases entries.len(),
        {
            let ghost k = n - entries.len();
            let ghost before = self.pending();
            let e = entries.pop().unwrap();
            assert(es[entries.len() as int] == e@) by {
                assert(es.subrange(0, entries.len() + 1)[entries.len() as int] == e@);
            }
            let path = if is_root {
                String::from_str(e.name.as_str())
            } else {
                String::from_str(dir).concat(self.separator.as_str()).concat(e.name.as_str())
            };
            assert(path@ == child_path(sep, dir@, e.name@));
            let item = Pending { path, name: e.name, kind: e.kind };
            assert(item@ == stacked(sep, dir@, es)[k]);
            self.pending.push(item);
            assert(self.pending() =~= before.push(item@));
            assert(entries@.map_values(|e: DirEntry| e@) =~= es.subrange(0, entries.len() as int));
            assert(self.pending() =~= start + stacked(sep, dir@, es).subrange(0, k + 1));
        }
        assert(stacked(sep, dir@, es).subrange(0, n as int) =~= stacked(sep, dir@, es));
    }

    /// Ends the walk and hands over the catalog of the files recorded.
    pub fn finish(self) -> (r: Catalog)
        requires
            self.wf(),
        ensures
            r.wf(),
            r.files() == self.files(),
    {
        self.catalog
    }
}

} // verus!
