//! The catalog: relative file paths grouped under their extension keys,
//! groups kept in ascending key order.
use vstd::prelude::*;
use crate::order::{key_less, lemma_transitive, lemma_trichotomy, seq_lt};

verus! {

/// A file as the catalog records it: its key and its relative path.
pub type FileRecord = (Seq<char>, Seq<char>);

/// A group as the contracts see it: its key and its paths.
pub type GroupView = (Seq<char>, Seq<Seq<char>>);

/// The paths of the files with key `k`, in the order the files came.
pub open spec fn group_of(files: Seq<FileRecord>, k: Seq<char>) -> Seq<Seq<char>>
    decreases files.len(),
{
    if files.len() == 0 {
        Seq::empty()
    } else {
        let prev = group_of(files.drop_last(), k);
        if files.last().0 == k {
            prev.push(files.last().1)
        } else {
            prev
        }
    }
}

/// Keys strictly ascending.
pub open spec fn sorted_keys(gs: Seq<GroupView>) -> bool {
    forall|i: int, j: int| 0 <= i < j < gs.len() ==> seq_lt(#[trigger] gs[i].0, #[trigger] gs[j].0)
}

/// `gs` is the grouping of `files`: one group for each key that some file
/// has, holding exactly the paths of the files with that key, in order.
pub open spec fn groups_files(gs: Seq<GroupView>, files: Seq<FileRecord>) -> bool {
    &&& forall|i: int| 0 <= i < gs.len() ==> (#[trigger] gs[i]).1 == group_of(files, gs[i].0)
    &&& forall|i: int| 0 <= i < gs.len() ==> (#[trigger] gs[i]).1.len() > 0
    &&& forall|j: int|
        0 <= j < files.len() ==> exists|i: int| 0 <= i < gs.len() && (#[trigger] gs[i]).0 == (#[trigger] files[j]).0
}

/// Each path on a line of its own.
pub open spec fn lines(ps: Seq<Seq<char>>) -> Seq<char>
    decreases ps.len(),
{
    if ps.len() == 0 {
        Seq::empty()
    } else {
        lines(ps.drop_last()) + ps.last() + seq!['\n']
    }
}

/// The header line of the group with key `k`: `--- k ---`.
pub open spec fn header(k: Seq<char>) -> Seq<char> {
    seq!['-', '-', '-', ' '] + k + seq![' ', '-', '-', '-', '\n']
}

/// A group as text: its header, its paths, a blank line.
pub open spec fn block(g: GroupView) -> Seq<char> {
    header(g.0) + lines(g.1) + seq!['\n']
}

/// The catalog text: the blocks of the groups, in order.
pub open spec fn render_text(gs: Seq<GroupView>) -> Seq<char>
    decreases gs.len(),
{
    if gs.len() == 0 {
        Seq::empty()
    } else {
        render_text(gs.drop_last()) + block(gs.last())
    }
}

/// One extension key and the relative paths of its files.
pub struct Group {
    pub key: String,
    pub paths: Vec<String>,
}

impl View for Group {
    type V = GroupView;

    open spec fn view(&self) -> GroupView {
        (self.key@, self.paths@.map_values(|p: String| p@))
    }
}

/// Files grouped by extension key.
pub struct Catalog {
    groups: Vec<Group>,
    files: Ghost<Seq<FileRecord>>,
}

impl View for Catalog {
    type V = Seq<GroupView>;

    closed spec fn view(&self) -> Seq<GroupView> {
        self.groups@.map_values(|g: Group| g@)
    }
}

pub proof fn lemma_group_has_file(files: Seq<FileRecord>, k: Seq<char>)
    requires
        group_of(files, k).len() > 0,
    ensures
        exists|j: int| 0 <= j < files.len() && (#[trigger] files[j]).0 == k,
    decreases files.len(),
{
    if files.last().0 == k {
        assert(files[files.len() - 1].0 == k);
    } else {
        lemma_group_has_file(files.drop_last(), k);
        let j = choose|j: int| 0 <= j < files.drop_last().len() && (#[trigger] files.drop_last()[j]).0 == k;
        assert(files[j].0 == k);
    }
}

impl Catalog {
    /// The files recorded so far, in the order they were added.
    pub closed spec fn files(&self) -> Seq<FileRecord> {
        self.files@
    }

    /// Keys ascending and the groups exactly the grouping of the files.
    pub open spec fn wf(&self) -> bool {
        &&& sorted_keys(self@)
        &&& groups_files(self@, self.files())
    }

    /// An empty catalog.
    pub fn new() -> (r: Catalog)
        ensures
            r.wf(),
            r.files() == Seq::<FileRecord>::empty(),
            r@ == Seq::<GroupView>::empty(),
    {
        let r = Catalog { groups: Vec::new(), files: Ghost(Seq::empty()) };
        assert(r@ =~= Seq::<GroupView>::empty());
        r
    }

    /// The groups, in ascending key order.
    pub fn groups(&self) -> (r: &Vec<Group>)
        ensures
            r@.map_values(|g: Group| g@) == self@,
    {
        &self.groups
    }

    /// Records a file with extension key `key` at relative path `path`.
    pub fn add(&mut self, key: String, path: String)
        requires
            old(self).wf(),
        ensures
            final(self).wf(),
            final(self).files() == old(self).files().push((key@, path@)),
    {
        let ghost old_gs = self@;
        let ghost files = self.files@;
        let ghost new_files = files.push((key@, path@));
        assert(new_files.drop_last() =~= files);
        let n = self.groups.len();
        let mut i: usize = 0;
        while i < n && key_less(self.groups[i].key.as_str(), key.as_str())
            invariant
                n == self.groups.len(),
                i <= n,
                self@ == old_gs,
                forall|j: int| 0 <= j < i ==> seq_lt(#[trigger] old_gs[j].0, key@),
            decreases n - i,
        {
            assert(self@[i as int] == self.groups@[i as int]@);
            i = i + 1;
        }
        if i < n && self.groups[i].key == key {
            assert(old_gs[i as int].0 == key@);
            let mut g = self.groups.remove(i);
            g.paths.push(path);
            self.groups.insert(i, g);
            self.files = Ghost(new_files);
            proof {
                let ng = (key@, old_gs[i as int].1.push(path@));
                assert(g@.1 =~= old_gs[i as int].1.push(path@));
                assert(self@ =~= old_gs.update(i as int, ng));
                assert forall|a: int| 0 <= a < self@.len() implies (#[trigger] self@[a]).1 == group_of(
                    new_files,
                    self@[a].0,
                ) by {
                    if a != i {
                        if a < i {
                            lemma_trichotomy(old_gs[a].0, old_gs[i as int].0);
                        } else {
                            lemma_trichotomy(old_gs[i as int].0, old_gs[a].0);
                        }
                    }
                }
                assert forall|j: int| 0 <= j < new_files.len() implies exists|a: int|
                    0 <= a < self@.len() && (#[trigger] self@[a]).0 == (#[trigger] new_files[j]).0 by {
                    if j < files.len() {
                        assert(new_files[j] == files[j]);
                        let a = choose|a: int| 0 <= a < old_gs.len() && (#[trigger] old_gs[a]).0 == files[j].0;
                        assert(self@[a].0 == old_gs[a].0);
                    } else {
                        assert(self@[i as int].0 == new_files[j].0);
                    }
                }
            }
        } else {
            proof {
                if i < n {
                    lemma_trichotomy(old_gs[i as int].0, key@);
                }
                if group_of(files, key@).len() > 0 {
                    lemma_group_has_file(files, key@);
                    let j = choose|j: int| 0 <= j < files.len() && (#[trigger] files[j]).0 == key@;
                    let a = choose|a: int| 0 <= a < old_gs.len() && (#[trigger] old_gs[a]).0 == files[j].0;
                    if a < i {
                        lemma_trichotomy(old_gs[a].0, key@);
                    } else if a > i {
                        lemma_transitive(key@, old_gs[i as int].0, old_gs[a].0);
                        lemma_trichotomy(key@, old_gs[a].0);
                    }
                }
            }
            let mut paths: Vec<String> = Vec::new();
            paths.push(path);
            let g = Group { key, paths };
            self.groups.insert(i, g);
            self.files = Ghost(new_files);
            proof {
                let ng = g@;
                assert(ng.1 =~= group_of(files, ng.0).push(path@));
                assert(self@ =~= old_gs.insert(i as int, ng));
                assert forall|a: int, b: int| 0 <= a < b < self@.len() implies seq_lt(
                    #[trigger] self@[a].0,
                    #[trigger] self@[b].0,
                ) by {
                    if b == i {
                    } else if a == i {
                        if b > i + 1 {
                            lemma_transitive(ng.0, old_gs[i as int].0, old_gs[b - 1].0);
                        }
                    } else if a > i {
                        assert(seq_lt(old_gs[a - 1].0, old_gs[b - 1].0));
                    } else if b > i {
                        assert(seq_lt(old_gs[a].0, old_gs[b - 1].0));
                    }
                }
                assert forall|a: int| 0 <= a < self@.len() implies (#[trigger] self@[a]).1 == group_of(
                    new_files,
                    self@[a].0,
                ) by {
                    if a != i {
                        let c = if a < i { a } else { a - 1 };
                        assert(self@[a] == old_gs[c]);
                        lemma_trichotomy(old_gs[c].0, key@);
                    }
                }
                assert forall|j: int| 0 <= j < new_files.len() implies exists|a: int|
                    0 <= a < self@.len() && (#[trigger] self@[a]).0 == (#[trigger] new_files[j]).0 by {
                    if j < files.len() {
                        assert(new_files[j] == files[j]);
                        let a = choose|a: int| 0 <= a < old_gs.len() && (#[trigger] old_gs[a]).0 == files[j].0;
                        if a < i {
                            assert(self@[a].0 == old_gs[a].0);
                        } else {
                            assert(self@[a + 1].0 == old_gs[a].0);
                        }
                    } else {
                        assert(self@[i as int].0 == new_files[j].0);
                    }
                }
            }
        }
    }

    /// The catalog as text, groups in ascending key order.
    pub fn render(&self) -> (r: String)
        ensures
            r@ == render_text(self@),
    {
        let mut out = String::new();
        let n = self.groups.len();
        let mut i: usize = 0;
        while i < n
            invariant
                n == self.groups.len(),
                n == self@.len(),
                i <= n,
                out@ == render_text(self@.subrange(0, i as int)),
            decreases n - i,
        {
            proof {
                reveal_strlit("--- ");
                reveal_strlit(" ---\n");
                reveal_strlit("\n");
            }
            let g = &self.groups[i];
            assert(self@[i as int] == g@);
            let ghost before = out@;
            out.append("--- ");
            out.append(g.key.as_str());
            out.append(" ---\n");
            assert(out@ =~= before + header(g@.0));
            let m = g.paths.len();
            let mut j: usize = 0;
            while j < m
                invariant
                    m == g.paths.len(),
                    m == g@.1.len(),
                    j <= m,
                    out@ == before + header(g@.0) + lines(g@.1.subrange(0, j as int)),
                decreases m - j,
            {
                proof {
                    reveal_strlit("\n");
                }
                let ghost mid = out@;
                out.append(g.paths[j].as_str());
                out.append("\n");
                assert(g@.1.subrange(0, j + 1).drop_last() =~= g@.1.subrange(0, j as int));
                assert(g@.1[j as int] == g.paths@[j as int]@);
                assert(out@ =~= mid + g@.1[j as int] + seq!['\n']);
                j = j + 1;
            }
            out.append("\n");
            assert(g@.1.subrange(0, m as int) =~= g@.1);
            assert(self@.subrange(0, i + 1).drop_last() =~= self@.subrange(0, i as int));
            assert(out@ =~= before + block(g@));
            i = i + 1;
        }
        assert(self@.subrange(0, n as int) =~= self@);
        out
    }
}

} // verus!
