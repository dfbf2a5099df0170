//! What holds of every catalog, stated over the contracts' models.
use vstd::prelude::*;
use vstd::seq_lib::{to_multiset_build, to_multiset_contains};
use crate::catalog::{
    group_of, lemma_group_has_file, render_text, Catalog, FileRecord, GroupView,
};
use crate::extension::{ext_of, key_of, last_dot, lower_of};
use crate::order::{lemma_trichotomy, seq_lt};

verus! {

broadcast use {to_multiset_build, to_multiset_contains};

/// How often path `p` stands in the group of key `k` is how often the file
/// `(k, p)` was recorded.
pub proof fn lemma_group_count(files: Seq<FileRecord>, k: Seq<char>, p: Seq<char>)
    ensures
        group_of(files, k).to_multiset().count(p) == files.to_multiset().count((k, p)),
    decreases files.len(),
{
    if files.len() > 0 {
        lemma_group_count(files.drop_last(), k, p);
        assert(files =~= files.drop_last().push(files.last()));
    }
}

/// Where no two files share a path, each file is counted once and no file
/// with another key has its path.
proof fn lemma_distinct_paths_count(files: Seq<FileRecord>, x: FileRecord)
    requires
        forall|a: int, b: int|
            0 <= a < b < files.len() ==> (#[trigger] files[a]).1 != (#[trigger] files[b]).1,
    ensures
        files.to_multiset().count(x) == if files.contains(x) { 1nat } else { 0nat },
    decreases files.len(),
{
    if files.len() > 0 {
        let r = files.drop_last();
        lemma_distinct_paths_count(r, x);
        assert(files =~= r.push(files.last()));
        if x == files.last() && r.contains(x) {
            let a = choose|a: int| 0 <= a < r.len() && r[a] == x;
            assert(files[a].1 == files[files.len() - 1].1);
        }
        if x != files.last() && files.contains(x) {
            let a = choose|a: int| 0 <= a < files.len() && files[a] == x;
            assert(r[a] == x);
        }
    }
}

/// Each recorded file stands in the group of its own key, and where no two
/// recorded files share a path (as in a directory tree), it stands there
/// exactly once and in no other group.
pub proof fn lemma_each_file_once(c: Catalog, j: int)
    requires
        c.wf(),
        0 <= j < c.files().len(),
        forall|a: int, b: int|
            0 <= a < b < c.files().len() ==> (#[trigger] c.files()[a]).1 != (#[trigger] c.files()[b]).1,
    ensures
        exists|i: int|
            0 <= i < c@.len() && (#[trigger] c@[i]).0 == c.files()[j].0 && c@[i].1.to_multiset().count(
                c.files()[j].1,
            ) == 1,
        forall|i: int|
            0 <= i < c@.len() && (#[trigger] c@[i]).0 != c.files()[j].0 ==> !c@[i].1.contains(
                c.files()[j].1,
            ),
{
    let files = c.files();
    let f = files[j];
    let i = choose|i: int| 0 <= i < c@.len() && (#[trigger] c@[i]).0 == files[j].0;
    lemma_group_count(files, f.0, f.1);
    lemma_distinct_paths_count(files, f);
    assert(files.contains(f));
    assert forall|i2: int| 0 <= i2 < c@.len() && (#[trigger] c@[i2]).0 != f.0 implies !c@[i2].1.contains(
        f.1,
    ) by {
        let k2 = c@[i2].0;
        lemma_group_count(files, k2, f.1);
        lemma_distinct_paths_count(files, (k2, f.1));
        if c@[i2].1.contains(f.1) {
            let a = choose|a: int| 0 <= a < files.len() && files[a] == (k2, f.1);
            assert(a != j);
            if a < j {
                assert(files[a].1 != files[j].1);
            } else {
                assert(files[j].1 != files[a].1);
            }
        }
    }
}

/// The groups stand in strictly ascending key order; the empty key, where
/// present, comes first.
pub proof fn lemma_groups_ascending(c: Catalog)
    requires
        c.wf(),
    ensures
        forall|i: int, j: int| 0 <= i < j < c@.len() ==> seq_lt(#[trigger] c@[i].0, #[trigger] c@[j].0),
        forall|i: int| 0 < i < c@.len() ==> (#[trigger] c@[i]).0.len() > 0,
{
    assert forall|i: int| 0 < i < c@.len() implies (#[trigger] c@[i]).0.len() > 0 by {
        assert(seq_lt(c@[0].0, c@[i].0));
    }
}

/// A key has a group exactly where some recorded file has that key.
proof fn lemma_key_present(c: Catalog, k: Seq<char>)
    requires
        c.wf(),
    ensures
        (exists|i: int| 0 <= i < c@.len() && (#[trigger] c@[i]).0 == k) <==> (exists|j: int|
            0 <= j < c.files().len() && (#[trigger] c.files()[j]).0 == k),
{
    if exists|i: int| 0 <= i < c@.len() && (#[trigger] c@[i]).0 == k {
        let i = choose|i: int| 0 <= i < c@.len() && (#[trigger] c@[i]).0 == k;
        lemma_group_has_file(c.files(), k);
    }
}

/// Two strictly ascending sequences of keys with the same members are equal.
proof fn lemma_sorted_unique(s1: Seq<Seq<char>>, s2: Seq<Seq<char>>)
    requires
        forall|i: int, j: int| 0 <= i < j < s1.len() ==> seq_lt(#[trigger] s1[i], #[trigger] s1[j]),
        forall|i: int, j: int| 0 <= i < j < s2.len() ==> seq_lt(#[trigger] s2[i], #[trigger] s2[j]),
        forall|x: Seq<char>| s1.contains(x) <==> s2.contains(x),
    ensures
        s1 == s2,
    decreases s1.len(),
{
    if s1.len() == 0 {
        if s2.len() > 0 {
            assert(s2.contains(s2[0]));
        }
        assert(s1 =~= s2);
    } else {
        if s2.len() == 0 {
            assert(s1.contains(s1[0]));
        }
        assert(s1.contains(s1[0]));
        assert(s2.contains(s2[0]));
        let m = choose|m: int| 0 <= m < s2.len() && s2[m] == s1[0];
        let l = choose|l: int| 0 <= l < s1.len() && s1[l] == s2[0];
        if m > 0 && l > 0 {
            assert(seq_lt(s2[0], s2[m]));
            assert(seq_lt(s1[0], s1[l]));
            lemma_trichotomy(s1[0], s2[0]);
        } else if m > 0 {
            assert(seq_lt(s2[0], s2[m]));
            lemma_trichotomy(s2[0], s1[0]);
        } else if l > 0 {
            assert(seq_lt(s1[0], s1[l]));
            lemma_trichotomy(s1[0], s2[0]);
        }
        let t1 = s1.drop_first();
        let t2 = s2.drop_first();
        assert forall|x: Seq<char>| t1.contains(x) implies t2.contains(x) by {
            let a = choose|a: int| 0 <= a < t1.len() && t1[a] == x;
            assert(seq_lt(s1[0], s1[a + 1]));
            lemma_trichotomy(s1[0], x);
            assert(s2.contains(x));
            let b = choose|b: int| 0 <= b < s2.len() && s2[b] == x;
            assert(b != 0);
            assert(t2[b - 1] == x);
        }
        assert forall|x: Seq<char>| t2.contains(x) implies t1.contains(x) by {
            let a = choose|a: int| 0 <= a < t2.len() && t2[a] == x;
            assert(seq_lt(s2[0], s2[a + 1]));
            lemma_trichotomy(s2[0], x);
            assert(s1.contains(x));
            let b = choose|b: int| 0 <= b < s1.len() && s1[b] == x;
            assert(b != 0);
            assert(t1[b - 1] == x);
        }
        lemma_sorted_unique(t1, t2);
        assert(s1[0] == s2[0]);
        assert forall|i: int| 0 <= i < s1.len() implies s1[i] == s2[i] by {
            if i > 0 {
                assert(s1[i] == t1[i - 1]);
                assert(s2[i] == t2[i - 1]);
            }
        }
        assert(s1 =~= s2);
    }
}

/// The keys of the groups, in order.
pub open spec fn keys(gs: Seq<GroupView>) -> Seq<Seq<char>> {
    gs.map_values(|g: GroupView| g.0)
}

/// Two catalogs of the same files, recorded in any order (a tree scanned
/// twice, listed in another order), have the same keys in the same order, and
/// each group the same paths, up to their order.
pub proof fn lemma_same_files_same_groups(c1: Catalog, c2: Catalog)
    requires
        c1.wf(),
        c2.wf(),
        c1.files().to_multiset() == c2.files().to_multiset(),
    ensures
        keys(c1@) == keys(c2@),
        forall|i: int|
            0 <= i < c1@.len() ==> (#[trigger] c1@[i]).1.to_multiset() == c2@[i].1.to_multiset(),
{
    let f1 = c1.files();
    let f2 = c2.files();
    let s1 = keys(c1@);
    let s2 = keys(c2@);
    assert forall|x: Seq<char>| s1.contains(x) <==> s2.contains(x) by {
        lemma_key_present(c1, x);
        lemma_key_present(c2, x);
        if s1.contains(x) {
            let i = choose|i: int| 0 <= i < s1.len() && s1[i] == x;
            assert(c1@[i].0 == x);
            let j = choose|j: int| 0 <= j < f1.len() && (#[trigger] f1[j]).0 == x;
            assert(f1.contains(f1[j]));
            assert(f1.to_multiset().count(f1[j]) > 0);
            assert(f2.to_multiset().count(f1[j]) > 0);
            assert(f2.contains(f1[j]));
            let j2 = choose|j2: int| 0 <= j2 < f2.len() && f2[j2] == f1[j];
            assert(f2[j2].0 == x);
            let i2 = choose|i2: int| 0 <= i2 < c2@.len() && (#[trigger] c2@[i2]).0 == x;
            assert(s2[i2] == x);
        }
        if s2.contains(x) {
            let i = choose|i: int| 0 <= i < s2.len() && s2[i] == x;
            assert(c2@[i].0 == x);
            let j = choose|j: int| 0 <= j < f2.len() && (#[trigger] f2[j]).0 == x;
            assert(f2.contains(f2[j]));
            assert(f2.to_multiset().count(f2[j]) > 0);
            assert(f1.to_multiset().count(f2[j]) > 0);
            assert(f1.contains(f2[j]));
            let j1 = choose|j1: int| 0 <= j1 < f1.len() && f1[j1] == f2[j];
            assert(f1[j1].0 == x);
            let i1 = choose|i1: int| 0 <= i1 < c1@.len() && (#[trigger] c1@[i1]).0 == x;
            assert(s1[i1] == x);
        }
    }
    assert forall|i: int, j: int| 0 <= i < j < s1.len() implies seq_lt(#[trigger] s1[i], #[trigger] s1[j]) by {
        assert(seq_lt(c1@[i].0, c1@[j].0));
    }
    assert forall|i: int, j: int| 0 <= i < j < s2.len() implies seq_lt(#[trigger] s2[i], #[trigger] s2[j]) by {
        assert(seq_lt(c2@[i].0, c2@[j].0));
    }
    lemma_sorted_unique(s1, s2);
    assert forall|i: int| 0 <= i < c1@.len() implies (#[trigger] c1@[i]).1.to_multiset()
        == c2@[i].1.to_multiset() by {
        let k = c1@[i].0;
        assert(s1[i] == s2[i]);
        assert(c2@[i].0 == k);
        assert forall|p: Seq<char>| c1@[i].1.to_multiset().count(p) == c2@[i].1.to_multiset().count(p) by {
            lemma_group_count(f1, k, p);
            lemma_group_count(f2, k, p);
        }
        assert(c1@[i].1.to_multiset() =~= c2@[i].1.to_multiset());
    }
}

/// A catalog of no files has no groups, and its text is empty.
pub proof fn lemma_no_files_no_text(c: Catalog)
    requires
        c.wf(),
        c.files().len() == 0,
    ensures
        c@.len() == 0,
        render_text(c@) == Seq::<char>::empty(),
{
    if c@.len() > 0 {
        assert(c@[0].1.len() > 0);
    }
}

/// Characters without a dot do not move the last dot.
proof fn lemma_last_dot_skip(s: Seq<char>, lo: int, n: int)
    requires
        0 <= lo <= n <= s.len(),
        forall|i: int| lo <= i < n ==> s[i] != '.',
    ensures
        last_dot(s, n) == last_dot(s, lo),
    decreases n,
{
    if n > lo {
        lemma_last_dot_skip(s, lo, n - 1);
    }
}

/// A name without a dot has the empty key.
pub proof fn lemma_no_dot_no_key(name: Seq<char>)
    requires
        !name.contains('.'),
    ensures
        ext_of(name) is None,
        key_of(name) == Seq::<char>::empty(),
{
    assert forall|i: int| 0 <= i < name.len() implies name[i] != '.' by {
        if name[i] == '.' {
            assert(name.contains('.'));
        }
    }
    lemma_last_dot_skip(name, 0, name.len() as int);
}

/// Only the part after the last dot counts: a name made of a non-empty stem
/// (which may hold dots), a dot and a suffix without a dot has that suffix as
/// its extension, and its key is a dot and the suffix lowercased. `..` is
/// the one such name that has no extension.
pub proof fn lemma_final_suffix(stem: Seq<char>, suffix: Seq<char>)
    requires
        stem.len() > 0,
        !suffix.contains('.'),
        !(stem == seq!['.'] && suffix.len() == 0),
    ensures
        ext_of(stem + seq!['.'] + suffix) == Some(suffix),
        key_of(stem + seq!['.'] + suffix) == seq!['.'] + lower_of(suffix),
{
    let name = stem + seq!['.'] + suffix;
    let d = stem.len() as int;
    assert(name[d] == '.');
    assert forall|i: int| d + 1 <= i < name.len() implies name[i] != '.' by {
        assert(name[i] == suffix[i - d - 1]);
        if name[i] == '.' {
            assert(suffix.contains('.'));
        }
    }
    lemma_last_dot_skip(name, d + 1, name.len() as int);
    assert(last_dot(name, d + 1) == d);
    if name == seq!['.', '.'] {
        assert(name.len() == 2);
        assert(stem =~= seq!['.']);
    }
    assert(name.subrange(d + 1, name.len() as int) =~= suffix);
}

} // verus!
