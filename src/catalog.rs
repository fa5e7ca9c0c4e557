//! The catalog of a source tree: classification of one directory's children,
//! gathering of the per-branch results, and the final merge that removes
//! duplicate paths and orders files largest first.

use vstd::prelude::*;
use rayon::slice::ParallelSliceMut;
use crate::path::FsPath;

verus! {

broadcast use vstd::seq_lib::group_to_multiset_ensures;

/// One regular file found under the source root, with the length it reported.
pub struct FileEntry {
    pub path: FsPath,
    pub size: u64,
}

impl FileEntry {
    /// A copy of this entry.
    pub fn duplicate(&self) -> (r: FileEntry)
        ensures
            r.path@ == self.path@,
            r.size == self.size,
    {
        FileEntry { path: self.path.duplicate(), size: self.size }
    }

    /// The file's name: the last component of its path.
    pub fn name(&self) -> (r: Option<Vec<u8>>)
        ensures
            r.is_some() == (self.path@.len() > 0),
            r.is_some() ==> r.unwrap()@ == self.path@.last(),
    {
        self.path.file_name()
    }

    /// A zero reported length marks a placeholder whose content is not local yet.
    pub fn is_stub(&self) -> (r: bool)
        ensures
            r == (self.size == 0),
    {
        self.size == 0
    }
}

/// What a status check found a directory child to be.
#[derive(Clone, Copy, Debug, PartialEq, Eq, Structural)]
pub enum ChildKind {
    File,
    Directory,
    /// Neither a file nor a directory (for instance a dangling link).
    Other,
}

/// One child of a listed directory: its name, its kind, and its length where
/// the metadata could be read.
pub struct Child {
    pub name: Vec<u8>,
    pub kind: ChildKind,
    pub size: Option<u64>,
}

/// One directory's children, sorted by kind.
pub struct Listing {
    pub files: Vec<FileEntry>,
    pub subdirs: Vec<FsPath>,
    /// Children that are neither files nor directories; the caller warns about them.
    pub skipped: Vec<FsPath>,
}

/// A (partial) catalog: files and directories found.
pub struct Catalog {
    pub files: Vec<FileEntry>,
    pub dirs: Vec<FsPath>,
}

/// The result of traversing one subdirectory: the directory and what it holds.
pub struct Branch {
    pub dir: FsPath,
    pub catalog: Catalog,
}

/// The abstract value of a file entry: its path and its size.
pub open spec fn entry_view(e: FileEntry) -> (Seq<Seq<u8>>, u64) {
    (e.path@, e.size)
}

pub open spec fn entries(es: Seq<FileEntry>) -> Seq<(Seq<Seq<u8>>, u64)> {
    es.map_values(|e: FileEntry| entry_view(e))
}

pub open spec fn dir_views(ds: Seq<FsPath>) -> Seq<Seq<Seq<u8>>> {
    ds.map_values(|d: FsPath| d@)
}

/// The length recorded for a child: an unreadable length counts as zero.
pub open spec fn size_or_zero(s: Option<u64>) -> u64 {
    match s {
        Some(n) => n,
        None => 0,
    }
}

/// The file entries that the children of `dir` give, in listing order.
pub open spec fn listed_files(dir: Seq<Seq<u8>>, cs: Seq<Child>) -> Seq<(Seq<Seq<u8>>, u64)>
    decreases cs.len(),
{
    if cs.len() == 0 {
        Seq::empty()
    } else {
        let rest = listed_files(dir, cs.drop_last());
        let c = cs.last();
        if c.kind == ChildKind::File {
            rest.push((dir.push(c.name@), size_or_zero(c.size)))
        } else {
            rest
        }
    }
}

/// The paths of the children of `dir` of the given kind, in listing order.
pub open spec fn listed_of_kind(dir: Seq<Seq<u8>>, cs: Seq<Child>, k: ChildKind) -> Seq<
    Seq<Seq<u8>>,
>
    decreases cs.len(),
{
    if cs.len() == 0 {
        Seq::empty()
    } else {
        let rest = listed_of_kind(dir, cs.drop_last(), k);
        if cs.last().kind == k {
            rest.push(dir.push(cs.last().name@))
        } else {
            rest
        }
    }
}

/// Sorts the children of `dir` into files, subdirectories and skipped entries.
pub fn classify(dir: &FsPath, children: &Vec<Child>) -> (r: Listing)
    ensures
        entries(r.files@) == listed_files(dir@, children@),
        dir_views(r.subdirs@) == listed_of_kind(dir@, children@, ChildKind::Directory),
        dir_views(r.skipped@) == listed_of_kind(dir@, children@, ChildKind::Other),
{
    let mut files: Vec<FileEntry> = Vec::new();
    let mut subdirs: Vec<FsPath> = Vec::new();
    let mut skipped: Vec<FsPath> = Vec::new();
    let mut i: usize = 0;
    while i < children.len()
        invariant
            i <= children@.len(),
            entries(files@) == listed_files(dir@, children@.subrange(0, i as int)),
            dir_views(subdirs@) == listed_of_kind(
                dir@,
                children@.subrange(0, i as int),
                ChildKind::Directory,
            ),
            dir_views(skipped@) == listed_of_kind(
                dir@,
                children@.subrange(0, i as int),
                ChildKind::Other,
            ),
        decreases children@.len() - i,
    {
        let c = &children[i];
        let ghost pre = children@.subrange(0, i as int);
        assert(children@.subrange(0, i + 1).drop_last() == pre);
        assert(children@.subrange(0, i + 1).last() == *c);
        let p = dir.child(&c.name);
        match c.kind {
            ChildKind::File => {
                let size = match c.size {
                    Some(n) => n,
                    None => 0,
                };
                let ghost before = files@;
                let e = FileEntry { path: p, size };
                files.push(e);
                assert(entries(files@) == entries(before).push(entry_view(e)));
            },
            ChildKind::Directory => {
                let ghost before = subdirs@;
                subdirs.push(p);
                assert(dir_views(subdirs@) == dir_views(before).push(p@));
            },
            ChildKind::Other => {
                let ghost before = skipped@;
                skipped.push(p);
                assert(dir_views(skipped@) == dir_views(before).push(p@));
            },
        }
        i = i + 1;
    }
    assert(children@.subrange(0, children@.len() as int) == children@);
    Listing { files, subdirs, skipped }
}

/// Files of all branches, branch by branch.
pub open spec fn branch_files(bs: Seq<Branch>) -> Seq<(Seq<Seq<u8>>, u64)>
    decreases bs.len(),
{
    if bs.len() == 0 {
        Seq::empty()
    } else {
        branch_files(bs.drop_last()) + entries(bs.last().catalog.files@)
    }
}

/// Directories of all branches: each branch's own directory, then those below it.
pub open spec fn branch_dirs(bs: Seq<Branch>) -> Seq<Seq<Seq<u8>>>
    decreases bs.len(),
{
    if bs.len() == 0 {
        Seq::empty()
    } else {
        branch_dirs(bs.drop_last()) + seq![bs.last().dir@] + dir_views(bs.last().catalog.dirs@)
    }
}

/// Appends copies of `src` to `out`.
fn append_entries(out: &mut Vec<FileEntry>, src: &Vec<FileEntry>)
    ensures
        entries(final(out)@) == entries(old(out)@) + entries(src@),
{
    let ghost start = entries(out@);
    let mut i: usize = 0;
    while i < src.len()
        invariant
            i <= src@.len(),
            entries(out@) == start + entries(src@.subrange(0, i as int)),
        decreases src@.len() - i,
    {
        let e = src[i].duplicate();
        let ghost before = out@;
        out.push(e);
        assert(entries(out@) == entries(before).push(entry_view(e)));
        assert(entries(src@.subrange(0, i + 1)) == entries(src@.subrange(0, i as int)).push(
            entry_view(src@[i as int]),
        ));
        i = i + 1;
    }
    assert(src@.subrange(0, src@.len() as int) == src@);
}

/// Appends copies of `src` to `out`.
fn append_dirs(out: &mut Vec<FsPath>, src: &Vec<FsPath>)
    ensures
        dir_views(final(out)@) == dir_views(old(out)@) + dir_views(src@),
{
    let ghost start = dir_views(out@);
    let mut i: usize = 0;
    while i < src.len()
        invariant
            i <= src@.len(),
            dir_views(out@) == start + dir_views(src@.subrange(0, i as int)),
        decreases src@.len() - i,
    {
        let d = src[i].duplicate();
        let ghost before = out@;
        out.push(d);
        assert(dir_views(out@) == dir_views(before).push(d@));
        assert(dir_views(src@.subrange(0, i + 1)) == dir_views(src@.subrange(0, i as int)).push(
            src@[i as int]@,
        ));
        i = i + 1;
    }
    assert(src@.subrange(0, src@.len() as int) == src@);
}

/// Concatenates a directory's own files with the results of its subdirectory
/// branches; duplicates and order are left to `finalize`.
pub fn gather(files: Vec<FileEntry>, branches: &Vec<Branch>) -> (r: Catalog)
    ensures
        entries(r.files@) == entries(files@) + branch_files(branches@),
        dir_views(r.dirs@) == branch_dirs(branches@),
{
    let mut out_files = files;
    let mut out_dirs: Vec<FsPath> = Vec::new();
    let ghost own = entries(out_files@);
    let mut i: usize = 0;
    while i < branches.len()
        invariant
            i <= branches@.len(),
            entries(out_files@) == own + branch_files(branches@.subrange(0, i as int)),
            dir_views(out_dirs@) == branch_dirs(branches@.subrange(0, i as int)),
        decreases branches@.len() - i,
    {
        let b = &branches[i];
        assert(branches@.subrange(0, i + 1).drop_last() == branches@.subrange(0, i as int));
        assert(branches@.subrange(0, i + 1).last() == *b);
        append_entries(&mut out_files, &b.catalog.files);
        let ghost before = out_dirs@;
        out_dirs.push(b.dir.duplicate());
        assert(dir_views(out_dirs@) == dir_views(before) + seq![b.dir@]);
        append_dirs(&mut out_dirs, &b.catalog.dirs);
        i = i + 1;
    }
    assert(branches@.subrange(0, branches@.len() as int) == branches@);
    Catalog { files: out_files, dirs: out_dirs }
}

/// No path occurs twice among the entries.
pub open spec fn distinct_paths(es: Seq<FileEntry>) -> bool {
    forall|i: int, j: int| 0 <= i < j < es.len() ==> es[i].path@ != es[j].path@
}

/// No directory occurs twice.
pub open spec fn distinct_dirs(ds: Seq<FsPath>) -> bool {
    forall|i: int, j: int| 0 <= i < j < ds.len() ==> ds[i]@ != ds[j]@
}

/// Some entry has path `p`.
pub open spec fn has_path(es: Seq<FileEntry>, p: Seq<Seq<u8>>) -> bool {
    exists|i: int| 0 <= i < es.len() && es[i].path@ == p
}

/// Some directory is `p`.
pub open spec fn has_dir(ds: Seq<FsPath>, p: Seq<Seq<u8>>) -> bool {
    exists|i: int| 0 <= i < ds.len() && ds[i]@ == p
}

/// Entry `j` is the first with its path.
pub open spec fn first_with_path(es: Seq<FileEntry>, j: int) -> bool {
    forall|k: int| 0 <= k < j ==> es[k].path@ != es[j].path@
}

/// Sizes never increase along the sequence.
pub open spec fn largest_first(es: Seq<FileEntry>) -> bool {
    forall|i: int, j: int| 0 <= i < j < es.len() ==> es[i].size >= es[j].size
}

/// Position of an entry with path `p`, if any.
fn find_path(es: &Vec<FileEntry>, p: &FsPath) -> (r: Option<usize>)
    ensures
        r.is_some() ==> r.unwrap() < es@.len() && es@[r.unwrap() as int].path@ == p@,
        r.is_none() ==> !has_path(es@, p@),
{
    let mut i: usize = 0;
    while i < es.len()
        invariant
            i <= es@.len(),
            forall|k: int| 0 <= k < i ==> es@[k].path@ != p@,
        decreases es@.len() - i,
    {
        if es[i].path.same_as(p) {
            return Some(i);
        }
        i = i + 1;
    }
    None
}

/// Position of a directory equal to `p`, if any.
fn find_dir(ds: &Vec<FsPath>, p: &FsPath) -> (r: Option<usize>)
    ensures
        r.is_some() ==> r.unwrap() < ds@.len() && ds@[r.unwrap() as int]@ == p@,
        r.is_none() ==> !has_dir(ds@, p@),
{
    let mut i: usize = 0;
    while i < ds.len()
        invariant
            i <= ds@.len(),
            forall|k: int| 0 <= k < i ==> ds@[k]@ != p@,
        decreases ds@.len() - i,
    {
        if ds[i].same_as(p) {
            return Some(i);
        }
        i = i + 1;
    }
    None
}

/// Keeps the first entry of each path, in their original order.
fn dedup_files(es: &Vec<FileEntry>) -> (r: (Vec<FileEntry>, Ghost<Seq<int>>))
    ensures
        distinct_paths(r.0@),
        r.1@.len() == r.0@.len(),
        forall|m: int|
            0 <= m < r.0@.len() ==> 0 <= #[trigger] r.1@[m] < es@.len() && entry_view(r.0@[m])
                == entry_view(es@[r.1@[m]]) && first_with_path(es@, r.1@[m]),
        forall|p: Seq<Seq<u8>>| has_path(r.0@, p) <==> has_path(es@, p),
{
    let mut out: Vec<FileEntry> = Vec::new();
    let ghost mut firsts: Seq<int> = Seq::empty();
    let mut j: usize = 0;
    while j < es.len()
        invariant
            j <= es@.len(),
            distinct_paths(out@),
            firsts.len() == out@.len(),
            forall|m: int|
                0 <= m < out@.len() ==> 0 <= #[trigger] firsts[m] < j && entry_view(out@[m])
                    == entry_view(es@[firsts[m]]) && first_with_path(es@, firsts[m]),
            forall|k: int| 0 <= k < j ==> has_path(out@, #[trigger] es@[k].path@),
        decreases es@.len() - j,
    {
        match find_path(&out, &es[j].path) {
            Some(m) => {
                assert(has_path(out@, es@[j as int].path@));
            },
            None => {
                assert forall|k: int| 0 <= k < j implies es@[k].path@ != es@[j as int].path@ by {
                    assert(has_path(out@, es@[k].path@));
                }
                let e = es[j].duplicate();
                let ghost prior = out@;
                out.push(e);
                proof {
                    firsts = firsts.push(j as int);
                }
                assert(has_path(out@, es@[j as int].path@)) by {
                    assert(out@[out@.len() - 1].path@ == es@[j as int].path@);
                }
                assert forall|k: int| 0 <= k < j implies has_path(out@, #[trigger] es@[k].path@) by {
                    assert(has_path(prior, es@[k].path@));
                    let m = choose|m: int| 0 <= m < prior.len() && prior[m].path@ == es@[k].path@;
                    assert(out@[m] == prior[m]);
                }
            },
        }
        j = j + 1;
    }
    assert forall|p: Seq<Seq<u8>>| has_path(out@, p) implies has_path(es@, p) by {
        let m = choose|m: int| 0 <= m < out@.len() && out@[m].path@ == p;
        assert(es@[firsts[m]].path@ == p);
    }
    assert forall|p: Seq<Seq<u8>>| has_path(es@, p) implies has_path(out@, p) by {
        let k = choose|k: int| 0 <= k < es@.len() && es@[k].path@ == p;
        assert(has_path(out@, es@[k].path@));
    }
    (out, Ghost(firsts))
}

/// Keeps the first occurrence of each directory, in their original order.
fn dedup_dirs(ds: &Vec<FsPath>) -> (r: Vec<FsPath>)
    ensures
        distinct_dirs(r@),
        forall|p: Seq<Seq<u8>>| has_dir(r@, p) <==> has_dir(ds@, p),
{
    let mut out: Vec<FsPath> = Vec::new();
    let mut j: usize = 0;
    while j < ds.len()
        invariant
            j <= ds@.len(),
            distinct_dirs(out@),
            forall|p: Seq<Seq<u8>>| has_dir(out@, p) ==> has_dir(ds@, p),
            forall|k: int| 0 <= k < j ==> has_dir(out@, #[trigger] ds@[k]@),
        decreases ds@.len() - j,
    {
        match find_dir(&out, &ds[j]) {
            Some(m) => {
                assert(has_dir(out@, ds@[j as int]@));
            },
            None => {
                let d = ds[j].duplicate();
                let ghost prior = out@;
                out.push(d);
                assert(has_dir(out@, ds@[j as int]@)) by {
                    assert(out@[out@.len() - 1]@ == ds@[j as int]@);
                }
                assert forall|k: int| 0 <= k < j implies has_dir(out@, #[trigger] ds@[k]@) by {
                    assert(has_dir(prior, ds@[k]@));
                    let m = choose|m: int| 0 <= m < prior.len() && prior[m]@ == ds@[k]@;
                    assert(out@[m] == prior[m]);
                }
                assert forall|p: Seq<Seq<u8>>| has_dir(out@, p) implies has_dir(ds@, p) by {
                    let m = choose|m: int| 0 <= m < out@.len() && out@[m]@ == p;
                    if m < prior.len() {
                        assert(prior[m]@ == p);
                        assert(has_dir(prior, p));
                    } else {
                        assert(ds@[j as int]@ == p);
                    }
                }
            },
        }
        j = j + 1;
    }
    assert forall|p: Seq<Seq<u8>>| has_dir(ds@, p) implies has_dir(out@, p) by {
        let k = choose|k: int| 0 <= k < ds@.len() && ds@[k]@ == p;
        assert(has_dir(out@, ds@[k]@));
    }
    out
}

/// The order of sort keys: lexicographic on the pair, as for tuples of integers.
pub open spec fn key_le(a: (u64, u64), b: (u64, u64)) -> bool {
    a.0 < b.0 || (a.0 == b.0 && a.1 <= b.1)
}

/// Relies on rayon's `ParallelSliceMut::par_sort_unstable`: it sorts the slice in
/// place into ascending order of `Ord`, which for pairs of integers is the
/// lexicographic order, and keeps exactly the same elements.
#[verifier::external_body]
fn par_sort_keys(keys: &mut Vec<(u64, u64)>)
    ensures
        final(keys)@.to_multiset() == old(keys)@.to_multiset(),
        forall|i: int, j: int|
            0 <= i < j < final(keys)@.len() ==> key_le(final(keys)@[i], final(keys)@[j]),
{
    keys.par_sort_unstable();
}

/// The sort key of entry `k`: larger sizes first, then earlier positions.
pub open spec fn key_of(es: Seq<FileEntry>, k: int) -> (u64, u64) {
    ((u64::MAX - es[k].size) as u64, k as u64)
}

/// Reorders entries largest first; entries of equal size keep their relative order.
fn order_largest_first(es: &Vec<FileEntry>) -> (r: (Vec<FileEntry>, Ghost<Seq<int>>))
    requires
        distinct_paths(es@),
    ensures
        r.0@.len() == es@.len(),
        r.1@.len() == es@.len(),
        distinct_paths(r.0@),
        largest_first(r.0@),
        forall|i: int|
            0 <= i < r.0@.len() ==> 0 <= #[trigger] r.1@[i] < es@.len() && entry_view(r.0@[i])
                == entry_view(es@[r.1@[i]]),
        forall|p: Seq<Seq<u8>>| has_path(r.0@, p) <==> has_path(es@, p),
        forall|i: int, j: int|
            0 <= i < j < r.0@.len() && r.0@[i].size == r.0@[j].size ==> r.1@[i] < r.1@[j],
{
    let n = es.len();
    let mut keys: Vec<(u64, u64)> = Vec::new();
    let mut m: usize = 0;
    while m < n
        invariant
            n == es@.len(),
            m <= n,
            keys@.len() == m,
            forall|k: int| 0 <= k < m ==> #[trigger] keys@[k] == key_of(es@, k),
        decreases n - m,
    {
        keys.push((u64::MAX - es[m].size, m as u64));
        m = m + 1;
    }
    let ghost orig = keys@;
    assert(orig.no_duplicates()) by {
        assert forall|a: int, b: int| 0 <= a < orig.len() && 0 <= b < orig.len() && a != b implies orig[a] != orig[b] by {
            assert(orig[a].1 == a as u64);
            assert(orig[b].1 == b as u64);
        }
    }
    par_sort_keys(&mut keys);
    let ghost sorted = keys@;
    proof {
        orig.lemma_multiset_has_no_duplicates();
        sorted.lemma_multiset_has_no_duplicates_conv();
        assert(sorted.len() == orig.len()) by {
            assert(sorted.len() == sorted.to_multiset().len());
            assert(orig.len() == orig.to_multiset().len());
        }
        assert forall|i: int| 0 <= i < sorted.len() implies (#[trigger] sorted[i]).1 < n
            && sorted[i] == key_of(es@, sorted[i].1 as int) by {
            assert(sorted.contains(sorted[i]));
            assert(sorted.to_multiset().count(sorted[i]) > 0);
            assert(orig.to_multiset().count(sorted[i]) > 0);
            assert(orig.contains(sorted[i]));
            let k = choose|k: int| 0 <= k < orig.len() && orig[k] == sorted[i];
            assert(orig[k] == key_of(es@, k));
        }
    }
    let mut out: Vec<FileEntry> = Vec::new();
    let ghost mut perm: Seq<int> = Seq::empty();
    let mut i: usize = 0;
    while i < n
        invariant
            n == es@.len(),
            keys@ == sorted,
            sorted.len() == n,
            i <= n,
            out@.len() == i,
            perm.len() == i,
            forall|t: int| 0 <= t < i ==> #[trigger] perm[t] == sorted[t].1 as int,
            forall|t: int| 0 <= t < i ==> entry_view(#[trigger] out@[t]) == entry_view(es@[perm[t]]),
            forall|t: int| 0 <= t < sorted.len() ==> (#[trigger] sorted[t]).1 < n
                && sorted[t] == key_of(es@, sorted[t].1 as int),
        decreases n - i,
    {
        let idx = keys[i].1 as usize;
        assert(sorted[i as int].1 < n);
        out.push(es[idx].duplicate());
        proof {
            perm = perm.push(idx as int);
        }
        i = i + 1;
    }
    proof {
        assert forall|a: int, b: int| 0 <= a < b < out@.len() implies out@[a].size >= out@[b].size by {
            assert(key_le(sorted[a], sorted[b]));
            assert(sorted[a] == key_of(es@, perm[a]));
            assert(sorted[b] == key_of(es@, perm[b]));
        }
        assert forall|a: int, b: int|
            0 <= a < b < out@.len() && out@[a].size == out@[b].size implies perm[a] < perm[b] by {
            assert(key_le(sorted[a], sorted[b]));
            assert(sorted[a] != sorted[b]);
            assert(sorted[a] == key_of(es@, perm[a]));
            assert(sorted[b] == key_of(es@, perm[b]));
        }
        assert forall|a: int, b: int| 0 <= a < b < out@.len() implies out@[a].path@ != out@[b].path@ by {
            assert(sorted[a] != sorted[b]);
            assert(sorted[a] == key_of(es@, sorted[a].1 as int));
            assert(sorted[b] == key_of(es@, sorted[b].1 as int));
            assert(perm[a] != perm[b]);
            if perm[a] < perm[b] {
                assert(es@[perm[a]].path@ != es@[perm[b]].path@);
            } else {
                assert(es@[perm[b]].path@ != es@[perm[a]].path@);
            }
        }
        assert forall|p: Seq<Seq<u8>>| has_path(es@, p) implies has_path(out@, p) by {
            let k = choose|k: int| 0 <= k < es@.len() && es@[k].path@ == p;
            assert(orig[k] == key_of(es@, k));
            assert(orig.contains(orig[k]));
            assert(orig.to_multiset().count(orig[k]) > 0);
            assert(sorted.to_multiset().count(orig[k]) > 0);
            assert(sorted.contains(orig[k]));
            let t = choose|t: int| 0 <= t < sorted.len() && sorted[t] == orig[k];
            assert(perm[t] == k);
            assert(out@[t].path@ == p);
        }
        assert forall|p: Seq<Seq<u8>>| has_path(out@, p) implies has_path(es@, p) by {
            let t = choose|t: int| 0 <= t < out@.len() && out@[t].path@ == p;
            assert(es@[perm[t]].path@ == p);
        }
    }
    (out, Ghost(perm))
}

/// `e` is, in path and size, the first entry of `es` with its path.
pub open spec fn kept_first(es: Seq<FileEntry>, e: FileEntry) -> bool {
    exists|j: int| 0 <= j < es.len() && entry_view(es[j]) == entry_view(e) && first_with_path(es, j)
}

/// The merge step after all branches are gathered: each file path and each
/// directory is kept once (the first entry seen for a path wins), and files are
/// ordered by descending size.
pub fn finalize(cat: &Catalog) -> (r: Catalog)
    ensures
        distinct_paths(r.files@),
        distinct_dirs(r.dirs@),
        largest_first(r.files@),
        forall|p: Seq<Seq<u8>>| has_path(r.files@, p) <==> has_path(cat.files@, p),
        forall|i: int| 0 <= i < r.files@.len() ==> kept_first(cat.files@, #[trigger] r.files@[i]),
        forall|p: Seq<Seq<u8>>| has_dir(r.dirs@, p) <==> has_dir(cat.dirs@, p),
{
    let (unique, Ghost(firsts)) = dedup_files(&cat.files);
    let (files, Ghost(perm)) = order_largest_first(&unique);
    assert forall|i: int| 0 <= i < files@.len() implies kept_first(cat.files@, #[trigger] files@[i]) by {
        let m = perm[i];
        assert(entry_view(unique@[m]) == entry_view(cat.files@[firsts[m]]));
    }
    let dirs = dedup_dirs(&cat.dirs);
    Catalog { files, dirs }
}

/// Every entry of every branch is among the branch files.
proof fn lemma_branch_files_hold(bs: Seq<Branch>, b: int, i: int)
    requires
        0 <= b < bs.len(),
        0 <= i < bs[b].catalog.files@.len(),
    ensures
        branch_files(bs).contains(entry_view(bs[b].catalog.files@[i])),
    decreases bs.len(),
{
    let init = bs.drop_last();
    let tail = entries(bs.last().catalog.files@);
    if b == bs.len() - 1 {
        assert((branch_files(init) + tail)[branch_files(init).len() + i] == tail[i]);
    } else {
        assert(init[b] == bs[b]);
        lemma_branch_files_hold(init, b, i);
        let k = choose|k: int| 0 <= k < branch_files(init).len() && branch_files(init)[k] == entry_view(bs[b].catalog.files@[i]);
        assert((branch_files(init) + tail)[k] == branch_files(init)[k]);
    }
}

/// A subtree that could not be read only loses its own files: after gathering
/// the branches that were read and merging, the file of every such branch, and
/// every file of the directory itself, is still in the catalog.
pub proof fn lemma_read_branches_survive(
    files: Seq<FileEntry>,
    branches: Seq<Branch>,
    gathered: Catalog,
    merged: Catalog,
)
    requires
        entries(gathered.files@) == entries(files) + branch_files(branches),
        forall|p: Seq<Seq<u8>>| has_path(merged.files@, p) <==> has_path(gathered.files@, p),
    ensures
        forall|i: int| 0 <= i < files.len() ==> has_path(merged.files@, #[trigger] files[i].path@),
        forall|b: int, i: int|
            0 <= b < branches.len() && 0 <= i < branches[b].catalog.files@.len() ==> has_path(
                merged.files@,
                #[trigger] branches[b].catalog.files@[i].path@,
            ),
{
    let g = gathered.files@;
    assert forall|i: int| 0 <= i < files.len() implies has_path(merged.files@, #[trigger] files[i].path@) by {
        assert(entries(g).len() == entries(files).len() + branch_files(branches).len());
        assert(entries(g)[i] == entries(files)[i]);
        assert(entries(g)[i] == entry_view(g[i]));
        assert(entries(files)[i] == entry_view(files[i]));
        assert(g[i].path@ == files[i].path@);
        assert(has_path(g, files[i].path@));
    }
    assert forall|b: int, i: int|
        0 <= b < branches.len() && 0 <= i < branches[b].catalog.files@.len() implies has_path(
            merged.files@,
            #[trigger] branches[b].catalog.files@[i].path@,
        ) by {
        lemma_branch_files_hold(branches, b, i);
        let bf = branch_files(branches);
        let k = choose|k: int| 0 <= k < bf.len() && bf[k] == entry_view(branches[b].catalog.files@[i]);
        let n = files.len() as int;
        assert(entries(g).len() == entries(files).len() + bf.len());
        assert(entries(g)[n + k] == bf[k]);
        assert(entries(g)[n + k] == entry_view(g[n + k]));
        assert(g[n + k].path@ == branches[b].catalog.files@[i].path@);
        assert(has_path(g, branches[b].catalog.files@[i].path@));
    }
}

} // verus!
