//! Paths as sequences of raw name components, and the rebasing of a source
//! path onto the target root.

use vstd::prelude::*;

verus! {

/// A filesystem path, one entry of `parts` per component (raw bytes of each name).
pub struct FsPath {
    pub parts: Vec<Vec<u8>>,
}

impl View for FsPath {
    type V = Seq<Seq<u8>>;

    open spec fn view(&self) -> Seq<Seq<u8>> {
        self.parts@.map_values(|c: Vec<u8>| c@)
    }
}

/// `root` is a component-wise prefix of `p`.
pub open spec fn is_prefix(root: Seq<Seq<u8>>, p: Seq<Seq<u8>>) -> bool {
    root.len() <= p.len() && p.subrange(0, root.len() as int) == root
}

/// The path of `p` relative to `root`; a path outside `root` stands for itself.
pub open spec fn relative(p: Seq<Seq<u8>>, root: Seq<Seq<u8>>) -> Seq<Seq<u8>> {
    if is_prefix(root, p) {
        p.subrange(root.len() as int, p.len() as int)
    } else {
        p
    }
}

/// The parent of `p`; the empty path is its own parent.
pub open spec fn parent(p: Seq<Seq<u8>>) -> Seq<Seq<u8>> {
    if p.len() == 0 {
        p
    } else {
        p.drop_last()
    }
}

/// The last component of `p` as a one-element path, or the empty path.
pub open spec fn base_name(p: Seq<Seq<u8>>) -> Seq<Seq<u8>> {
    if p.len() == 0 {
        Seq::empty()
    } else {
        seq![p.last()]
    }
}

/// Where a source directory lands: the target root joined with its relative path.
pub open spec fn target_of_dir(dir: Seq<Seq<u8>>, src: Seq<Seq<u8>>, dst: Seq<Seq<u8>>) -> Seq<
    Seq<u8>,
> {
    dst + relative(dir, src)
}

/// The target directory that receives a source file: the mapped parent of the file.
pub open spec fn target_dir_of_file(
    file: Seq<Seq<u8>>,
    src: Seq<Seq<u8>>,
    dst: Seq<Seq<u8>>,
) -> Seq<Seq<u8>> {
    dst + parent(relative(file, src))
}

/// The exact target path of a source file: its target directory joined with its name.
pub open spec fn target_of_file(file: Seq<Seq<u8>>, src: Seq<Seq<u8>>, dst: Seq<Seq<u8>>) -> Seq<
    Seq<u8>,
> {
    target_dir_of_file(file, src, dst) + base_name(file)
}

/// Byte-wise equality of two names.
pub fn bytes_equal(a: &Vec<u8>, b: &Vec<u8>) -> (r: bool)
    ensures
        r == (a@ == b@),
{
    if a.len() != b.len() {
        return false;
    }
    let mut i: usize = 0;
    while i < a.len()
        invariant
            a@.len() == b@.len(),
            i <= a@.len(),
            a@.subrange(0, i as int) == b@.subrange(0, i as int),
        decreases a@.len() - i,
    {
        if a[i] != b[i] {
            assert(a@[i as int] != b@[i as int]);
            return false;
        }
        assert(a@.subrange(0, i + 1) == a@.subrange(0, i as int).push(a@[i as int]));
        assert(b@.subrange(0, i + 1) == b@.subrange(0, i as int).push(b@[i as int]));
        i = i + 1;
    }
    assert(a@ == a@.subrange(0, a@.len() as int));
    assert(b@ == b@.subrange(0, b@.len() as int));
    true
}

/// A copy of one name.
fn copy_name(a: &Vec<u8>) -> (r: Vec<u8>)
    ensures
        r@ == a@,
{
    let mut r: Vec<u8> = Vec::new();
    let mut i: usize = 0;
    while i < a.len()
        invariant
            i <= a@.len(),
            r@ == a@.subrange(0, i as int),
        decreases a@.len() - i,
    {
        r.push(a[i]);
        i = i + 1;
    }
    assert(a@ == a@.subrange(0, a@.len() as int));
    r
}

/// The path made of `parts[lo..hi]`.
fn slice_path(parts: &Vec<Vec<u8>>, lo: usize, hi: usize) -> (r: FsPath)
    requires
        lo <= hi <= parts@.len(),
    ensures
        r@ == parts@.map_values(|c: Vec<u8>| c@).subrange(lo as int, hi as int),
{
    let ghost whole = parts@.map_values(|c: Vec<u8>| c@);
    let mut out: Vec<Vec<u8>> = Vec::new();
    let mut i: usize = lo;
    while i < hi
        invariant
            lo <= i <= hi <= parts@.len(),
            whole == parts@.map_values(|c: Vec<u8>| c@),
            out@.map_values(|c: Vec<u8>| c@) == whole.subrange(lo as int, i as int),
        decreases hi - i,
    {
        let c = copy_name(&parts[i]);
        let ghost before = out@;
        out.push(c);
        assert(out@ == before.push(c));
        assert(out@.map_values(|c: Vec<u8>| c@) == before.map_values(|c: Vec<u8>| c@).push(c@));
        assert(whole.subrange(lo as int, i + 1) == whole.subrange(lo as int, i as int).push(
            whole[i as int],
        ));
        i = i + 1;
    }
    FsPath { parts: out }
}

impl FsPath {
    /// The empty (relative) path.
    pub fn empty() -> (r: FsPath)
        ensures
            r@ == Seq::<Seq<u8>>::empty(),
    {
        let r = FsPath { parts: Vec::new() };
        assert(r@ =~= Seq::<Seq<u8>>::empty());
        r
    }

    /// Number of components.
    pub fn depth(&self) -> (r: usize)
        ensures
            r == self@.len(),
    {
        self.parts.len()
    }

    /// A copy of this path.
    pub fn duplicate(&self) -> (r: FsPath)
        ensures
            r@ == self@,
    {
        let r = slice_path(&self.parts, 0, self.parts.len());
        assert(self@.subrange(0, self@.len() as int) == self@);
        r
    }

    /// Component-wise equality.
    pub fn same_as(&self, other: &FsPath) -> (r: bool)
        ensures
            r == (self@ == other@),
    {
        if self.parts.len() != other.parts.len() {
            return false;
        }
        let mut i: usize = 0;
        while i < self.parts.len()
            invariant
                self@.len() == other@.len(),
                i <= self@.len(),
                self@.subrange(0, i as int) == other@.subrange(0, i as int),
            decreases self@.len() - i,
        {
            if !bytes_equal(&self.parts[i], &other.parts[i]) {
                assert(self@[i as int] != other@[i as int]);
                return false;
            }
            assert(self@.subrange(0, i + 1) == self@.subrange(0, i as int).push(self@[i as int]));
            assert(other@.subrange(0, i + 1) == other@.subrange(0, i as int).push(
                other@[i as int],
            ));
            i = i + 1;
        }
        assert(self@ == self@.subrange(0, self@.len() as int));
        assert(other@ == other@.subrange(0, other@.len() as int));
        true
    }

    /// Whether `root` is a component-wise prefix of this path.
    pub fn starts_with(&self, root: &FsPath) -> (r: bool)
        ensures
            r == is_prefix(root@, self@),
    {
        if root.parts.len() > self.parts.len() {
            return false;
        }
        let mut i: usize = 0;
        while i < root.parts.len()
            invariant
                root@.len() <= self@.len(),
                i <= root@.len(),
                self@.subrange(0, i as int) == root@.subrange(0, i as int),
            decreases root@.len() - i,
        {
            if !bytes_equal(&self.parts[i], &root.parts[i]) {
                assert(self@.subrange(0, root@.len() as int)[i as int] != root@[i as int]);
                return false;
            }
            assert(self@.subrange(0, i + 1) == self@.subrange(0, i as int).push(self@[i as int]));
            assert(root@.subrange(0, i + 1) == root@.subrange(0, i as int).push(root@[i as int]));
            i = i + 1;
        }
        assert(root@ == root@.subrange(0, root@.len() as int));
        true
    }

    /// The path relative to `root`, if `root` is a prefix of it.
    pub fn strip_prefix(&self, root: &FsPath) -> (r: Option<FsPath>)
        ensures
            r.is_some() == is_prefix(root@, self@),
            r.is_some() ==> r.unwrap()@ == self@.subrange(root@.len() as int, self@.len() as int),
    {
        if self.starts_with(root) {
            Some(slice_path(&self.parts, root.parts.len(), self.parts.len()))
        } else {
            None
        }
    }

    /// The path relative to `root`, or the whole path where it lies outside `root`.
    pub fn relative_to(&self, root: &FsPath) -> (r: FsPath)
        ensures
            r@ == relative(self@, root@),
    {
        match self.strip_prefix(root) {
            Some(rel) => rel,
            None => self.duplicate(),
        }
    }

    /// The parent path; the empty path for a path of at most one component.
    pub fn parent(&self) -> (r: FsPath)
        ensures
            r@ == parent(self@),
    {
        if self.parts.len() == 0 {
            FsPath::empty()
        } else {
            let r = slice_path(&self.parts, 0, self.parts.len() - 1);
            assert(r@ =~= self@.drop_last());
            r
        }
    }

    /// The last component, if any.
    pub fn file_name(&self) -> (r: Option<Vec<u8>>)
        ensures
            r.is_some() == (self@.len() > 0),
            r.is_some() ==> r.unwrap()@ == self@.last(),
    {
        if self.parts.len() == 0 {
            None
        } else {
            Some(copy_name(&self.parts[self.parts.len() - 1]))
        }
    }

    /// This path extended by one component.
    pub fn child(&self, name: &Vec<u8>) -> (r: FsPath)
        ensures
            r@ == self@.push(name@),
    {
        let mut out = self.duplicate();
        let c = copy_name(name);
        let ghost before = out.parts@;
        out.parts.push(c);
        assert(out.parts@ == before.push(c));
        assert(out@ == before.map_values(|c: Vec<u8>| c@).push(c@));
        out
    }

    /// This path followed by the components of `rel`.
    pub fn join(&self, rel: &FsPath) -> (r: FsPath)
        ensures
            r@ == self@ + rel@,
    {
        let mut out = self.duplicate();
        let mut i: usize = 0;
        while i < rel.parts.len()
            invariant
                i <= rel@.len(),
                out@ == self@ + rel@.subrange(0, i as int),
            decreases rel@.len() - i,
        {
            let c = copy_name(&rel.parts[i]);
            let ghost before = out.parts@;
            out.parts.push(c);
            assert(out.parts@ == before.push(c));
            assert(out@ == before.map_values(|c: Vec<u8>| c@).push(c@));
            assert(rel@.subrange(0, i + 1) == rel@.subrange(0, i as int).push(rel@[i as int]));
            i = i + 1;
        }
        assert(rel@ == rel@.subrange(0, rel@.len() as int));
        out
    }
}

/// The target directory that mirrors source directory `dir`.
pub fn target_dir_for_dir(dir: &FsPath, source_root: &FsPath, target_root: &FsPath) -> (r: FsPath)
    ensures
        r@ == target_of_dir(dir@, source_root@, target_root@),
{
    target_root.join(&dir.relative_to(source_root))
}

/// The target directory that receives source file `file`.
pub fn target_dir_for_file(file: &FsPath, source_root: &FsPath, target_root: &FsPath) -> (r: FsPath)
    ensures
        r@ == target_dir_of_file(file@, source_root@, target_root@),
{
    target_root.join(&file.relative_to(source_root).parent())
}

/// The path at which source file `file` is written in the target tree.
pub fn target_path_for_file(file: &FsPath, source_root: &FsPath, target_root: &FsPath) -> (r:
    FsPath)
    ensures
        r@ == target_of_file(file@, source_root@, target_root@),
{
    let dir = target_dir_for_file(file, source_root, target_root);
    match file.file_name() {
        Some(name) => {
            let mut parts: Vec<Vec<u8>> = Vec::new();
            parts.push(name);
            let leaf = FsPath { parts };
            assert(leaf@ =~= base_name(file@));
            dir.join(&leaf)
        },
        None => {
            assert(base_name(file@) =~= Seq::<Seq<u8>>::empty());
            assert(dir@ + base_name(file@) =~= dir@);
            dir
        },
    }
}

/// A file strictly inside the source root lands at the target root joined with its
/// relative path.
pub proof fn lemma_file_lands_at_relative_path(
    file: Seq<Seq<u8>>,
    src: Seq<Seq<u8>>,
    dst: Seq<Seq<u8>>,
)
    requires
        is_prefix(src, file),
        src.len() < file.len(),
    ensures
        target_of_file(file, src, dst) == dst + file.subrange(src.len() as int, file.len() as int),
{
    let rel = file.subrange(src.len() as int, file.len() as int);
    assert(rel.drop_last() + seq![file.last()] =~= rel);
    assert(dst + rel.drop_last() + seq![file.last()] =~= dst + rel);
}

/// Distinct files inside the source root land at distinct target paths.
pub proof fn lemma_target_injective(
    a: Seq<Seq<u8>>,
    b: Seq<Seq<u8>>,
    src: Seq<Seq<u8>>,
    dst: Seq<Seq<u8>>,
)
    requires
        is_prefix(src, a),
        is_prefix(src, b),
        src.len() < a.len(),
        src.len() < b.len(),
        a != b,
    ensures
        target_of_file(a, src, dst) != target_of_file(b, src, dst),
{
    lemma_file_lands_at_relative_path(a, src, dst);
    lemma_file_lands_at_relative_path(b, src, dst);
    let ra = a.subrange(src.len() as int, a.len() as int);
    let rb = b.subrange(src.len() as int, b.len() as int);
    if dst + ra == dst + rb {
        assert(ra =~= (dst + ra).subrange(dst.len() as int, (dst + ra).len() as int));
        assert(rb =~= (dst + rb).subrange(dst.len() as int, (dst + rb).len() as int));
        assert(a =~= src + ra);
        assert(b =~= src + rb);
    }
}

} // verus!
