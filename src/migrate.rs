//! Migration of one file: materialize it, make sure its target directory
//! exists, and copy it unless a file is already present at the target path.
//! The caller performs each requested action and reports the result.

use vstd::prelude::*;
use crate::path::{FsPath, target_dir_of_file, target_of_file, target_dir_for_file, target_path_for_file, target_of_dir, target_dir_for_dir, is_prefix, lemma_file_lands_at_relative_path, lemma_target_injective};
use crate::catalog::FileEntry;
use crate::stub::{FetchError, IoKind};

verus! {

/// How a file's migration ended when it did not fail.
#[derive(Clone, Copy, Debug, PartialEq, Eq, Structural)]
pub enum Outcome {
    Copied,
    SkippedAlreadyPresent,
}

/// Why a file's migration failed; other files are not affected.
#[derive(Clone, Copy, Debug, PartialEq, Eq, Structural)]
pub enum MigrationError {
    /// The file could not be materialized.
    Fetch(FetchError),
    /// Its target directory could not be created.
    CreateDirFailed(IoKind),
    /// Writing the copy failed.
    CopyFailed(IoKind),
}

/// Where one file's migration stands.
#[derive(Clone, Copy, Debug, PartialEq, Eq, Structural)]
pub enum MigrationPhase {
    Materializing,
    EnsuringDir,
    Probing,
    Copying,
    Done(Outcome),
    Failed(MigrationError),
}

/// What the caller reports back.
#[derive(Clone, Copy, Debug, PartialEq, Eq)]
pub enum MigrationEvent {
    /// The stub resolver finished.
    Materialized(Result<(), FetchError>),
    /// Creating the target directory (with its ancestors) finished.
    DirReady(Result<(), IoKind>),
    /// Whether a file exists at the exact target path.
    Probed { present: bool },
    /// The byte copy finished.
    CopyDone(Result<(), IoKind>),
}

/// What the caller does next.
#[derive(Clone, Copy, Debug, PartialEq, Eq)]
pub enum MigrationAction {
    /// Create the target directory and its missing ancestors.
    EnsureDir,
    /// Check whether the target path exists.
    Probe,
    /// Copy the source file to the target path.
    Copy,
    /// The migration of this file is over.
    Finish(Result<Outcome, MigrationError>),
    /// The event does not apply in the current phase and changed nothing.
    Ignore,
}

/// One file's migration.
#[derive(Clone, Copy, Debug, PartialEq, Eq, Structural)]
pub struct Migration {
    pub phase: MigrationPhase,
}

/// One transition of the per-file protocol.
pub open spec fn migration_step(m: Migration, e: MigrationEvent) -> (Migration, MigrationAction) {
    match (m.phase, e) {
        (MigrationPhase::Materializing, MigrationEvent::Materialized(r)) => match r {
            Ok(()) => (Migration { phase: MigrationPhase::EnsuringDir }, MigrationAction::EnsureDir),
            Err(f) => (
                Migration { phase: MigrationPhase::Failed(MigrationError::Fetch(f)) },
                MigrationAction::Finish(Err(MigrationError::Fetch(f))),
            ),
        },
        (MigrationPhase::EnsuringDir, MigrationEvent::DirReady(r)) => match r {
            Err(k) => if k == IoKind::AlreadyExists {
                (Migration { phase: MigrationPhase::Probing }, MigrationAction::Probe)
            } else {
                (
                    Migration { phase: MigrationPhase::Failed(MigrationError::CreateDirFailed(k)) },
                    MigrationAction::Finish(Err(MigrationError::CreateDirFailed(k))),
                )
            },
            Ok(()) => (Migration { phase: MigrationPhase::Probing }, MigrationAction::Probe),
        },
        (MigrationPhase::Probing, MigrationEvent::Probed { present }) => if present {
            (
                Migration { phase: MigrationPhase::Done(Outcome::SkippedAlreadyPresent) },
                MigrationAction::Finish(Ok(Outcome::SkippedAlreadyPresent)),
            )
        } else {
            (Migration { phase: MigrationPhase::Copying }, MigrationAction::Copy)
        },
        (MigrationPhase::Copying, MigrationEvent::CopyDone(r)) => match r {
            Ok(()) => (
                Migration { phase: MigrationPhase::Done(Outcome::Copied) },
                MigrationAction::Finish(Ok(Outcome::Copied)),
            ),
            Err(k) => (
                Migration { phase: MigrationPhase::Failed(MigrationError::CopyFailed(k)) },
                MigrationAction::Finish(Err(MigrationError::CopyFailed(k))),
            ),
        },
        _ => (m, MigrationAction::Ignore),
    }
}

impl Migration {
    /// A migration that waits for its file to be materialized.
    pub fn new() -> (r: Migration)
        ensures
            r == (Migration { phase: MigrationPhase::Materializing }),
    {
        Migration { phase: MigrationPhase::Materializing }
    }

    /// Applies one event and returns the action the caller takes next.
    pub fn handle(&mut self, e: MigrationEvent) -> (r: MigrationAction)
        ensures
            (*final(self), r) == migration_step(*old(self), e),
    {
        match (self.phase, e) {
            (MigrationPhase::Materializing, MigrationEvent::Materialized(r)) => match r {
                Ok(()) => {
                    self.phase = MigrationPhase::EnsuringDir;
                    MigrationAction::EnsureDir
                },
                Err(f) => {
                    self.phase = MigrationPhase::Failed(MigrationError::Fetch(f));
                    MigrationAction::Finish(Err(MigrationError::Fetch(f)))
                },
            },
            (MigrationPhase::EnsuringDir, MigrationEvent::DirReady(r)) => match r {
                Err(k) => {
                    if k == IoKind::AlreadyExists {
                        self.phase = MigrationPhase::Probing;
                        MigrationAction::Probe
                    } else {
                        self.phase = MigrationPhase::Failed(MigrationError::CreateDirFailed(k));
                        MigrationAction::Finish(Err(MigrationError::CreateDirFailed(k)))
                    }
                },
                Ok(()) => {
                    self.phase = MigrationPhase::Probing;
                    MigrationAction::Probe
                },
            },
            (MigrationPhase::Probing, MigrationEvent::Probed { present }) => {
                if present {
                    self.phase = MigrationPhase::Done(Outcome::SkippedAlreadyPresent);
                    MigrationAction::Finish(Ok(Outcome::SkippedAlreadyPresent))
                } else {
                    self.phase = MigrationPhase::Copying;
                    MigrationAction::Copy
                }
            },
            (MigrationPhase::Copying, MigrationEvent::CopyDone(r)) => match r {
                Ok(()) => {
                    self.phase = MigrationPhase::Done(Outcome::Copied);
                    MigrationAction::Finish(Ok(Outcome::Copied))
                },
                Err(k) => {
                    self.phase = MigrationPhase::Failed(MigrationError::CopyFailed(k));
                    MigrationAction::Finish(Err(MigrationError::CopyFailed(k)))
                },
            },
            _ => MigrationAction::Ignore,
        }
    }
}

/// Where one file goes: the directory to create and the exact path to write.
pub struct MigrationPlan {
    pub target_dir: FsPath,
    pub target_file: FsPath,
}

/// The target locations of `entry`, rebased from `source_root` onto `target_root`.
pub fn plan_for(entry: &FileEntry, source_root: &FsPath, target_root: &FsPath) -> (r:
    MigrationPlan)
    ensures
        r.target_dir@ == target_dir_of_file(entry.path@, source_root@, target_root@),
        r.target_file@ == target_of_file(entry.path@, source_root@, target_root@),
{
    MigrationPlan {
        target_dir: target_dir_for_file(&entry.path, source_root, target_root),
        target_file: target_path_for_file(&entry.path, source_root, target_root),
    }
}

/// Where a source directory is mirrored under `target_root`.
pub fn mirror_dir(dir: &FsPath, source_root: &FsPath, target_root: &FsPath) -> (r: FsPath)
    ensures
        r@ == target_of_dir(dir@, source_root@, target_root@),
{
    target_dir_for_dir(dir, source_root, target_root)
}

/// The action that ends a file's migration when its directory and its copy
/// succeed, given what materializing it gave.
pub open spec fn final_action(fetched: Result<(), FetchError>, present: bool) -> MigrationAction {
    match fetched {
        Err(f) => MigrationAction::Finish(Err(MigrationError::Fetch(f))),
        Ok(()) => if present {
            MigrationAction::Finish(Ok(Outcome::SkippedAlreadyPresent))
        } else {
            MigrationAction::Finish(Ok(Outcome::Copied))
        },
    }
}

/// One file migrated into a target tree (a map from path to content) by the
/// protocol, where creating directories and copying succeed: the new tree and
/// the final action. The tree changes only where the protocol asks for `Copy`.
pub open spec fn migrate_one(
    tree: Map<Seq<Seq<u8>>, Seq<u8>>,
    target: Seq<Seq<u8>>,
    content: Seq<u8>,
    fetched: Result<(), FetchError>,
) -> (Map<Seq<Seq<u8>>, Seq<u8>>, MigrationAction) {
    let s1 = migration_step(
        Migration { phase: MigrationPhase::Materializing },
        MigrationEvent::Materialized(fetched),
    );
    let s2 = migration_step(s1.0, MigrationEvent::DirReady(Ok(())));
    let s3 = migration_step(s2.0, MigrationEvent::Probed { present: tree.contains_key(target) });
    if s1.1 != MigrationAction::EnsureDir {
        (tree, s1.1)
    } else if s3.1 == MigrationAction::Copy {
        (tree.insert(target, content), migration_step(s3.0, MigrationEvent::CopyDone(Ok(()))).1)
    } else {
        (tree, s3.1)
    }
}

/// A whole run: each item (target path, content, materialization result)
/// migrated in turn; the final tree and each item's final action.
pub open spec fn migrate_all(
    tree: Map<Seq<Seq<u8>>, Seq<u8>>,
    items: Seq<(Seq<Seq<u8>>, Seq<u8>, Result<(), FetchError>)>,
) -> (Map<Seq<Seq<u8>>, Seq<u8>>, Seq<MigrationAction>)
    decreases items.len(),
{
    if items.len() == 0 {
        (tree, Seq::empty())
    } else {
        let prev = migrate_all(tree, items.drop_last());
        let one = migrate_one(prev.0, items.last().0, items.last().1, items.last().2);
        (one.0, prev.1.push(one.1))
    }
}

/// Some item targets `k`.
pub open spec fn targets(items: Seq<(Seq<Seq<u8>>, Seq<u8>, Result<(), FetchError>)>, k: Seq<Seq<u8>>) -> bool {
    exists|i: int| 0 <= i < items.len() && items[i].0 == k
}

/// One file's migration changes nothing already in the tree, and ends with
/// `final_action`.
pub proof fn lemma_migrate_one(
    tree: Map<Seq<Seq<u8>>, Seq<u8>>,
    target: Seq<Seq<u8>>,
    content: Seq<u8>,
    fetched: Result<(), FetchError>,
)
    ensures
        migrate_one(tree, target, content, fetched).1 == final_action(fetched, tree.contains_key(target)),
        fetched.is_err() || tree.contains_key(target) ==> migrate_one(tree, target, content, fetched).0 == tree,
        fetched.is_ok() && !tree.contains_key(target) ==> migrate_one(tree, target, content, fetched).0 == tree.insert(target, content),
{
}

/// A run never alters a file already in the tree, only adds files at targets
/// of its items, and leaves a file at the target of every materialized item.
pub proof fn lemma_run_adds_only(
    tree: Map<Seq<Seq<u8>>, Seq<u8>>,
    items: Seq<(Seq<Seq<u8>>, Seq<u8>, Result<(), FetchError>)>,
)
    ensures
        forall|k: Seq<Seq<u8>>| tree.contains_key(k) ==> #[trigger] migrate_all(tree, items).0.contains_key(k)
            && migrate_all(tree, items).0[k] == tree[k],
        forall|k: Seq<Seq<u8>>| #[trigger] migrate_all(tree, items).0.contains_key(k) ==> tree.contains_key(k) || targets(items, k),
        forall|i: int| 0 <= i < items.len() && (#[trigger] items[i]).2.is_ok() ==> migrate_all(tree, items).0.contains_key(items[i].0),
        migrate_all(tree, items).1.len() == items.len(),
    decreases items.len(),
{
    if items.len() > 0 {
        let init = items.drop_last();
        lemma_run_adds_only(tree, init);
        let prev = migrate_all(tree, init);
        let last = items.last();
        lemma_migrate_one(prev.0, last.0, last.1, last.2);
        let r = migrate_all(tree, items);
        assert forall|k: Seq<Seq<u8>>| #[trigger] r.0.contains_key(k) implies tree.contains_key(k) || targets(items, k) by {
            if k != last.0 {
                assert(prev.0.contains_key(k));
                if !tree.contains_key(k) {
                    let i = choose|i: int| 0 <= i < init.len() && init[i].0 == k;
                    assert(items[i] == init[i]);
                }
            } else {
                assert(items[items.len() - 1].0 == k);
            }
        }
        assert forall|i: int| 0 <= i < items.len() && (#[trigger] items[i]).2.is_ok() implies r.0.contains_key(items[i].0) by {
            if i < init.len() {
                assert(init[i] == items[i]);
            }
        }
    }
}

/// A run over a tree that already holds a file at the target of every
/// materialized item writes nothing, and reports each such item as skipped.
pub proof fn lemma_run_on_complete_tree(
    tree: Map<Seq<Seq<u8>>, Seq<u8>>,
    items: Seq<(Seq<Seq<u8>>, Seq<u8>, Result<(), FetchError>)>,
)
    requires
        forall|i: int| 0 <= i < items.len() && (#[trigger] items[i]).2.is_ok() ==> tree.contains_key(items[i].0),
    ensures
        migrate_all(tree, items).0 == tree,
        migrate_all(tree, items).1.len() == items.len(),
        forall|i: int| 0 <= i < items.len() ==> #[trigger] migrate_all(tree, items).1[i] == final_action(items[i].2, true),
    decreases items.len(),
{
    if items.len() > 0 {
        let init = items.drop_last();
        assert forall|i: int| 0 <= i < init.len() && (#[trigger] init[i]).2.is_ok() implies tree.contains_key(init[i].0) by {
            assert(init[i] == items[i]);
        }
        lemma_run_on_complete_tree(tree, init);
        let last = items.last();
        assert(items[items.len() - 1] == last);
        lemma_migrate_one(tree, last.0, last.1, last.2);
        let r = migrate_all(tree, items);
        assert forall|i: int| 0 <= i < items.len() implies #[trigger] r.1[i] == final_action(items[i].2, true) by {
            if i < init.len() {
                assert(init[i] == items[i]);
            }
        }
    }
}

/// Running the same migration twice: the second run leaves the target tree
/// exactly as the first left it, writes nothing, and reports every
/// materialized file as already present.
pub proof fn lemma_migration_idempotent(
    tree: Map<Seq<Seq<u8>>, Seq<u8>>,
    items: Seq<(Seq<Seq<u8>>, Seq<u8>, Result<(), FetchError>)>,
)
    ensures
        migrate_all(migrate_all(tree, items).0, items).0 == migrate_all(tree, items).0,
        forall|i: int|
            0 <= i < items.len() && (#[trigger] items[i]).2.is_ok() ==> migrate_all(
                migrate_all(tree, items).0,
                items,
            ).1[i] == MigrationAction::Finish(Ok(Outcome::SkippedAlreadyPresent)),
{
    lemma_run_adds_only(tree, items);
    lemma_run_on_complete_tree(migrate_all(tree, items).0, items);
}

/// Where no two items share a target and no target exists beforehand, every
/// materialized item is copied and its target holds its content after the run,
/// whatever happened to the other items; an item that could not be
/// materialized fails alone.
pub proof fn lemma_fresh_targets_receive_content(
    tree: Map<Seq<Seq<u8>>, Seq<u8>>,
    items: Seq<(Seq<Seq<u8>>, Seq<u8>, Result<(), FetchError>)>,
)
    requires
        forall|i: int, j: int| 0 <= i < j < items.len() ==> items[i].0 != items[j].0,
        forall|i: int| 0 <= i < items.len() ==> !tree.contains_key(#[trigger] items[i].0),
    ensures
        migrate_all(tree, items).1.len() == items.len(),
        forall|i: int|
            0 <= i < items.len() ==> #[trigger] migrate_all(tree, items).1[i] == final_action(items[i].2, false),
        forall|i: int|
            0 <= i < items.len() && (#[trigger] items[i]).2.is_ok() ==> migrate_all(tree, items).0.contains_key(items[i].0)
                && migrate_all(tree, items).0[items[i].0] == items[i].1,
    decreases items.len(),
{
    lemma_run_adds_only(tree, items);
    if items.len() > 0 {
        let init = items.drop_last();
        assert forall|i: int, j: int| 0 <= i < j < init.len() implies init[i].0 != init[j].0 by {
            assert(init[i] == items[i]);
            assert(init[j] == items[j]);
        }
        assert forall|i: int| 0 <= i < init.len() implies !tree.contains_key(#[trigger] init[i].0) by {
            assert(init[i] == items[i]);
        }
        lemma_fresh_targets_receive_content(tree, init);
        lemma_run_adds_only(tree, init);
        let prev = migrate_all(tree, init);
        let n = items.len() - 1;
        let last = items.last();
        assert(items[n] == last);
        assert(!prev.0.contains_key(last.0)) by {
            if prev.0.contains_key(last.0) {
                assert(!tree.contains_key(items[n].0));
                let i = choose|i: int| 0 <= i < init.len() && init[i].0 == last.0;
                assert(init[i] == items[i]);
            }
        }
        lemma_migrate_one(prev.0, last.0, last.1, last.2);
        let r = migrate_all(tree, items);
        assert forall|i: int| 0 <= i < items.len() implies #[trigger] r.1[i] == final_action(items[i].2, false) by {
            if i < init.len() {
                assert(init[i] == items[i]);
            }
        }
        assert forall|i: int| 0 <= i < items.len() && (#[trigger] items[i]).2.is_ok() implies r.0.contains_key(items[i].0)
            && r.0[items[i].0] == items[i].1 by {
            if i < init.len() {
                assert(init[i] == items[i]);
                assert(items[i].0 != items[n].0);
            }
        }
    }
}

/// The run items for source files (path, content) that all materialized:
/// each goes to its mapped target path.
pub open spec fn items_for(
    files: Seq<(Seq<Seq<u8>>, Seq<u8>)>,
    src: Seq<Seq<u8>>,
    dst: Seq<Seq<u8>>,
) -> Seq<(Seq<Seq<u8>>, Seq<u8>, Result<(), FetchError>)> {
    Seq::new(files.len(), |i: int| (target_of_file(files[i].0, src, dst), files[i].1, Ok(())))
}

/// The folder structure is preserved: after a run over distinct source files
/// inside the source root, none of whose targets existed, each file at relative
/// path `R` has been copied to the target root joined with `R`, with the same content.
pub proof fn lemma_structure_preserved(
    tree: Map<Seq<Seq<u8>>, Seq<u8>>,
    files: Seq<(Seq<Seq<u8>>, Seq<u8>)>,
    src: Seq<Seq<u8>>,
    dst: Seq<Seq<u8>>,
)
    requires
        forall|i: int|
            0 <= i < files.len() ==> is_prefix(src, #[trigger] files[i].0) && src.len() < files[i].0.len(),
        forall|i: int, j: int| 0 <= i < j < files.len() ==> files[i].0 != files[j].0,
        forall|i: int|
            0 <= i < files.len() ==> !tree.contains_key(
                dst + (#[trigger] files[i].0).subrange(src.len() as int, files[i].0.len() as int),
            ),
    ensures
        forall|i: int|
            0 <= i < files.len() ==> {
                let rel = (#[trigger] files[i].0).subrange(src.len() as int, files[i].0.len() as int);
                &&& migrate_all(tree, items_for(files, src, dst)).0.contains_key(dst + rel)
                &&& migrate_all(tree, items_for(files, src, dst)).0[dst + rel] == files[i].1
                &&& migrate_all(tree, items_for(files, src, dst)).1[i] == MigrationAction::Finish(
                    Ok(Outcome::Copied),
                )
            },
{
    let items = items_for(files, src, dst);
    assert forall|i: int| 0 <= i < items.len() implies items[i].0 == dst + files[i].0.subrange(
        src.len() as int,
        files[i].0.len() as int,
    ) by {
        lemma_file_lands_at_relative_path(files[i].0, src, dst);
    }
    assert forall|i: int, j: int| 0 <= i < j < items.len() implies items[i].0 != items[j].0 by {
        lemma_target_injective(files[i].0, files[j].0, src, dst);
    }
    assert forall|i: int| 0 <= i < items.len() implies !tree.contains_key(#[trigger] items[i].0) by {
        assert(!tree.contains_key(dst + files[i].0.subrange(src.len() as int, files[i].0.len() as int)));
    }
    lemma_fresh_targets_receive_content(tree, items);
    assert forall|i: int| 0 <= i < files.len() implies {
        let rel = (#[trigger] files[i].0).subrange(src.len() as int, files[i].0.len() as int);
        &&& migrate_all(tree, items).0.contains_key(dst + rel)
        &&& migrate_all(tree, items).0[dst + rel] == files[i].1
        &&& migrate_all(tree, items).1[i] == MigrationAction::Finish(Ok(Outcome::Copied))
    } by {
        assert(items[i].2.is_ok());
        assert(migrate_all(tree, items).1[i] == final_action(items[i].2, false));
    }
}

} // verus!
