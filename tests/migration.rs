use cloud_migrate::catalog::{classify, finalize, gather, Branch, Catalog, Child, ChildKind, FileEntry};
use cloud_migrate::migrate::{mirror_dir, plan_for, Migration, MigrationAction, MigrationError, MigrationEvent, MigrationPhase, Outcome};
use cloud_migrate::path::{target_dir_for_dir, target_dir_for_file, target_path_for_file, FsPath};
use cloud_migrate::stub::{transient, FetchAction, FetchError, FetchEvent, IoKind, Phase, StubFetch, MAX_OPEN_ATTEMPTS, RETRY_DELAY_SECS};

fn p(s: &str) -> FsPath {
    FsPath { parts: s.split('/').filter(|c| !c.is_empty()).map(|c| c.as_bytes().to_vec()).collect() }
}

fn show(path: &FsPath) -> String {
    let names: Vec<String> = path.parts.iter().map(|c| String::from_utf8(c.clone()).unwrap()).collect();
    format!("/{}", names.join("/"))
}

fn entry(path: &str, size: u64) -> FileEntry {
    FileEntry { path: p(path), size }
}

fn empty_catalog() -> Catalog {
    Catalog { files: vec![], dirs: vec![] }
}

#[test]
fn relative_mapping_rebases_on_roots() {
    let src = p("/src");
    let dst = p("/dst");
    assert_eq!(show(&p("/src/a/b").relative_to(&src)), "/a/b");
    assert_eq!(show(&target_dir_for_dir(&p("/src/a/b"), &src, &dst)), "/dst/a/b");
    assert_eq!(show(&target_dir_for_file(&p("/src/a/f.txt"), &src, &dst)), "/dst/a");
    assert_eq!(show(&target_path_for_file(&p("/src/a/f.txt"), &src, &dst)), "/dst/a/f.txt");
    assert_eq!(show(&mirror_dir(&src, &src, &dst)), "/dst");
}

#[test]
fn path_outside_root_maps_to_itself() {
    let src = p("/src");
    let dst = p("/dst");
    assert!(p("/other/x").strip_prefix(&src).is_none());
    assert_eq!(show(&p("/other/x").relative_to(&src)), "/other/x");
    assert_eq!(show(&target_path_for_file(&p("/other/x"), &src, &dst)), "/dst/other/x");
    // a shared leading name is not a prefix: components are compared whole
    assert!(p("/srcx/a").strip_prefix(&src).is_none());
}

#[test]
fn path_helpers() {
    assert_eq!(p("/a/b").parent().depth(), 1);
    assert_eq!(FsPath::empty().parent().depth(), 0);
    assert_eq!(p("/a/b").file_name(), Some(b"b".to_vec()));
    assert_eq!(FsPath::empty().file_name(), None);
    assert!(p("/a/b").same_as(&p("/a/b")));
    assert!(!p("/a/b").same_as(&p("/a/c")));
    assert_eq!(show(&p("/a").join(&p("/b/c"))), "/a/b/c");
    assert_eq!(show(&p("/a").child(&b"z".to_vec())), "/a/z");
}

#[test]
fn classify_sorts_children_by_kind() {
    let children = vec![
        Child { name: b"f1".to_vec(), kind: ChildKind::File, size: Some(7) },
        Child { name: b"d1".to_vec(), kind: ChildKind::Directory, size: None },
        Child { name: b"link".to_vec(), kind: ChildKind::Other, size: None },
        Child { name: b"f2".to_vec(), kind: ChildKind::File, size: None },
    ];
    let l = classify(&p("/src"), &children);
    assert_eq!(l.files.len(), 2);
    assert_eq!(show(&l.files[0].path), "/src/f1");
    assert_eq!(l.files[0].size, 7);
    assert_eq!(show(&l.files[1].path), "/src/f2");
    assert_eq!(l.files[1].size, 0);
    assert_eq!(l.subdirs.len(), 1);
    assert_eq!(show(&l.subdirs[0]), "/src/d1");
    assert_eq!(l.skipped.len(), 1);
    assert_eq!(show(&l.skipped[0]), "/src/link");
}

#[test]
fn larger_file_comes_first() {
    let cat = Catalog { files: vec![entry("/src/b.bin", 1_000_000), entry("/src/a.bin", 10_000_000)], dirs: vec![] };
    let r = finalize(&cat);
    assert_eq!(r.files.len(), 2);
    assert_eq!(show(&r.files[0].path), "/src/a.bin");
    assert_eq!(show(&r.files[1].path), "/src/b.bin");
}

#[test]
fn ascending_input_is_reversed() {
    let cat = Catalog {
        files: vec![entry("/s/1", 1), entry("/s/2", 2), entry("/s/3", 3), entry("/s/4", 4)],
        dirs: vec![],
    };
    let r = finalize(&cat);
    let sizes: Vec<u64> = r.files.iter().map(|e| e.size).collect();
    assert_eq!(sizes, vec![4, 3, 2, 1]);
}

#[test]
fn equal_sizes_keep_gathered_order() {
    let cat = Catalog { files: vec![entry("/s/x", 5), entry("/s/y", 9), entry("/s/z", 5)], dirs: vec![] };
    let r = finalize(&cat);
    let names: Vec<String> = r.files.iter().map(|e| show(&e.path)).collect();
    assert_eq!(names, vec!["/s/y", "/s/x", "/s/z"]);
}

#[test]
fn duplicates_are_removed_first_kept() {
    let own = vec![entry("/src/f", 3)];
    let b1 = Branch {
        dir: p("/src/a"),
        catalog: Catalog { files: vec![entry("/src/a/g", 8), entry("/src/f", 99)], dirs: vec![p("/src/a/x")] },
    };
    let b2 = Branch {
        dir: p("/src/a"),
        catalog: Catalog { files: vec![entry("/src/a/g", 8)], dirs: vec![p("/src/a/x"), p("/src/a/y")] },
    };
    let g = gather(own, &vec![b1, b2]);
    assert_eq!(g.files.len(), 4);
    assert_eq!(g.dirs.len(), 5);
    let r = finalize(&g);
    assert_eq!(r.files.len(), 2);
    assert_eq!(show(&r.files[0].path), "/src/a/g");
    assert_eq!(show(&r.files[1].path), "/src/f");
    assert_eq!(r.files[1].size, 3);
    let dirs: Vec<String> = r.dirs.iter().map(show).collect();
    assert_eq!(dirs, vec!["/src/a", "/src/a/x", "/src/a/y"]);
}

#[test]
fn empty_catalog_stays_empty() {
    let r = finalize(&empty_catalog());
    assert!(r.files.is_empty());
    assert!(r.dirs.is_empty());
}

#[test]
fn unreadable_subtree_leaves_other_files() {
    // nine readable files spread over the root and two subdirectories; the
    // third subdirectory could not be read, so it contributes no branch
    let own: Vec<FileEntry> = (0..3).map(|i| entry(&format!("/src/r{}", i), i + 1)).collect();
    let b1 = Branch {
        dir: p("/src/a"),
        catalog: Catalog { files: (0..3).map(|i| entry(&format!("/src/a/f{}", i), 10 + i)).collect(), dirs: vec![] },
    };
    let b2 = Branch {
        dir: p("/src/b"),
        catalog: Catalog { files: (0..3).map(|i| entry(&format!("/src/b/f{}", i), 20 + i)).collect(), dirs: vec![] },
    };
    let r = finalize(&gather(own, &vec![b1, b2]));
    assert_eq!(r.files.len(), 9);
    assert_eq!(r.dirs.len(), 2);
    let src = p("/src");
    let dst = p("/dst");
    for f in &r.files {
        let mut m = Migration::new();
        assert_eq!(m.handle(MigrationEvent::Materialized(Ok(()))), MigrationAction::EnsureDir);
        assert_eq!(m.handle(MigrationEvent::DirReady(Ok(()))), MigrationAction::Probe);
        assert_eq!(m.handle(MigrationEvent::Probed { present: false }), MigrationAction::Copy);
        assert_eq!(m.handle(MigrationEvent::CopyDone(Ok(()))), MigrationAction::Finish(Ok(Outcome::Copied)));
        assert!(show(&plan_for(f, &src, &dst).target_file).starts_with("/dst/"));
    }
}

#[test]
fn transient_kinds() {
    assert!(transient(IoKind::PermissionDenied));
    assert!(transient(IoKind::WouldBlock));
    assert!(!transient(IoKind::NotFound));
    assert!(!transient(IoKind::Other));
}

#[test]
fn non_stub_needs_no_fetch() {
    let mut s = StubFetch::new();
    assert_eq!(s.handle(FetchEvent::Begin { size: 10 }), FetchAction::Finish);
    assert_eq!(s.attempts, 0);
    assert_eq!(s.outcome(), Some(Ok(())));
}

fn locked_run(kind: IoKind) -> (StubFetch, Vec<FetchAction>) {
    let mut s = StubFetch::new();
    let mut acts = vec![s.handle(FetchEvent::Begin { size: 0 })];
    loop {
        let a = *acts.last().unwrap();
        let ev = match a {
            FetchAction::Open => FetchEvent::OpenFailed { kind },
            FetchAction::Sleep { .. } => FetchEvent::BackoffElapsed,
            _ => break,
        };
        acts.push(s.handle(ev));
    }
    (s, acts)
}

#[test]
fn locked_stub_is_opened_five_times() {
    for kind in [IoKind::PermissionDenied, IoKind::WouldBlock] {
        let (s, acts) = locked_run(kind);
        let opens = acts.iter().filter(|a| **a == FetchAction::Open).count();
        let sleeps: Vec<&FetchAction> = acts.iter().filter(|a| matches!(a, FetchAction::Sleep { .. })).collect();
        assert_eq!(opens, 5);
        assert_eq!(opens, MAX_OPEN_ATTEMPTS as usize);
        assert_eq!(sleeps.len(), 4);
        assert!(sleeps.iter().all(|a| **a == FetchAction::Sleep { secs: 2 }));
        assert_eq!(RETRY_DELAY_SECS, 2);
        // each open after the first follows a sleep
        for w in acts.windows(2) {
            if w[1] == FetchAction::Open {
                assert_eq!(w[0], FetchAction::Sleep { secs: 2 });
            }
        }
        assert_eq!(*acts.last().unwrap(), FetchAction::Abort);
        assert_eq!(s.outcome(), Some(Err(FetchError::LockTimeout)));
    }
}

#[test]
fn hard_open_error_is_not_retried() {
    let mut s = StubFetch::new();
    assert_eq!(s.handle(FetchEvent::Begin { size: 0 }), FetchAction::Open);
    assert_eq!(s.handle(FetchEvent::OpenFailed { kind: IoKind::NotFound }), FetchAction::Abort);
    assert_eq!(s.attempts, 1);
    assert_eq!(s.phase, Phase::Failed(FetchError::Io(IoKind::NotFound)));
    assert_eq!(s.outcome(), Some(Err(FetchError::Io(IoKind::NotFound))));
}

#[test]
fn read_failure_mid_stream_is_not_retried() {
    let mut s = StubFetch::new();
    s.handle(FetchEvent::Begin { size: 0 });
    assert_eq!(s.handle(FetchEvent::Opened), FetchAction::Read);
    assert_eq!(s.handle(FetchEvent::Chunk { len: 100 }), FetchAction::Read);
    assert_eq!(s.handle(FetchEvent::ReadFailed { kind: IoKind::PermissionDenied }), FetchAction::Abort);
    assert_eq!(s.outcome(), Some(Err(FetchError::Io(IoKind::PermissionDenied))));
}

#[test]
fn progress_counts_bytes_and_saturates() {
    let mut s = StubFetch::new();
    s.handle(FetchEvent::Begin { size: 0 });
    s.handle(FetchEvent::Opened);
    s.handle(FetchEvent::Chunk { len: 8192 });
    s.handle(FetchEvent::Chunk { len: 8 });
    assert_eq!(s.received, 8200);
    assert_eq!(s.outcome(), None);
    s.received = u64::MAX - 1;
    s.handle(FetchEvent::Chunk { len: 5 });
    assert_eq!(s.received, u64::MAX);
}

#[test]
fn unexpected_event_is_ignored() {
    let mut s = StubFetch::new();
    assert_eq!(s.handle(FetchEvent::Opened), FetchAction::Ignore);
    assert_eq!(s, StubFetch::new());
    let mut m = Migration::new();
    assert_eq!(m.handle(MigrationEvent::Probed { present: true }), MigrationAction::Ignore);
    assert_eq!(m, Migration::new());
}

#[test]
fn example_big_file_and_stub() {
    let src = p("/src");
    let dst = p("/dst");
    let big = entry("/src/a/big.bin", 10 * 1024 * 1024);
    let stub = entry("/src/b/stub.bin", 0);
    assert!(!big.is_stub());
    assert!(stub.is_stub());

    let mut s = StubFetch::new();
    assert_eq!(s.handle(FetchEvent::Begin { size: big.size }), FetchAction::Finish);

    let mut s = StubFetch::new();
    let mut acts = vec![s.handle(FetchEvent::Begin { size: stub.size })];
    acts.push(s.handle(FetchEvent::OpenFailed { kind: IoKind::PermissionDenied }));
    acts.push(s.handle(FetchEvent::BackoffElapsed));
    acts.push(s.handle(FetchEvent::Opened));
    acts.push(s.handle(FetchEvent::Chunk { len: 4096 }));
    acts.push(s.handle(FetchEvent::Chunk { len: 0 }));
    assert_eq!(
        acts,
        vec![
            FetchAction::Open,
            FetchAction::Sleep { secs: 2 },
            FetchAction::Open,
            FetchAction::Read,
            FetchAction::Read,
            FetchAction::Finish
        ]
    );
    assert_eq!(s.attempts, 2);
    assert_eq!(s.received, 4096);
    assert_eq!(s.outcome(), Some(Ok(())));

    assert_eq!(show(&plan_for(&big, &src, &dst).target_file), "/dst/a/big.bin");
    assert_eq!(show(&plan_for(&big, &src, &dst).target_dir), "/dst/a");
    assert_eq!(show(&plan_for(&stub, &src, &dst).target_file), "/dst/b/stub.bin");
    for _ in 0..2 {
        let mut m = Migration::new();
        m.handle(MigrationEvent::Materialized(Ok(())));
        m.handle(MigrationEvent::DirReady(Ok(())));
        m.handle(MigrationEvent::Probed { present: false });
        assert_eq!(m.handle(MigrationEvent::CopyDone(Ok(()))), MigrationAction::Finish(Ok(Outcome::Copied)));
        assert_eq!(m.phase, MigrationPhase::Done(Outcome::Copied));
    }
}

#[test]
fn present_target_is_skipped() {
    let mut m = Migration::new();
    m.handle(MigrationEvent::Materialized(Ok(())));
    m.handle(MigrationEvent::DirReady(Ok(())));
    assert_eq!(
        m.handle(MigrationEvent::Probed { present: true }),
        MigrationAction::Finish(Ok(Outcome::SkippedAlreadyPresent))
    );
}

#[test]
fn directory_already_existing_is_success() {
    let mut m = Migration::new();
    m.handle(MigrationEvent::Materialized(Ok(())));
    assert_eq!(m.handle(MigrationEvent::DirReady(Err(IoKind::AlreadyExists))), MigrationAction::Probe);
}

#[test]
fn migration_errors() {
    let mut m = Migration::new();
    assert_eq!(
        m.handle(MigrationEvent::Materialized(Err(FetchError::LockTimeout))),
        MigrationAction::Finish(Err(MigrationError::Fetch(FetchError::LockTimeout)))
    );
    let mut m = Migration::new();
    m.handle(MigrationEvent::Materialized(Ok(())));
    assert_eq!(
        m.handle(MigrationEvent::DirReady(Err(IoKind::PermissionDenied))),
        MigrationAction::Finish(Err(MigrationError::CreateDirFailed(IoKind::PermissionDenied)))
    );
    let mut m = Migration::new();
    m.handle(MigrationEvent::Materialized(Ok(())));
    m.handle(MigrationEvent::DirReady(Ok(())));
    m.handle(MigrationEvent::Probed { present: false });
    assert_eq!(
        m.handle(MigrationEvent::CopyDone(Err(IoKind::Other))),
        MigrationAction::Finish(Err(MigrationError::CopyFailed(IoKind::Other)))
    );
}
