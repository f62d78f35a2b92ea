use keventdir::events::{poll_step, registration_applied, PollStep};
use keventdir::watcher::{chunk_count, chunk_span, FollowUp, Reconciled, Watcher, BATCH_CHUNK};
use keventdir::{Categories, EventKind, RawRecord, WatchPath};

/// Builds a path from a '/'-separated literal.
fn p(s: &str) -> WatchPath {
    let segs: Vec<Vec<u8>> = s
        .split('/')
        .filter(|seg| !seg.is_empty())
        .map(|seg| seg.as_bytes().to_vec())
        .collect();
    WatchPath::from_segments(segs)
}

fn cats(delete: bool, write: bool, extend: bool, link: bool, revoke: bool, rename: bool) -> Categories {
    Categories { delete, write, extend, link, revoke, rename }
}

fn rec(ident: i32, c: Categories) -> RawRecord {
    RawRecord { ident, error: false, error_data: 0, categories: c }
}

#[test]
fn rescan_roots_deduplicated() {
    let mut w = Watcher::new();
    assert!(w.add_recursive_rescan(p("/tmp")));
    assert!(!w.add_recursive_rescan(p("/tmp")));
    assert!(w.add_recursive_rescan(p("/var")));
    let roots = w.roots();
    assert_eq!(roots.len(), 2);
    assert!(roots[0].eq_path(&p("/tmp")));
    assert!(roots[1].eq_path(&p("/var")));
}

#[test]
fn add_twice_registers_one_handle() {
    let mut w = Watcher::new();
    assert!(w.add(p("/tmp/foo"), 3));
    assert!(!w.add(p("/tmp/foo"), 4));
    assert_eq!(w.len(), 1);
}

#[test]
fn recursive_add_then_recursive_remove_round_trips() {
    let mut w = Watcher::new();
    w.add(p("/var/log"), 1);
    // A walk of /tmp/root discovers the root and two descendants.
    assert!(w.add(p("/tmp/root"), 2));
    assert!(w.add(p("/tmp/root/a"), 3));
    assert!(w.add(p("/tmp/root/a/x"), 4));
    assert_eq!(w.len(), 4);
    let closed = w.remove_recursive(&p("/tmp/root"));
    assert_eq!(closed, vec![2, 3, 4]);
    // Same cardinality, same contents as before the walk.
    assert_eq!(w.len(), 1);
    assert!(w.contains(&p("/var/log")));
}

#[test]
fn delete_beats_write() {
    let mut w = Watcher::new();
    w.add(p("/d/x"), 5);
    let r = w.reconcile(rec(5, cats(true, true, false, false, false, false)));
    match r {
        Reconciled::Delivered(ev, closed, follow) => {
            assert_eq!(ev.kind, EventKind::Delete);
            assert!(ev.path.eq_path(&p("/d/x")));
            assert_eq!(closed, vec![5]);
            assert!(matches!(follow, FollowUp::Stay));
        }
        _ => panic!("expected a delivered event"),
    }
    assert!(!w.contains(&p("/d/x")));
    assert_eq!(w.len(), 0);
}

#[test]
fn classification_precedence_order() {
    let all = cats(true, true, true, true, true, true);
    assert_eq!(keventdir::events::classify(all), EventKind::Delete);
    assert_eq!(
        keventdir::events::classify(cats(false, true, true, true, true, true)),
        EventKind::Revoke
    );
    assert_eq!(
        keventdir::events::classify(cats(false, true, true, true, false, true)),
        EventKind::Rename
    );
    assert_eq!(
        keventdir::events::classify(cats(false, true, true, true, false, false)),
        EventKind::Link
    );
    assert_eq!(
        keventdir::events::classify(cats(false, true, true, false, false, false)),
        EventKind::Write
    );
    // The extend bit alone classifies as Other.
    assert_eq!(
        keventdir::events::classify(cats(false, false, true, false, false, false)),
        EventKind::Other
    );
    assert_eq!(
        keventdir::events::classify(cats(false, false, false, false, false, false)),
        EventKind::Other
    );
}

#[test]
fn revoke_drops_the_subtree() {
    let mut w = Watcher::new();
    w.add(p("/r"), 1);
    w.add(p("/r/a"), 2);
    w.add(p("/r/a/x"), 3);
    w.add(p("/other"), 9);
    let r = w.reconcile(rec(2, cats(false, false, false, false, true, false)));
    match r {
        Reconciled::Delivered(ev, closed, follow) => {
            assert_eq!(ev.kind, EventKind::Revoke);
            assert!(ev.path.eq_path(&p("/r/a")));
            assert_eq!(closed, vec![2, 3]);
            assert!(matches!(follow, FollowUp::Stay));
        }
        _ => panic!("expected a delivered event"),
    }
    assert_eq!(w.len(), 2);
    assert!(w.contains(&p("/r")));
    assert!(w.contains(&p("/other")));
}

#[test]
fn rename_reconciliation_rescans_the_roots() {
    let mut w = Watcher::new();
    w.add_recursive_rescan(p("/r"));
    w.add(p("/r"), 1);
    w.add(p("/r/a"), 2);
    w.add(p("/r/a/x"), 3);
    let r = w.reconcile(rec(2, cats(false, false, false, false, false, true)));
    match r {
        Reconciled::Delivered(ev, closed, follow) => {
            assert_eq!(ev.kind, EventKind::Rename);
            assert!(ev.path.eq_path(&p("/r/a")));
            // The old entry and its descendants are gone.
            assert_eq!(closed, vec![2, 3]);
            assert!(matches!(follow, FollowUp::Rescan));
        }
        _ => panic!("expected a delivered event"),
    }
    assert!(!w.contains(&p("/r/a")));
    assert!(!w.contains(&p("/r/a/x")));
    // The driver now re-walks every rescan root. The rename created /r/b,
    // so the walk discovers /r and /r/b; only /r/b is new.
    let roots = w.roots();
    assert_eq!(roots.len(), 1);
    assert!(roots[0].eq_path(&p("/r")));
    let discovered = [p("/r"), p("/r/b")];
    let mut added = 0;
    let mut next_fd = 10;
    for d in discovered {
        if !w.contains(&d) {
            if w.add(d, next_fd) {
                added += 1;
            }
            next_fd += 1;
        }
    }
    assert_eq!(added, 1);
    assert!(w.contains(&p("/r/b")));
    assert_eq!(w.len(), 2);
}

#[test]
fn link_and_write_ask_for_a_walk() {
    let mut w = Watcher::new();
    w.add(p("/d"), 1);
    let r = w.reconcile(rec(1, cats(false, false, false, true, false, false)));
    match r {
        Reconciled::Delivered(ev, closed, follow) => {
            assert_eq!(ev.kind, EventKind::Link);
            assert!(closed.is_empty());
            match follow {
                FollowUp::Walk(t) => assert!(t.eq_path(&ev.path)),
                _ => panic!("expected a walk"),
            }
        }
        _ => panic!("expected a delivered event"),
    }
    assert_eq!(w.len(), 1);
    let r = w.reconcile(rec(1, cats(false, true, false, false, false, false)));
    match r {
        Reconciled::Delivered(ev, _, follow) => {
            assert_eq!(ev.kind, EventKind::Write);
            match follow {
                FollowUp::Walk(t) => assert!(t.eq_path(&ev.path)),
                _ => panic!("expected a walk"),
            }
        }
        _ => panic!("expected a delivered event"),
    }
}

#[test]
fn extend_alone_changes_nothing() {
    let mut w = Watcher::new();
    w.add(p("/d"), 1);
    let r = w.reconcile(rec(1, cats(false, false, true, false, false, false)));
    match r {
        Reconciled::Delivered(ev, closed, follow) => {
            assert_eq!(ev.kind, EventKind::Other);
            assert!(closed.is_empty());
            assert!(matches!(follow, FollowUp::Stay));
        }
        _ => panic!("expected a delivered event"),
    }
    assert_eq!(w.len(), 1);
}

#[test]
fn unknown_identity_is_discarded() {
    let mut w = Watcher::new();
    w.add(p("/d"), 1);
    let r = w.reconcile(rec(42, cats(true, false, false, false, false, false)));
    assert!(matches!(r, Reconciled::Unknown));
    assert_eq!(w.len(), 1);
}

#[test]
fn record_level_error_is_surfaced() {
    let mut w = Watcher::new();
    w.add(p("/d"), 1);
    let r = w.reconcile(RawRecord {
        ident: 1,
        error: true,
        error_data: 13,
        categories: cats(false, false, false, false, false, false),
    });
    match r {
        Reconciled::Faulted(code) => assert_eq!(code, 13),
        _ => panic!("expected a faulted record"),
    }
    assert_eq!(w.len(), 1);
}

#[test]
fn end_to_end_empty_directory_scenario() {
    let mut w = Watcher::new();
    // An empty directory: the walk discovers only the directory itself.
    let mut registered = 0;
    for d in [p("/d")] {
        if !w.contains(&d) && w.add(d, 1) {
            registered += 1;
        }
    }
    assert_eq!(registered, 1);
    assert_eq!(w.len(), 1);
    // A file /d/x appears; the next raw record is a write on /d.
    let r = w.reconcile(rec(1, cats(false, true, false, false, false, false)));
    let walk_target = match r {
        Reconciled::Delivered(ev, _, FollowUp::Walk(t)) => {
            assert_eq!(ev.kind, EventKind::Write);
            assert!(ev.path.eq_path(&p("/d")));
            t
        }
        _ => panic!("expected a write event with a walk"),
    };
    // The driver walks /d and finds /d and /d/x.
    let mut added = 0;
    for d in [walk_target, p("/d/x")] {
        if !w.contains(&d) && w.add(d, 2) {
            added += 1;
        }
    }
    assert_eq!(added, 1);
    assert!(w.contains(&p("/d/x")));
    // Deleting /d/x yields a delete on its handle and drops its entry.
    let r = w.reconcile(rec(2, cats(true, false, false, false, false, false)));
    match r {
        Reconciled::Delivered(ev, closed, follow) => {
            assert_eq!(ev.kind, EventKind::Delete);
            assert!(ev.path.eq_path(&p("/d/x")));
            assert_eq!(closed, vec![2]);
            assert!(matches!(follow, FollowUp::Stay));
        }
        _ => panic!("expected a delivered event"),
    }
    assert!(!w.contains(&p("/d/x")));
    assert_eq!(w.len(), 1);
}

#[test]
fn chunk_arithmetic() {
    assert_eq!(BATCH_CHUNK, 4096);
    assert_eq!(chunk_count(0), 0);
    assert_eq!(chunk_count(1), 1);
    assert_eq!(chunk_count(4096), 1);
    assert_eq!(chunk_count(4097), 2);
    assert_eq!(chunk_count(10000), 3);
    assert_eq!(chunk_span(4096, 0), (0, 4096));
    assert_eq!(chunk_span(10000, 0), (0, 4096));
    assert_eq!(chunk_span(10000, 1), (4096, 8192));
    assert_eq!(chunk_span(10000, 2), (8192, 10000));
}

fn numbered_path(i: usize) -> WatchPath {
    WatchPath::from_segments(vec![b"batch".to_vec(), format!("{}", i).into_bytes()])
}

#[test]
fn batch_of_ten_thousand_needs_three_chunks() {
    let n = 10000;
    assert_eq!(chunk_count(n), 3);
    let mut w = Watcher::new();
    let mut registered = 0;
    for k in 0..chunk_count(n) {
        let (start, end) = chunk_span(n, k);
        let chunk: Vec<(WatchPath, i32)> =
            (start..end).map(|i| (numbered_path(i), i as i32)).collect();
        registered += w.commit_chunk(chunk, true);
    }
    assert_eq!(registered, 10000);
    assert_eq!(w.len(), 10000);
    assert!(w.contains(&numbered_path(0)));
    assert!(w.contains(&numbered_path(9999)));
}

#[test]
fn batch_second_chunk_failure_keeps_the_first() {
    let n = 10000;
    let mut w = Watcher::new();
    let mut registered = 0;
    for k in 0..chunk_count(n) {
        let (start, end) = chunk_span(n, k);
        let chunk: Vec<(WatchPath, i32)> =
            (start..end).map(|i| (numbered_path(i), i as i32)).collect();
        let applied = k != 1;
        if !applied {
            // A failed chunk contributes zero and ends the batch; what
            // succeeded before it stays registered.
            let added = w.commit_chunk(chunk, false);
            assert_eq!(added, 0);
            break;
        }
        registered += w.commit_chunk(chunk, true);
    }
    assert_eq!(registered, 4096);
    assert_eq!(w.len(), 4096);
    assert!(w.contains(&numbered_path(4095)));
    assert!(!w.contains(&numbered_path(4096)));
}

#[test]
fn chunk_with_repeated_pairs_registers_each_once() {
    let mut w = Watcher::new();
    let chunk = vec![(p("/a"), 1), (p("/a"), 2), (p("/b"), 1), (p("/c"), 3)];
    let n = w.commit_chunk(chunk, true);
    // /a registers with handle 1; its repeat is a no-op; /b is refused
    // because handle 1 is already owned; /c registers.
    assert_eq!(n, 2);
    assert_eq!(w.len(), 2);
    assert!(w.contains(&p("/a")));
    assert!(!w.contains(&p("/b")));
    assert!(w.contains(&p("/c")));
}

#[test]
fn close_hands_back_every_handle() {
    let mut w = Watcher::new();
    w.add_recursive_rescan(p("/r"));
    w.add(p("/r"), 1);
    w.add(p("/r/a"), 2);
    let closed = w.close();
    assert_eq!(closed, vec![1, 2]);
    assert_eq!(w.len(), 0);
    assert!(w.roots().is_empty());
}

#[test]
fn poll_step_meanings() {
    assert_eq!(poll_step(1, false), PollStep::Deliver);
    assert_eq!(poll_step(0, false), PollStep::TimedOut);
    assert_eq!(poll_step(-1, true), PollStep::Retry);
    assert_eq!(poll_step(-1, false), PollStep::Fail);
    assert_eq!(poll_step(2, false), PollStep::Fatal);
    assert_eq!(poll_step(-2, false), PollStep::Fatal);
}

#[test]
fn registration_applies_even_when_interrupted() {
    assert!(registration_applied(0, false));
    assert!(registration_applied(-1, true));
    assert!(!registration_applied(-1, false));
}

#[test]
fn remove_subtree_with_root_prefix_clears_everything() {
    let mut w = Watcher::new();
    w.add(p("/a"), 1);
    w.add(p("/b/c"), 2);
    let closed = w.remove_recursive(&p("/"));
    assert_eq!(closed, vec![1, 2]);
    assert_eq!(w.len(), 0);
}
