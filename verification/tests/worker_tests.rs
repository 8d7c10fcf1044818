use rustlinks::datastore::{WatchEvent, WatchEventKind, Worker, WorkerAction, WorkerEvent, WorkerPhase};
use rustlinks::rustlink::Rustlink;
use rustlinks::snapshot::SerdeAppState;
use rustlinks::state::LinkTable;

fn put(alias: &str, url: &str, revision: i64) -> WatchEvent {
    WatchEvent {
        alias: alias.to_string(),
        kind: WatchEventKind::Put {
            link: Some(Rustlink::new(alias.to_string(), url.to_string())),
        },
        revision,
    }
}

fn delete(alias: &str, revision: i64) -> WatchEvent {
    WatchEvent { alias: alias.to_string(), kind: WatchEventKind::Delete, revision }
}

fn watching_worker() -> Worker {
    let mut w = Worker::new();
    let a = w.handle_event(WorkerEvent::SnapshotLoaded { snapshot: None });
    assert!(matches!(a, WorkerAction::FetchRemote));
    let a = w.handle_event(WorkerEvent::RemoteLoaded { links: Vec::new(), revision: 0 });
    assert!(matches!(a, WorkerAction::StartWatch { start_revision: 1 }));
    let a = w.handle_event(WorkerEvent::WatchEstablished);
    assert!(matches!(a, WorkerAction::Idle));
    assert_eq!(w.phase, WorkerPhase::Watching);
    w
}

#[test]
fn bootstrap_loads_snapshot_and_remote() {
    let mut w = Worker::new();
    let mut table = LinkTable::new();
    table.upsert(Rustlink::new("a".to_string(), "https://disk.example".to_string()));
    table.upsert(Rustlink::new("b".to_string(), "https://disk-b.example".to_string()));
    let a = w.handle_event(WorkerEvent::SnapshotLoaded {
        snapshot: Some(SerdeAppState::new(table, 5)),
    });
    assert!(matches!(a, WorkerAction::FetchRemote));
    assert_eq!(w.revision, 5);

    // the remote read wins over the snapshot on conflict
    let remote = vec![Rustlink::new("a".to_string(), "https://remote.example".to_string())];
    let a = w.handle_event(WorkerEvent::RemoteLoaded { links: remote, revision: 9 });
    assert!(matches!(a, WorkerAction::StartWatch { start_revision: 10 }));
    assert_eq!(w.revision, 9);
    assert_eq!(w.table.get("a").unwrap().url, "https://remote.example");
    assert_eq!(w.table.get("b").unwrap().url, "https://disk-b.example");
}

#[test]
fn batch_applies_in_order_and_persists() {
    let mut w = watching_worker();
    let batch = vec![
        put("rust", "https://one.example", 2),
        put("go", "https://go.example", 3),
        put("rust", "https://two.example", 4),
        delete("go", 5),
    ];
    let a = w.handle_event(WorkerEvent::BatchReceived { events: batch });
    match a {
        WorkerAction::Persist { snapshot } => {
            assert_eq!(snapshot.revision, 5);
            let all = snapshot.rustlinks.snapshot_all();
            assert_eq!(all.len(), 1);
            assert_eq!(all[0].alias, "rust");
            assert_eq!(all[0].url, "https://two.example");
        },
        _ => panic!("expected a persist action"),
    }
    assert_eq!(w.revision, 5);
    assert_eq!(w.table.get("rust").unwrap().url, "https://two.example");
    assert!(w.table.get("go").is_none());
}

#[test]
fn undecodable_put_is_skipped_not_fatal() {
    let mut w = watching_worker();
    let batch = vec![
        put("rust", "https://one.example", 2),
        WatchEvent {
            alias: "rust".to_string(),
            kind: WatchEventKind::Put { link: None },
            revision: 3,
        },
    ];
    let a = w.handle_event(WorkerEvent::BatchReceived { events: batch });
    assert!(matches!(a, WorkerAction::Persist { .. }));
    // the bad value is skipped; the revision still advances
    assert_eq!(w.table.get("rust").unwrap().url, "https://one.example");
    assert_eq!(w.revision, 3);
}

#[test]
fn interruption_backs_off_exponentially_capped() {
    let mut w = watching_worker();
    let mut expected_sleep = 1u64;
    for _ in 0..8 {
        let a = w.handle_event(WorkerEvent::WatchInterrupted);
        match a {
            WorkerAction::Sleep { units } => assert_eq!(units, expected_sleep),
            _ => panic!("expected a sleep action"),
        }
        assert_eq!(w.phase, WorkerPhase::Reconnecting);
        expected_sleep = (expected_sleep * 2).min(60);
        let a = w.handle_event(WorkerEvent::SleepFinished);
        match a {
            WorkerAction::StartWatch { start_revision } => assert_eq!(start_revision, w.revision + 1),
            _ => panic!("expected a new watch"),
        }
    }
    // 1, 2, 4, 8, 16, 32, 60, 60
    assert_eq!(w.backoff, 60);
}

#[test]
fn reconnect_success_resets_backoff() {
    let mut w = watching_worker();
    w.handle_event(WorkerEvent::WatchInterrupted);
    w.handle_event(WorkerEvent::WatchInterrupted);
    assert!(w.backoff > 1);
    let a = w.handle_event(WorkerEvent::WatchEstablished);
    assert!(matches!(a, WorkerAction::Idle));
    assert_eq!(w.phase, WorkerPhase::Watching);
    assert_eq!(w.backoff, 1);
}

#[test]
fn resume_starts_one_past_the_cursor() {
    let mut w = watching_worker();
    let batch = vec![put("rust", "https://one.example", 7)];
    w.handle_event(WorkerEvent::BatchReceived { events: batch });
    assert_eq!(w.next_watch_revision(), 8);
    w.handle_event(WorkerEvent::WatchInterrupted);
    match w.handle_event(WorkerEvent::SleepFinished) {
        WorkerAction::StartWatch { start_revision } => assert_eq!(start_revision, 8),
        _ => panic!("expected a new watch"),
    }
}

#[test]
fn stop_is_terminal_and_idempotent() {
    let mut w = watching_worker();
    let a = w.handle_event(WorkerEvent::StopRequested);
    assert!(matches!(a, WorkerAction::CancelWatch));
    assert_eq!(w.phase, WorkerPhase::Stopped);
    // a second stop, and any late event, are safe no-ops
    let a = w.handle_event(WorkerEvent::StopRequested);
    assert!(matches!(a, WorkerAction::Idle));
    let a = w.handle_event(WorkerEvent::BatchReceived { events: vec![put("x", "https://x.example", 9)] });
    assert!(matches!(a, WorkerAction::Idle));
    assert!(w.table.get("x").is_none());
}

#[test]
fn events_out_of_phase_change_nothing() {
    let mut w = Worker::new();
    // a batch before bootstrap finished is ignored
    let a = w.handle_event(WorkerEvent::BatchReceived { events: vec![put("x", "https://x.example", 2)] });
    assert!(matches!(a, WorkerAction::Idle));
    assert!(w.table.get("x").is_none());
    assert_eq!(w.phase, WorkerPhase::Bootstrapping);
}
