//! The replication worker: a state machine that keeps the link table in
//! step with the remote store. The embedding program performs the I/O —
//! subscribing, sleeping, writing the snapshot file — and feeds every
//! outcome back in as a [`WorkerEvent`]; each step returns the
//! [`WorkerAction`] to perform next. All decisions live here.

use vstd::prelude::*;
use crate::rustlink::Rustlink;
use crate::snapshot::SerdeAppState;
use crate::state::{LinkTable, entry_views, map_of_entries};

verus! {

/// What one remote change did.
pub enum WatchEventKind {
    /// The key was written. `link` carries the decoded record, or `None`
    /// when the stored bytes did not decode as one.
    Put { link: Option<Rustlink> },
    /// The key was removed.
    Delete,
}

/// One change delivered by the watch stream.
pub struct WatchEvent {
    /// The alias the change concerns (derived from the store key).
    pub alias: String,
    pub kind: WatchEventKind,
    /// The store revision at which the change was made.
    pub revision: i64,
}

impl WatchEvent {
    /// An event that changes the table when applied: a decodable put, or
    /// a delete. A put whose value did not decode is skipped.
    pub open spec fn effective(&self) -> bool {
        !(self.kind matches WatchEventKind::Put { link: Option::None })
    }
}

/// What one event does to the mapping.
pub open spec fn apply_event_spec(
    m: Map<Seq<char>, Seq<char>>,
    ev: WatchEvent,
) -> Map<Seq<char>, Seq<char>> {
    match ev.kind {
        WatchEventKind::Put { link: Option::Some(l) } => m.insert(ev.alias@, l.url@),
        WatchEventKind::Put { link: Option::None } => m,
        WatchEventKind::Delete => m.remove(ev.alias@),
    }
}

/// A whole batch, applied in delivery order.
pub open spec fn apply_batch_spec(
    m: Map<Seq<char>, Seq<char>>,
    evs: Seq<WatchEvent>,
) -> Map<Seq<char>, Seq<char>>
    decreases evs.len(),
{
    if evs.len() == 0 {
        m
    } else {
        apply_event_spec(apply_batch_spec(m, evs.drop_last()), evs.last())
    }
}

/// The largest revision seen: the starting revision or any event's.
pub open spec fn batch_max_rev(r0: int, evs: Seq<WatchEvent>) -> int
    decreases evs.len(),
{
    if evs.len() == 0 {
        r0
    } else if evs.last().revision > batch_max_rev(r0, evs.drop_last()) {
        evs.last().revision as int
    } else {
        batch_max_rev(r0, evs.drop_last())
    }
}

/// The revision never moves backwards over a batch.
pub proof fn lemma_batch_max_rev_ge(r0: int, evs: Seq<WatchEvent>)
    ensures
        batch_max_rev(r0, evs) >= r0,
    decreases evs.len(),
{
    if evs.len() > 0 {
        lemma_batch_max_rev_ge(r0, evs.drop_last());
    }
}

/// Records merged into the mapping one after the other; a later record
/// for the same alias wins.
pub open spec fn merge_links_spec(
    m: Map<Seq<char>, Seq<char>>,
    links: Seq<Rustlink>,
) -> Map<Seq<char>, Seq<char>>
    decreases links.len(),
{
    if links.len() == 0 {
        m
    } else {
        merge_links_spec(m, links.drop_last()).insert(links.last().alias@, links.last().url@)
    }
}

/// Merging records equals overlaying their mapping: the records win on
/// every alias they carry, the old mapping keeps the rest.
pub proof fn lemma_merge_is_overlay(m: Map<Seq<char>, Seq<char>>, links: Seq<Rustlink>)
    ensures
        merge_links_spec(m, links) == m.union_prefer_right(
            map_of_entries(entry_views(links)),
        ),
    decreases links.len(),
{
    if links.len() == 0 {
        assert(entry_views(links) =~= Seq::<(Seq<char>, Seq<char>)>::empty());
        assert(m.union_prefer_right(Map::empty()) =~= m);
    } else {
        lemma_merge_is_overlay(m, links.drop_last());
        assert(entry_views(links).drop_last() =~= entry_views(links.drop_last()));
        assert(entry_views(links).last() == (links.last().alias@, links.last().url@));
        assert(merge_links_spec(m, links) =~= m.union_prefer_right(
            map_of_entries(entry_views(links)),
        ));
    }
}

/// The lifecycle of the worker.
#[derive(Clone, Copy, PartialEq, Eq, Structural, Debug)]
pub enum WorkerPhase {
    /// Reading the snapshot and the remote keyspace before watching.
    Bootstrapping,
    /// Subscribed; applying batches as they arrive.
    Watching,
    /// The stream failed; sleeping with backoff before retrying.
    Reconnecting,
    /// Stopped for good on request.
    Stopped,
}

/// What the embedding program reports back to the worker.
pub enum WorkerEvent {
    /// The snapshot file was read (`None`: missing or rejected text).
    SnapshotLoaded { snapshot: Option<SerdeAppState> },
    /// The one-shot range read of the whole keyspace returned, at the
    /// given store revision.
    RemoteLoaded { links: Vec<Rustlink>, revision: i64 },
    /// The watch subscription was established.
    WatchEstablished,
    /// One batch of changes arrived.
    BatchReceived { events: Vec<WatchEvent> },
    /// The watch stream ended or failed, or subscribing failed.
    WatchInterrupted,
    /// The backoff sleep ran its course.
    SleepFinished,
    /// Shutdown was requested.
    StopRequested,
}

/// What the embedding program is asked to do next.
pub enum WorkerAction {
    /// Read the whole aliased keyspace from the remote store.
    FetchRemote,
    /// Subscribe to changes from `start_revision` on.
    StartWatch { start_revision: i64 },
    /// Write this snapshot to disk (a failure is logged, not fatal).
    Persist { snapshot: SerdeAppState },
    /// Sleep for this many backoff units, interruptibly.
    Sleep { units: u64 },
    /// Cancel the watch subscription and any pending sleep.
    CancelWatch,
    /// Nothing to do.
    Idle,
}

/// The replication worker's entire state: the table it maintains, the
/// revision the table reflects, its lifecycle phase and current backoff.
pub struct Worker {
    pub table: LinkTable,
    pub revision: i64,
    pub phase: WorkerPhase,
    pub backoff: u64,
}

impl Worker {
    /// Invariant: a well-formed table, a revision that is non-negative
    /// and has room to advance, and a backoff within its band.
    pub open spec fn wf(&self) -> bool {
        &&& self.table.wf()
        &&& 0 <= self.revision < i64::MAX
        &&& 1 <= self.backoff <= 60
    }

    /// A fresh worker: empty table, revision 0, about to bootstrap.
    pub fn new() -> (w: Worker)
        ensures
            w.wf(),
            w.table@ == Map::<Seq<char>, Seq<char>>::empty(),
            w.revision == 0,
            w.phase == WorkerPhase::Bootstrapping,
            w.backoff == 1,
    {
        Worker { table: LinkTable::new(), revision: 0, phase: WorkerPhase::Bootstrapping, backoff: 1 }
    }

    /// Feeds one event in and says what to do next. Events that do not
    /// belong to the current phase (and anything after a stop) change
    /// nothing: contract misuse is a no-op, never a crash.
    pub fn handle_event(&mut self, ev: WorkerEvent) -> (action: WorkerAction)
        requires
            old(self).wf(),
            (ev matches WorkerEvent::SnapshotLoaded { snapshot: Option::Some(st) } ==> st.wf()
                && st.revision < i64::MAX),
            (ev matches WorkerEvent::RemoteLoaded { links, revision } ==> revision < i64::MAX),
            (ev matches WorkerEvent::BatchReceived { events } ==> forall|i: int|
                0 <= i < events@.len() ==> (#[trigger] events@[i]).revision < i64::MAX),
        ensures
            final(self).wf(),
            match ev {
                WorkerEvent::StopRequested => {
                    &&& final(self).phase == WorkerPhase::Stopped
                    &&& final(self).table@ == old(self).table@
                    &&& final(self).revision == old(self).revision
                    &&& action == (if old(self).phase is Stopped {
                        WorkerAction::Idle
                    } else {
                        WorkerAction::CancelWatch
                    })
                },
                WorkerEvent::SnapshotLoaded { snapshot } => {
                    if old(self).phase is Bootstrapping {
                        &&& match snapshot {
                            Option::Some(st) => final(self).table@
                                == old(self).table@.union_prefer_right(st.rustlinks@)
                                && final(self).revision == st.revision,
                            Option::None => final(self).table@ == old(self).table@
                                && final(self).revision == old(self).revision,
                        }
                        &&& final(self).phase == WorkerPhase::Bootstrapping
                        &&& action == WorkerAction::FetchRemote
                    } else {
                        *final(self) == *old(self) && action == WorkerAction::Idle
                    }
                },
                WorkerEvent::RemoteLoaded { links, revision } => {
                    if old(self).phase is Bootstrapping {
                        &&& final(self).table@ == old(self).table@.union_prefer_right(
                            map_of_entries(entry_views(links@)),
                        )
                        &&& final(self).revision == (if revision > old(self).revision {
                            revision
                        } else {
                            old(self).revision
                        })
                        &&& final(self).phase == WorkerPhase::Bootstrapping
                        &&& action == (WorkerAction::StartWatch {
                            start_revision: (final(self).revision + 1) as i64,
                        })
                    } else {
                        *final(self) == *old(self) && action == WorkerAction::Idle
                    }
                },
                WorkerEvent::WatchEstablished => {
                    if old(self).phase is Bootstrapping || old(self).phase is Reconnecting {
                        &&& final(self).phase == WorkerPhase::Watching
                        &&& final(self).backoff == 1
                        &&& final(self).table@ == old(self).table@
                        &&& final(self).revision == old(self).revision
                        &&& action == WorkerAction::Idle
                    } else {
                        *final(self) == *old(self) && action == WorkerAction::Idle
                    }
                },
                WorkerEvent::BatchReceived { events } => {
                    if old(self).phase is Watching {
                        &&& final(self).table@ == apply_batch_spec(old(self).table@, events@)
                        &&& final(self).revision == batch_max_rev(old(self).revision as int, events@)
                        &&& final(self).revision >= old(self).revision
                        &&& final(self).phase == WorkerPhase::Watching
                        &&& final(self).backoff == old(self).backoff
                        &&& match action {
                            WorkerAction::Persist { snapshot } => {
                                &&& snapshot.wf()
                                &&& snapshot.rustlinks@ == final(self).table@
                                &&& snapshot.revision == final(self).revision
                            },
                            _ => false,
                        }
                    } else {
                        *final(self) == *old(self) && action == WorkerAction::Idle
                    }
                },
                WorkerEvent::WatchInterrupted => {
                    if !(old(self).phase is Stopped) {
                        &&& final(self).phase == WorkerPhase::Reconnecting
                        &&& final(self).table@ == old(self).table@
                        &&& final(self).revision == old(self).revision
                        &&& action == (WorkerAction::Sleep { units: old(self).backoff })
                        &&& final(self).backoff == (if 2 * old(self).backoff < 60 {
                            2 * old(self).backoff
                        } else {
                            60
                        })
                    } else {
                        *final(self) == *old(self) && action == WorkerAction::Idle
                    }
                },
                WorkerEvent::SleepFinished => {
                    if old(self).phase is Reconnecting {
                        &&& *final(self) == *old(self)
                        &&& action == (WorkerAction::StartWatch {
                            start_revision: (old(self).revision + 1) as i64,
                        })
                    } else {
                        *final(self) == *old(self) && action == WorkerAction::Idle
                    }
                },
            },
    {
        match ev {
            WorkerEvent::StopRequested => {
                let was_stopped = match self.phase {
                    WorkerPhase::Stopped => true,
                    _ => false,
                };
                self.phase = WorkerPhase::Stopped;
                if was_stopped {
                    WorkerAction::Idle
                } else {
                    WorkerAction::CancelWatch
                }
            },
            WorkerEvent::SnapshotLoaded { snapshot } => {
                match self.phase {
                    WorkerPhase::Bootstrapping => {
                        match snapshot {
                            Option::Some(st) => {
                                let entries = st.rustlinks.snapshot_all();
                                self.merge_all(&entries);
                                proof {
                                    lemma_merge_is_overlay(old(self).table@, entries@);
                                    st.rustlinks.lemma_view_entries();
                                }
                                self.revision = st.revision;
                            },
                            Option::None => {},
                        }
                        WorkerAction::FetchRemote
                    },
                    _ => WorkerAction::Idle,
                }
            },
            WorkerEvent::RemoteLoaded { links, revision } => {
                match self.phase {
                    WorkerPhase::Bootstrapping => {
                        self.merge_all(&links);
                        proof {
                            lemma_merge_is_overlay(old(self).table@, links@);
                        }
                        if revision > self.revision {
                            self.revision = revision;
                        }
                        WorkerAction::StartWatch { start_revision: self.revision + 1 }
                    },
                    _ => WorkerAction::Idle,
                }
            },
            WorkerEvent::WatchEstablished => {
                match self.phase {
                    WorkerPhase::Bootstrapping | WorkerPhase::Reconnecting => {
                        self.phase = WorkerPhase::Watching;
                        self.backoff = 1;
                        WorkerAction::Idle
                    },
                    _ => WorkerAction::Idle,
                }
            },
            WorkerEvent::BatchReceived { events } => {
                match self.phase {
                    WorkerPhase::Watching => {
                        self.apply_batch(&events);
                        proof {
                            self.table.lemma_view_entries();
                        }
                        let snapshot = SerdeAppState::new(
                            LinkTable::from_entries(self.table.snapshot_all()),
                            self.revision,
                        );
                        WorkerAction::Persist { snapshot }
                    },
                    _ => WorkerAction::Idle,
                }
            },
            WorkerEvent::WatchInterrupted => {
                match self.phase {
                    WorkerPhase::Stopped => WorkerAction::Idle,
                    _ => {
                        self.phase = WorkerPhase::Reconnecting;
                        let units = self.backoff;
                        self.backoff = if self.backoff < 30 {
                            2 * self.backoff
                        } else {
                            60
                        };
                        WorkerAction::Sleep { units }
                    },
                }
            },
            WorkerEvent::SleepFinished => {
                match self.phase {
                    WorkerPhase::Reconnecting => {
                        WorkerAction::StartWatch { start_revision: self.revision + 1 }
                    },
                    _ => WorkerAction::Idle,
                }
            },
        }
    }

    /// Merges records into the table, in order, each under its alias.
    fn merge_all(&mut self, links: &Vec<Rustlink>)
        requires
            old(self).wf(),
        ensures
            final(self).table@ == merge_links_spec(old(self).table@, links@),
            final(self).table.wf(),
            final(self).revision == old(self).revision,
            final(self).phase == old(self).phase,
            final(self).backoff == old(self).backoff,
    {
        let n = links.len();
        let mut i: usize = 0;
        while i < n
            invariant
                old(self).wf(),
                n == links@.len(),
                i <= n,
                self.table@ == merge_links_spec(old(self).table@, links@.take(i as int)),
                self.table.wf(),
                self.revision == old(self).revision,
                self.phase == old(self).phase,
                self.backoff == old(self).backoff,
            decreases n - i,
        {
            let link = links[i].duplicate();
            self.table.upsert(link);
            proof {
                assert(links@.take(i + 1).drop_last() =~= links@.take(i as int));
                assert(links@.take(i + 1).last() == links@[i as int]);
            }
            i = i + 1;
        }
        proof {
            assert(links@.take(n as int) =~= links@);
        }
    }

    /// Applies one batch of watch events in delivery order and advances
    /// the revision to the largest one seen.
    fn apply_batch(&mut self, events: &Vec<WatchEvent>)
        requires
            old(self).wf(),
            forall|i: int| 0 <= i < events@.len() ==> (#[trigger] events@[i]).revision < i64::MAX,
        ensures
            final(self).table@ == apply_batch_spec(old(self).table@, events@),
            final(self).table.wf(),
            final(self).revision == batch_max_rev(old(self).revision as int, events@),
            old(self).revision <= final(self).revision < i64::MAX,
            final(self).phase == old(self).phase,
            final(self).backoff == old(self).backoff,
    {
        let n = events.len();
        let mut i: usize = 0;
        while i < n
            invariant
                old(self).wf(),
                n == events@.len(),
                forall|j: int| 0 <= j < n ==> (#[trigger] events@[j]).revision < i64::MAX,
                i <= n,
                self.table@ == apply_batch_spec(old(self).table@, events@.take(i as int)),
                self.table.wf(),
                self.revision == batch_max_rev(old(self).revision as int, events@.take(i as int)),
                old(self).revision <= self.revision < i64::MAX,
                self.phase == old(self).phase,
                self.backoff == old(self).backoff,
            decreases n - i,
        {
            match &events[i].kind {
                WatchEventKind::Put { link: Option::Some(l) } => {
                    self.table.upsert(Rustlink::new(events[i].alias.clone(), l.url.clone()));
                },
                WatchEventKind::Put { link: Option::None } => {},
                WatchEventKind::Delete => {
                    self.table.remove(events[i].alias.as_str());
                },
            }
            if events[i].revision > self.revision {
                self.revision = events[i].revision;
            }
            proof {
                assert(events@.take(i + 1).drop_last() =~= events@.take(i as int));
                assert(events@.take(i + 1).last() == events@[i as int]);
            }
            i = i + 1;
        }
        proof {
            assert(events@.take(n as int) =~= events@);
        }
    }

    /// The revision to resume watching from: one past everything already
    /// applied, so nothing is redelivered and nothing is skipped.
    pub fn next_watch_revision(&self) -> (r: i64)
        requires
            self.wf(),
        ensures
            r == self.revision + 1,
            r > self.revision,
    {
        self.revision + 1
    }
}

/// Whether some effective event in the batch concerns this alias.
pub open spec fn has_event_for(evs: Seq<WatchEvent>, a: Seq<char>) -> bool {
    exists|i: int| 0 <= i < evs.len() && evs[i].alias@ == a && evs[i].effective()
}

/// The index of the last effective event for this alias.
pub open spec fn last_index_for(evs: Seq<WatchEvent>, a: Seq<char>) -> int
    decreases evs.len(),
{
    if evs.len() == 0 {
        -1
    } else if evs.last().effective() && evs.last().alias@ == a {
        evs.len() - 1
    } else {
        last_index_for(evs.drop_last(), a)
    }
}

/// Replay order is idempotent per alias: after a whole batch is applied,
/// each alias holds exactly the effect of the last effective event for
/// it — a put leaves that put's record, a delete leaves the alias absent —
/// and an alias no event touched keeps its old binding.
pub proof fn lemma_batch_last_event_wins(
    m: Map<Seq<char>, Seq<char>>,
    evs: Seq<WatchEvent>,
    a: Seq<char>,
)
    ensures
        !has_event_for(evs, a) ==> (apply_batch_spec(m, evs).contains_key(a) == m.contains_key(a)
            && (m.contains_key(a) ==> apply_batch_spec(m, evs)[a] == m[a])),
        has_event_for(evs, a) ==> {
            let i = last_index_for(evs, a);
            &&& 0 <= i < evs.len()
            &&& evs[i].alias@ == a
            &&& evs[i].effective()
            &&& match evs[i].kind {
                WatchEventKind::Put { link: Option::Some(l) } => apply_batch_spec(
                    m,
                    evs,
                ).contains_key(a) && apply_batch_spec(m, evs)[a] == l.url@,
                WatchEventKind::Put { link: Option::None } => true,
                WatchEventKind::Delete => !apply_batch_spec(m, evs).contains_key(a),
            }
        },
    decreases evs.len(),
{
    if evs.len() == 0 {
    } else {
        let e = evs.last();
        let dl = evs.drop_last();
        lemma_batch_last_event_wins(m, dl, a);
        if e.effective() && e.alias@ == a {
            assert(has_event_for(evs, a)) by {
                assert(evs[evs.len() - 1].alias@ == a && evs[evs.len() - 1].effective());
            }
            assert(last_index_for(evs, a) == evs.len() - 1);
        } else {
            assert(has_event_for(evs, a) == has_event_for(dl, a)) by {
                if has_event_for(evs, a) {
                    let w = choose|w: int|
                        0 <= w < evs.len() && evs[w].alias@ == a && evs[w].effective();
                    assert(w < evs.len() - 1 || evs[w] == e);
                    assert(dl[w] == evs[w] || evs[w] == e);
                }
                if has_event_for(dl, a) {
                    let w = choose|w: int|
                        0 <= w < dl.len() && dl[w].alias@ == a && dl[w].effective();
                    assert(evs[w] == dl[w]);
                }
            }
            assert(last_index_for(evs, a) == last_index_for(dl, a));
            // the last event does not touch `a`, so membership and value
            // at `a` carry over from the prefix
            assert(apply_batch_spec(m, evs) == apply_event_spec(apply_batch_spec(m, dl), e));
        }
    }
}

/// Resume correctness: after a reconnect the watch is opened at
/// `revision + 1`; any event such a watch can deliver (its revision at or
/// past the start) is newer than everything already applied, so no event
/// with `revision` at or below the cursor is ever re-applied.
pub proof fn lemma_resume_skips_applied(revision: int, start: int, ev_revision: int)
    requires
        start == revision + 1,
        ev_revision >= start,
    ensures
        ev_revision > revision,
{
}

} // verus!
