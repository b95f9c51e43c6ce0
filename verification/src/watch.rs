//! Decisions of the file-system watcher: which reported changes are kept,
//! when they are applied, and how they are split into removals and
//! additions.
use vstd::prelude::*;
use crate::scan::{change_ignored, is_ignored_change};

verus! {

/// How long changes wait before they are applied, in milliseconds.
pub const DEBOUNCE_MS: u64 = 500;

/// The kind of a change notification.
#[derive(Debug, Clone, Copy, PartialEq, Eq, Structural)]
pub enum ChangeKind {
    Create,
    Modify,
    Remove,
    Other,
}

/// A reported path is a removal when the notification says so or when the
/// path no longer exists (the old name of a renamed file is reported as
/// modified).
pub open spec fn is_removal(kind: ChangeKind, exists_now: bool) -> bool {
    kind == ChangeKind::Remove || !exists_now
}

/// The changes a notification adds to the pending list: each reported
/// path (with whether it still exists) that is not skipped, marked as a
/// removal or not.
pub open spec fn noted_changes(kind: ChangeKind, paths: Seq<(String, bool)>) -> Seq<(String, bool)>
    decreases paths.len(),
{
    if kind == ChangeKind::Other || paths.len() == 0 {
        Seq::empty()
    } else {
        let rest = noted_changes(kind, paths.drop_last());
        if change_ignored(paths.last().0@) {
            rest
        } else {
            rest.push((paths.last().0, is_removal(kind, paths.last().1)))
        }
    }
}

/// The paths of the changes, in order, that are removals (`removal`) or
/// not.
pub open spec fn paths_where(c: Seq<(String, bool)>, removal: bool) -> Seq<String>
    decreases c.len(),
{
    if c.len() == 0 {
        Seq::empty()
    } else if c.last().1 == removal {
        paths_where(c.drop_last(), removal).push(c.last().0)
    } else {
        paths_where(c.drop_last(), removal)
    }
}

/// Changes waiting to be applied to the index.
pub struct PendingChanges {
    pub changes: Vec<(String, bool)>,
}

/// Pending changes split into removed paths and added or changed paths.
pub struct ChangeBatch {
    pub removals: Vec<String>,
    pub additions: Vec<String>,
}

impl PendingChanges {
    /// No pending changes.
    pub fn new() -> (r: PendingChanges)
        ensures
            r.changes@.len() == 0,
    {
        PendingChanges { changes: Vec::new() }
    }

    /// Notes the paths of a notification of kind `kind`, each given with
    /// whether it still exists.
    pub fn record_event(&mut self, kind: ChangeKind, paths: Vec<(String, bool)>)
        ensures
            final(self).changes@ == old(self).changes@ + noted_changes(kind, paths@),
    {
        let ghost all = paths@;
        let ghost start = self.changes@;
        if kind == ChangeKind::Other {
            assert(self.changes@ =~= start + noted_changes(kind, all));
            return;
        }
        let removed = kind == ChangeKind::Remove;
        assert(all.take(0) =~= Seq::<(String, bool)>::empty());
        for p in it: paths
            invariant
                it.seq() == all,
                kind != ChangeKind::Other,
                removed == (kind == ChangeKind::Remove),
                self.changes@ == start + noted_changes(kind, all.take(it.index() as int)),
        {
            proof {
                assert(all.take(it.index() + 1).drop_last() =~= all.take(it.index() as int));
                assert(all.take(it.index() + 1).last() == p);
            }
            let (path, exists_now) = p;
            if !is_ignored_change(path.as_str()) {
                self.changes.push((path, removed || !exists_now));
                assert(self.changes@ =~= start + noted_changes(kind, all.take(it.index() + 1)));
            }
        }
        assert(all.take(all.len() as int) =~= all);
    }

    /// Takes all pending changes, split into removals and additions, each
    /// in the order they were noted.
    pub fn take_batch(&mut self) -> (r: ChangeBatch)
        ensures
            final(self).changes@.len() == 0,
            r.removals@ == paths_where(old(self).changes@, true),
            r.additions@ == paths_where(old(self).changes@, false),
    {
        let mut taken: Vec<(String, bool)> = Vec::new();
        std::mem::swap(&mut taken, &mut self.changes);
        let ghost all = taken@;
        let mut removals: Vec<String> = Vec::new();
        let mut additions: Vec<String> = Vec::new();
        assert(all.take(0) =~= Seq::<(String, bool)>::empty());
        for c in it: taken
            invariant
                it.seq() == all,
                removals@ == paths_where(all.take(it.index() as int), true),
                additions@ == paths_where(all.take(it.index() as int), false),
        {
            proof {
                assert(all.take(it.index() + 1).drop_last() =~= all.take(it.index() as int));
                assert(all.take(it.index() + 1).last() == c);
            }
            let (p, is_removal) = c;
            if is_removal {
                removals.push(p);
            } else {
                additions.push(p);
            }
        }
        assert(all.take(all.len() as int) =~= all);
        ChangeBatch { removals, additions }
    }
}

/// Pending changes are applied once some are waiting and the debounce
/// time has passed.
pub fn ready_to_apply(pending: usize, elapsed_ms: u64) -> (r: bool)
    ensures
        r == (pending > 0 && elapsed_ms >= DEBOUNCE_MS),
{
    pending > 0 && elapsed_ms >= DEBOUNCE_MS
}

/// Milliseconds from `since` to `now`, or 0 if the clock reads earlier.
pub open spec fn elapsed_ms(since: u64, now: u64) -> u64 {
    if now >= since { (now - since) as u64 } else { 0 }
}

/// What the file watcher learns: a pass of its loop ended, a notification
/// came in (each path with whether it still exists), or notifications
/// stopped for good.
pub enum WatchEvent {
    Tick,
    Notified(ChangeKind, Vec<(String, bool)>),
    Closed,
}

/// What the file watcher does next.
pub enum WatchAction {
    Wait,
    Apply(ChangeBatch),
    Finish(ChangeBatch),
    Stop,
}

/// The state of the file watcher: the changes waiting, and when the last
/// of them was noted (milliseconds on a clock of the caller's).
pub struct Watcher {
    pub pending: PendingChanges,
    pub last_change_ms: u64,
}

impl Watcher {
    /// A watcher with nothing pending.
    pub fn new(now_ms: u64) -> (r: Watcher)
        ensures
            r.pending.changes@.len() == 0,
            r.last_change_ms == now_ms,
    {
        Watcher { pending: PendingChanges::new(), last_change_ms: now_ms }
    }

    /// One step of the watcher. A notification adds its changes; noting any
    /// restarts the debounce time. At the end of a pass the pending changes
    /// are handed out once `DEBOUNCE_MS` have passed since the last change
    /// was noted. When notifications stop, what is pending is handed out a
    /// last time.
    pub fn step(&mut self, now_ms: u64, event: WatchEvent) -> (a: WatchAction)
        ensures
            match event {
                WatchEvent::Notified(kind, paths) => {
                    &&& a is Wait
                    &&& final(self).pending.changes@ == old(self).pending.changes@ + noted_changes(kind, paths@)
                    &&& final(self).last_change_ms == if noted_changes(kind, paths@).len() > 0 {
                        now_ms
                    } else {
                        old(self).last_change_ms
                    }
                },
                WatchEvent::Tick => {
                    &&& final(self).last_change_ms == old(self).last_change_ms
                    &&& if old(self).pending.changes@.len() > 0 && elapsed_ms(old(self).last_change_ms, now_ms) >= DEBOUNCE_MS {
                        &&& a matches WatchAction::Apply(b) && b.removals@ == paths_where(old(self).pending.changes@, true)
                            && b.additions@ == paths_where(old(self).pending.changes@, false)
                        &&& final(self).pending.changes@.len() == 0
                    } else {
                        a is Wait && final(self).pending.changes@ == old(self).pending.changes@
                    }
                },
                WatchEvent::Closed => {
                    &&& final(self).last_change_ms == old(self).last_change_ms
                    &&& if old(self).pending.changes@.len() > 0 {
                        &&& a matches WatchAction::Finish(b) && b.removals@ == paths_where(old(self).pending.changes@, true)
                            && b.additions@ == paths_where(old(self).pending.changes@, false)
                        &&& final(self).pending.changes@.len() == 0
                    } else {
                        a is Stop && final(self).pending.changes@ == old(self).pending.changes@
                    }
                },
            },
    {
        match event {
            WatchEvent::Notified(kind, paths) => {
                let before = self.pending.changes.len();
                self.pending.record_event(kind, paths);
                if self.pending.changes.len() > before {
                    self.last_change_ms = now_ms;
                }
                WatchAction::Wait
            },
            WatchEvent::Tick => {
                let elapsed = if now_ms >= self.last_change_ms { now_ms - self.last_change_ms } else { 0 };
                if ready_to_apply(self.pending.changes.len(), elapsed) {
                    WatchAction::Apply(self.pending.take_batch())
                } else {
                    WatchAction::Wait
                }
            },
            WatchEvent::Closed => {
                if self.pending.changes.len() > 0 {
                    WatchAction::Finish(self.pending.take_batch())
                } else {
                    WatchAction::Stop
                }
            },
        }
    }
}

/// What a global shortcut does to the main window.
#[derive(Debug, Clone, Copy, PartialEq, Eq, Structural)]
pub enum WindowAction {
    Nothing,
    Hide,
    ShowAndFocus,
}

/// A pressed shortcut hides a visible window and shows and focuses a
/// hidden one; a released shortcut does nothing.
pub fn shortcut_action(pressed: bool, visible: bool) -> (r: WindowAction)
    ensures
        !pressed ==> r == WindowAction::Nothing,
        pressed && visible ==> r == WindowAction::Hide,
        pressed && !visible ==> r == WindowAction::ShowAndFocus,
{
    if !pressed {
        WindowAction::Nothing
    } else if visible {
        WindowAction::Hide
    } else {
        WindowAction::ShowAndFocus
    }
}

} // verus!
