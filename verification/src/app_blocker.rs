//! Process blocker: the state machine behind the background enforcement loop.
//! The controller starts a session with a list of blocked applications and
//! stops it later; in between, each loop iteration hands `tick` a snapshot of
//! the live process table and carries out the decisions it returns — one
//! attempt-count increment and notification per detected app, then the
//! termination of every matched process. The loop itself, process enumeration
//! and signalling stay with the caller.

use vstd::prelude::*;

use crate::matcher::{matching_pids, ProcessInfo};

verus! {

/// One application to block: a display name and the executable string that
/// the process matcher targets.
pub struct BlockedApp {
    pub name: String,
    pub executable: String,
}

/// One attempt counter: how many loop iterations detected the named app.
pub struct AttemptEntry {
    pub name: String,
    pub count: u32,
}

/// The blocker's state as contracts see it.
#[verifier::ext_equal]
pub struct BlockerModel {
    /// The blocked apps as (name, executable) pairs.
    pub apps: Seq<(Seq<char>, Seq<char>)>,
    /// Whether the background loop is meant to be iterating.
    pub running: bool,
    /// The attempt counters by app name.
    pub attempts: Map<Seq<char>, u32>,
}

/// The (name, executable) pairs of a blocked-app list.
pub open spec fn apps_view(apps: Seq<BlockedApp>) -> Seq<(Seq<char>, Seq<char>)> {
    apps.map_values(|a: BlockedApp| (a.name@, a.executable@))
}

/// The attempt counters an entry list denotes: later entries would win, but a
/// well-formed list names every app at most once.
pub open spec fn attempts_map(entries: Seq<AttemptEntry>) -> Map<Seq<char>, u32>
    decreases entries.len(),
{
    if entries.len() == 0 {
        Map::empty()
    } else {
        attempts_map(entries.drop_last()).insert(entries.last().name@, entries.last().count)
    }
}

/// No app name appears twice in the entry list.
pub open spec fn entries_wf(entries: Seq<AttemptEntry>) -> bool {
    forall|i: int, j: int|
        0 <= i < j < entries.len() ==> #[trigger] entries[i].name@ != #[trigger] entries[j].name@
}

/// Starting replaces the app list and raises the running flag, unless a
/// session is already running, in which case nothing changes and the start is
/// refused.
pub open spec fn spec_start(m: BlockerModel, apps: Seq<(Seq<char>, Seq<char>)>) -> (
    BlockerModel,
    bool,
) {
    if m.running {
        (m, false)
    } else {
        (BlockerModel { apps: apps, running: true, attempts: m.attempts }, true)
    }
}

/// Stopping lowers the running flag and clears the app list and the counters.
pub open spec fn spec_stop(m: BlockerModel) -> BlockerModel {
    BlockerModel { apps: Seq::empty(), running: false, attempts: Map::empty() }
}

/// One more attempt against the named app, saturating at the counter's top.
pub open spec fn sat_inc(c: u32) -> u32 {
    if c == u32::MAX {
        c
    } else {
        (c + 1) as u32
    }
}

/// Record one detection of the named app.
pub open spec fn bump(att: Map<Seq<char>, u32>, name: Seq<char>) -> Map<Seq<char>, u32> {
    let prev = if att.dom().contains(name) {
        att[name]
    } else {
        0u32
    };
    att.insert(name, sat_inc(prev))
}

/// The counters after one loop iteration over the given snapshot: each app
/// with at least one matching live process is counted once — once per
/// iteration, not once per process.
pub open spec fn tick_attempts(
    att: Map<Seq<char>, u32>,
    apps: Seq<(Seq<char>, Seq<char>)>,
    procs: Seq<ProcessInfo>,
) -> Map<Seq<char>, u32>
    decreases apps.len(),
{
    if apps.len() == 0 {
        att
    } else {
        let a = apps[0];
        let att2 = if matching_pids(procs, a.1).len() > 0 {
            bump(att, a.0)
        } else {
            att
        };
        tick_attempts(att2, apps.drop_first(), procs)
    }
}

/// The actions of one loop iteration, in app order: for each detected app its
/// name (for the notification and the counter) and every matched process
/// identifier, detection always ahead of termination.
pub open spec fn tick_actions(apps: Seq<(Seq<char>, Seq<char>)>, procs: Seq<ProcessInfo>) -> Seq<
    (Seq<char>, Seq<u32>),
>
    decreases apps.len(),
{
    if apps.len() == 0 {
        Seq::empty()
    } else {
        let a = apps[0];
        let pids = matching_pids(procs, a.1);
        let rest = tick_actions(apps.drop_first(), procs);
        if pids.len() > 0 {
            seq![(a.0, pids)] + rest
        } else {
            rest
        }
    }
}

/// What one loop iteration decided for one detected app: notify about the
/// named app, then terminate each listed process.
pub struct BlockAction {
    pub app_name: String,
    pub pids: Vec<u32>,
}

/// The (name, process list) pairs of an action list.
pub open spec fn actions_view(actions: Seq<BlockAction>) -> Seq<(Seq<char>, Seq<u32>)> {
    actions.map_values(|a: BlockAction| (a.app_name@, a.pids@))
}

/// The process-blocker state shared between the controller and the loop.
pub struct AppBlocker {
    blocked_apps: Vec<BlockedApp>,
    running: bool,
    attempts: Vec<AttemptEntry>,
}

impl View for AppBlocker {
    type V = BlockerModel;

    closed spec fn view(&self) -> BlockerModel {
        BlockerModel {
            apps: apps_view(self.blocked_apps@),
            running: self.running,
            attempts: attempts_map(self.attempts@),
        }
    }
}

/// In a well-formed entry list, each entry is what the counter map holds.
proof fn lemma_attempts_map_find(entries: Seq<AttemptEntry>, i: int)
    requires
        entries_wf(entries),
        0 <= i < entries.len(),
    ensures
        attempts_map(entries).dom().contains(entries[i].name@),
        attempts_map(entries)[entries[i].name@] == entries[i].count,
    decreases entries.len(),
{
    if i < entries.len() - 1 {
        assert(forall|k: int|
            0 <= k < entries.len() - 1 ==> #[trigger] entries.drop_last()[k] == entries[k]);
        lemma_attempts_map_find(entries.drop_last(), i);
    }
}

/// A name no entry carries is absent from the counter map.
proof fn lemma_attempts_map_absent(entries: Seq<AttemptEntry>, name: Seq<char>)
    requires
        forall|i: int| 0 <= i < entries.len() ==> #[trigger] entries[i].name@ != name,
    ensures
        !attempts_map(entries).dom().contains(name),
    decreases entries.len(),
{
    if entries.len() > 0 {
        assert(forall|k: int|
            0 <= k < entries.len() - 1 ==> #[trigger] entries.drop_last()[k] == entries[k]);
        lemma_attempts_map_absent(entries.drop_last(), name);
    }
}

/// Changing one entry's count updates exactly that name in the counter map.
proof fn lemma_attempts_map_update(
    old_entries: Seq<AttemptEntry>,
    new_entries: Seq<AttemptEntry>,
    i: int,
    c: u32,
)
    requires
        entries_wf(old_entries),
        0 <= i < old_entries.len(),
        new_entries.len() == old_entries.len(),
        forall|j: int|
            0 <= j < old_entries.len() && j != i ==> #[trigger] new_entries[j] == old_entries[j],
        new_entries[i].name@ == old_entries[i].name@,
        new_entries[i].count == c,
    ensures
        entries_wf(new_entries),
        attempts_map(new_entries) == attempts_map(old_entries).insert(old_entries[i].name@, c),
    decreases old_entries.len(),
{
    assert(forall|j: int|
        0 <= j < old_entries.len() ==> #[trigger] new_entries[j].name@ == old_entries[j].name@);
    let name = old_entries[i].name@;
    if i == old_entries.len() - 1 {
        assert(new_entries.drop_last() =~= old_entries.drop_last());
        assert(attempts_map(new_entries) =~= attempts_map(old_entries).insert(name, c));
    } else {
        assert(forall|k: int|
            0 <= k < old_entries.len() - 1 ==> #[trigger] old_entries.drop_last()[k]
                == old_entries[k]);
        assert(forall|k: int|
            0 <= k < new_entries.len() - 1 ==> #[trigger] new_entries.drop_last()[k]
                == new_entries[k]);
        lemma_attempts_map_update(old_entries.drop_last(), new_entries.drop_last(), i, c);
        assert(new_entries.last() == old_entries.last());
        assert(attempts_map(new_entries) =~= attempts_map(old_entries).insert(name, c));
    }
}

/// Look up an app's counter entry by name.
fn find_entry(entries: &Vec<AttemptEntry>, name: &String) -> (r: Option<usize>)
    ensures
        match r {
            Some(i) => i < entries@.len() && entries@[i as int].name@ == name@,
            None => forall|i: int|
                0 <= i < entries@.len() ==> #[trigger] entries@[i].name@ != name@,
        },
{
    let n: usize = entries.len();
    let mut i: usize = 0;
    while i < n
        invariant
            i <= n,
            n == entries@.len(),
            forall|k: int| 0 <= k < i ==> #[trigger] entries@[k].name@ != name@,
        decreases n - i,
    {
        if crate::text::eq_vec(
            &crate::text::str_to_chars(entries[i].name.as_str()),
            &crate::text::str_to_chars(name.as_str()),
        ) {
            return Some(i);
        }
        i = i + 1;
    }
    None
}

/// Record one detection of the named app in the entry list.
fn bump_attempt(entries: &mut Vec<AttemptEntry>, name: &String)
    requires
        entries_wf(old(entries)@),
    ensures
        entries_wf(final(entries)@),
        attempts_map(final(entries)@) == bump(attempts_map(old(entries)@), name@),
{
    let found = find_entry(entries, name);
    match found {
        Some(i) => {
            let prev = entries[i].count;
            let next = if prev == u32::MAX {
                prev
            } else {
                prev + 1
            };
            let n: usize = entries.len();
            let mut out: Vec<AttemptEntry> = Vec::new();
            let mut j: usize = 0;
            while j < n
                invariant
                    j <= n,
                    n == entries@.len(),
                    i < n,
                    next == sat_inc(entries@[i as int].count),
                    out@.len() == j,
                    forall|k: int| 0 <= k < j && k != i ==> #[trigger] out@[k] == entries@[k],
                    i < j ==> out@[i as int].name@ == entries@[i as int].name@ && out@[
                        i as int
                    ].count == next,
                decreases n - j,
            {
                if j == i {
                    out.push(AttemptEntry { name: entries[j].name.clone(), count: next });
                } else {
                    out.push(
                        AttemptEntry { name: entries[j].name.clone(), count: entries[j].count },
                    );
                }
                j = j + 1;
            }
            proof {
                lemma_attempts_map_find(entries@, i as int);
                lemma_attempts_map_update(entries@, out@, i as int, next);
            }
            *entries = out;
        },
        None => {
            let ghost prev_entries = entries@;
            entries.push(AttemptEntry { name: name.clone(), count: 1 });
            proof {
                lemma_attempts_map_absent(prev_entries, name@);
                assert(entries@.drop_last() =~= prev_entries);
                assert(entries@.last().name@ == name@);
                assert(entries@.last().count == 1);
                assert(entries_wf(entries@)) by {
                    assert(forall|k: int|
                        0 <= k < prev_entries.len() ==> #[trigger] entries@[k]
                            == prev_entries[k]);
                }
                assert(sat_inc(0) == 1);
            }
        },
    }
}

impl AppBlocker {
    /// A fresh blocker: idle, with no apps and no counters.
    pub fn new() -> (r: AppBlocker)
        ensures
            r.wf(),
            r@.apps == Seq::<(Seq<char>, Seq<char>)>::empty(),
            !r@.running,
            r@.attempts == Map::<Seq<char>, u32>::empty(),
    {
        let r = AppBlocker { blocked_apps: Vec::new(), running: false, attempts: Vec::new() };
        proof {
            assert(apps_view(r.blocked_apps@) =~= Seq::<(Seq<char>, Seq<char>)>::empty());
        }
        r
    }

    /// The attempt counters name each app at most once.
    pub closed spec fn wf(&self) -> bool {
        entries_wf(self.attempts@)
    }

    /// Begin a session blocking the given apps: refused with a conflict error
    /// — and with the state, the app list and the counters untouched — when a
    /// session is already running.
    pub fn start_blocking(&mut self, apps: Vec<BlockedApp>) -> (r: Result<(), String>)
        requires
            old(self).wf(),
        ensures
            final(self).wf(),
            final(self)@ == spec_start(old(self)@, apps_view(apps@)).0,
            r is Ok <==> spec_start(old(self)@, apps_view(apps@)).1,
            r is Err ==> r->Err_0@ == "App blocker is already running"@,
    {
        if self.running {
            return Err(String::from_str("App blocker is already running"));
        }
        self.blocked_apps = apps;
        self.running = true;
        proof {
            assert(self@ =~= spec_start(old(self)@, apps_view(apps@)).0);
        }
        Ok(())
    }

    /// End the session: the loop is told to exit, and the app list and the
    /// attempt counters are cleared.
    pub fn stop_blocking(&mut self) -> (r: Result<(), String>)
        requires
            old(self).wf(),
        ensures
            final(self).wf(),
            final(self)@ == spec_stop(old(self)@),
            r is Ok,
    {
        self.running = false;
        self.blocked_apps = Vec::new();
        self.attempts = Vec::new();
        proof {
            assert(apps_view(self.blocked_apps@) =~= Seq::<(Seq<char>, Seq<char>)>::empty());
            assert(self@ =~= spec_stop(old(self)@));
        }
        Ok(())
    }

    /// A point-in-time snapshot of the attempt counters.
    pub fn get_block_attempts(&self) -> (r: Vec<AttemptEntry>)
        requires
            self.wf(),
        ensures
            entries_wf(r@),
            attempts_map(r@) == self@.attempts,
    {
        let n: usize = self.attempts.len();
        let mut out: Vec<AttemptEntry> = Vec::new();
        let mut i: usize = 0;
        while i < n
            invariant
                i <= n,
                n == self.attempts@.len(),
                out@.len() == i,
                forall|k: int| 0 <= k < i ==> #[trigger] out@[k] == self.attempts@[k],
            decreases n - i,
        {
            out.push(
                AttemptEntry {
                    name: self.attempts[i].name.clone(),
                    count: self.attempts[i].count,
                },
            );
            i = i + 1;
        }
        proof {
            assert(out@ =~= self.attempts@);
        }
        out
    }

    /// Whether the background loop should keep iterating.
    pub fn is_running(&self) -> (r: bool)
        ensures
            r == self@.running,
    {
        self.running
    }

    /// One iteration of the enforcement loop over a snapshot of the live
    /// process table: for every blocked app with at least one matching
    /// process, count one attempt and return the app's name with every
    /// matched process identifier. The caller notifies and terminates in the
    /// order returned, so detection always precedes termination.
    pub fn tick(&mut self, procs: &Vec<ProcessInfo>) -> (actions: Vec<BlockAction>)
        requires
            old(self).wf(),
        ensures
            final(self).wf(),
            final(self)@.running == old(self)@.running,
            final(self)@.apps == old(self)@.apps,
            final(self)@.attempts == tick_attempts(old(self)@.attempts, old(self)@.apps, procs@),
            actions_view(actions@) == tick_actions(old(self)@.apps, procs@),
    {
        let n: usize = self.blocked_apps.len();
        let ghost apps0 = apps_view(self.blocked_apps@);
        let ghost att0 = attempts_map(self.attempts@);
        let mut actions: Vec<BlockAction> = Vec::new();
        let mut i: usize = 0;
        proof {
            assert(apps0.skip(0) =~= apps0);
            assert(actions_view(actions@) =~= Seq::<(Seq<char>, Seq<u32>)>::empty());
        }
        while i < n
            invariant
                i <= n,
                n == self.blocked_apps@.len(),
                self.wf(),
                self.blocked_apps@ == old(self).blocked_apps@,
                self.running == old(self).running,
                apps0 == apps_view(self.blocked_apps@),
                tick_attempts(att0, apps0, procs@) == tick_attempts(
                    attempts_map(self.attempts@),
                    apps0.skip(i as int),
                    procs@,
                ),
                tick_actions(apps0, procs@) == actions_view(actions@) + tick_actions(
                    apps0.skip(i as int),
                    procs@,
                ),
            decreases n - i,
        {
            let ghost pre_att = attempts_map(self.attempts@);
            let ghost pre_actions = actions_view(actions@);
            let name = self.blocked_apps[i].name.clone();
            let exe = self.blocked_apps[i].executable.clone();
            proof {
                assert(apps0.skip(i as int)[0] == apps0[i as int]);
                assert(apps0[i as int] == (name@, exe@));
                assert(apps0.skip(i as int).drop_first() =~= apps0.skip(i as int + 1));
            }
            let pids = crate::matcher::find_process_by_name(procs, exe.as_str());
            if pids.len() > 0 {
                bump_attempt(&mut self.attempts, &name);
                let ghost pv = pids@;
                actions.push(BlockAction { app_name: name, pids: pids });
                proof {
                    assert(actions_view(actions@) =~= pre_actions + seq![(name@, pv)]);
                    assert(pre_actions + seq![(name@, pv)] + tick_actions(
                        apps0.skip(i as int + 1),
                        procs@,
                    ) =~= pre_actions + (seq![(name@, pv)] + tick_actions(
                        apps0.skip(i as int + 1),
                        procs@,
                    )));
                }
            }
            i = i + 1;
        }
        proof {
            assert(apps0.skip(n as int) =~= Seq::<(Seq<char>, Seq<char>)>::empty());
            assert(actions_view(actions@) + Seq::<(Seq<char>, Seq<u32>)>::empty() =~= actions_view(
                actions@,
            ));
            assert(self@ =~= final(self)@);
        }
        actions
    }
}

/// A start attempted while a session runs is refused and changes nothing: the
/// app list stays, the counters stay, the flag stays.
pub proof fn lemma_start_while_running_is_conflict(
    m: BlockerModel,
    apps: Seq<(Seq<char>, Seq<char>)>,
)
    requires
        m.running,
    ensures
        spec_start(m, apps).0 == m,
        !spec_start(m, apps).1,
{
}

/// A stop followed by a start on a fresh app list begins every attempt count
/// at zero: stopping clears the counters and starting leaves them untouched,
/// so no app of the new list has a recorded attempt.
pub proof fn lemma_stop_then_start_counts_zero(m: BlockerModel, apps: Seq<(Seq<char>, Seq<char>)>)
    ensures
        spec_start(spec_stop(m), apps).1,
        spec_start(spec_stop(m), apps).0.attempts == Map::<Seq<char>, u32>::empty(),
        forall|name: Seq<char>|
            !spec_start(spec_stop(m), apps).0.attempts.dom().contains(name),
{
    assert(forall|name: Seq<char>|
        !spec_start(spec_stop(m), apps).0.attempts.dom().contains(name)) by {
        assert(Map::<Seq<char>, u32>::empty().dom() =~= Set::<Seq<char>>::empty());
    }
}

} // verus!
