//! Git sync, local part: when an automatic commit is due, what the
//! `.gitignore` of the vault must hold, and the message of a commit. The
//! repository operations themselves stand outside.
use vstd::prelude::*;

use crate::journal_date::{digits, push_digits};
use crate::parser::{split_nl, lemma_split_nl_len};
use crate::round_trip::lemma_split_nl_append_plain;
use crate::text::{chars_of, trim, trim_bounds, string_from_chars, leading_ws, trailing_ws, is_ws};

verus! {

/// Sync state shown by the interface.
#[derive(Debug, Clone, PartialEq, Eq)]
pub struct SyncStatus {
    /// `false` when the vault is not (yet) a Git repository.
    pub enabled: bool,
    /// Epoch seconds of the last commit, `None` when there is none yet.
    pub last_commit_at: Option<i64>,
    /// `true` when changes are waiting to be committed.
    pub dirty: bool,
}

/// `x` clamped to the range of `i64`, as `i64::saturating_sub` clamps.
pub open spec fn clamp_i64(x: int) -> int {
    if x > i64::MAX {
        i64::MAX as int
    } else if x < i64::MIN {
        i64::MIN as int
    } else {
        x
    }
}

/// Whether an automatic commit should be tried now: there are pending
/// changes, and either no commit exists yet or the interval has passed
/// since the last one.
pub open spec fn due(status: SyncStatus, interval_minutes: u32, now: i64) -> bool {
    status.dirty && match status.last_commit_at {
        None => true,
        Some(last) => clamp_i64(now - last) >= interval_minutes * 60,
    }
}

pub fn is_due(status: &SyncStatus, interval_minutes: u32, now_epoch_secs: i64) -> (b: bool)
    ensures
        b == due(*status, interval_minutes, now_epoch_secs),
{
    if !status.dirty {
        return false;
    }
    match status.last_commit_at {
        None => true,
        Some(last) => {
            let elapsed = match now_epoch_secs.checked_sub(last) {
                Some(d) => d,
                None => if last < 0 {
                    i64::MAX
                } else {
                    i64::MIN
                },
            };
            elapsed >= (interval_minutes as i64) * 60
        },
    }
}

/// `.ramus/`
pub open spec fn ramus_rule() -> Seq<char> {
    seq!['.', 'r', 'a', 'm', 'u', 's', '/']
}

/// Some line of the file, trimmed, is `.ramus/`.
pub open spec fn ignores_ramus(t: Seq<char>) -> bool {
    exists|i: int| 0 <= i < split_nl(t).len() && trim(#[trigger] split_nl(t)[i]) == ramus_rule()
}

/// The `.gitignore` text once `.ramus/` is added: a newline first when the
/// file does not end with one, then the rule on its own line.
pub open spec fn with_ramus_rule(t: Seq<char>) -> Seq<char> {
    if t.len() > 0 && t.last() != '\n' {
        t + seq!['\n'] + ramus_rule() + seq!['\n']
    } else {
        t + ramus_rule() + seq!['\n']
    }
}

fn piece_is_rule(v: &Vec<char>, s: usize, e: usize) -> (b: bool)
    requires
        s <= e <= v.len(),
    ensures
        b == (trim(v@.subrange(s as int, e as int)) == ramus_rule()),
{
    let (a, z) = trim_bounds(v, s, e);
    let ghost t = v@.subrange(a as int, z as int);
    assert(t.len() == z - a);
    if z - a != 7 {
        assert(t.len() != ramus_rule().len());
        return false;
    }
    assert(t[0] == v@[a as int]);
    assert(t[1] == v@[a + 1]);
    assert(t[2] == v@[a + 2]);
    assert(t[3] == v@[a + 3]);
    assert(t[4] == v@[a + 4]);
    assert(t[5] == v@[a + 5]);
    assert(t[6] == v@[a + 6]);
    let b = v[a] == '.' && v[a + 1] == 'r' && v[a + 2] == 'a' && v[a + 3] == 'm'
        && v[a + 4] == 'u' && v[a + 5] == 's' && v[a + 6] == '/';
    if b {
        assert(t =~= ramus_rule());
    }
    b
}

/// The new `.gitignore` text, or `None` when it already ignores `.ramus/`
/// (the derived indexes of the vault): then nothing is written. The rule is
/// appended, never put in place of the user's own rules.
pub fn gitignore_update(existing: &str) -> (r: Option<String>)
    ensures
        match r {
            None => ignores_ramus(existing@),
            Some(t) => !ignores_ramus(existing@) && t@ == with_ramus_rule(existing@),
        },
{
    let v = chars_of(existing);
    let n = v.len();
    let mut start: usize = 0;
    let mut i: usize = 0;
    let ghost mut done: Seq<Seq<char>> = Seq::empty();
    proof {
        assert(v@.take(0) =~= Seq::<char>::empty());
        assert(v@.subrange(0, 0) =~= Seq::<char>::empty());
        assert(done.push(v@.subrange(0, 0)) =~= seq![Seq::<char>::empty()]);
    }
    while i < n
        invariant
            n == v@.len(),
            v@ == existing@,
            start <= i <= n,
            split_nl(v@.take(i as int)) == done.push(v@.subrange(start as int, i as int)),
            forall|k: int| 0 <= k < done.len() ==> trim(#[trigger] done[k]) != ramus_rule(),
        decreases n - i,
    {
        proof {
            assert(v@.take(i + 1).drop_last() == v@.take(i as int));
            assert(v@.take(i + 1).last() == v@[i as int]);
        }
        if v[i] == '\n' {
            let ghost cur = v@.subrange(start as int, i as int);
            let hit = piece_is_rule(&v, start, i);
            proof {
                lemma_split_nl_len(v@.take(i as int));
                assert(split_nl(v@.take(i + 1)) == done.push(cur).push(Seq::empty()));
            }
            if hit {
                proof {
                    crate::parser::lemma_split_nl_prefix(v@, i + 1);
                    assert(split_nl(v@)[done.len() as int] == split_nl(v@.take(i + 1))[done.len() as int]);
                    assert(trim(split_nl(v@)[done.len() as int]) == ramus_rule());
                }
                return None;
            }
            proof {
                done = done.push(cur);
                assert(v@.subrange(i + 1, i + 1) =~= Seq::<char>::empty());
            }
            start = i + 1;
        } else {
            proof {
                let cur = v@.subrange(start as int, i as int);
                assert(v@.subrange(start as int, i + 1) == cur.push(v@[i as int]));
                lemma_split_nl_len(v@.take(i as int));
                let p = split_nl(v@.take(i as int));
                assert(p.update(p.len() - 1, p.last().push(v@[i as int])) =~= done.push(
                    cur.push(v@[i as int]),
                ));
            }
        }
        i += 1;
    }
    assert(v@.take(n as int) == v@);
    let ghost cur = v@.subrange(start as int, n as int);
    if piece_is_rule(&v, start, n) {
        assert(split_nl(v@)[done.len() as int] == cur);
        return None;
    }
    proof {
        assert forall|k: int| 0 <= k < split_nl(v@).len() implies trim(#[trigger] split_nl(v@)[k]) != ramus_rule() by {
            if k < done.len() {
                assert(split_nl(v@)[k] == done[k]);
            }
        }
    }
    let mut out = v;
    if n > 0 && out[n - 1] != '\n' {
        out.push('\n');
    }
    out.push('.');
    out.push('r');
    out.push('a');
    out.push('m');
    out.push('u');
    out.push('s');
    out.push('/');
    out.push('\n');
    assert(out@ =~= with_ramus_rule(existing@));
    Some(string_from_chars(&out))
}

/// Law: adding the rule makes the file ignore `.ramus/`, so a second
/// initialisation writes nothing; the user's own text is kept as the start
/// of the file.
pub proof fn law_gitignore_idempotent(t: Seq<char>)
    ensures
        ignores_ramus(with_ramus_rule(t)),
        with_ramus_rule(t).take(t.len() as int) == t,
{
    let base = if t.len() > 0 && t.last() != '\n' {
        t + seq!['\n']
    } else {
        t
    };
    assert(with_ramus_rule(t) == base + ramus_rule() + seq!['\n']);
    lemma_split_nl_len(base);
    assert(split_nl(base).last().len() == 0) by {
        if base.len() > 0 {
            assert(base.last() == '\n');
        } else {
            assert(split_nl(base) == seq![Seq::<char>::empty()]);
        }
    }
    assert forall|j: int| 0 <= j < ramus_rule().len() implies #[trigger] ramus_rule()[j] != '\n' by {}
    lemma_split_nl_append_plain(base, ramus_rule());
    let p = split_nl(base);
    let q = split_nl(base + ramus_rule());
    assert(q == p.update(p.len() - 1, p.last() + ramus_rule()));
    assert(p.last() + ramus_rule() =~= ramus_rule());
    lemma_split_nl_len(base + ramus_rule());
    let w = with_ramus_rule(t);
    assert(w.drop_last() == base + ramus_rule());
    assert(split_nl(w) == q.push(Seq::empty()));
    let k = p.len() - 1;
    assert(split_nl(w)[k] == ramus_rule());
    lemma_trim_of_plain(ramus_rule());
    assert(trim(split_nl(w)[k]) == ramus_rule());
}

proof fn lemma_trim_of_plain(s: Seq<char>)
    requires
        s.len() > 0,
        !is_ws(s[0]),
        !is_ws(s.last()),
    ensures
        trim(s) == s,
{
    assert(leading_ws(s) == 0);
    assert(s.skip(0) == s);
    assert(trailing_ws(s) == 0);
    assert(s.take(s.len() as int) == s);
}

/// `Ramus: sync automatico — `
pub open spec fn commit_prefix() -> Seq<char> {
    "Ramus: sync automatico — "@
}

/// ` file modificati`
pub open spec fn commit_suffix() -> Seq<char> {
    " file modificati"@
}

/// The message of an automatic commit of `file_count` changed files.
pub fn commit_message(file_count: usize) -> (m: String)
    ensures
        m@ == commit_prefix() + digits(file_count as nat) + commit_suffix(),
{
    let mut ds: Vec<char> = Vec::new();
    push_digits(&mut ds, file_count as u64);
    assert(ds@ =~= digits(file_count as nat));
    let mut m = String::from_str("Ramus: sync automatico — ");
    let count = string_from_chars(&ds);
    m.append(count.as_str());
    m.append(" file modificati");
    m
}

// ---------------------------------------------------------------- sync cycle

/// State of the last pull or push, kept for the session: it cannot be read
/// from the repository on disk.
#[derive(Debug, Clone, Copy, PartialEq, Eq, Structural)]
pub enum SyncState {
    Idle,
    Syncing,
    Conflict,
    Offline,
}

/// How a pull ended.
#[derive(Debug, Clone, Copy, PartialEq, Eq, Structural)]
pub enum PullResult {
    /// Merged, or nothing to merge.
    Clean,
    /// The merge left conflicts.
    Conflict,
    /// The pull failed (network, authentication).
    Failed,
}

/// What the cycle learned from its last piece of outside work.
#[derive(Debug, Clone, PartialEq, Eq)]
pub enum CycleEvent {
    /// The cycle starts: whether the vault is a repository, and whether it
    /// has a remote.
    Start { is_repo: bool, has_remote: bool },
    Pulled(PullResult),
    /// The status of the repository, `None` when it could not be read.
    StatusRead { status: Option<SyncStatus>, interval_minutes: u32, now_epoch_secs: i64 },
    /// Whether a commit was made, and whether the vault has a remote.
    Committed { committed: bool, has_remote: bool },
    /// Whether the push went through.
    Pushed { ok: bool },
}

/// The next piece of outside work of the cycle.
#[derive(Debug, Clone, Copy, PartialEq, Eq, Structural)]
pub enum CycleAction {
    Stop,
    Pull,
    ReadStatus,
    Commit,
    Push,
}

/// One step of a sync cycle: from the session's sync state and what the
/// last piece of work gave, the new sync state and the next work. A cycle
/// pulls first when there is a remote; after a conflict it stops; else it
/// commits when a commit is due, and pushes after a commit when there is
/// a remote. A failed pull or push leaves the state offline, never an
/// error: the next cycle tries again.
pub open spec fn cycle_step(state: SyncState, event: CycleEvent) -> (SyncState, CycleAction) {
    match event {
        CycleEvent::Start { is_repo, has_remote } => if !is_repo {
            (state, CycleAction::Stop)
        } else if has_remote {
            (SyncState::Syncing, CycleAction::Pull)
        } else if state == SyncState::Conflict {
            (state, CycleAction::Stop)
        } else {
            (state, CycleAction::ReadStatus)
        },
        CycleEvent::Pulled(r) => match r {
            PullResult::Conflict => (SyncState::Conflict, CycleAction::Stop),
            PullResult::Clean => (SyncState::Idle, CycleAction::ReadStatus),
            PullResult::Failed => (SyncState::Offline, CycleAction::ReadStatus),
        },
        CycleEvent::StatusRead { status, interval_minutes, now_epoch_secs } => match status {
            Some(st) => if due(st, interval_minutes, now_epoch_secs) {
                (state, CycleAction::Commit)
            } else {
                (state, CycleAction::Stop)
            },
            None => (state, CycleAction::Stop),
        },
        CycleEvent::Committed { committed, has_remote } => if committed && has_remote {
            (state, CycleAction::Push)
        } else {
            (state, CycleAction::Stop)
        },
        CycleEvent::Pushed { ok } => if ok {
            (SyncState::Idle, CycleAction::Stop)
        } else {
            (SyncState::Offline, CycleAction::Stop)
        },
    }
}

/// One step of a sync cycle; see [`cycle_step`].
pub fn sync_cycle_step(state: SyncState, event: &CycleEvent) -> (r: (SyncState, CycleAction))
    ensures
        r == cycle_step(state, *event),
{
    match event {
        CycleEvent::Start { is_repo, has_remote } => if !*is_repo {
            (state, CycleAction::Stop)
        } else if *has_remote {
            (SyncState::Syncing, CycleAction::Pull)
        } else if state == SyncState::Conflict {
            (state, CycleAction::Stop)
        } else {
            (state, CycleAction::ReadStatus)
        },
        CycleEvent::Pulled(r) => match r {
            PullResult::Conflict => (SyncState::Conflict, CycleAction::Stop),
            PullResult::Clean => (SyncState::Idle, CycleAction::ReadStatus),
            PullResult::Failed => (SyncState::Offline, CycleAction::ReadStatus),
        },
        CycleEvent::StatusRead { status, interval_minutes, now_epoch_secs } => match status {
            Some(st) => if is_due(st, *interval_minutes, *now_epoch_secs) {
                (state, CycleAction::Commit)
            } else {
                (state, CycleAction::Stop)
            },
            None => (state, CycleAction::Stop),
        },
        CycleEvent::Committed { committed, has_remote } => if *committed && *has_remote {
            (state, CycleAction::Push)
        } else {
            (state, CycleAction::Stop)
        },
        CycleEvent::Pushed { ok } => if *ok {
            (SyncState::Idle, CycleAction::Stop)
        } else {
            (SyncState::Offline, CycleAction::Stop)
        },
    }
}

/// Law: a cycle never commits over a conflict. After a pull that left
/// conflicts the cycle stops, and a cycle that starts in conflict without
/// a remote to pull from stops too; and nothing is ever pushed but right
/// after a commit.
pub proof fn law_no_commit_in_conflict(state: SyncState, event: CycleEvent)
    ensures
        event == CycleEvent::Pulled(PullResult::Conflict) ==> cycle_step(state, event) == (
            SyncState::Conflict,
            CycleAction::Stop,
        ),
        (event matches CycleEvent::Start { is_repo: true, has_remote: false }) && state
            == SyncState::Conflict ==> cycle_step(state, event).1 == CycleAction::Stop,
        cycle_step(state, event).1 == CycleAction::Push ==> event matches CycleEvent::Committed { committed: true, .. },
        cycle_step(state, event).1 == CycleAction::Commit ==> event matches CycleEvent::StatusRead { status: Some(_), .. },
{
}

/// Law: a cycle in a repository that is not held by a conflict always
/// gets to read the status, and so to commit when a commit is due: with a
/// remote it pulls first (whatever the state, so a conflict can be
/// cleared), and a pull that leaves no conflict goes on to the status;
/// without a remote it reads the status at once. Outside a repository
/// nothing happens.
pub proof fn law_cycle_reaches_status(state: SyncState, has_remote: bool, pulled: PullResult)
    ensures
        ({
            let (s1, a1) = cycle_step(state, CycleEvent::Start { is_repo: true, has_remote });
            &&& state != SyncState::Conflict ==> a1 != CycleAction::Stop
            &&& has_remote ==> a1 == CycleAction::Pull
            &&& !has_remote && state != SyncState::Conflict ==> a1 == CycleAction::ReadStatus
            &&& a1 == CycleAction::Pull && pulled != PullResult::Conflict ==> cycle_step(
                s1,
                CycleEvent::Pulled(pulled),
            ).1 == CycleAction::ReadStatus
        }),
        cycle_step(state, CycleEvent::Start { is_repo: false, has_remote }).1 == CycleAction::Stop,
{
}

/// Law: a status that is read and due always leads to a commit, and a
/// commit that was made is pushed exactly when there is a remote.
pub proof fn law_cycle_commits_when_due(
    state: SyncState,
    st: SyncStatus,
    interval_minutes: u32,
    now_epoch_secs: i64,
    committed: bool,
    has_remote: bool,
)
    ensures
        due(st, interval_minutes, now_epoch_secs) ==> cycle_step(
            state,
            CycleEvent::StatusRead { status: Some(st), interval_minutes, now_epoch_secs },
        ).1 == CycleAction::Commit,
        cycle_step(state, CycleEvent::Committed { committed, has_remote }).1 == CycleAction::Push <==> (committed
            && has_remote),
{
}

/// `SystemTime::now().duration_since(UNIX_EPOCH)` in whole seconds; `None`
/// when the clock is set before 1970. What it returns depends on the
/// clock: nothing is claimed of it.
#[verifier::external_body]
fn system_secs_since_epoch() -> (r: Option<u64>) {
    match std::time::SystemTime::now().duration_since(std::time::UNIX_EPOCH) {
        Ok(d) => Some(d.as_secs()),
        Err(_) => None,
    }
}

/// Seconds since the epoch as a signed count: the seconds read from the
/// clock, or 0 when the clock is before the epoch.
pub fn epoch_secs_from(secs: Option<u64>) -> (r: i64)
    ensures
        r == match secs {
            Some(s) => s as i64,
            None => 0i64,
        },
{
    match secs {
        Some(s) => s as i64,
        None => 0,
    }
}

/// Now, in seconds since the epoch (0 when the clock is before it).
pub fn now_epoch_secs() -> (r: i64) {
    epoch_secs_from(system_secs_since_epoch())
}

} // verus!
