//! The decisions of the supervisor: admitting a start, recording a spawn,
//! planning a stop, and settling each tick of the exit watcher.
use vstd::prelude::*;
use vstd::string::*;
use crate::registry::{Registry, holds_id, ids_unique, without_id};
use crate::host::{file_name_of, path_file_name};
use crate::text::{int_text, signed_decimal};

verus! {

/// Why a supervisor operation did not succeed.
#[derive(Debug, Clone, PartialEq, Eq)]
pub enum SupervisorError {
    /// A start for an id whose process is still registered.
    AlreadyRunning,
    /// A stop whose target could not be found.
    NotRunning,
    /// The operating system refused to create the process; carries its message.
    SpawnError(String),
}

pub open spec fn error_text(e: SupervisorError) -> Seq<char> {
    match e {
        SupervisorError::AlreadyRunning => "App is already running"@,
        SupervisorError::NotRunning => "App is not running"@,
        SupervisorError::SpawnError(m) => "Failed to start: "@ + m@,
    }
}

impl SupervisorError {
    /// The message handed back to the caller of the failed operation.
    pub fn message(&self) -> (r: String)
        ensures
            r@ == error_text(*self),
    {
        match self {
            SupervisorError::AlreadyRunning => String::from_str("App is already running"),
            SupervisorError::NotRunning => String::from_str("App is not running"),
            SupervisorError::SpawnError(m) => {
                let s = String::from_str("Failed to start: ");
                s.concat(m.as_str())
            },
        }
    }
}

/// What one non-blocking liveness check of a child reported.
#[derive(Debug, Clone, Copy, PartialEq, Eq)]
pub enum Poll {
    /// Still running.
    Running,
    /// Exited; with its exit code when the platform gave one.
    Exited(Option<i32>),
    /// The check itself failed: the handle is no longer usable.
    Failed,
}

/// What the exit watcher does after one tick. (A tick that finds the id no
/// longer registered ends the watcher silently: someone else reaped it.)
#[derive(Debug, Clone, PartialEq, Eq)]
pub enum WatchStep {
    /// Still running: sleep and poll again.
    KeepWatching,
    /// The process exited: emit `line`, then the stopped event, and stop.
    Exited { line: String },
    /// The handle became unusable: it was dropped; stop without an event.
    Lost,
}

/// What a stop request must do next.
pub enum StopPlan<H> {
    /// The handle was taken out of the registry: kill it and its tree.
    KillHandle(H),
    /// Nothing registered; try to kill processes with this image name.
    KillByName(String),
    /// Nothing registered and no usable hint.
    NotRunning,
}

/// The exit code reported for `code`, `-1` when none was given.
pub open spec fn effective_code(code: Option<i32>) -> int {
    match code {
        Some(c) => c as int,
        None => -1,
    }
}

/// The diagnostic line composed when a watched process exits.
pub open spec fn exit_text(code: Option<i32>) -> Seq<char> {
    if effective_code(code) == 0 {
        "✓ Process exited successfully"@
    } else {
        "⚠ Process exited with code: "@ + signed_decimal(effective_code(code))
    }
}

/// The registry after the watcher settled a handle it had taken out:
/// the entry comes back only while the process runs.
pub open spec fn settled<H>(s: Seq<(Seq<char>, H)>, id: Seq<char>, h: H, poll: Poll) -> Seq<
    (Seq<char>, H),
> {
    if poll is Running {
        s.push((id, h))
    } else {
        s
    }
}

/// The step the watcher takes for `poll`.
pub open spec fn step_for(poll: Poll, step: WatchStep) -> bool {
    match poll {
        Poll::Running => step == WatchStep::KeepWatching,
        Poll::Exited(code) => step matches WatchStep::Exited { line } && line@ == exit_text(code),
        Poll::Failed => step == WatchStep::Lost,
    }
}

/// Fails with `AlreadyRunning` exactly when `id` is registered; checked
/// before any process is spawned.
pub fn admit_start<H>(reg: &Registry<H>, id: &str) -> (r: Result<(), SupervisorError>)
    ensures
        r is Err <==> reg.spec_is_running(id@),
        r is Err ==> r == Err::<(), SupervisorError>(SupervisorError::AlreadyRunning),
{
    if reg.is_running(id) {
        Err(SupervisorError::AlreadyRunning)
    } else {
        Ok(())
    }
}

/// Records the outcome of a spawn admitted by `admit_start`. On success
/// the handle is registered and the started line for `command` is
/// returned; on failure nothing is registered.
pub fn record_spawn<H>(reg: &mut Registry<H>, id: &str, command: &str, spawned: Result<
    H,
    String,
>) -> (r: Result<String, SupervisorError>)
    requires
        old(reg).wf(),
        !old(reg).spec_is_running(id@),
    ensures
        final(reg).wf(),
        match spawned {
            Ok(h) => final(reg)@ == old(reg)@.push((id@, h)) && (r matches Ok(line) && line@
                == "✓ Started: "@ + command@),
            Err(e) => final(reg)@ == old(reg)@ && r == Err::<String, SupervisorError>(
                SupervisorError::SpawnError(e),
            ),
        },
{
    match spawned {
        Ok(h) => {
            let _ = reg.try_insert(id, h);
            let s = String::from_str("✓ Started: ");
            Ok(s.concat(command))
        },
        Err(e) => Err(SupervisorError::SpawnError(e)),
    }
}

/// The line emitted when a start fails with `e`.
pub fn failure_line(e: &SupervisorError) -> (r: String)
    ensures
        r@ == "❌ "@ + error_text(*e),
{
    let s = String::from_str("❌ ");
    let m = e.message();
    s.concat(m.as_str())
}

/// The diagnostic line for an exit with `code`.
pub fn exit_line(code: Option<i32>) -> (r: String)
    ensures
        r@ == exit_text(code),
{
    let c: i32 = match code {
        Some(c) => c,
        None => -1,
    };
    if c == 0 {
        String::from_str("✓ Process exited successfully")
    } else {
        let s = String::from_str("⚠ Process exited with code: ");
        let n = int_text(c as i64);
        s.concat(n.as_str())
    }
}

/// Settles one watcher tick. The caller has just taken `h`, the handle of
/// `id`, out of the registry under the registry's lock and polled it with
/// the outcome `poll`: a running process goes back in, any other is dropped.
pub fn settle_watch<H>(reg: &mut Registry<H>, id: &str, h: H, poll: Poll) -> (r: WatchStep)
    requires
        old(reg).wf(),
        !old(reg).spec_is_running(id@),
    ensures
        final(reg).wf(),
        final(reg)@ == settled(old(reg)@, id@, h, poll),
        step_for(poll, r),
{
    match poll {
        Poll::Running => {
            let _ = reg.try_insert(id, h);
            WatchStep::KeepWatching
        },
        Poll::Exited(code) => WatchStep::Exited { line: exit_line(code) },
        Poll::Failed => WatchStep::Lost,
    }
}

/// Plans a stop of `id`. A registered handle is taken out of the registry
/// (the caller kills it); otherwise the file name of `hint`, when there is
/// one, names the external processes to kill.
pub fn stop_plan<H>(reg: &mut Registry<H>, id: &str, hint: Option<&str>) -> (r: StopPlan<H>)
    requires
        old(reg).wf(),
    ensures
        final(reg).wf(),
        final(reg)@ == without_id(old(reg)@, id@),
        !final(reg).spec_is_running(id@),
        r is KillHandle <==> old(reg).spec_is_running(id@),
        r matches StopPlan::KillHandle(h) ==> exists|i: int|
            0 <= i < old(reg)@.len() && old(reg)@[i] == (id@, h),
        !old(reg).spec_is_running(id@) ==> match hint {
            None => r is NotRunning,
            Some(p) => match file_name_of(p@) {
                Some(n) => r matches StopPlan::KillByName(m) && m@ == n,
                None => r is NotRunning,
            },
        },
{
    match reg.remove(id) {
        Some(h) => StopPlan::KillHandle(h),
        None => match hint {
            None => StopPlan::NotRunning,
            Some(p) => match path_file_name(p) {
                Some(n) => StopPlan::KillByName(n),
                None => StopPlan::NotRunning,
            },
        },
    }
}

/// The result of a stop that fell back to killing by name: success only
/// when some process was killed.
pub fn stop_by_name_outcome(killed: bool) -> (r: Result<(), SupervisorError>)
    ensures
        killed ==> r is Ok,
        !killed ==> r == Err::<(), SupervisorError>(SupervisorError::NotRunning),
{
    if killed {
        Ok(())
    } else {
        Err(SupervisorError::NotRunning)
    }
}

/// The line emitted when a registered process is stopped on request.
pub fn stopped_by_user_line() -> (r: String)
    ensures
        r@ == "■ Process stopped by user"@,
{
    String::from_str("■ Process stopped by user")
}

/// The line emitted when external processes named `name` were stopped.
pub fn external_stopped_line(name: &str) -> (r: String)
    ensures
        r@ == "■ External process "@ + name@ + " stopped"@,
{
    let s = String::from_str("■ External process ");
    let s = s.concat(name);
    s.concat(" stopped")
}

proof fn lemma_without_lacks<H>(s: Seq<(Seq<char>, H)>, id: Seq<char>)
    ensures
        !holds_id(without_id(s, id), id),
    decreases s.len(),
{
    reveal(Seq::filter);
    if s.len() > 0 {
        let t = s.drop_last();
        lemma_without_lacks(t, id);
        let wt = without_id(t, id);
        if s.last().0 != id {
            assert(without_id(s, id) == wt.push(s.last()));
            if holds_id(wt.push(s.last()), id) {
                let k = choose|k: int| 0 <= k < wt.len() + 1 && #[trigger] wt.push(s.last())[k].0 == id;
                assert(wt.push(s.last())[k] == wt[k]);
            }
        } else {
            assert(without_id(s, id) == wt);
        }
    }
}

proof fn lemma_push_unique<H>(s: Seq<(Seq<char>, H)>, id: Seq<char>, h: H)
    requires
        ids_unique(s),
        !holds_id(s, id),
    ensures
        ids_unique(s.push((id, h))),
        holds_id(s.push((id, h)), id),
        forall|j: int| 0 <= j < s.len() + 1 && (#[trigger] s.push((id, h))[j]).0 == id ==> j == s.len(),
{
    let t = s.push((id, h));
    assert(t[s.len() as int].0 == id);
    assert forall|j: int| 0 <= j < s.len() + 1 && (#[trigger] t[j]).0 == id implies j == s.len() by {
        if j < s.len() {
            assert(s[j].0 == id);
        }
    }
}

/// Two starts of one id in a row: once the first registered its handle,
/// the id is live, so the second is refused (`admit_start` fails exactly
/// on live ids), and the registry holds exactly one entry for that id.
pub proof fn law_second_start_refused<H>(s: Seq<(Seq<char>, H)>, id: Seq<char>, h: H)
    requires
        ids_unique(s),
        !holds_id(s, id),
    ensures
        holds_id(s.push((id, h)), id),
        ids_unique(s.push((id, h))),
        forall|i: int, j: int|
            0 <= i < s.len() + 1 && 0 <= j < s.len() + 1 && (#[trigger] s.push((id, h))[i]).0 == id
                && (#[trigger] s.push((id, h))[j]).0 == id ==> i == j,
{
    lemma_push_unique(s, id, h);
}

/// A process that exits is reported once: after the watcher settles an
/// exit, whatever its code, the id is gone from the registry, so a later
/// tick finds nothing (and ends silently, with no second event) and a fresh start of the
/// id is admitted and leaves the registry well formed.
pub proof fn law_exit_round_trip<H>(
    s: Seq<(Seq<char>, H)>,
    id: Seq<char>,
    h: H,
    code: Option<i32>,
    fresh: H,
)
    requires
        ids_unique(s),
    ensures
        !holds_id(settled(without_id(s, id), id, h, Poll::Exited(code)), id),
        ids_unique(settled(without_id(s, id), id, h, Poll::Exited(code)).push((id, fresh))),
{
    lemma_without_lacks(s, id);
    let w = without_id(s, id);
    lemma_without_unique_ids(s, id);
    lemma_push_unique(w, id, fresh);
}

proof fn lemma_without_from<H>(s: Seq<(Seq<char>, H)>, id: Seq<char>, j: int)
    requires
        0 <= j < without_id(s, id).len(),
    ensures
        exists|k: int| 0 <= k < s.len() && s[k] == without_id(s, id)[j],
    decreases s.len(),
{
    reveal(Seq::filter);
    if s.len() > 0 {
        let t = s.drop_last();
        assert(s =~= t.push(s.last()));
        let wt = without_id(t, id);
        if s.last().0 != id {
            assert(without_id(s, id) == wt.push(s.last()));
            if j == wt.len() {
                assert(s[s.len() - 1] == without_id(s, id)[j]);
            } else {
                lemma_without_from(t, id, j);
                let k = choose|k: int| 0 <= k < t.len() && t[k] == wt[j];
                assert(s[k] == without_id(s, id)[j]);
            }
        } else {
            assert(without_id(s, id) == wt);
            lemma_without_from(t, id, j);
            let k = choose|k: int| 0 <= k < t.len() && t[k] == wt[j];
            assert(s[k] == without_id(s, id)[j]);
        }
    }
}

proof fn lemma_without_unique_ids<H>(s: Seq<(Seq<char>, H)>, id: Seq<char>)
    requires
        ids_unique(s),
    ensures
        ids_unique(without_id(s, id)),
    decreases s.len(),
{
    reveal(Seq::filter);
    if s.len() > 0 {
        let t = s.drop_last();
        assert(s =~= t.push(s.last()));
        assert(ids_unique(t));
        lemma_without_unique_ids(t, id);
        let wt = without_id(t, id);
        if s.last().0 != id {
            assert(without_id(s, id) == wt.push(s.last()));
            assert forall|j: int| 0 <= j < wt.len() implies #[trigger] wt[j].0 != s.last().0 by {
                lemma_without_from(t, id, j);
                let k = choose|k: int| 0 <= k < t.len() && t[k] == wt[j];
                assert(s[k] == t[k]);
                assert(s[k].0 != s[s.len() - 1].0);
            }
            let u = wt.push(s.last());
            assert forall|a: int, b: int|
                0 <= a < u.len() && 0 <= b < u.len() && #[trigger] u[a].0 == #[trigger] u[b].0 implies a
                == b by {
                if a < wt.len() && b == wt.len() {
                    assert(wt[a].0 != s.last().0);
                } else if b < wt.len() && a == wt.len() {
                    assert(wt[b].0 != s.last().0);
                }
            }
        } else {
            assert(without_id(s, id) == wt);
        }
    }
}

/// The diagnostic line of an exit tells success (code 0) from any other
/// code, while the step taken is an exit, carrying that line and followed
/// by the stopped event, in both cases.
pub proof fn law_exit_lines_distinguish(code: i32, step: WatchStep)
    requires
        code != 0,
    ensures
        exit_text(Some(0i32)) != exit_text(Some(code)),
        step_for(Poll::Exited(Some(code)), step) ==> step is Exited,
        step_for(Poll::Exited(Some(0i32)), step) ==> step is Exited,
{
    reveal_strlit("✓ Process exited successfully");
    reveal_strlit("⚠ Process exited with code: ");
    assert(exit_text(Some(0i32))[0] == '✓');
    assert(exit_text(Some(code))[0] == '⚠');
}

/// A stop racing the natural exit of the same process: whichever takes the
/// entry first under the registry's lock, the other finds the id absent, so
/// at most one of them reports a stop, and no entry for the id is left.
/// `first_poll` is what the watcher saw if it ran first.
pub proof fn law_stop_exit_race<H>(s: Seq<(Seq<char>, H)>, id: Seq<char>, h: H, first_poll: Poll)
    requires
        ids_unique(s),
    ensures
        // the stop ran first: the watcher then finds nothing
        !holds_id(without_id(s, id), id),
        // the watcher ran first and saw an exit: the stop then finds nothing
        !(first_poll is Running) ==> !holds_id(settled(without_id(s, id), id, h, first_poll), id),
        // the watcher ran first and the process was still running: the stop
        // then removes the one entry
        !holds_id(without_id(settled(without_id(s, id), id, h, first_poll), id), id),
{
    lemma_without_lacks(s, id);
    lemma_without_lacks(settled(without_id(s, id), id, h, first_poll), id);
}

} // verus!
