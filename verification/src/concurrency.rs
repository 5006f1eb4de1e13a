//! Many runs on one runner.
//!
//! Any number of runs may be under way at once. They share the runner, and
//! with it the pool and the one permit that guards the pool. This module
//! follows a whole system of runs through the steps that its runs take, in
//! whatever order they take them, and states what the permit buys. Nothing
//! is asked of the caller but to hand in events that the runs accept.

use crate::async_semaphore::{
    balanced, lemma_books_stay_balanced, lemma_release_frees, lemma_who_is_on_the_books,
    registered,
};
use crate::digest::DigestView;
use crate::nailgun_pool::{pool_ok, Liveness, PhaseView, PoolEventView};
use crate::pool_laws::{fits, lemma_advance_fits, lemma_begin_fits, Wanted};
use crate::request::RequestView;
use crate::runner::{
    accepts, after_abandon, next, permit_number, plan, woken_by_abandon, RunActionView,
    RunEventView, RunView, RunnerView,
};
use crate::runner_laws::job_of;
use vstd::prelude::*;

verus! {

/// A runner and the runs that are under way on it.
pub struct System {
    pub runner: RunnerView,
    pub runs: Seq<RunView>,
}

/// What happens next in a system: a new run is begun, one of the runs is
/// told the outcome of its last action, or a run that waits for the permit
/// is given up.
pub enum Step {
    Submit { request: RequestView, build_id: Seq<char> },
    Deliver { run: int, event: RunEventView },
    Abandon { run: int },
}

/// The step can be taken: a run is told only what it accepts, and only a run
/// that waits for the permit is given up.
pub open spec fn admits(s: System, step: Step) -> bool {
    match step {
        Step::Submit { .. } => true,
        Step::Deliver { run, event } => 0 <= run < s.runs.len() && accepts(
            s.runner,
            s.runs[run],
            event,
        ),
        Step::Abandon { run } => 0 <= run < s.runs.len() && s.runs[run] is Queued,
    }
}

/// The system after a step, and the action that the step hands out.
pub struct Moved {
    pub system: System,
    pub action: RunActionView,
}

/// Takes one step.
pub open spec fn take(s: System, step: Step) -> Moved {
    match step {
        Step::Submit { request, build_id } => {
            let p = plan(s.runner, request, build_id);
            Moved { system: System { runner: p.runner, runs: s.runs.push(p.run) }, action: p.action }
        },
        Step::Deliver { run, event } => {
            let p = next(s.runner, s.runs[run], event);
            Moved {
                system: System { runner: p.runner, runs: s.runs.update(run, p.run) },
                action: p.action,
            }
        },
        Step::Abandon { run } => {
            let id = s.runs[run]->Queued_2;
            Moved {
                system: System {
                    runner: after_abandon(s.runner, id),
                    runs: s.runs.update(run, RunView::Finished),
                },
                action: RunActionView::ReleasePermit { wake: woken_by_abandon(s.runner, id) },
            }
        },
    }
}

/// Whether the step asks for a server to be started under `name`: 1 if it
/// does, 0 if not.
pub open spec fn spawn_asked(s: System, step: Step, name: Seq<char>) -> nat {
    match step {
        Step::Deliver { run, event } => {
            let before = s.runs[run];
            if take(s, step).action is Pool && take(s, step).action->Pool_0 is Spawn && job_of(
                before,
            ) is Some && job_of(before)->0.nailgun_name == name {
                1
            } else {
                0
            }
        },
        _ => 0,
    }
}

/// Where a system stands after a sequence of steps, and how often a server
/// was asked to be started under the name that is looked at.
pub struct Played {
    pub system: System,
    pub spawns: nat,
}

/// Takes the steps one after the other, and stops at the first that cannot
/// be taken.
pub open spec fn play(s: System, steps: Seq<Step>, name: Seq<char>) -> Played
    decreases steps.len(),
{
    if steps.len() == 0 || !admits(s, steps[0]) {
        Played { system: s, spawns: 0 }
    } else {
        let moved = take(s, steps[0]);
        let rest = play(moved.system, steps.drop_first(), name);
        Played { system: rest.system, spawns: spawn_asked(s, steps[0], name) + rest.spawns }
    }
}

/// At most one run is in the middle of a connect.
pub open spec fn exclusive(s: System) -> bool {
    forall|i: int, j: int|
        0 <= i < s.runs.len() && 0 <= j < s.runs.len() && (#[trigger] s.runs[i]) is Connecting
            && (#[trigger] s.runs[j]) is Connecting ==> i == j
}

/// The runner knows the run: a run that waits is on the books of the
/// permit; a run in the middle of a connect holds the permit, its connect
/// fits the pool and asks for the server of the run. The number of either
/// was given out by the runner.
pub open spec fn known(runner: RunnerView, run: RunView) -> bool {
    match run {
        RunView::Queued(_, _, id) => id < runner.next_id && registered(runner.permit, id),
        RunView::Connecting(job, id, c) => {
            &&& id < runner.next_id
            &&& runner.permit.holders.contains(id)
            &&& fits(runner.pool, c)
            &&& c.name == job.nailgun_name
            &&& c.fingerprint == job.fingerprint
            &&& !(c.phase is Done)
        },
        _ => true,
    }
}

/// The runner is in order: the pool is, the books of the permit are, there
/// is one permit, and every number on the books was given out by the runner.
pub open spec fn runner_in_order(runner: RunnerView) -> bool {
    &&& pool_ok(runner.pool)
    &&& balanced(runner.permit)
    &&& runner.permit.permits == 1
    &&& forall|id: usize| #[trigger] registered(runner.permit, id) ==> id < runner.next_id
}

/// No two runs have the same number.
pub open spec fn numbers_differ(s: System) -> bool {
    forall|i: int, j: int|
        0 <= i < s.runs.len() && 0 <= j < s.runs.len() && i != j && permit_number(
            #[trigger] s.runs[i],
        ) is Some ==> permit_number(s.runs[i]) != permit_number(#[trigger] s.runs[j])
}

/// The system is in order: the runner is, it knows every run, and no two
/// runs have the same number.
pub open spec fn in_order(s: System) -> bool {
    &&& runner_in_order(s.runner)
    &&& numbers_differ(s)
    &&& forall|i: int| 0 <= i < s.runs.len() ==> known(s.runner, #[trigger] s.runs[i])
}

/// In a system in order at most one run is in the middle of a connect:
/// such a run holds the permit, of which there is one.
pub proof fn lemma_one_connect_at_a_time(s: System)
    requires
        in_order(s),
    ensures
        exclusive(s),
{
    assert forall|i: int, j: int|
        0 <= i < s.runs.len() && 0 <= j < s.runs.len() && (#[trigger] s.runs[i]) is Connecting
            && (#[trigger] s.runs[j]) is Connecting implies i == j by {
        lemma_one_holder(s, i, j);
    }
}

proof fn lemma_one_holder(s: System, i: int, j: int)
    requires
        in_order(s),
        0 <= i < s.runs.len(),
        0 <= j < s.runs.len(),
        permit_number(s.runs[i]) is Some,
        permit_number(s.runs[j]) is Some,
        s.runner.permit.holders.contains(permit_number(s.runs[i])->0),
        s.runner.permit.holders.contains(permit_number(s.runs[j])->0),
    ensures
        i == j,
{
    let a = permit_number(s.runs[i])->0;
    let b = permit_number(s.runs[j])->0;
    assert(known(s.runner, s.runs[i]) && known(s.runner, s.runs[j]));
    let h = s.runner.permit.holders;
    let x = choose|x: int| 0 <= x < h.len() && h[x] == a;
    let y = choose|y: int| 0 <= y < h.len() && h[y] == b;
    assert(x == 0 && y == 0);
}

/// The runs other than `at` are as they were.
spec fn others_untouched(before: System, after: System, at: int) -> bool {
    &&& after.runs.len() == before.runs.len()
    &&& forall|j: int| 0 <= j < before.runs.len() && j != at ==> after.runs[j] == before.runs[j]
}

/// What it takes for a system to stay in order when one of its runs moves:
/// the runner stays in order, it knows the run that moved, the number of
/// that run is its old one or a new one, and the runner still knows the
/// other runs.
proof fn lemma_moved_run_keeps_order(before: System, after: System, at: int)
    requires
        in_order(before),
        0 <= at < before.runs.len(),
        others_untouched(before, after, at),
        runner_in_order(after.runner),
        known(after.runner, after.runs[at]),
        before.runner.next_id <= after.runner.next_id,
        permit_number(after.runs[at]) is Some ==> (permit_number(after.runs[at]) == permit_number(
            before.runs[at],
        ) || permit_number(after.runs[at])->0 >= before.runner.next_id),
        forall|j: int|
            0 <= j < before.runs.len() && j != at ==> known(after.runner, #[trigger] before.runs[j]),
    ensures
        in_order(after),
{
    assert forall|i: int| 0 <= i < after.runs.len() implies known(
        after.runner,
        #[trigger] after.runs[i],
    ) by {
        if i != at {
            assert(after.runs[i] == before.runs[i]);
            assert(known(after.runner, before.runs[i]));
        }
    }
    assert forall|i: int, j: int|
        0 <= i < after.runs.len() && 0 <= j < after.runs.len() && i != j && permit_number(
            #[trigger] after.runs[i],
        ) is Some implies permit_number(after.runs[i]) != permit_number(
        #[trigger] after.runs[j],
    ) by {
        assert(known(before.runner, before.runs[i]));
        assert(known(before.runner, before.runs[j]));
        if i != at {
            assert(after.runs[i] == before.runs[i]);
        }
        if j != at {
            assert(after.runs[j] == before.runs[j]);
        }
        if permit_number(after.runs[j]) is Some {
            if i != at && j != at {
                assert(permit_number(before.runs[i]) != permit_number(before.runs[j]));
            } else if i == at {
                if permit_number(after.runs[at]) == permit_number(before.runs[at]) {
                    assert(permit_number(before.runs[i]) != permit_number(before.runs[j]));
                }
            } else {
                if permit_number(after.runs[at]) == permit_number(before.runs[at]) {
                    assert(permit_number(before.runs[j]) != permit_number(before.runs[i]));
                }
            }
        }
    }
}

/// A system in order stays in order with every step.
pub proof fn lemma_step_keeps_order(s: System, step: Step)
    requires
        in_order(s),
        admits(s, step),
    ensures
        in_order(take(s, step).system),
        take(s, step).system.runner.metadata == s.runner.metadata,
        take(s, step).system.runner.workdir_base == s.runner.workdir_base,
        take(s, step).system.runner.python_distribution == s.runner.python_distribution,
{
    let after = take(s, step).system;
    match step {
        Step::Submit { request, build_id } => {
            let p = plan(s.runner, request, build_id);
            assert(permit_number(p.run) is None);
            assert forall|i: int| 0 <= i < after.runs.len() implies known(
                after.runner,
                #[trigger] after.runs[i],
            ) by {
                if i < s.runs.len() {
                    assert(after.runs[i] == s.runs[i]);
                }
            }
            assert forall|i: int, j: int|
                0 <= i < after.runs.len() && 0 <= j < after.runs.len() && i != j && permit_number(
                    #[trigger] after.runs[i],
                ) is Some implies permit_number(after.runs[i]) != permit_number(
                #[trigger] after.runs[j],
            ) by {
                if i < s.runs.len() {
                    assert(after.runs[i] == s.runs[i]);
                }
                if j < s.runs.len() {
                    assert(after.runs[j] == s.runs[j]);
                }
            }
        },
        Step::Deliver { run, event } => {
            let before = s.runs[run];
            assert(known(s.runner, before));
            match (before, event) {
                (RunView::Preparing(job), RunEventView::WorkdirReady(Ok(path))) => {
                    let id = s.runner.next_id;
                    lemma_books_stay_balanced(s.runner.permit, id);
                    lemma_who_is_on_the_books(s.runner.permit, id);
                    assert(!registered(s.runner.permit, id));
                    let w = Wanted {
                        name: job.nailgun_name,
                        startup_options: job.server_request,
                        workdir: path,
                        fingerprint: job.fingerprint,
                        build_id: job.build_id,
                        input_files: job.original.input_files,
                    };
                    lemma_begin_fits(s.runner.pool, w);
                    assert forall|j: int| 0 <= j < s.runs.len() && j != run implies known(
                        after.runner,
                        #[trigger] s.runs[j],
                    ) by {
                        assert(known(s.runner, s.runs[j]));
                        if s.runs[j] is Connecting {
                            let other = s.runs[j]->Connecting_1;
                            let h = s.runner.permit.holders;
                            let x = choose|x: int| 0 <= x < h.len() && h[x] == other;
                            assert(after.runner.pool == s.runner.pool);
                        }
                    }
                },
                (RunView::Queued(job, workdir, id), RunEventView::PermitAcquired) => {
                    let w = Wanted {
                        name: job.nailgun_name,
                        startup_options: job.server_request,
                        workdir,
                        fingerprint: job.fingerprint,
                        build_id: job.build_id,
                        input_files: job.original.input_files,
                    };
                    lemma_begin_fits(s.runner.pool, w);
                    assert forall|j: int| 0 <= j < s.runs.len() && j != run implies known(
                        after.runner,
                        #[trigger] s.runs[j],
                    ) by {
                        assert(known(s.runner, s.runs[j]));
                        if s.runs[j] is Connecting {
                            lemma_one_holder(s, run, j);
                        }
                    }
                },
                (RunView::Connecting(job, id, c), RunEventView::Pool(e)) => {
                    lemma_advance_fits(s.runner.pool, c, e);
                    lemma_books_stay_balanced(s.runner.permit, id);
                    lemma_who_is_on_the_books(s.runner.permit, id);
                    lemma_release_frees(s.runner.permit, id);
                    assert forall|j: int| 0 <= j < s.runs.len() && j != run implies known(
                        after.runner,
                        #[trigger] s.runs[j],
                    ) by {
                        assert(known(s.runner, s.runs[j]));
                        if s.runs[j] is Connecting {
                            lemma_one_holder(s, run, j);
                        }
                        if s.runs[j] is Queued {
                            assert(permit_number(s.runs[j]) != permit_number(s.runs[run]));
                        }
                    }
                    assert forall|x: usize| #[trigger]
                        registered(after.runner.permit, x) implies x < after.runner.next_id by {
                        if x != id {
                            assert(registered(s.runner.permit, x));
                        }
                    }
                },
                _ => {
                    assert(after.runner == s.runner);
                },
            }
            lemma_moved_run_keeps_order(s, after, run);
        },
        Step::Abandon { run } => {
            let id = s.runs[run]->Queued_2;
            assert(known(s.runner, s.runs[run]));
            lemma_books_stay_balanced(s.runner.permit, id);
            lemma_who_is_on_the_books(s.runner.permit, id);
            assert forall|j: int| 0 <= j < s.runs.len() && j != run implies known(
                after.runner,
                #[trigger] s.runs[j],
            ) by {
                assert(known(s.runner, s.runs[j]));
                if permit_number(s.runs[j]) is Some {
                    assert(permit_number(s.runs[j]) != permit_number(s.runs[run]));
                }
                if s.runs[j] is Connecting && s.runner.permit.holders.contains(id) {
                    lemma_one_holder(s, run, j);
                }
            }
            assert forall|x: usize| #[trigger]
                registered(after.runner.permit, x) implies x < after.runner.next_id by {
                if x != id {
                    assert(registered(s.runner.permit, x));
                }
            }
            lemma_moved_run_keeps_order(s, after, run);
        },
    }
}

proof fn lemma_play_keeps_order(s: System, steps: Seq<Step>, name: Seq<char>)
    requires
        in_order(s),
    ensures
        in_order(play(s, steps, name).system),
    decreases steps.len(),
{
    if steps.len() == 0 || !admits(s, steps[0]) {
    } else {
        lemma_step_keeps_order(s, steps[0]);
        lemma_play_keeps_order(take(s, steps[0]).system, steps.drop_first(), name);
    }
}

/// Connects do not overlap. Whatever steps a system takes from a start
/// without runs, and in whatever order its runs take them, at most one run
/// is in the middle of a connect at any time, and the pool and the books of
/// the permit stay in order. The caller is trusted with nothing here: a
/// step that would let a second run in is one that the runner does not
/// accept.
pub proof fn law_connects_do_not_overlap(runner: RunnerView, steps: Seq<Step>, name: Seq<char>)
    requires
        runner_in_order(runner),
    ensures
        in_order(play(System { runner, runs: Seq::empty() }, steps, name).system),
        exclusive(play(System { runner, runs: Seq::empty() }, steps, name).system),
{
    let start = System { runner, runs: Seq::<RunView>::empty() };
    lemma_play_keeps_order(start, steps, name);
    lemma_one_connect_at_a_time(play(start, steps, name).system);
}

/// The event reports neither a failure nor a dead server.
pub open spec fn benign(e: PoolEventView) -> bool {
    match e {
        PoolEventView::Liveness(l) => l == Liveness::Alive,
        PoolEventView::Materialized(r) => r is Ok,
        PoolEventView::Terminated => true,
        PoolEventView::Spawned(r) => r is Ok,
        PoolEventView::PortAnnounced(port) => port is Some,
    }
}

/// The run wants the server called `name`.
pub open spec fn wants(run: RunView, name: Seq<char>) -> bool {
    job_of(run) is Some && job_of(run)->0.nailgun_name == name
}

/// A run that wants the server called `name` wants it with `fingerprint`.
pub open spec fn agrees(run: RunView, name: Seq<char>, fingerprint: DigestView) -> bool {
    wants(run, name) ==> job_of(run)->0.fingerprint == fingerprint
}

/// The step does no harm to the server called `name`: the run it begins,
/// if that run wants the server, wants it with `fingerprint`; and what it
/// tells a run that wants the server is neither a failure nor the death of
/// a server. What it tells any other run is of no concern.
pub open spec fn harmless(s: System, step: Step, name: Seq<char>, fingerprint: DigestView) -> bool {
    match step {
        Step::Submit { request, build_id } => agrees(
            plan(s.runner, request, build_id).run,
            name,
            fingerprint,
        ),
        Step::Deliver { run, event } => (0 <= run < s.runs.len() && wants(s.runs[run], name)
            && event is Pool) ==> benign(event->Pool_0),
        Step::Abandon { .. } => true,
    }
}

/// Every step on the way does no harm to the server called `name`.
pub open spec fn harmless_play(
    s: System,
    steps: Seq<Step>,
    name: Seq<char>,
    fingerprint: DigestView,
) -> bool
    decreases steps.len(),
{
    steps.len() == 0 || !admits(s, steps[0]) || (harmless(s, steps[0], name, fingerprint)
        && harmless_play(take(s, steps[0]).system, steps.drop_first(), name, fingerprint))
}

/// The run has asked for the server called `name` to be started, and the
/// server is not yet filed in the pool.
pub open spec fn starting(run: RunView, name: Seq<char>) -> bool {
    match run {
        RunView::Connecting(_, _, c) => c.name == name && (c.phase is Spawning
            || c.phase is AwaitingPort),
        _ => false,
    }
}

/// Some run is starting the server called `name`.
pub open spec fn being_started(s: System, name: Seq<char>) -> bool {
    exists|i: int| 0 <= i < s.runs.len() && starting(#[trigger] s.runs[i], name)
}

/// A run that is starting the server called `name`, if there is one.
pub open spec fn starter(s: System, name: Seq<char>) -> int {
    choose|i: int| 0 <= i < s.runs.len() && starting(#[trigger] s.runs[i], name)
}

/// How many servers may still be started under `name`: none once one is
/// filed or being started, one before.
pub open spec fn starts_ahead(s: System, name: Seq<char>) -> nat {
    if s.runner.pool.dom().contains(name) || being_started(s, name) {
        0
    } else {
        1
    }
}

/// A connect for `name`, as long as nothing goes wrong, never has an old
/// server to get rid of.
pub open spec fn nothing_to_replace(run: RunView, name: Seq<char>) -> bool {
    match run {
        RunView::Connecting(_, _, c) => c.name == name ==> (c.phase is Probing || c.phase
            == (PhaseView::Materializing { old: None }) || c.phase is Spawning
            || c.phase is AwaitingPort),
        _ => true,
    }
}

/// The run is settled as far as `name` goes.
pub open spec fn run_settled(run: RunView, name: Seq<char>, fingerprint: DigestView) -> bool {
    agrees(run, name, fingerprint) && nothing_to_replace(run, name)
}

/// The system is in order, and all that concerns `name` agrees on
/// `fingerprint`.
pub open spec fn settled(s: System, name: Seq<char>, fingerprint: DigestView) -> bool {
    &&& in_order(s)
    &&& forall|i: int|
        0 <= i < s.runs.len() ==> run_settled(#[trigger] s.runs[i], name, fingerprint)
    &&& s.runner.pool.dom().contains(name) ==> s.runner.pool[name].fingerprint == fingerprint
}

/// A run that changes keeps the others as they were: whoever was starting
/// the server before, other than the run that moved, still is.
proof fn lemma_starter_stays(before: System, after: System, at: int, name: Seq<char>)
    requires
        others_untouched(before, after, at),
        0 <= at < before.runs.len(),
    ensures
        being_started(before, name) && starter(before, name) != at ==> being_started(after, name),
        being_started(after, name) && !starting(after.runs[at], name) ==> being_started(
            before,
            name,
        ),
{
    if being_started(before, name) && starter(before, name) != at {
        let i = starter(before, name);
        assert(after.runs[i] == before.runs[i]);
    }
    if being_started(after, name) && !starting(after.runs[at], name) {
        let i = starter(after, name);
        assert(after.runs[i] == before.runs[i]);
    }
}

proof fn lemma_settled_after_move(before: System, after: System, at: int, name: Seq<char>, fingerprint: DigestView)
    requires
        settled(before, name, fingerprint),
        in_order(after),
        0 <= at < before.runs.len(),
        others_untouched(before, after, at),
        run_settled(after.runs[at], name, fingerprint),
        after.runner.pool.dom().contains(name) ==> after.runner.pool[name].fingerprint
            == fingerprint,
    ensures
        settled(after, name, fingerprint),
{
    assert forall|i: int| 0 <= i < after.runs.len() implies run_settled(
        #[trigger] after.runs[i],
        name,
        fingerprint,
    ) by {
        if i != at {
            assert(after.runs[i] == before.runs[i]);
        }
    }
}

proof fn lemma_step_spawns(s: System, step: Step, name: Seq<char>, fingerprint: DigestView)
    requires
        settled(s, name, fingerprint),
        admits(s, step),
        harmless(s, step, name, fingerprint),
    ensures
        settled(take(s, step).system, name, fingerprint),
        spawn_asked(s, step, name) + starts_ahead(take(s, step).system, name) <= starts_ahead(
            s,
            name,
        ),
{
    lemma_step_keeps_order(s, step);
    lemma_one_connect_at_a_time(s);
    let after = take(s, step).system;
    match step {
        Step::Submit { request, build_id } => {
            assert forall|i: int| 0 <= i < after.runs.len() implies run_settled(
                #[trigger] after.runs[i],
                name,
                fingerprint,
            ) by {
                if i < s.runs.len() {
                    assert(after.runs[i] == s.runs[i]);
                }
            }
            if being_started(after, name) {
                let i = starter(after, name);
                assert(i < s.runs.len());
                assert(after.runs[i] == s.runs[i]);
            }
            if being_started(s, name) {
                let i = starter(s, name);
                assert(after.runs[i] == s.runs[i]);
            }
        },
        Step::Deliver { run, event } => {
            let before = s.runs[run];
            assert(run_settled(before, name, fingerprint));
            assert(known(s.runner, before));
            assert(after.runs[run] == next(s.runner, before, event).run);
            lemma_starter_stays(s, after, run, name);
            match (before, event) {
                (RunView::Preparing(job), RunEventView::WorkdirReady(Ok(path))) => {
                    let w = Wanted {
                        name: job.nailgun_name,
                        startup_options: job.server_request,
                        workdir: path,
                        fingerprint: job.fingerprint,
                        build_id: job.build_id,
                        input_files: job.original.input_files,
                    };
                    lemma_begin_fits(s.runner.pool, w);
                    lemma_pool_elsewhere(s.runner.pool, after.runner.pool, job.nailgun_name, name);
                },
                (RunView::Queued(job, workdir, id), RunEventView::PermitAcquired) => {
                    let w = Wanted {
                        name: job.nailgun_name,
                        startup_options: job.server_request,
                        workdir,
                        fingerprint: job.fingerprint,
                        build_id: job.build_id,
                        input_files: job.original.input_files,
                    };
                    lemma_begin_fits(s.runner.pool, w);
                    lemma_pool_elsewhere(s.runner.pool, after.runner.pool, job.nailgun_name, name);
                },
                (RunView::Connecting(job, id, c), RunEventView::Pool(e)) => {
                    lemma_advance_fits(s.runner.pool, c, e);
                    lemma_pool_elsewhere(s.runner.pool, after.runner.pool, c.name, name);
                },
                _ => {
                    assert(after.runner == s.runner);
                },
            }
            lemma_settled_after_move(s, after, run, name, fingerprint);
            if being_started(s, name) && starter(s, name) == run {
                if !after.runner.pool.dom().contains(name) {
                    assert(starting(after.runs[run], name));
                }
            }
            if starting(after.runs[run], name) && !starting(before, name) {
                if being_started(s, name) {
                    let i = starter(s, name);
                    assert(s.runs[i] is Connecting && s.runs[run] is Connecting);
                }
            }
        },
        Step::Abandon { run } => {
            lemma_starter_stays(s, after, run, name);
            lemma_settled_after_move(s, after, run, name, fingerprint);
        },
    }
}

/// Two pools that agree on everything that is not filed under `touched`
/// agree on what is filed under any other name.
proof fn lemma_pool_elsewhere(
    before: crate::nailgun_pool::PoolView,
    after: crate::nailgun_pool::PoolView,
    touched: Seq<char>,
    name: Seq<char>,
)
    requires
        after.remove(touched) == before.remove(touched),
    ensures
        touched != name ==> after.dom().contains(name) == before.dom().contains(name)
            && after[name] == before[name],
{
    if touched != name {
        assert(after.remove(touched).dom().contains(name) == after.dom().contains(name));
        assert(before.remove(touched).dom().contains(name) == before.dom().contains(name));
        assert(after.remove(touched)[name] == after[name]);
        assert(before.remove(touched)[name] == before[name]);
    }
}

proof fn lemma_play_spawns(s: System, steps: Seq<Step>, name: Seq<char>, fingerprint: DigestView)
    requires
        settled(s, name, fingerprint),
        harmless_play(s, steps, name, fingerprint),
    ensures
        settled(play(s, steps, name).system, name, fingerprint),
        play(s, steps, name).spawns + starts_ahead(play(s, steps, name).system, name)
            <= starts_ahead(s, name),
    decreases steps.len(),
{
    if steps.len() == 0 || !admits(s, steps[0]) {
    } else {
        lemma_step_spawns(s, steps[0], name, fingerprint);
        lemma_play_spawns(take(s, steps[0]).system, steps.drop_first(), name, fingerprint);
    }
}

/// No double start. Let any number of runs be begun and driven in any
/// order on one runner, and let every run that wants the server called
/// `name` want it with the same fingerprint. As long as no run that wants
/// this server is told of a failure or of a dead server, a server is asked
/// to be started under `name` at most once, however many runs want it; and
/// not at all where one with that fingerprint is filed from the start. What
/// happens to runs that want other servers makes no difference.
pub proof fn law_no_double_start(
    runner: RunnerView,
    steps: Seq<Step>,
    name: Seq<char>,
    fingerprint: DigestView,
)
    requires
        runner_in_order(runner),
        runner.pool.dom().contains(name) ==> runner.pool[name].fingerprint == fingerprint,
        harmless_play(System { runner, runs: Seq::empty() }, steps, name, fingerprint),
    ensures
        play(System { runner, runs: Seq::empty() }, steps, name).spawns <= 1,
        runner.pool.dom().contains(name) ==> play(
            System { runner, runs: Seq::empty() },
            steps,
            name,
        ).spawns == 0,
{
    let start = System { runner, runs: Seq::<RunView>::empty() };
    lemma_play_spawns(start, steps, name, fingerprint);
}

} // verus!
