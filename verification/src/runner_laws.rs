//! What holds of every run.

use crate::async_semaphore::{
    after_release, balanced, granted_by_acquire, lemma_books_stay_balanced, lemma_release_frees,
    lemma_who_is_on_the_books, woken_by_release,
};
use crate::parsed_jvm_command_lines::{
    classpath_flag_index, jvm_flags_end, lemma_classpath_flag_index, lemma_jvm_flags_end, parse,
};
use crate::request::RequestView;
use crate::runner::{
    accepts, next, permit_number, plan, run_error_message, JobView, Progress, ResultView,
    RunActionView, RunErrorView, RunEventView, RunView, RunnerView,
};
use crate::translator::{
    client_request, server_request, ARG_TO_START_NAILGUN, NAILGUN_MAIN_CLASS, NG_CLIENT_PATH,
};
use vstd::prelude::*;

verus! {

/// The run is in the middle of a connect.
pub open spec fn holds_permit(run: RunView) -> bool {
    run is Connecting
}

/// A run that is in the middle of a connect holds the permit.
pub open spec fn permit_held(runner: RunnerView, run: RunView) -> bool {
    run is Connecting ==> runner.permit.holders.contains(run->Connecting_1)
}

/// What a run works with, if it runs under nailgun.
pub open spec fn job_of(run: RunView) -> Option<JobView> {
    match run {
        RunView::Preparing(job) => Some(job),
        RunView::Queued(job, _, _) => Some(job),
        RunView::Connecting(job, _, _) => Some(job),
        RunView::Releasing(job, _) => Some(job),
        _ => None,
    }
}

/// Pass-through. A request that is not to run under nailgun is handed to
/// the executor exactly as it came, and what the executor makes of it is the
/// result of the run, exactly as the executor gave it: a result unchanged,
/// a failure in the executor's own words. Neither the pool nor the permit
/// is asked or touched.
pub proof fn law_pass_through(
    runner: RunnerView,
    request: RequestView,
    build_id: Seq<char>,
    result: Result<ResultView, Seq<char>>,
)
    requires
        !request.is_nailgunnable,
    ensures
        plan(runner, request, build_id) == (Progress {
            runner,
            run: RunView::Delegated,
            action: RunActionView::Delegate(request),
        }),
        accepts(runner, plan(runner, request, build_id).run, RunEventView::Executed(result)),
        next(runner, plan(runner, request, build_id).run, RunEventView::Executed(result)).run
            is Finished,
        next(runner, plan(runner, request, build_id).run, RunEventView::Executed(result)).runner
            == runner,
        match result {
            Ok(r) => next(
                runner,
                plan(runner, request, build_id).run,
                RunEventView::Executed(result),
            ).action == RunActionView::Finish(Ok(r)),
            Err(e) => {
                &&& next(
                    runner,
                    plan(runner, request, build_id).run,
                    RunEventView::Executed(result),
                ).action == RunActionView::Finish(Err(RunErrorView::Delegate(e)))
                &&& run_error_message(RunErrorView::Delegate(e)) == e
            },
        },
{
}

/// A request that is to run under nailgun, whose command line splits and
/// which names no JDK, fails with the configuration error at its first
/// step: the run is over before anything was asked of the pool or of the
/// executor.
pub proof fn law_missing_jdk(runner: RunnerView, request: RequestView, build_id: Seq<char>)
    requires
        request.is_nailgunnable,
        parse(request.argv) is Ok,
        request.jdk_home is None,
    ensures
        plan(runner, request, build_id) == (Progress {
            runner,
            run: RunView::Finished,
            action: RunActionView::Finish(Err(RunErrorView::Configuration)),
        }),
{
}

/// A request that is to run under nailgun and whose command line does not
/// split fails with the reason at its first step, whether or not it names a
/// JDK.
pub proof fn law_unsplittable_command_line(
    runner: RunnerView,
    request: RequestView,
    build_id: Seq<char>,
)
    requires
        request.is_nailgunnable,
        parse(request.argv) is Err,
    ensures
        plan(runner, request, build_id) == (Progress {
            runner,
            run: RunView::Finished,
            action: RunActionView::Finish(Err(RunErrorView::Parse(parse(request.argv)->Err_0))),
        }),
{
}

/// The first step of a run asks nothing of the pool or of the permit and
/// leaves the runner as it is.
pub proof fn law_plan_leaves_runner(runner: RunnerView, request: RequestView, build_id: Seq<char>)
    ensures
        plan(runner, request, build_id).runner == runner,
        !(plan(runner, request, build_id).action is Pool),
        !holds_permit(plan(runner, request, build_id).run),
        permit_number(plan(runner, request, build_id).run) is None,
{
}

/// The permit brackets the pool. Let a run that is in the middle of a
/// connect hold the permit. Then after any step that it takes it still
/// does, and:
/// - a step asks something of the pool, or changes the pool, only for a
///   run that is in the middle of a connect after the step or was before;
/// - a run enters a connect only with the permit: it was granted on asking,
///   or the run was woken and the books name it as the holder;
/// - in the very step in which the connect ends, with a port or with a
///   failure, the permit goes back, and the action names whoever it went on
///   to;
/// - what a run works with never changes, nor does its number.
pub proof fn law_permit_brackets_pool(runner: RunnerView, run: RunView, event: RunEventView)
    requires
        balanced(runner.permit),
        permit_held(runner, run),
        accepts(runner, run, event),
    ensures
        ({
            let after = next(runner, run, event);
            &&& balanced(after.runner.permit)
            &&& permit_held(after.runner, after.run)
            &&& after.action is Pool ==> after.run is Connecting
            &&& after.runner.pool != runner.pool ==> (after.run is Connecting || run is Connecting)
            &&& (after.run is Connecting && !(run is Connecting)) ==> {
                ||| (run is Preparing && after.run->Connecting_1 == runner.next_id
                    && granted_by_acquire(runner.permit, runner.next_id))
                ||| (run is Queued && event is PermitAcquired && after.run->Connecting_1
                    == run->Queued_2 && runner.permit.holders.contains(run->Queued_2))
            }
            &&& (run is Connecting && !(after.run is Connecting)) ==> {
                &&& after.run is Releasing
                &&& after.action == (RunActionView::ReleasePermit {
                    wake: woken_by_release(runner.permit, run->Connecting_1),
                })
                &&& after.runner.permit == after_release(runner.permit, run->Connecting_1)
                &&& !after.runner.permit.holders.contains(run->Connecting_1)
            }
            &&& after.action is ReleasePermit ==> run is Connecting
            &&& after.action is AwaitPermit ==> (after.run is Queued && after.action->AwaitPermit_id
                == after.run->Queued_2)
            &&& job_of(after.run) is Some ==> job_of(after.run) == job_of(run)
            &&& (permit_number(run) is Some && permit_number(after.run) is Some)
                ==> permit_number(after.run) == permit_number(run)
        }),
{
    let after = next(runner, run, event);
    match run {
        RunView::Preparing(_) => {
            lemma_books_stay_balanced(runner.permit, runner.next_id);
            lemma_who_is_on_the_books(runner.permit, runner.next_id);
        },
        RunView::Connecting(_, id, _) => {
            lemma_books_stay_balanced(runner.permit, id);
            lemma_release_frees(runner.permit, id);
        },
        _ => {},
    }
}

/// Round trip. For a request that runs under nailgun, the two requests made
/// from it share out its command line without loss: the server is started
/// with everything before the main class, followed by the server's own main
/// class and port argument, and the client is called with the main class
/// and everything after it. The client request declares the inputs,
/// outputs, timeout and description of the request it was made from; it has
/// no JDK, and its environment is the original one with the port added.
pub proof fn law_round_trip(
    runner: RunnerView,
    request: RequestView,
    build_id: Seq<char>,
    port: usize,
)
    requires
        request.is_nailgunnable,
        parse(request.argv) is Ok,
        request.jdk_home is Some,
    ensures
        plan(runner, request, build_id).run is Preparing,
        ({
            let job = plan(runner, request, build_id).run->Preparing_0;
            let m = jvm_flags_end(request.argv, classpath_flag_index(request.argv, 0) + 2);
            let client = client_request(
                job.original,
                runner.python_distribution,
                job.client_main_class,
                job.client_args,
                port,
            );
            &&& 0 <= m < request.argv.len()
            &&& job.original == request
            &&& job.server_request.argv == request.argv.take(m).push(NAILGUN_MAIN_CLASS@).push(
                ARG_TO_START_NAILGUN@,
            )
            &&& job.server_request.jdk_home == request.jdk_home
            &&& client.argv == seq![runner.python_distribution, NG_CLIENT_PATH@, "--"@]
                + request.argv.skip(m)
            &&& client.input_files == request.input_files
            &&& client.output_files == request.output_files
            &&& client.output_directories == request.output_directories
            &&& client.timeout == request.timeout
            &&& client.description == request.description
            &&& client.local_only_files == request.local_only_files
            &&& client.target_platform == request.target_platform
            &&& client.is_nailgunnable == request.is_nailgunnable
            &&& client.jdk_home is None
        }),
{
    let c = classpath_flag_index(request.argv, 0);
    lemma_classpath_flag_index(request.argv, 0);
    lemma_jvm_flags_end(request.argv, c + 2);
    let m = jvm_flags_end(request.argv, c + 2);
    let job = plan(runner, request, build_id).run->Preparing_0;
    let client = client_request(
        job.original,
        runner.python_distribution,
        job.client_main_class,
        job.client_args,
        port,
    );
    assert(client.argv =~= seq![runner.python_distribution, NG_CLIENT_PATH@, "--"@]
        + request.argv.skip(m));
}

} // verus!
