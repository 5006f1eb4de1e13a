//! The command runner: runs a request through a resident nailgun server
//! where the request allows it, and hands it on unchanged where not.
//!
//! A run is a sequence of steps. Each step hands out a [`RunAction`] for the
//! caller to perform and takes the outcome back as a [`RunEvent`].
//!
//! The runner owns the pool and the one permit that guards it. A run that
//! needs a server is given a number and asks for the permit under it; it
//! begins its connect only while it holds the permit, and the permit goes
//! back, and on to the run that has waited longest, in the very step in
//! which the connect ends. The caller parks the runs that wait and wakes
//! the run it is told to wake; it has no other say in who connects.

use crate::async_semaphore::{
    after_acquire, after_forget, after_release, balanced, granted_by_acquire, woken_by_release,
    AsyncSemaphore, SemaphoreView,
};
use crate::digest::{Digest, DigestView};
use crate::fingerprint::{digest, request_digest};
use crate::nailgun_pool::{
    advance, begin, expects, Connection, ConnectionView, NailgunPool, NailgunProcessName,
    PoolAction, PoolActionView, PoolEvent, PoolEventView, PoolStartError, PoolStartErrorView,
    PoolView, Port, pool_error_message, pool_ok,
};
use crate::parsed_jvm_command_lines::{
    parse, parse_error_message, ParseError, ParseErrorView, ParsedJVMCommandLines,
};
use crate::request::{
    ExecuteProcessRequest, ExecuteProcessRequestMetadata, MetadataView, RequestView,
};
use crate::text;
use crate::translator::{
    client_request, construct_nailgun_client_request, construct_nailgun_server_request,
    server_request,
};
use vstd::prelude::*;

verus! {

/// What running a process led to.
#[derive(Debug, PartialEq, Eq)]
pub struct FallibleExecuteProcessResult {
    pub stdout: Vec<u8>,
    pub stderr: Vec<u8>,
    pub exit_code: i32,
    pub output_directory: Digest,
}

/// The model of a [`FallibleExecuteProcessResult`].
pub struct ResultView {
    pub stdout: Seq<u8>,
    pub stderr: Seq<u8>,
    pub exit_code: i32,
    pub output_directory: DigestView,
}

impl View for FallibleExecuteProcessResult {
    type V = ResultView;

    open spec fn view(&self) -> ResultView {
        ResultView {
            stdout: self.stdout@,
            stderr: self.stderr@,
            exit_code: self.exit_code,
            output_directory: self.output_directory@,
        }
    }
}

/// Why a run failed.
#[derive(Debug, PartialEq, Eq)]
pub enum RunError {
    /// The command line could not be split.
    Parse(ParseError),
    /// The request is to run under nailgun and names no JDK.
    Configuration,
    /// The working directory of the server could not be had.
    Workdir(String),
    /// No server could be had.
    Pool(PoolStartError),
    /// The executor failed; its words are kept as they were.
    Delegate(String),
}

/// The model of a [`RunError`].
pub enum RunErrorView {
    Parse(ParseErrorView),
    Configuration,
    Workdir(Seq<char>),
    Pool(PoolStartErrorView),
    Delegate(Seq<char>),
}

impl View for RunError {
    type V = RunErrorView;

    open spec fn view(&self) -> RunErrorView {
        match self {
            RunError::Parse(e) => RunErrorView::Parse(e@),
            RunError::Configuration => RunErrorView::Configuration,
            RunError::Workdir(e) => RunErrorView::Workdir(e@),
            RunError::Pool(e) => RunErrorView::Pool(e@),
            RunError::Delegate(e) => RunErrorView::Delegate(e@),
        }
    }
}

/// What the message of an error reads. A failure of the executor reads as
/// the executor worded it.
pub open spec fn run_error_message(e: RunErrorView) -> Seq<char> {
    match e {
        RunErrorView::Parse(e) => parse_error_message(e),
        RunErrorView::Configuration =>
            "JDK home must be specified for all nailgunnable requests."@,
        RunErrorView::Workdir(e) => "Error creating the nailgun workdir! "@ + e,
        RunErrorView::Pool(e) => "Failed to connect to nailgun! "@ + pool_error_message(e),
        RunErrorView::Delegate(e) => e,
    }
}

impl RunError {
    /// The error in words.
    pub fn message(&self) -> (m: String)
        ensures
            m@ == run_error_message(self@),
    {
        match self {
            RunError::Parse(e) => e.message(),
            RunError::Configuration => String::from_str(
                "JDK home must be specified for all nailgunnable requests.",
            ),
            RunError::Workdir(e) => text::join("Error creating the nailgun workdir! ", e.as_str()),
            RunError::Pool(e) => {
                let inner = e.message();
                text::join("Failed to connect to nailgun! ", inner.as_str())
            },
            RunError::Delegate(e) => e.clone(),
        }
    }
}

/// What a run under nailgun works with: the request as it came, its command
/// line split, and the server it needs.
#[derive(Debug, PartialEq, Eq)]
pub struct Job {
    original: ExecuteProcessRequest,
    client_main_class: String,
    client_args: Vec<String>,
    nailgun_name: NailgunProcessName,
    server_request: ExecuteProcessRequest,
    fingerprint: Digest,
    build_id: String,
}

/// The model of a [`Job`].
pub struct JobView {
    pub original: RequestView,
    pub client_main_class: Seq<char>,
    pub client_args: Seq<Seq<char>>,
    pub nailgun_name: Seq<char>,
    pub server_request: RequestView,
    pub fingerprint: DigestView,
    pub build_id: Seq<char>,
}

impl View for Job {
    type V = JobView;

    closed spec fn view(&self) -> JobView {
        JobView {
            original: self.original@,
            client_main_class: self.client_main_class@,
            client_args: self.client_args.deep_view(),
            nailgun_name: self.nailgun_name@,
            server_request: self.server_request@,
            fingerprint: self.fingerprint@,
            build_id: self.build_id@,
        }
    }
}

/// How far a run has come.
#[derive(Debug, PartialEq, Eq)]
enum RunState {
    /// A request is with the executor; its result is the result of the run.
    Delegated,
    /// The working directory of the server is being made sure of.
    Preparing(Job),
    /// The run waits for the permit under its number. It knows its working
    /// directory.
    Queued(Job, String, usize),
    /// The run holds the permit under its number and a connect is under way.
    Connecting(Job, usize, Connection),
    /// The connect is over and the permit has gone back.
    Releasing(Job, Result<Port, PoolStartError>),
    /// The run is over.
    Finished,
}

/// A run under way. Only the runner makes runs and moves them on.
#[derive(Debug, PartialEq, Eq)]
pub struct Run {
    state: RunState,
}

/// The model of a [`Run`]: how far it has come.
pub enum RunView {
    /// A request is with the executor; its result is the result of the run.
    Delegated,
    /// The working directory of the server is being made sure of.
    Preparing(JobView),
    /// The run waits for the permit under its number.
    Queued(JobView, Seq<char>, usize),
    /// The run holds the permit under its number and a connect is under way.
    Connecting(JobView, usize, ConnectionView),
    /// The connect is over and the permit has gone back.
    Releasing(JobView, Result<Port, PoolStartErrorView>),
    /// The run is over.
    Finished,
}

impl View for Run {
    type V = RunView;

    closed spec fn view(&self) -> RunView {
        match self.state {
            RunState::Delegated => RunView::Delegated,
            RunState::Preparing(job) => RunView::Preparing(job@),
            RunState::Queued(job, workdir, id) => RunView::Queued(job@, workdir@, id),
            RunState::Connecting(job, id, connection) => RunView::Connecting(
                job@,
                id,
                connection@,
            ),
            RunState::Releasing(job, Ok(port)) => RunView::Releasing(job@, Ok(port)),
            RunState::Releasing(job, Err(e)) => RunView::Releasing(job@, Err(e@)),
            RunState::Finished => RunView::Finished,
        }
    }
}

impl Run {
    /// Tells whether the run is over.
    pub fn is_finished(&self) -> (b: bool)
        ensures
            b == (self@ is Finished),
    {
        match &self.state {
            RunState::Finished => true,
            _ => false,
        }
    }

    /// The number under which the run waits for the permit or holds it.
    pub fn permit_number(&self) -> (id: Option<usize>)
        ensures
            id == permit_number(self@),
    {
        match &self.state {
            RunState::Queued(_, _, id) => Some(*id),
            RunState::Connecting(_, id, _) => Some(*id),
            _ => None,
        }
    }
}

/// The number under which a run waits for the permit or holds it.
pub open spec fn permit_number(run: RunView) -> Option<usize> {
    match run {
        RunView::Queued(_, _, id) => Some(id),
        RunView::Connecting(_, id, _) => Some(id),
        _ => None,
    }
}

/// What the caller reports back after performing an action.
#[derive(Debug, PartialEq, Eq)]
pub enum RunEvent {
    /// The path of the working directory, or why there is none.
    WorkdirReady(Result<String, String>),
    /// The run was woken: another run has passed the permit on to it.
    PermitAcquired,
    /// The outcome of an action of the pool.
    Pool(PoolEvent),
    /// Whoever was to be woken has been woken.
    PermitReleased,
    /// What the executor made of the request, or why it failed.
    Executed(Result<FallibleExecuteProcessResult, String>),
}

/// The model of a [`RunEvent`].
pub enum RunEventView {
    WorkdirReady(Result<Seq<char>, Seq<char>>),
    PermitAcquired,
    Pool(PoolEventView),
    PermitReleased,
    Executed(Result<ResultView, Seq<char>>),
}

impl View for RunEvent {
    type V = RunEventView;

    open spec fn view(&self) -> RunEventView {
        match self {
            RunEvent::WorkdirReady(Ok(path)) => RunEventView::WorkdirReady(Ok(path@)),
            RunEvent::WorkdirReady(Err(e)) => RunEventView::WorkdirReady(Err(e@)),
            RunEvent::PermitAcquired => RunEventView::PermitAcquired,
            RunEvent::Pool(e) => RunEventView::Pool(e@),
            RunEvent::PermitReleased => RunEventView::PermitReleased,
            RunEvent::Executed(Ok(r)) => RunEventView::Executed(Ok(r@)),
            RunEvent::Executed(Err(e)) => RunEventView::Executed(Err(e@)),
        }
    }
}

/// What the caller is asked to do next, or how the run ended.
#[derive(Debug, PartialEq, Eq)]
pub enum RunAction {
    /// Hand the request to the executor.
    Delegate(ExecuteProcessRequest),
    /// Make sure that the directory `name` exists under `base`, creating it
    /// if it is missing and leaving it alone if it is there.
    EnsureWorkdir { base: String, name: String },
    /// The permit is taken and the run waits for it under this number. Park
    /// the run until a step names the number as the one to wake.
    AwaitPermit { id: usize },
    /// Do what the pool asks for.
    Pool(PoolAction),
    /// The connect is over and the permit has gone back. If a number is
    /// named, the permit has gone on to the run that waits under it: wake
    /// that run.
    ReleasePermit { wake: Option<usize> },
    /// The run is over, with this result.
    Finish(Result<FallibleExecuteProcessResult, RunError>),
}

/// The model of a [`RunAction`].
pub enum RunActionView {
    Delegate(RequestView),
    EnsureWorkdir { base: Seq<char>, name: Seq<char> },
    AwaitPermit { id: usize },
    Pool(PoolActionView),
    ReleasePermit { wake: Option<usize> },
    Finish(Result<ResultView, RunErrorView>),
}

impl View for RunAction {
    type V = RunActionView;

    open spec fn view(&self) -> RunActionView {
        match self {
            RunAction::Delegate(request) => RunActionView::Delegate(request@),
            RunAction::EnsureWorkdir { base, name } => RunActionView::EnsureWorkdir {
                base: base@,
                name: name@,
            },
            RunAction::AwaitPermit { id } => RunActionView::AwaitPermit { id: *id },
            RunAction::Pool(action) => RunActionView::Pool(action@),
            RunAction::ReleasePermit { wake } => RunActionView::ReleasePermit { wake: *wake },
            RunAction::Finish(Ok(r)) => RunActionView::Finish(Ok(r@)),
            RunAction::Finish(Err(e)) => RunActionView::Finish(Err(e@)),
        }
    }
}

/// The model of a [`CommandRunner`]: the pool, the books of the permit that
/// guards it, the number that the next run to ask for the permit is given,
/// and what the runner was made with.
pub struct RunnerView {
    pub pool: PoolView,
    pub permit: SemaphoreView,
    pub next_id: usize,
    pub metadata: MetadataView,
    pub python_distribution: Seq<char>,
    pub workdir_base: Seq<char>,
}

/// The runner, the run and the action after one step.
pub struct Progress {
    pub runner: RunnerView,
    pub run: RunView,
    pub action: RunActionView,
}

/// The name under which the server for a main class is kept.
pub open spec fn nailgun_name(main_class: Seq<char>) -> Seq<char> {
    "nailgun_server_"@ + main_class
}

/// What a run under nailgun works with, for a request whose command line
/// splits into `nailgun_args`, `client_main_class` and `client_args` and
/// which names the JDK `jdk`.
pub open spec fn job_for(
    runner: RunnerView,
    request: RequestView,
    nailgun_args: Seq<Seq<char>>,
    client_main_class: Seq<char>,
    client_args: Seq<Seq<char>>,
    jdk: Seq<char>,
    build_id: Seq<char>,
) -> JobView {
    let name = nailgun_name(client_main_class);
    let server = server_request(name, nailgun_args, jdk, request.target_platform);
    JobView {
        original: request,
        client_main_class,
        client_args,
        nailgun_name: name,
        server_request: server,
        fingerprint: request_digest(server, runner.metadata),
        build_id,
    }
}

/// The first step of a run. A request that is not to run under nailgun goes
/// to the executor as it is. Otherwise its command line is split, then its
/// JDK is asked for, and the failure of either ends the run; where both are
/// there, the working directory of the server is made sure of. The runner
/// stays as it is.
pub open spec fn plan(runner: RunnerView, request: RequestView, build_id: Seq<char>) -> Progress {
    if !request.is_nailgunnable {
        Progress { runner, run: RunView::Delegated, action: RunActionView::Delegate(request) }
    } else {
        match parse(request.argv) {
            Err(e) => Progress {
                runner,
                run: RunView::Finished,
                action: RunActionView::Finish(Err(RunErrorView::Parse(e))),
            },
            Ok(parsed) => match request.jdk_home {
                None => Progress {
                    runner,
                    run: RunView::Finished,
                    action: RunActionView::Finish(Err(RunErrorView::Configuration)),
                },
                Some(jdk) => {
                    let job = job_for(
                        runner,
                        request,
                        parsed.nailgun_args,
                        parsed.client_main_class,
                        parsed.client_args,
                        jdk,
                        build_id,
                    );
                    Progress {
                        runner,
                        run: RunView::Preparing(job),
                        action: RunActionView::EnsureWorkdir {
                            base: runner.workdir_base,
                            name: job.nailgun_name,
                        },
                    }
                },
            },
        }
    }
}

/// The events a run can take. A run asks for the permit only while a number
/// is left to give it, and it is taken for woken only where the books say
/// that it holds the permit.
pub open spec fn accepts(runner: RunnerView, run: RunView, event: RunEventView) -> bool {
    match (run, event) {
        (RunView::Delegated, RunEventView::Executed(_)) => true,
        (RunView::Preparing(_), RunEventView::WorkdirReady(Ok(_))) => runner.next_id < usize::MAX,
        (RunView::Preparing(_), RunEventView::WorkdirReady(Err(_))) => true,
        (RunView::Queued(_, _, id), RunEventView::PermitAcquired) => runner.permit.holders.contains(
            id,
        ),
        (RunView::Connecting(_, _, c), RunEventView::Pool(e)) => expects(c.phase, e),
        (RunView::Releasing(_, _), RunEventView::PermitReleased) => true,
        _ => false,
    }
}

/// The first step of the connect of a run that holds the permit under `id`.
pub open spec fn begin_connect(runner: RunnerView, job: JobView, workdir: Seq<char>, id: usize) -> Progress {
    let first = begin(
        runner.pool,
        job.nailgun_name,
        job.server_request,
        workdir,
        job.fingerprint,
        job.build_id,
        job.original.input_files,
    );
    after_pool_step(
        RunnerView { pool: first.pool, ..runner },
        job,
        id,
        first.connection,
        first.action,
    )
}

/// What follows a step of the pool. As soon as the connect is over, with a
/// port or with a failure, the permit goes back, and on to the run that has
/// waited longest; that run is named to be woken. Until then the pool's
/// action is passed on.
pub open spec fn after_pool_step(
    runner: RunnerView,
    job: JobView,
    id: usize,
    connection: ConnectionView,
    action: PoolActionView,
) -> Progress {
    let released = RunnerView { permit: after_release(runner.permit, id), ..runner };
    let wake = woken_by_release(runner.permit, id);
    match action {
        PoolActionView::Connected(port) => Progress {
            runner: released,
            run: RunView::Releasing(job, Ok(port)),
            action: RunActionView::ReleasePermit { wake },
        },
        PoolActionView::Failed(e) => Progress {
            runner: released,
            run: RunView::Releasing(job, Err(e)),
            action: RunActionView::ReleasePermit { wake },
        },
        other => Progress {
            runner,
            run: RunView::Connecting(job, id, connection),
            action: RunActionView::Pool(other),
        },
    }
}

/// One step of a run: what becomes of the runner and of the run when the
/// event comes in, and what is to be done next. Only events that the run
/// accepts are ever handed in; the last arm stands for the others and is of
/// no interest.
pub open spec fn next(runner: RunnerView, run: RunView, event: RunEventView) -> Progress {
    match (run, event) {
        (RunView::Delegated, RunEventView::Executed(Ok(r))) => Progress {
            runner,
            run: RunView::Finished,
            action: RunActionView::Finish(Ok(r)),
        },
        (RunView::Delegated, RunEventView::Executed(Err(e))) => Progress {
            runner,
            run: RunView::Finished,
            action: RunActionView::Finish(Err(RunErrorView::Delegate(e))),
        },
        (RunView::Preparing(job), RunEventView::WorkdirReady(Ok(path))) => {
            let id = runner.next_id;
            let asked = RunnerView {
                permit: after_acquire(runner.permit, id),
                next_id: (id + 1) as usize,
                ..runner
            };
            if granted_by_acquire(runner.permit, id) {
                begin_connect(asked, job, path, id)
            } else {
                Progress {
                    runner: asked,
                    run: RunView::Queued(job, path, id),
                    action: RunActionView::AwaitPermit { id },
                }
            }
        },
        (RunView::Preparing(job), RunEventView::WorkdirReady(Err(e))) => Progress {
            runner,
            run: RunView::Finished,
            action: RunActionView::Finish(Err(RunErrorView::Workdir(e))),
        },
        (RunView::Queued(job, workdir, id), RunEventView::PermitAcquired) => begin_connect(
            runner,
            job,
            workdir,
            id,
        ),
        (RunView::Connecting(job, id, connection), RunEventView::Pool(e)) => {
            let step = advance(runner.pool, connection, e);
            after_pool_step(
                RunnerView { pool: step.pool, ..runner },
                job,
                id,
                step.connection,
                step.action,
            )
        },
        (RunView::Releasing(job, Ok(port)), RunEventView::PermitReleased) => Progress {
            runner,
            run: RunView::Delegated,
            action: RunActionView::Delegate(
                client_request(
                    job.original,
                    runner.python_distribution,
                    job.client_main_class,
                    job.client_args,
                    port,
                ),
            ),
        },
        (RunView::Releasing(job, Err(e)), RunEventView::PermitReleased) => Progress {
            runner,
            run: RunView::Finished,
            action: RunActionView::Finish(Err(RunErrorView::Pool(e))),
        },
        _ => Progress { runner, run, action: RunActionView::ReleasePermit { wake: None } },
    }
}

/// What becomes of the permit when a run that waits for it is given up: a
/// run that still waits leaves the queue; a run that was handed the permit
/// meanwhile gives it back.
pub open spec fn after_abandon(runner: RunnerView, id: usize) -> RunnerView {
    if runner.permit.holders.contains(id) {
        RunnerView { permit: after_release(runner.permit, id), ..runner }
    } else {
        RunnerView { permit: after_forget(runner.permit, id), ..runner }
    }
}

/// Who is to be woken when a run that waits for the permit is given up.
pub open spec fn woken_by_abandon(runner: RunnerView, id: usize) -> Option<usize> {
    if runner.permit.holders.contains(id) {
        woken_by_release(runner.permit, id)
    } else {
        None
    }
}

/// A command runner that can run requests under nailgun. It owns the pool
/// of servers and the one permit that guards the pool.
#[derive(Debug, PartialEq, Eq)]
pub struct CommandRunner {
    nailgun_pool: NailgunPool,
    async_semaphore: AsyncSemaphore,
    next_id: usize,
    metadata: ExecuteProcessRequestMetadata,
    workdir_base: String,
    python_distribution_absolute_path: String,
}

impl View for CommandRunner {
    type V = RunnerView;

    closed spec fn view(&self) -> RunnerView {
        RunnerView {
            pool: self.nailgun_pool@,
            permit: self.async_semaphore@,
            next_id: self.next_id,
            metadata: self.metadata@,
            python_distribution: self.python_distribution_absolute_path@,
            workdir_base: self.workdir_base@,
        }
    }
}

impl CommandRunner {
    /// A runner with an empty pool and one permit, which is free.
    pub fn new(
        metadata: ExecuteProcessRequestMetadata,
        python_distribution_absolute_path: String,
        workdir_base: String,
    ) -> (runner: CommandRunner)
        ensures
            runner@.pool == Map::<Seq<char>, crate::nailgun_pool::ProcessView>::empty(),
            runner@.permit == (SemaphoreView {
                permits: 1,
                holders: Seq::empty(),
                waiters: Seq::empty(),
            }),
            runner@.next_id == 0,
            runner@.metadata == metadata@,
            runner@.python_distribution == python_distribution_absolute_path@,
            runner@.workdir_base == workdir_base@,
    {
        CommandRunner {
            nailgun_pool: NailgunPool::new(),
            async_semaphore: AsyncSemaphore::new(1),
            next_id: 0,
            metadata,
            workdir_base,
            python_distribution_absolute_path,
        }
    }

    /// The name under which the server for `main_class` is kept.
    pub fn calculate_nailgun_name(main_class: &str) -> (name: NailgunProcessName)
        ensures
            name@ == nailgun_name(main_class@),
    {
        text::join("nailgun_server_", main_class)
    }

    /// The path of the distribution that runs the nailgun client.
    pub fn get_python_distribution_path(&self) -> (path: String)
        ensures
            path@ == self@.python_distribution,
    {
        self.python_distribution_absolute_path.clone()
    }

    /// The servers that are kept running.
    pub fn pool(&self) -> (pool: &NailgunPool)
        ensures
            pool@ == self@.pool,
    {
        &self.nailgun_pool
    }

    /// The books of the permit that guards the pool.
    pub fn permit(&self) -> (permit: &AsyncSemaphore)
        ensures
            permit@ == self@.permit,
    {
        &self.async_semaphore
    }

    /// Asks for the permit under `id` and tells whether `id` holds it now.
    fn acquire_permit(&mut self, id: usize) -> (granted: bool)
        ensures
            balanced(old(self)@.permit),
            balanced(final(self)@.permit),
            final(self)@ == (RunnerView {
                permit: after_acquire(old(self)@.permit, id),
                ..old(self)@
            }),
            granted == granted_by_acquire(old(self)@.permit, id),
    {
        self.async_semaphore.acquire(id)
    }

    /// Gives back the permit that `id` holds and tells whom it went on to.
    fn release_permit(&mut self, id: usize) -> (woken: Option<usize>)
        ensures
            balanced(old(self)@.permit),
            balanced(final(self)@.permit),
            final(self)@ == (RunnerView {
                permit: after_release(old(self)@.permit, id),
                ..old(self)@
            }),
            woken == woken_by_release(old(self)@.permit, id),
    {
        self.async_semaphore.release(id)
    }

    /// Says what follows a step of the pool, and gives the permit back if
    /// the connect is over.
    fn after_step(&mut self, job: Job, id: usize, connection: Connection, action: PoolAction) -> (step:
        (Run, RunAction))
        ensures
            balanced(old(self)@.permit),
            balanced(final(self)@.permit),
            after_pool_step(old(self)@, job@, id, connection@, action@) == (Progress {
                runner: final(self)@,
                run: step.0@,
                action: step.1@,
            }),
    {
        self.async_semaphore.in_order();
        match action {
            PoolAction::Connected(port) => {
                let wake = self.release_permit(id);
                (
                    Run { state: RunState::Releasing(job, Ok(port)) },
                    RunAction::ReleasePermit { wake },
                )
            },
            PoolAction::Failed(e) => {
                let wake = self.release_permit(id);
                (
                    Run { state: RunState::Releasing(job, Err(e)) },
                    RunAction::ReleasePermit { wake },
                )
            },
            other => (
                Run { state: RunState::Connecting(job, id, connection) },
                RunAction::Pool(other),
            ),
        }
    }

    /// Begins the connect of a run that holds the permit under `id`.
    fn connect(&mut self, job: Job, workdir: String, id: usize) -> (step: (Run, RunAction))
        ensures
            pool_ok(old(self)@.pool),
            pool_ok(final(self)@.pool),
            balanced(old(self)@.permit),
            balanced(final(self)@.permit),
            begin_connect(old(self)@, job@, workdir@, id) == (Progress {
                runner: final(self)@,
                run: step.0@,
                action: step.1@,
            }),
    {
        let (connection, action) = self.nailgun_pool.connect(
            job.nailgun_name.clone(),
            job.server_request.clone(),
            workdir,
            job.fingerprint,
            job.build_id.clone(),
            job.original.input_files,
        );
        self.after_step(job, id, connection, action)
    }

    /// Tells whether `run` can take `event` now.
    pub fn accepts(&self, run: &Run, event: &RunEvent) -> (b: bool)
        ensures
            b == accepts(self@, run@, event@),
    {
        match (&run.state, event) {
            (RunState::Delegated, RunEvent::Executed(_)) => true,
            (RunState::Preparing(_), RunEvent::WorkdirReady(Ok(_))) => self.next_id < usize::MAX,
            (RunState::Preparing(_), RunEvent::WorkdirReady(Err(_))) => true,
            (RunState::Queued(_, _, id), RunEvent::PermitAcquired) => self.async_semaphore.holds(
                *id,
            ),
            (RunState::Connecting(_, _, connection), RunEvent::Pool(e)) => connection.expects(e),
            (RunState::Releasing(_, _), RunEvent::PermitReleased) => true,
            _ => false,
        }
    }

    /// Begins a run of `req` and says what to do first.
    pub fn run(&self, req: ExecuteProcessRequest, build_id: String) -> (step: (Run, RunAction))
        ensures
            plan(self@, req@, build_id@) == (Progress {
                runner: self@,
                run: step.0@,
                action: step.1@,
            }),
    {
        if !req.is_nailgunnable {
            return (Run { state: RunState::Delegated }, RunAction::Delegate(req));
        }
        let parsed = match ParsedJVMCommandLines::parse_command_lines(req.argv.as_slice()) {
            Ok(parsed) => parsed,
            Err(e) => {
                return (
                    Run { state: RunState::Finished },
                    RunAction::Finish(Err(RunError::Parse(e))),
                );
            },
        };
        let ParsedJVMCommandLines { nailgun_args, client_args, client_main_class } = parsed;
        let nailgun_name = CommandRunner::calculate_nailgun_name(client_main_class.as_str());
        let jdk_home = match &req.jdk_home {
            Some(jdk) => jdk.clone(),
            None => {
                return (
                    Run { state: RunState::Finished },
                    RunAction::Finish(Err(RunError::Configuration)),
                );
            },
        };
        let nailgun_req = construct_nailgun_server_request(
            nailgun_name.as_str(),
            nailgun_args,
            jdk_home,
            req.target_platform,
        );
        let nailgun_req_digest = digest(&nailgun_req, &self.metadata);
        let action = RunAction::EnsureWorkdir {
            base: self.workdir_base.clone(),
            name: nailgun_name.clone(),
        };
        let job = Job {
            original: req,
            client_main_class,
            client_args,
            nailgun_name,
            server_request: nailgun_req,
            fingerprint: nailgun_req_digest,
            build_id,
        };
        (Run { state: RunState::Preparing(job) }, action)
    }

    /// Takes one step of a run: given what the last action led to, says
    /// what to do next. The event has to be one that the run accepts,
    /// which [`CommandRunner::accepts`] tells.
    pub fn resume(&mut self, run: Run, event: RunEvent) -> (step: (Run, RunAction))
        requires
            accepts(old(self)@, run@, event@),
        ensures
            pool_ok(old(self)@.pool),
            pool_ok(final(self)@.pool),
            balanced(old(self)@.permit),
            balanced(final(self)@.permit),
            next(old(self)@, run@, event@) == (Progress {
                runner: final(self)@,
                run: step.0@,
                action: step.1@,
            }),
    {
        self.nailgun_pool.in_order();
        self.async_semaphore.in_order();
        match run.state {
            RunState::Delegated => match event {
                RunEvent::Executed(Ok(r)) => (
                    Run { state: RunState::Finished },
                    RunAction::Finish(Ok(r)),
                ),
                RunEvent::Executed(Err(e)) => (
                    Run { state: RunState::Finished },
                    RunAction::Finish(Err(RunError::Delegate(e))),
                ),
                _ => (Run { state: RunState::Delegated }, RunAction::ReleasePermit { wake: None }),
            },
            RunState::Preparing(job) => match event {
                RunEvent::WorkdirReady(Ok(path)) => {
                    let id = self.next_id;
                    self.next_id = id + 1;
                    if self.acquire_permit(id) {
                        self.connect(job, path, id)
                    } else {
                        (
                            Run { state: RunState::Queued(job, path, id) },
                            RunAction::AwaitPermit { id },
                        )
                    }
                },
                RunEvent::WorkdirReady(Err(e)) => (
                    Run { state: RunState::Finished },
                    RunAction::Finish(Err(RunError::Workdir(e))),
                ),
                _ => (
                    Run { state: RunState::Preparing(job) },
                    RunAction::ReleasePermit { wake: None },
                ),
            },
            RunState::Queued(job, workdir, id) => self.connect(job, workdir, id),
            RunState::Connecting(job, id, connection) => match event {
                RunEvent::Pool(e) => {
                    let (connection, action) = self.nailgun_pool.advance(connection, e);
                    self.after_step(job, id, connection, action)
                },
                _ => (
                    Run { state: RunState::Connecting(job, id, connection) },
                    RunAction::ReleasePermit { wake: None },
                ),
            },
            RunState::Releasing(job, outcome) => match outcome {
                Ok(port) => {
                    let python_distribution = self.python_distribution_absolute_path.clone();
                    let Job { original, client_main_class, client_args, .. } = job;
                    let full_client_req = construct_nailgun_client_request(
                        original,
                        python_distribution,
                        client_main_class,
                        client_args,
                        port,
                    );
                    (Run { state: RunState::Delegated }, RunAction::Delegate(full_client_req))
                },
                Err(e) => (
                    Run { state: RunState::Finished },
                    RunAction::Finish(Err(RunError::Pool(e))),
                ),
            },
            RunState::Finished => (
                Run { state: RunState::Finished },
                RunAction::ReleasePermit { wake: None },
            ),
        }
    }

    /// Takes one step of a run if the run accepts the event, and hands both
    /// back untouched if it does not.
    pub fn try_resume(&mut self, run: Run, event: RunEvent) -> (r: Result<
        (Run, RunAction),
        (Run, RunEvent),
    >)
        ensures
            pool_ok(old(self)@.pool),
            pool_ok(final(self)@.pool),
            balanced(old(self)@.permit),
            balanced(final(self)@.permit),
            r is Ok <==> accepts(old(self)@, run@, event@),
            match r {
                Ok(step) => next(old(self)@, run@, event@) == (Progress {
                    runner: final(self)@,
                    run: step.0@,
                    action: step.1@,
                }),
                Err(back) => back.0@ == run@ && back.1@ == event@ && final(self)@ == old(self)@,
            },
    {
        if self.accepts(&run, &event) {
            Ok(self.resume(run, event))
        } else {
            self.nailgun_pool.in_order();
            self.async_semaphore.in_order();
            Err((run, event))
        }
    }

    /// Gives up a run that waits for the permit. A run that still waits
    /// leaves the queue. A run that was handed the permit meanwhile gives
    /// it back, and whoever it goes on to is named to be woken. Any other
    /// run is handed back untouched: it holds nothing of the runner's, or
    /// it is in the middle of a connect, which has to be driven to its end.
    pub fn abandon(&mut self, run: Run) -> (r: Result<Option<usize>, Run>)
        ensures
            balanced(old(self)@.permit),
            balanced(final(self)@.permit),
            r is Ok <==> run@ is Queued,
            match r {
                Ok(wake) => final(self)@ == after_abandon(old(self)@, run@->Queued_2) && wake
                    == woken_by_abandon(old(self)@, run@->Queued_2),
                Err(back) => back@ == run@ && final(self)@ == old(self)@,
            },
    {
        self.async_semaphore.in_order();
        match run.state {
            RunState::Queued(job, workdir, id) => {
                if self.async_semaphore.holds(id) {
                    Ok(self.release_permit(id))
                } else {
                    self.async_semaphore.forget(id);
                    Ok(None)
                }
            },
            other => Err(Run { state: other }),
        }
    }
}

} // verus!
