//! The pool of resident nailgun servers.
//!
//! The pool maps a logical name to the one server that runs under it. A
//! connect asks for the port of a server with a given fingerprint: a server
//! that is there, has that fingerprint and is found alive is reused; in every
//! other case the files are materialized, what ran under the name is
//! terminated, and a new server is started and waited for.
//!
//! The pool only decides. Each step hands out a [`PoolAction`] for the caller
//! to perform and takes the outcome back as a [`PoolEvent`]. A connect that
//! was begun has to be driven to its end.
//!
//! The pool does not itself keep connects apart: every step is defined on
//! the pool as it is when the step is taken. Keeping them apart is the work
//! of the command runner, which lets a run connect only while that run
//! holds the runner's one permit.

use crate::digest::{Digest, DigestView};
use crate::request::{ExecuteProcessRequest, RequestView, Timeout};
use crate::text;
use vstd::prelude::*;

verus! {

/// The name under which a server is kept in the pool.
pub type NailgunProcessName = String;

/// A port on which a nailgun server listens.
pub type Port = usize;

/// The handle of a started process.
pub type Pid = usize;

/// Whether a process was found running.
#[derive(Clone, Copy, Debug, PartialEq, Eq, Structural)]
pub enum Liveness {
    Alive,
    Dead,
}

/// A resident server: the name it runs under, the fingerprint of the request
/// that started it, the port it announced, its process, its directory, and
/// how it was found when it was last looked at.
#[derive(Debug, PartialEq, Eq)]
pub struct NailgunProcess {
    pub name: NailgunProcessName,
    pub fingerprint: Digest,
    pub port: Port,
    pub pid: Pid,
    pub workdir: String,
    pub liveness: Liveness,
}

/// The model of a [`NailgunProcess`].
pub struct ProcessView {
    pub name: Seq<char>,
    pub fingerprint: DigestView,
    pub port: Port,
    pub pid: Pid,
    pub workdir: Seq<char>,
    pub liveness: Liveness,
}

impl View for NailgunProcess {
    type V = ProcessView;

    open spec fn view(&self) -> ProcessView {
        ProcessView {
            name: self.name@,
            fingerprint: self.fingerprint@,
            port: self.port,
            pid: self.pid,
            workdir: self.workdir@,
            liveness: self.liveness,
        }
    }
}

impl DeepView for NailgunProcess {
    type V = ProcessView;

    open spec fn deep_view(&self) -> ProcessView {
        self@
    }
}

impl Clone for NailgunProcess {
    fn clone(&self) -> (copy: Self)
        ensures
            copy@ == self@,
    {
        NailgunProcess {
            name: self.name.clone(),
            fingerprint: self.fingerprint,
            port: self.port,
            pid: self.pid,
            workdir: self.workdir.clone(),
            liveness: self.liveness,
        }
    }
}

/// Why no server could be had.
#[derive(Debug, PartialEq, Eq)]
pub enum PoolStartError {
    /// The files the server needs could not be put into its directory.
    MaterializeFailed(String),
    /// The server process could not be started.
    SpawnFailed(String),
    /// The server did not announce its port in time.
    StartupTimeout,
}

/// The model of a [`PoolStartError`].
pub enum PoolStartErrorView {
    MaterializeFailed(Seq<char>),
    SpawnFailed(Seq<char>),
    StartupTimeout,
}

impl View for PoolStartError {
    type V = PoolStartErrorView;

    open spec fn view(&self) -> PoolStartErrorView {
        match self {
            PoolStartError::MaterializeFailed(e) => PoolStartErrorView::MaterializeFailed(e@),
            PoolStartError::SpawnFailed(e) => PoolStartErrorView::SpawnFailed(e@),
            PoolStartError::StartupTimeout => PoolStartErrorView::StartupTimeout,
        }
    }
}

/// What the message of an error reads. A failure to materialize or to
/// start reads as it was reported.
pub open spec fn pool_error_message(e: PoolStartErrorView) -> Seq<char> {
    match e {
        PoolStartErrorView::MaterializeFailed(m) => m,
        PoolStartErrorView::SpawnFailed(m) => m,
        PoolStartErrorView::StartupTimeout =>
            "The nailgun server did not announce its port in time."@,
    }
}

impl PoolStartError {
    /// The error in words.
    pub fn message(&self) -> (m: String)
        ensures
            m@ == pool_error_message(self@),
    {
        match self {
            PoolStartError::MaterializeFailed(e) => e.clone(),
            PoolStartError::SpawnFailed(e) => e.clone(),
            PoolStartError::StartupTimeout => String::from_str(
                "The nailgun server did not announce its port in time.",
            ),
        }
    }
}

/// What the caller reports back after performing an action.
#[derive(Debug, PartialEq, Eq)]
pub enum PoolEvent {
    /// The answer to a probe.
    Liveness(Liveness),
    /// The files are in the directory, or why they are not.
    Materialized(Result<(), String>),
    /// The process was told to end and is gone.
    Terminated,
    /// The handle of the started server, or why it did not start.
    Spawned(Result<Pid, String>),
    /// The port the server announced, or nothing if the wait ran out.
    PortAnnounced(Option<Port>),
}

/// The model of a [`PoolEvent`].
pub enum PoolEventView {
    Liveness(Liveness),
    Materialized(Result<(), Seq<char>>),
    Terminated,
    Spawned(Result<Pid, Seq<char>>),
    PortAnnounced(Option<Port>),
}

impl View for PoolEvent {
    type V = PoolEventView;

    open spec fn view(&self) -> PoolEventView {
        match self {
            PoolEvent::Liveness(l) => PoolEventView::Liveness(*l),
            PoolEvent::Materialized(Ok(_)) => PoolEventView::Materialized(Ok(())),
            PoolEvent::Materialized(Err(e)) => PoolEventView::Materialized(Err(e@)),
            PoolEvent::Terminated => PoolEventView::Terminated,
            PoolEvent::Spawned(Ok(pid)) => PoolEventView::Spawned(Ok(*pid)),
            PoolEvent::Spawned(Err(e)) => PoolEventView::Spawned(Err(e@)),
            PoolEvent::PortAnnounced(p) => PoolEventView::PortAnnounced(*p),
        }
    }
}

/// What the caller is asked to do next, or how the connect ended.
#[derive(Debug, PartialEq, Eq)]
pub enum PoolAction {
    /// Find out whether the process is still running.
    Probe { pid: Pid },
    /// Put the files with this digest into the directory.
    Materialize { input_files: Digest, workdir: String },
    /// End the process and reap it.
    Terminate { pid: Pid },
    /// Start a server with this request in the directory.
    Spawn { request: ExecuteProcessRequest, workdir: String, build_id: String },
    /// Wait, no longer than the timeout, for the server to announce its port.
    AwaitPort { pid: Pid, timeout: Timeout },
    /// The connect is over: a server is ready on this port.
    Connected(Port),
    /// The connect is over: no server could be had.
    Failed(PoolStartError),
}

/// The model of a [`PoolAction`].
pub enum PoolActionView {
    Probe { pid: Pid },
    Materialize { input_files: DigestView, workdir: Seq<char> },
    Terminate { pid: Pid },
    Spawn { request: RequestView, workdir: Seq<char>, build_id: Seq<char> },
    AwaitPort { pid: Pid, timeout: Timeout },
    Connected(Port),
    Failed(PoolStartErrorView),
}

impl View for PoolAction {
    type V = PoolActionView;

    open spec fn view(&self) -> PoolActionView {
        match self {
            PoolAction::Probe { pid } => PoolActionView::Probe { pid: *pid },
            PoolAction::Materialize { input_files, workdir } => PoolActionView::Materialize {
                input_files: input_files@,
                workdir: workdir@,
            },
            PoolAction::Terminate { pid } => PoolActionView::Terminate { pid: *pid },
            PoolAction::Spawn { request, workdir, build_id } => PoolActionView::Spawn {
                request: request@,
                workdir: workdir@,
                build_id: build_id@,
            },
            PoolAction::AwaitPort { pid, timeout } => PoolActionView::AwaitPort {
                pid: *pid,
                timeout: *timeout,
            },
            PoolAction::Connected(port) => PoolActionView::Connected(*port),
            PoolAction::Failed(e) => PoolActionView::Failed(e@),
        }
    }
}

/// How far a connect has come.
#[derive(Debug, PartialEq, Eq)]
pub enum Phase {
    /// A server with the right fingerprint is in the pool; its liveness is
    /// being probed.
    Probing { pid: Pid, port: Port },
    /// The files are being materialized. `old` is the process that ran under
    /// the name and has yet to be terminated.
    Materializing { old: Option<Pid> },
    /// The process that ran under the name is being terminated; the new
    /// server is started next.
    Terminating,
    /// The new server is being started.
    Spawning,
    /// The new server runs and is expected to announce its port.
    AwaitingPort { pid: Pid },
    /// The connect has failed; a process is being terminated before the
    /// failure is reported.
    Aborting { error: PoolStartError },
    /// The connect is over.
    Done,
}

/// The model of a [`Phase`].
pub enum PhaseView {
    Probing { pid: Pid, port: Port },
    Materializing { old: Option<Pid> },
    Terminating,
    Spawning,
    AwaitingPort { pid: Pid },
    Aborting { error: PoolStartErrorView },
    Done,
}

impl View for Phase {
    type V = PhaseView;

    open spec fn view(&self) -> PhaseView {
        match self {
            Phase::Probing { pid, port } => PhaseView::Probing { pid: *pid, port: *port },
            Phase::Materializing { old } => PhaseView::Materializing { old: *old },
            Phase::Terminating => PhaseView::Terminating,
            Phase::Spawning => PhaseView::Spawning,
            Phase::AwaitingPort { pid } => PhaseView::AwaitingPort { pid: *pid },
            Phase::Aborting { error } => PhaseView::Aborting { error: error@ },
            Phase::Done => PhaseView::Done,
        }
    }
}

/// A connect under way: what was asked for, and how far it has come.
#[derive(Debug, PartialEq, Eq)]
pub struct Connection {
    name: NailgunProcessName,
    startup_options: ExecuteProcessRequest,
    workdir: String,
    fingerprint: Digest,
    input_files: Digest,
    build_id: String,
    phase: Phase,
}

/// The model of a [`Connection`].
pub struct ConnectionView {
    pub name: Seq<char>,
    pub startup_options: RequestView,
    pub workdir: Seq<char>,
    pub fingerprint: DigestView,
    pub input_files: DigestView,
    pub build_id: Seq<char>,
    pub phase: PhaseView,
}

impl View for Connection {
    type V = ConnectionView;

    closed spec fn view(&self) -> ConnectionView {
        ConnectionView {
            name: self.name@,
            startup_options: self.startup_options@,
            workdir: self.workdir@,
            fingerprint: self.fingerprint@,
            input_files: self.input_files@,
            build_id: self.build_id@,
            phase: self.phase@,
        }
    }
}

/// The model of the pool: the server that runs under each name.
pub type PoolView = Map<Seq<char>, ProcessView>;

/// Every server is filed under its own name, listens on a real port, and
/// was alive when it was last looked at: a server that is found dead leaves
/// the pool in the same step.
pub open spec fn pool_ok(pool: PoolView) -> bool {
    forall|name: Seq<char>| #[trigger]
        pool.dom().contains(name) ==> pool[name].name == name && pool[name].port > 0
            && pool[name].liveness == Liveness::Alive
}

/// The pool, the connect and the action after one step.
pub struct Outcome {
    pub pool: PoolView,
    pub connection: ConnectionView,
    pub action: PoolActionView,
}

/// The request to materialize the files of a connect.
pub open spec fn materialize(c: ConnectionView) -> PoolActionView {
    PoolActionView::Materialize { input_files: c.input_files, workdir: c.workdir }
}

/// The request to start the server of a connect.
pub open spec fn spawn(c: ConnectionView) -> PoolActionView {
    PoolActionView::Spawn {
        request: c.startup_options,
        workdir: c.workdir,
        build_id: c.build_id,
    }
}

/// The server that a connect files in the pool once it has announced `port`.
pub open spec fn started(c: ConnectionView, pid: Pid, port: Port) -> ProcessView {
    ProcessView {
        name: c.name,
        fingerprint: c.fingerprint,
        port,
        pid,
        workdir: c.workdir,
        liveness: Liveness::Alive,
    }
}

/// The first step of a connect. A server under the name with the fingerprint
/// asked for is probed and stays in the pool. A server with another
/// fingerprint leaves the pool and waits for its termination. In both of the
/// cases without a usable server the files are materialized first.
pub open spec fn begin(
    pool: PoolView,
    name: Seq<char>,
    startup_options: RequestView,
    workdir: Seq<char>,
    fingerprint: DigestView,
    build_id: Seq<char>,
    input_files: DigestView,
) -> Outcome {
    let fresh = ConnectionView {
        name,
        startup_options,
        workdir,
        fingerprint,
        input_files,
        build_id,
        phase: PhaseView::Materializing { old: None },
    };
    if pool.dom().contains(name) {
        let found = pool[name];
        if found.fingerprint == fingerprint {
            Outcome {
                pool,
                connection: ConnectionView {
                    phase: PhaseView::Probing { pid: found.pid, port: found.port },
                    ..fresh
                },
                action: PoolActionView::Probe { pid: found.pid },
            }
        } else {
            Outcome {
                pool: pool.remove(name),
                connection: ConnectionView {
                    phase: PhaseView::Materializing { old: Some(found.pid) },
                    ..fresh
                },
                action: materialize(fresh),
            }
        }
    } else {
        Outcome { pool, connection: fresh, action: materialize(fresh) }
    }
}

/// The events a connect can take in a phase. A port that is announced is
/// positive.
pub open spec fn expects(phase: PhaseView, event: PoolEventView) -> bool {
    match (phase, event) {
        (PhaseView::Probing { .. }, PoolEventView::Liveness(_)) => true,
        (PhaseView::Materializing { .. }, PoolEventView::Materialized(_)) => true,
        (PhaseView::Terminating, PoolEventView::Terminated) => true,
        (PhaseView::Spawning, PoolEventView::Spawned(_)) => true,
        (PhaseView::AwaitingPort { .. }, PoolEventView::PortAnnounced(Some(port))) => port > 0,
        (PhaseView::AwaitingPort { .. }, PoolEventView::PortAnnounced(None)) => true,
        (PhaseView::Aborting { .. }, PoolEventView::Terminated) => true,
        _ => false,
    }
}

/// One step of a connect: what becomes of the pool and of the connect when
/// the event comes in, and what is to be done next. Only events that the
/// phase expects are ever handed in; the last arm stands for the others and
/// is of no interest.
pub open spec fn advance(pool: PoolView, c: ConnectionView, event: PoolEventView) -> Outcome {
    match (c.phase, event) {
        (PhaseView::Probing { pid, port }, PoolEventView::Liveness(Liveness::Alive)) => Outcome {
            pool,
            connection: ConnectionView { phase: PhaseView::Done, ..c },
            action: PoolActionView::Connected(port),
        },
        (PhaseView::Probing { pid, port }, PoolEventView::Liveness(Liveness::Dead)) => Outcome {
            pool: pool.remove(c.name),
            connection: ConnectionView {
                phase: PhaseView::Materializing { old: Some(pid) },
                ..c
            },
            action: materialize(c),
        },
        (PhaseView::Materializing { old: Some(pid) }, PoolEventView::Materialized(Ok(_))) => {
            Outcome {
                pool,
                connection: ConnectionView { phase: PhaseView::Terminating, ..c },
                action: PoolActionView::Terminate { pid },
            }
        },
        (PhaseView::Materializing { old: None }, PoolEventView::Materialized(Ok(_))) => Outcome {
            pool,
            connection: ConnectionView { phase: PhaseView::Spawning, ..c },
            action: spawn(c),
        },
        (PhaseView::Materializing { old: Some(pid) }, PoolEventView::Materialized(Err(e))) => {
            Outcome {
                pool,
                connection: ConnectionView {
                    phase: PhaseView::Aborting {
                        error: PoolStartErrorView::MaterializeFailed(e),
                    },
                    ..c
                },
                action: PoolActionView::Terminate { pid },
            }
        },
        (PhaseView::Materializing { old: None }, PoolEventView::Materialized(Err(e))) => Outcome {
            pool,
            connection: ConnectionView { phase: PhaseView::Done, ..c },
            action: PoolActionView::Failed(PoolStartErrorView::MaterializeFailed(e)),
        },
        (PhaseView::Terminating, PoolEventView::Terminated) => Outcome {
            pool,
            connection: ConnectionView { phase: PhaseView::Spawning, ..c },
            action: spawn(c),
        },
        (PhaseView::Spawning, PoolEventView::Spawned(Ok(pid))) => Outcome {
            pool,
            connection: ConnectionView { phase: PhaseView::AwaitingPort { pid }, ..c },
            action: PoolActionView::AwaitPort { pid, timeout: c.startup_options.timeout },
        },
        (PhaseView::Spawning, PoolEventView::Spawned(Err(e))) => Outcome {
            pool,
            connection: ConnectionView { phase: PhaseView::Done, ..c },
            action: PoolActionView::Failed(PoolStartErrorView::SpawnFailed(e)),
        },
        (PhaseView::AwaitingPort { pid }, PoolEventView::PortAnnounced(Some(port))) => Outcome {
            pool: pool.insert(c.name, started(c, pid, port)),
            connection: ConnectionView { phase: PhaseView::Done, ..c },
            action: PoolActionView::Connected(port),
        },
        (PhaseView::AwaitingPort { pid }, PoolEventView::PortAnnounced(None)) => Outcome {
            pool,
            connection: ConnectionView {
                phase: PhaseView::Aborting { error: PoolStartErrorView::StartupTimeout },
                ..c
            },
            action: PoolActionView::Terminate { pid },
        },
        (PhaseView::Aborting { error }, PoolEventView::Terminated) => Outcome {
            pool,
            connection: ConnectionView { phase: PhaseView::Done, ..c },
            action: PoolActionView::Failed(error),
        },
        _ => Outcome { pool, connection: c, action: PoolActionView::Failed(
            PoolStartErrorView::StartupTimeout,
        ) },
    }
}

/// Some server in the list runs under `name`.
spec fn has_name(s: Seq<ProcessView>, name: Seq<char>) -> bool {
    exists|i: int| 0 <= i < s.len() && s[i].name == name
}

/// A position in the list at which a server runs under `name`.
spec fn name_index(s: Seq<ProcessView>, name: Seq<char>) -> int {
    choose|i: int| 0 <= i < s.len() && s[i].name == name
}

/// No two servers in the list run under one name, and each has a port and
/// was last found alive.
spec fn well_filed(s: Seq<ProcessView>) -> bool {
    &&& forall|i: int, j: int| 0 <= i < j < s.len() ==> s[i].name != s[j].name
    &&& forall|i: int|
        0 <= i < s.len() ==> (#[trigger] s[i]).port > 0 && s[i].liveness == Liveness::Alive
}

/// The list as a map from name to server.
spec fn filed(s: Seq<ProcessView>) -> PoolView {
    Map::new(|name: Seq<char>| has_name(s, name), |name: Seq<char>| s[name_index(s, name)])
}

proof fn lemma_filed_ok(s: Seq<ProcessView>)
    requires
        well_filed(s),
    ensures
        pool_ok(filed(s)),
        forall|i: int| 0 <= i < s.len() ==> has_name(s, (#[trigger] s[i]).name) && name_index(s, s[i].name) == i,
{
    assert forall|i: int| 0 <= i < s.len() implies has_name(s, (#[trigger] s[i]).name)
        && name_index(s, s[i].name) == i by {
        assert(s[i].name == s[i].name);
    }
}

proof fn lemma_filed_push(s: Seq<ProcessView>, e: ProcessView)
    requires
        well_filed(s),
        !has_name(s, e.name),
        e.port > 0,
        e.liveness == Liveness::Alive,
    ensures
        well_filed(s.push(e)),
        filed(s.push(e)) == filed(s).insert(e.name, e),
{
    let t = s.push(e);
    assert(well_filed(t));
    lemma_filed_ok(s);
    lemma_filed_ok(t);
    assert(t[s.len() as int] == e);
    assert forall|name: Seq<char>| has_name(t, name) <==> (name == e.name || has_name(s, name)) by {
        if has_name(t, name) {
            let i = name_index(t, name);
            if i < s.len() {
                assert(s[i].name == name);
            }
        }
        if has_name(s, name) {
            let i = name_index(s, name);
            assert(t[i].name == name);
        }
    }
    assert forall|name: Seq<char>| has_name(t, name) implies #[trigger] filed(t)[name] == filed(
        s,
    ).insert(e.name, e)[name] by {
        let i = name_index(t, name);
        if name != e.name {
            assert(s[i].name == name);
            assert(name_index(s, name) == i);
        }
    }
    assert(filed(t) =~= filed(s).insert(e.name, e));
}

proof fn lemma_filed_remove(s: Seq<ProcessView>, at: int)
    requires
        well_filed(s),
        0 <= at < s.len(),
    ensures
        well_filed(s.remove(at)),
        filed(s.remove(at)) == filed(s).remove(s[at].name),
{
    let t = s.remove(at);
    let gone = s[at].name;
    assert(well_filed(t));
    lemma_filed_ok(s);
    lemma_filed_ok(t);
    assert forall|name: Seq<char>| has_name(t, name) <==> (name != gone && has_name(s, name)) by {
        if has_name(t, name) {
            let i = name_index(t, name);
            if i < at {
                assert(s[i].name == name);
            } else {
                assert(s[i + 1].name == name);
            }
        }
        if name != gone && has_name(s, name) {
            let i = name_index(s, name);
            if i < at {
                assert(t[i].name == name);
            } else {
                assert(t[i - 1].name == name);
            }
        }
    }
    assert forall|name: Seq<char>| has_name(t, name) implies #[trigger] filed(t)[name] == filed(
        s,
    ).remove(gone)[name] by {
        let i = name_index(t, name);
        if i < at {
            assert(s[i].name == name);
            assert(name_index(s, name) == i);
        } else {
            assert(s[i + 1].name == name);
            assert(name_index(s, name) == i + 1);
        }
    }
    assert(filed(t) =~= filed(s).remove(gone));
}

/// Finds the server that runs under `name`.
fn position(list: &Vec<NailgunProcess>, name: &str) -> (at: Option<usize>)
    requires
        well_filed(list.deep_view()),
    ensures
        at is Some <==> has_name(list.deep_view(), name@),
        at is Some ==> at->0 < list.len() && at->0 == name_index(list.deep_view(), name@),
{
    let mut i: usize = 0;
    while i < list.len()
        invariant
            i <= list.len(),
            well_filed(list.deep_view()),
            forall|j: int| 0 <= j < i ==> list.deep_view()[j].name != name@,
        decreases list.len() - i,
    {
        if text::equal(list[i].name.as_str(), name) {
            proof {
                lemma_filed_ok(list.deep_view());
                assert(list.deep_view()[i as int].name == name@);
            }
            return Some(i);
        }
        i = i + 1;
    }
    None
}

/// The servers that are kept running, each under its name.
#[derive(Debug, PartialEq, Eq)]
pub struct NailgunPool {
    processes: Vec<NailgunProcess>,
}

impl View for NailgunPool {
    type V = PoolView;

    closed spec fn view(&self) -> PoolView {
        filed(self.processes.deep_view())
    }
}

impl NailgunPool {
    #[verifier::type_invariant]
    spec fn inv(self) -> bool {
        well_filed(self.processes.deep_view())
    }

    /// A pool without servers.
    pub fn new() -> (pool: NailgunPool)
        ensures
            pool@ == Map::<Seq<char>, ProcessView>::empty(),
    {
        let pool = NailgunPool { processes: Vec::new() };
        assert(pool@ =~= Map::<Seq<char>, ProcessView>::empty());
        pool
    }

    /// Does nothing; tells the caller that every server in the pool is filed
    /// under its own name, has a port and was last found alive.
    pub fn in_order(&self)
        ensures
            pool_ok(self@),
    {
        proof {
            use_type_invariant(self);
            lemma_filed_ok(self.processes.deep_view());
        }
    }

    /// The server that runs under `name`, if there is one.
    pub fn get(&self, name: &str) -> (found: Option<NailgunProcess>)
        ensures
            pool_ok(self@),
            self@.dom().contains(name@) ==> found.deep_view() == Some(self@[name@]),
            !self@.dom().contains(name@) ==> found is None,
    {
        proof {
            use_type_invariant(self);
            lemma_filed_ok(self.processes.deep_view());
        }
        match position(&self.processes, name) {
            Some(i) => Some(self.processes[i].clone()),
            None => None,
        }
    }

    /// Takes the server that runs under `name` out of the pool.
    fn take(&mut self, name: &str) -> (taken: Option<NailgunProcess>)
        ensures
            pool_ok(old(self)@),
            pool_ok(final(self)@),
            final(self)@ == old(self)@.remove(name@),
            old(self)@.dom().contains(name@) ==> taken.deep_view() == Some(old(self)@[name@]),
            !old(self)@.dom().contains(name@) ==> taken is None,
    {
        proof {
            use_type_invariant(&*self);
            lemma_filed_ok(self.processes.deep_view());
        }
        let mut list: Vec<NailgunProcess> = Vec::new();
        core::mem::swap(&mut self.processes, &mut list);
        let ghost before = list.deep_view();
        let taken = match position(&list, name) {
            Some(i) => {
                proof {
                    lemma_filed_remove(before, i as int);
                }
                let process = list.remove(i);
                assert(list.deep_view() =~= before.remove(i as int));
                Some(process)
            },
            None => {
                assert(filed(before).remove(name@) =~= filed(before));
                None
            },
        };
        proof {
            lemma_filed_ok(list.deep_view());
        }
        core::mem::swap(&mut self.processes, &mut list);
        taken
    }

    /// Files `process` under its name, in place of what was filed there.
    fn put(&mut self, process: NailgunProcess)
        requires
            process.port > 0,
            process.liveness == Liveness::Alive,
        ensures
            pool_ok(old(self)@),
            pool_ok(final(self)@),
            final(self)@ == old(self)@.insert(process.name@, process@),
    {
        let ghost start = self@;
        let _ = self.take(process.name.as_str());
        proof {
            use_type_invariant(&*self);
        }
        let mut list: Vec<NailgunProcess> = Vec::new();
        core::mem::swap(&mut self.processes, &mut list);
        let ghost before = list.deep_view();
        proof {
            assert(!filed(before).dom().contains(process.name@));
            lemma_filed_push(before, process@);
            assert(start.remove(process.name@).insert(process.name@, process@) =~= start.insert(
                process.name@,
                process@,
            ));
        }
        list.push(process);
        assert(list.deep_view() =~= before.push(process@));
        proof {
            lemma_filed_ok(list.deep_view());
        }
        core::mem::swap(&mut self.processes, &mut list);
    }

    /// Begins a connect: asks for the port of a server that runs under
    /// `name` and was started by a request with the digest
    /// `nailgun_req_digest`. Hands back the connect and the first thing to
    /// do for it.
    pub fn connect(
        &mut self,
        name: NailgunProcessName,
        startup_options: ExecuteProcessRequest,
        workdir_path: String,
        nailgun_req_digest: Digest,
        build_id_requesting_connection: String,
        input_files: Digest,
    ) -> (step: (Connection, PoolAction))
        ensures
            pool_ok(old(self)@),
            pool_ok(final(self)@),
            begin(
                old(self)@,
                name@,
                startup_options@,
                workdir_path@,
                nailgun_req_digest@,
                build_id_requesting_connection@,
                input_files@,
            ) == (Outcome { pool: final(self)@, connection: step.0@, action: step.1@ }),
    {
        let found = self.get(name.as_str());
        let reuse = match &found {
            Some(process) => process.fingerprint.same_as(&nailgun_req_digest),
            None => false,
        };
        match found {
            Some(process) if reuse => {
                let action = PoolAction::Probe { pid: process.pid };
                let connection = Connection {
                    name,
                    startup_options,
                    workdir: workdir_path,
                    fingerprint: nailgun_req_digest,
                    input_files,
                    build_id: build_id_requesting_connection,
                    phase: Phase::Probing { pid: process.pid, port: process.port },
                };
                (connection, action)
            },
            Some(process) => {
                let _ = self.take(name.as_str());
                let action = PoolAction::Materialize { input_files, workdir: workdir_path.clone() };
                let connection = Connection {
                    name,
                    startup_options,
                    workdir: workdir_path,
                    fingerprint: nailgun_req_digest,
                    input_files,
                    build_id: build_id_requesting_connection,
                    phase: Phase::Materializing { old: Some(process.pid) },
                };
                (connection, action)
            },
            None => {
                let action = PoolAction::Materialize { input_files, workdir: workdir_path.clone() };
                let connection = Connection {
                    name,
                    startup_options,
                    workdir: workdir_path,
                    fingerprint: nailgun_req_digest,
                    input_files,
                    build_id: build_id_requesting_connection,
                    phase: Phase::Materializing { old: None },
                };
                (connection, action)
            },
        }
    }
}

impl Connection {
    /// Tells whether the connect can take `event` now.
    pub fn expects(&self, event: &PoolEvent) -> (b: bool)
        ensures
            b == expects(self@.phase, event@),
    {
        match (&self.phase, event) {
            (Phase::Probing { .. }, PoolEvent::Liveness(_)) => true,
            (Phase::Materializing { .. }, PoolEvent::Materialized(_)) => true,
            (Phase::Terminating, PoolEvent::Terminated) => true,
            (Phase::Spawning, PoolEvent::Spawned(_)) => true,
            (Phase::AwaitingPort { .. }, PoolEvent::PortAnnounced(Some(port))) => *port > 0,
            (Phase::AwaitingPort { .. }, PoolEvent::PortAnnounced(None)) => true,
            (Phase::Aborting { .. }, PoolEvent::Terminated) => true,
            _ => false,
        }
    }

    /// Tells whether the connect is over.
    pub fn is_done(&self) -> (b: bool)
        ensures
            b == (self@.phase is Done),
    {
        match &self.phase {
            Phase::Done => true,
            _ => false,
        }
    }

    /// The name under which the server is asked for.
    pub fn name(&self) -> (name: &String)
        ensures
            name@ == self@.name,
    {
        &self.name
    }
}

impl NailgunPool {
    /// Takes one step of a connect: given what the last action led to, says
    /// what to do next, and files or removes servers as the step asks. The
    /// event has to be one that the connect expects, which
    /// [`Connection::expects`] tells.
    pub fn advance(&mut self, connection: Connection, event: PoolEvent) -> (step: (
        Connection,
        PoolAction,
    ))
        requires
            expects(connection@.phase, event@),
        ensures
            pool_ok(old(self)@),
            pool_ok(final(self)@),
            advance(old(self)@, connection@, event@) == (Outcome {
                pool: final(self)@,
                connection: step.0@,
                action: step.1@,
            }),
    {
        proof {
            use_type_invariant(&*self);
            lemma_filed_ok(self.processes.deep_view());
        }
        let Connection { name, startup_options, workdir, fingerprint, input_files, build_id, phase } =
            connection;
        let (phase, action) = match phase {
            Phase::Probing { pid, port } => match event {
                PoolEvent::Liveness(Liveness::Alive) => (Phase::Done, PoolAction::Connected(port)),
                _ => {
                    let _ = self.take(name.as_str());
                    (
                        Phase::Materializing { old: Some(pid) },
                        PoolAction::Materialize { input_files, workdir: workdir.clone() },
                    )
                },
            },
            Phase::Materializing { old } => match (old, event) {
                (Some(pid), PoolEvent::Materialized(Ok(_))) => (
                    Phase::Terminating,
                    PoolAction::Terminate { pid },
                ),
                (None, PoolEvent::Materialized(Ok(_))) => (
                    Phase::Spawning,
                    PoolAction::Spawn {
                        request: startup_options.clone(),
                        workdir: workdir.clone(),
                        build_id: build_id.clone(),
                    },
                ),
                (Some(pid), PoolEvent::Materialized(Err(e))) => (
                    Phase::Aborting { error: PoolStartError::MaterializeFailed(e) },
                    PoolAction::Terminate { pid },
                ),
                (None, PoolEvent::Materialized(Err(e))) => (
                    Phase::Done,
                    PoolAction::Failed(PoolStartError::MaterializeFailed(e)),
                ),
                (old, _) => (
                    Phase::Materializing { old },
                    PoolAction::Failed(PoolStartError::StartupTimeout),
                ),
            },
            Phase::Terminating => (
                Phase::Spawning,
                PoolAction::Spawn {
                    request: startup_options.clone(),
                    workdir: workdir.clone(),
                    build_id: build_id.clone(),
                },
            ),
            Phase::Spawning => match event {
                PoolEvent::Spawned(Ok(pid)) => (
                    Phase::AwaitingPort { pid },
                    PoolAction::AwaitPort { pid, timeout: startup_options.timeout },
                ),
                PoolEvent::Spawned(Err(e)) => (
                    Phase::Done,
                    PoolAction::Failed(PoolStartError::SpawnFailed(e)),
                ),
                _ => (Phase::Spawning, PoolAction::Failed(PoolStartError::StartupTimeout)),
            },
            Phase::AwaitingPort { pid } => match event {
                PoolEvent::PortAnnounced(Some(port)) => {
                    self.put(
                        NailgunProcess {
                            name: name.clone(),
                            fingerprint,
                            port,
                            pid,
                            workdir: workdir.clone(),
                            liveness: Liveness::Alive,
                        },
                    );
                    (Phase::Done, PoolAction::Connected(port))
                },
                _ => (
                    Phase::Aborting { error: PoolStartError::StartupTimeout },
                    PoolAction::Terminate { pid },
                ),
            },
            Phase::Aborting { error } => (Phase::Done, PoolAction::Failed(error)),
            Phase::Done => (Phase::Done, PoolAction::Failed(PoolStartError::StartupTimeout)),
        };
        (
            Connection { name, startup_options, workdir, fingerprint, input_files, build_id, phase },
            action,
        )
    }
}

impl NailgunPool {
    /// Takes one step of a connect if the connect expects the event, and
    /// hands both back untouched if it does not.
    pub fn try_advance(&mut self, connection: Connection, event: PoolEvent) -> (r: Result<
        (Connection, PoolAction),
        (Connection, PoolEvent),
    >)
        ensures
            pool_ok(old(self)@),
            pool_ok(final(self)@),
            r is Ok <==> expects(connection@.phase, event@),
            match r {
                Ok(step) => advance(old(self)@, connection@, event@) == (Outcome {
                    pool: final(self)@,
                    connection: step.0@,
                    action: step.1@,
                }),
                Err(back) => back.0@ == connection@ && back.1@ == event@ && final(self)@ == old(
                    self,
                )@,
            },
    {
        if connection.expects(&event) {
            Ok(self.advance(connection, event))
        } else {
            self.in_order();
            Err((connection, event))
        }
    }
}

} // verus!
