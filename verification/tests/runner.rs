use nailgun::digest::{empty_digest, Digest};
use nailgun::fingerprint::digest;
use nailgun::nailgun_pool::{Liveness, PoolAction, PoolEvent, PoolStartError};
use nailgun::parsed_jvm_command_lines::ParseError;
use nailgun::request::{
    Env, ExecuteProcessRequest, ExecuteProcessRequestMetadata, PathSet, Platform, Timeout,
};
use nailgun::runner::{CommandRunner, FallibleExecuteProcessResult, RunAction, RunError, RunEvent};
use nailgun::translator::construct_nailgun_server_request;

const NAME: &str = "nailgun_server_com.example.Main";
const WORKDIR: &str = "/work/nailgun_server_com.example.Main";

fn strings(items: &[&str]) -> Vec<String> {
    items.iter().map(|s| s.to_string()).collect()
}

fn metadata() -> ExecuteProcessRequestMetadata {
    ExecuteProcessRequestMetadata {
        instance_name: Some("main".to_string()),
        cache_key_gen_version: None,
        platform_properties: Vec::new(),
    }
}

fn runner() -> CommandRunner {
    CommandRunner::new(metadata(), "/opt/python".to_string(), "/work".to_string())
}

fn request(argv: &[&str], jdk: Option<&str>, nailgunnable: bool) -> ExecuteProcessRequest {
    let mut env = Env::new();
    env.insert("LANG".to_string(), "C".to_string());
    let mut outputs = PathSet::new();
    outputs.insert("out.txt".to_string());
    ExecuteProcessRequest {
        argv: strings(argv),
        env,
        input_files: Digest::of_bytes(b"inputs"),
        output_files: outputs,
        output_directories: PathSet::new(),
        timeout: Timeout { secs: 60, nanos: 0 },
        description: "run the thing".to_string(),
        unsafe_local_only_files_because_we_favor_speed_over_correctness_for_this_rule:
            empty_digest(),
        jdk_home: jdk.map(|s| s.to_string()),
        target_platform: Platform::Linux,
        is_nailgunnable: nailgunnable,
    }
}

const ARGV: [&str; 6] = ["-cp", "libs/a.jar", "-Xmx512m", "com.example.Main", "--flag", "x"];

fn result(code: i32) -> FallibleExecuteProcessResult {
    FallibleExecuteProcessResult {
        stdout: b"out".to_vec(),
        stderr: b"err".to_vec(),
        exit_code: code,
        output_directory: Digest::of_bytes(b"outputs"),
    }
}

fn server() -> ExecuteProcessRequest {
    construct_nailgun_server_request(
        NAME,
        strings(&["-cp", "libs/a.jar", "-Xmx512m"]),
        "/jdk".to_string(),
        Platform::Linux,
    )
}

/// Drives a run with the events and returns every action asked for.
fn run_with(
    runner: &mut CommandRunner,
    req: ExecuteProcessRequest,
    events: Vec<RunEvent>,
) -> Vec<RunAction> {
    let (mut run, first) = runner.run(req, "build-7".to_string());
    let mut actions = vec![first];
    for event in events {
        assert!(runner.accepts(&run, &event));
        let (next, action) = runner.resume(run, event);
        run = next;
        actions.push(action);
    }
    assert!(run.is_finished());
    actions
}

fn fresh_start_events(
    pid: usize,
    port: usize,
    outcome: Result<FallibleExecuteProcessResult, String>,
) -> Vec<RunEvent> {
    vec![
        RunEvent::WorkdirReady(Ok(WORKDIR.to_string())),
        RunEvent::Pool(PoolEvent::Materialized(Ok(()))),
        RunEvent::Pool(PoolEvent::Spawned(Ok(pid))),
        RunEvent::Pool(PoolEvent::PortAnnounced(Some(port))),
        RunEvent::PermitReleased,
        RunEvent::Executed(outcome),
    ]
}

fn spawns(actions: &[RunAction]) -> usize {
    actions.iter().filter(|a| matches!(a, RunAction::Pool(PoolAction::Spawn { .. }))).count()
}

#[test]
fn nailgun_name_is_made_from_the_main_class() {
    assert_eq!(
        CommandRunner::calculate_nailgun_name("com.example.Main"),
        "nailgun_server_com.example.Main"
    );
    assert_eq!(CommandRunner::calculate_nailgun_name(""), "nailgun_server_");
}

#[test]
fn a_new_runner_has_an_empty_pool_and_one_free_permit() {
    let r = runner();
    assert_eq!(r.get_python_distribution_path(), "/opt/python");
    assert_eq!(r.pool().get(NAME), None);
    assert_eq!(r.permit().available_permits(), 1);
    assert_eq!(r.permit().num_waiters(), 0);
}

#[test]
fn a_plain_request_goes_to_the_executor_unchanged() {
    let mut r = runner();
    let actions = run_with(
        &mut r,
        request(&["/bin/echo", "hi"], None, false),
        vec![RunEvent::Executed(Ok(result(3)))],
    );
    assert_eq!(
        actions,
        vec![
            RunAction::Delegate(request(&["/bin/echo", "hi"], None, false)),
            RunAction::Finish(Ok(result(3))),
        ]
    );
    assert_eq!(r.pool().get(NAME), None);
    assert_eq!(r.permit().available_permits(), 1);
}

#[test]
fn a_plain_request_is_not_even_split() {
    let mut r = runner();
    let actions = run_with(
        &mut r,
        request(&ARGV, Some("/jdk"), false),
        vec![RunEvent::Executed(Ok(result(0)))],
    );
    assert_eq!(actions[0], RunAction::Delegate(request(&ARGV, Some("/jdk"), false)));
}

#[test]
fn a_failure_of_the_executor_is_passed_on_in_its_own_words() {
    let mut r = runner();
    let actions = run_with(
        &mut r,
        request(&["/bin/false"], None, false),
        vec![RunEvent::Executed(Err("executor exploded".to_string()))],
    );
    assert_eq!(
        actions[1],
        RunAction::Finish(Err(RunError::Delegate("executor exploded".to_string())))
    );
    assert_eq!(
        RunError::Delegate("executor exploded".to_string()).message(),
        "executor exploded"
    );
}

#[test]
fn a_missing_jdk_ends_the_run_at_once() {
    let mut r = runner();
    let actions = run_with(&mut r, request(&ARGV, None, true), Vec::new());
    assert_eq!(actions, vec![RunAction::Finish(Err(RunError::Configuration))]);
    assert_eq!(r.pool().get(NAME), None);
    assert_eq!(r.permit().available_permits(), 1);
}

#[test]
fn a_command_line_that_does_not_split_ends_the_run_at_once() {
    let mut r = runner();
    let actions = run_with(&mut r, request(&["-Xmx1g", "Main"], Some("/jdk"), true), Vec::new());
    assert_eq!(
        actions,
        vec![RunAction::Finish(Err(RunError::Parse(ParseError::NoClasspathFlag)))]
    );
}

#[test]
fn the_command_line_is_looked_at_before_the_jdk() {
    let mut r = runner();
    let actions = run_with(&mut r, request(&[], None, true), Vec::new());
    assert_eq!(
        actions,
        vec![RunAction::Finish(Err(RunError::Parse(ParseError::NoClasspathFlag)))]
    );
}

#[test]
fn a_run_under_nailgun_end_to_end() {
    let mut r = runner();
    let actions = run_with(
        &mut r,
        request(&ARGV, Some("/jdk"), true),
        fresh_start_events(71, 4001, Ok(result(0))),
    );
    assert_eq!(actions.len(), 7);
    assert_eq!(
        actions[0],
        RunAction::EnsureWorkdir { base: "/work".to_string(), name: NAME.to_string() }
    );
    assert_eq!(
        actions[1],
        RunAction::Pool(PoolAction::Materialize {
            input_files: Digest::of_bytes(b"inputs"),
            workdir: WORKDIR.to_string(),
        })
    );
    assert_eq!(
        actions[2],
        RunAction::Pool(PoolAction::Spawn {
            request: server(),
            workdir: WORKDIR.to_string(),
            build_id: "build-7".to_string(),
        })
    );
    assert_eq!(
        actions[3],
        RunAction::Pool(PoolAction::AwaitPort { pid: 71, timeout: Timeout { secs: 1000, nanos: 0 } })
    );
    assert_eq!(actions[4], RunAction::ReleasePermit { wake: None });
    let mut client = request(&ARGV, None, true);
    client.argv = strings(&[
        "/opt/python",
        "bin/ng/1.0.0/ng",
        "--",
        "com.example.Main",
        "--flag",
        "x",
    ]);
    client.env.insert("NAILGUN_PORT".to_string(), "4001".to_string());
    assert_eq!(actions[5], RunAction::Delegate(client));
    assert_eq!(actions[6], RunAction::Finish(Ok(result(0))));
    let filed = r.pool().get(NAME).unwrap();
    assert_eq!(filed.port, 4001);
    assert_eq!(filed.pid, 71);
    assert_eq!(filed.workdir, WORKDIR);
    assert_eq!(filed.fingerprint, digest(&server(), &metadata()));
    assert_eq!(r.permit().available_permits(), 1);
}

#[test]
fn the_server_request_ends_with_the_server_class_and_port_argument() {
    let r = runner();
    let (_, first) = r.run(request(&ARGV, Some("/jdk"), true), "b".to_string());
    assert_eq!(
        first,
        RunAction::EnsureWorkdir { base: "/work".to_string(), name: NAME.to_string() }
    );
    let argv = server().argv;
    assert_eq!(
        argv[argv.len() - 2..],
        strings(&["com.martiansoftware.nailgun.NGServer", ":0"])[..]
    );
}

#[test]
fn the_permit_is_held_exactly_while_the_connect_is_under_way() {
    let mut r = runner();
    let (run, _) = r.run(request(&ARGV, Some("/jdk"), true), "b".to_string());
    assert_eq!(run.permit_number(), None);
    assert_eq!(r.permit().available_permits(), 1);
    let (run, _) = r.resume(run, RunEvent::WorkdirReady(Ok(WORKDIR.to_string())));
    assert_eq!(run.permit_number(), Some(0));
    assert!(r.permit().holds(0));
    assert_eq!(r.permit().available_permits(), 0);
    let (run, _) = r.resume(run, RunEvent::Pool(PoolEvent::Materialized(Ok(()))));
    let (run, _) = r.resume(run, RunEvent::Pool(PoolEvent::Spawned(Ok(71))));
    assert!(r.permit().holds(0));
    let (run, action) = r.resume(run, RunEvent::Pool(PoolEvent::PortAnnounced(Some(4001))));
    assert_eq!(action, RunAction::ReleasePermit { wake: None });
    assert!(!r.permit().holds(0));
    assert_eq!(r.permit().available_permits(), 1);
    assert_eq!(run.permit_number(), None);
}

#[test]
fn a_second_run_reuses_the_server() {
    let mut r = runner();
    run_with(
        &mut r,
        request(&ARGV, Some("/jdk"), true),
        fresh_start_events(71, 4001, Ok(result(0))),
    );
    let other_args = ["-cp", "libs/a.jar", "-Xmx512m", "com.example.Main", "other"];
    let actions = run_with(
        &mut r,
        request(&other_args, Some("/jdk"), true),
        vec![
            RunEvent::WorkdirReady(Ok(WORKDIR.to_string())),
            RunEvent::Pool(PoolEvent::Liveness(Liveness::Alive)),
            RunEvent::PermitReleased,
            RunEvent::Executed(Ok(result(1))),
        ],
    );
    assert_eq!(actions[1], RunAction::Pool(PoolAction::Probe { pid: 71 }));
    assert_eq!(actions[2], RunAction::ReleasePermit { wake: None });
    assert_eq!(spawns(&actions), 0);
    match &actions[3] {
        RunAction::Delegate(client) => {
            assert_eq!(client.env.get("NAILGUN_PORT"), Some("4001".to_string()));
            assert_eq!(
                client.argv,
                strings(&["/opt/python", "bin/ng/1.0.0/ng", "--", "com.example.Main", "other"])
            );
        }
        other => panic!("expected the client request, got {:?}", other),
    }
    assert_eq!(actions[4], RunAction::Finish(Ok(result(1))));
}

#[test]
fn a_changed_classpath_restarts_the_server() {
    let mut r = runner();
    run_with(
        &mut r,
        request(&ARGV, Some("/jdk"), true),
        fresh_start_events(71, 4001, Ok(result(0))),
    );
    let changed = ["-cp", "libs/a.jar:libs/b.jar", "-Xmx512m", "com.example.Main"];
    let actions = run_with(
        &mut r,
        request(&changed, Some("/jdk"), true),
        vec![
            RunEvent::WorkdirReady(Ok(WORKDIR.to_string())),
            RunEvent::Pool(PoolEvent::Materialized(Ok(()))),
            RunEvent::Pool(PoolEvent::Terminated),
            RunEvent::Pool(PoolEvent::Spawned(Ok(72))),
            RunEvent::Pool(PoolEvent::PortAnnounced(Some(4002))),
            RunEvent::PermitReleased,
            RunEvent::Executed(Ok(result(0))),
        ],
    );
    assert_eq!(actions[2], RunAction::Pool(PoolAction::Terminate { pid: 71 }));
    assert_eq!(spawns(&actions), 1);
    match &actions[6] {
        RunAction::Delegate(client) => {
            assert_eq!(client.env.get("NAILGUN_PORT"), Some("4002".to_string()));
        }
        other => panic!("expected the client request, got {:?}", other),
    }
    assert_eq!(r.pool().get(NAME).unwrap().pid, 72);
}

#[test]
fn a_startup_timeout_fails_the_run_after_the_permit_is_back() {
    let mut r = runner();
    let actions = run_with(
        &mut r,
        request(&ARGV, Some("/jdk"), true),
        vec![
            RunEvent::WorkdirReady(Ok(WORKDIR.to_string())),
            RunEvent::Pool(PoolEvent::Materialized(Ok(()))),
            RunEvent::Pool(PoolEvent::Spawned(Ok(71))),
            RunEvent::Pool(PoolEvent::PortAnnounced(None)),
            RunEvent::Pool(PoolEvent::Terminated),
            RunEvent::PermitReleased,
        ],
    );
    assert_eq!(actions[4], RunAction::Pool(PoolAction::Terminate { pid: 71 }));
    assert_eq!(actions[5], RunAction::ReleasePermit { wake: None });
    assert_eq!(
        actions[6],
        RunAction::Finish(Err(RunError::Pool(PoolStartError::StartupTimeout)))
    );
    assert_eq!(r.pool().get(NAME), None);
    assert_eq!(r.permit().available_permits(), 1);
    assert!(!actions.iter().any(|a| matches!(a, RunAction::Delegate(_))));
}

#[test]
fn a_workdir_that_cannot_be_made_fails_the_run_before_the_permit() {
    let mut r = runner();
    let actions = run_with(
        &mut r,
        request(&ARGV, Some("/jdk"), true),
        vec![RunEvent::WorkdirReady(Err("read-only file system".to_string()))],
    );
    assert_eq!(
        actions[1],
        RunAction::Finish(Err(RunError::Workdir("read-only file system".to_string())))
    );
    assert_eq!(r.permit().available_permits(), 1);
    assert_eq!(r.permit().num_waiters(), 0);
}

#[test]
fn a_run_takes_only_the_event_it_waits_for() {
    let mut r = runner();
    let (run, _) = r.run(request(&ARGV, Some("/jdk"), true), "b".to_string());
    assert!(r.accepts(&run, &RunEvent::WorkdirReady(Ok("w".to_string()))));
    assert!(!r.accepts(&run, &RunEvent::PermitAcquired));
    assert!(!r.accepts(&run, &RunEvent::Executed(Ok(result(0)))));
    let (run, _) = r.resume(run, RunEvent::WorkdirReady(Ok(WORKDIR.to_string())));
    assert!(r.accepts(&run, &RunEvent::Pool(PoolEvent::Materialized(Ok(())))));
    assert!(!r.accepts(&run, &RunEvent::PermitAcquired));
    assert!(!r.accepts(&run, &RunEvent::Pool(PoolEvent::Terminated)));
    assert!(!r.accepts(&run, &RunEvent::PermitReleased));
    let (plain, _) = r.run(request(&["/bin/true"], None, false), "b".to_string());
    assert!(r.accepts(&plain, &RunEvent::Executed(Err("e".to_string()))));
    assert!(!r.accepts(&plain, &RunEvent::PermitAcquired));
    let (over, _) = r.resume(plain, RunEvent::Executed(Err("e".to_string())));
    assert!(over.is_finished());
    assert!(!r.accepts(&over, &RunEvent::PermitAcquired));
    assert!(!r.accepts(&over, &RunEvent::Executed(Ok(result(0)))));
}

#[test]
fn run_error_messages() {
    assert_eq!(
        RunError::Configuration.message(),
        "JDK home must be specified for all nailgunnable requests."
    );
    assert_eq!(
        RunError::Parse(ParseError::NoMainClass).message(),
        "No main class provided."
    );
    assert_eq!(
        RunError::Workdir("denied".to_string()).message(),
        "Error creating the nailgun workdir! denied"
    );
    assert_eq!(
        RunError::Pool(PoolStartError::StartupTimeout).message(),
        "Failed to connect to nailgun! The nailgun server did not announce its port in time."
    );
    assert_eq!(
        RunError::Pool(PoolStartError::SpawnFailed("no java".to_string())).message(),
        "Failed to connect to nailgun! no java"
    );
}

#[test]
fn two_runs_at_once_start_one_server() {
    let mut r = runner();
    let mut seen: Vec<RunAction> = Vec::new();

    let (a, _) = r.run(request(&ARGV, Some("/jdk"), true), "build-a".to_string());
    let (b, _) = r.run(request(&ARGV, Some("/jdk"), true), "build-b".to_string());

    let (a, action) = r.resume(a, RunEvent::WorkdirReady(Ok(WORKDIR.to_string())));
    assert!(matches!(action, RunAction::Pool(PoolAction::Materialize { .. })));
    seen.push(action);
    let (b, action) = r.resume(b, RunEvent::WorkdirReady(Ok(WORKDIR.to_string())));
    assert_eq!(action, RunAction::AwaitPermit { id: 1 });
    assert_eq!(b.permit_number(), Some(1));
    assert_eq!(r.permit().num_waiters(), 1);

    let (a, action) = r.resume(a, RunEvent::Pool(PoolEvent::Materialized(Ok(()))));
    seen.push(action);
    let (a, action) = r.resume(a, RunEvent::Pool(PoolEvent::Spawned(Ok(71))));
    seen.push(action);
    let (a, action) = r.resume(a, RunEvent::Pool(PoolEvent::PortAnnounced(Some(4001))));
    assert_eq!(action, RunAction::ReleasePermit { wake: Some(1) });
    assert!(r.permit().holds(1));

    let (b, action) = r.resume(b, RunEvent::PermitAcquired);
    assert_eq!(action, RunAction::Pool(PoolAction::Probe { pid: 71 }));
    seen.push(action);
    let (a, client_a) = r.resume(a, RunEvent::PermitReleased);
    let (b, action) = r.resume(b, RunEvent::Pool(PoolEvent::Liveness(Liveness::Alive)));
    assert_eq!(action, RunAction::ReleasePermit { wake: None });
    let (b, client_b) = r.resume(b, RunEvent::PermitReleased);

    assert_eq!(spawns(&seen), 1);
    assert_eq!(client_a, client_b);
    match &client_b {
        RunAction::Delegate(client) => {
            assert_eq!(client.env.get("NAILGUN_PORT"), Some("4001".to_string()));
        }
        other => panic!("expected the client request, got {:?}", other),
    }
    let (a, done_a) = r.resume(a, RunEvent::Executed(Ok(result(0))));
    let (b, done_b) = r.resume(b, RunEvent::Executed(Ok(result(2))));
    assert_eq!(done_a, RunAction::Finish(Ok(result(0))));
    assert_eq!(done_b, RunAction::Finish(Ok(result(2))));
    assert!(a.is_finished());
    assert!(b.is_finished());
    assert_eq!(r.permit().available_permits(), 1);
}

#[test]
fn a_run_that_waits_cannot_be_told_it_has_the_permit() {
    let mut r = runner();
    let (a, _) = r.run(request(&ARGV, Some("/jdk"), true), "build-a".to_string());
    let (b, _) = r.run(request(&ARGV, Some("/jdk"), true), "build-b".to_string());
    let (a, _) = r.resume(a, RunEvent::WorkdirReady(Ok(WORKDIR.to_string())));
    let (b, _) = r.resume(b, RunEvent::WorkdirReady(Ok(WORKDIR.to_string())));
    assert!(!r.accepts(&b, &RunEvent::PermitAcquired));
    let b = match r.try_resume(b, RunEvent::PermitAcquired) {
        Ok(_) => panic!("the second run was let in while the first is connecting"),
        Err((b, event)) => {
            assert_eq!(event, RunEvent::PermitAcquired);
            b
        }
    };
    assert!(!r.accepts(&a, &RunEvent::PermitAcquired));
    assert!(r.permit().holds(0));
    assert!(!r.permit().holds(1));
    assert_eq!(b.permit_number(), Some(1));
    assert!(a.permit_number() == Some(0));
}

#[test]
fn the_permit_goes_to_those_who_wait_in_the_order_they_came() {
    let mut r = runner();
    let (a, _) = r.run(request(&ARGV, Some("/jdk"), true), "a".to_string());
    let (b, _) = r.run(request(&ARGV, Some("/jdk"), true), "b".to_string());
    let (c, _) = r.run(request(&ARGV, Some("/jdk"), true), "c".to_string());
    let (a, _) = r.resume(a, RunEvent::WorkdirReady(Ok(WORKDIR.to_string())));
    let (c, action) = r.resume(c, RunEvent::WorkdirReady(Ok(WORKDIR.to_string())));
    assert_eq!(action, RunAction::AwaitPermit { id: 1 });
    let (b, action) = r.resume(b, RunEvent::WorkdirReady(Ok(WORKDIR.to_string())));
    assert_eq!(action, RunAction::AwaitPermit { id: 2 });
    let (_, action) = r.resume(a, RunEvent::Pool(PoolEvent::Materialized(Err("x".to_string()))));
    assert_eq!(action, RunAction::ReleasePermit { wake: Some(1) });
    assert!(!r.accepts(&b, &RunEvent::PermitAcquired));
    assert!(r.accepts(&c, &RunEvent::PermitAcquired));
    let (_, action) = r.resume(c, RunEvent::PermitAcquired);
    assert!(matches!(action, RunAction::Pool(PoolAction::Materialize { .. })));
}

#[test]
fn a_run_that_waits_can_be_given_up() {
    let mut r = runner();
    let (a, _) = r.run(request(&ARGV, Some("/jdk"), true), "a".to_string());
    let (b, _) = r.run(request(&ARGV, Some("/jdk"), true), "b".to_string());
    let (c, _) = r.run(request(&ARGV, Some("/jdk"), true), "c".to_string());
    let (a, _) = r.resume(a, RunEvent::WorkdirReady(Ok(WORKDIR.to_string())));
    let (b, _) = r.resume(b, RunEvent::WorkdirReady(Ok(WORKDIR.to_string())));
    let (c, _) = r.resume(c, RunEvent::WorkdirReady(Ok(WORKDIR.to_string())));
    assert_eq!(r.permit().num_waiters(), 2);
    assert_eq!(r.abandon(b), Ok(None));
    assert_eq!(r.permit().num_waiters(), 1);
    let (_, action) = r.resume(a, RunEvent::Pool(PoolEvent::Materialized(Err("x".to_string()))));
    assert_eq!(action, RunAction::ReleasePermit { wake: Some(2) });
    assert!(r.permit().holds(2));
    assert_eq!(r.abandon(c), Ok(None));
    assert!(!r.permit().holds(2));
    assert_eq!(r.permit().available_permits(), 1);
}

#[test]
fn a_run_that_was_woken_and_is_given_up_passes_the_permit_on() {
    let mut r = runner();
    let (a, _) = r.run(request(&ARGV, Some("/jdk"), true), "a".to_string());
    let (b, _) = r.run(request(&ARGV, Some("/jdk"), true), "b".to_string());
    let (c, _) = r.run(request(&ARGV, Some("/jdk"), true), "c".to_string());
    let (a, _) = r.resume(a, RunEvent::WorkdirReady(Ok(WORKDIR.to_string())));
    let (b, _) = r.resume(b, RunEvent::WorkdirReady(Ok(WORKDIR.to_string())));
    let (c, _) = r.resume(c, RunEvent::WorkdirReady(Ok(WORKDIR.to_string())));
    let (_, action) = r.resume(a, RunEvent::Pool(PoolEvent::Materialized(Err("x".to_string()))));
    assert_eq!(action, RunAction::ReleasePermit { wake: Some(1) });
    assert_eq!(r.abandon(b), Ok(Some(2)));
    assert!(r.permit().holds(2));
    assert!(r.accepts(&c, &RunEvent::PermitAcquired));
}

#[test]
fn only_a_run_that_waits_can_be_given_up() {
    let mut r = runner();
    let (a, _) = r.run(request(&ARGV, Some("/jdk"), true), "a".to_string());
    let a = match r.abandon(a) {
        Ok(_) => panic!("a run that does not wait for the permit was given up"),
        Err(a) => a,
    };
    let (a, _) = r.resume(a, RunEvent::WorkdirReady(Ok(WORKDIR.to_string())));
    let a = match r.abandon(a) {
        Ok(_) => panic!("a run in the middle of a connect was given up"),
        Err(a) => a,
    };
    assert!(r.permit().holds(0));
    assert!(r.accepts(&a, &RunEvent::Pool(PoolEvent::Materialized(Ok(())))));
}

#[test]
fn try_resume_hands_back_what_it_cannot_take() {
    let mut r = runner();
    let (run, _) = r.run(request(&ARGV, Some("/jdk"), true), "b".to_string());
    let run = match r.try_resume(run, RunEvent::PermitAcquired) {
        Ok(_) => panic!("a run that has no working directory yet cannot hold the permit"),
        Err((run, event)) => {
            assert_eq!(event, RunEvent::PermitAcquired);
            run
        }
    };
    match r.try_resume(run, RunEvent::WorkdirReady(Ok(WORKDIR.to_string()))) {
        Ok((_, action)) => {
            assert!(matches!(action, RunAction::Pool(PoolAction::Materialize { .. })))
        }
        Err(_) => panic!("a run that asked for its working directory takes the answer"),
    }
}
