use nailgun::digest::Digest;
use nailgun::nailgun_pool::{
    Connection, Liveness, NailgunPool, NailgunProcess, PoolAction, PoolEvent, PoolStartError,
};
use nailgun::request::{ExecuteProcessRequest, Platform, Timeout};
use nailgun::translator::construct_nailgun_server_request;

const NAME: &str = "nailgun_server_com.example.Main";
const WORKDIR: &str = "/tmp/ng/nailgun_server_com.example.Main";

fn server_request(classpath: &str) -> ExecuteProcessRequest {
    construct_nailgun_server_request(
        NAME,
        vec!["-cp".to_string(), classpath.to_string()],
        "/jdk".to_string(),
        Platform::Linux,
    )
}

fn begin(pool: &mut NailgunPool, classpath: &str) -> (Connection, PoolAction) {
    pool.connect(
        NAME.to_string(),
        server_request(classpath),
        WORKDIR.to_string(),
        Digest::of_bytes(classpath.as_bytes()),
        "build-1".to_string(),
        Digest::of_bytes(b"inputs"),
    )
}

fn materialize() -> PoolAction {
    PoolAction::Materialize {
        input_files: Digest::of_bytes(b"inputs"),
        workdir: WORKDIR.to_string(),
    }
}

fn spawn(classpath: &str) -> PoolAction {
    PoolAction::Spawn {
        request: server_request(classpath),
        workdir: WORKDIR.to_string(),
        build_id: "build-1".to_string(),
    }
}

fn await_port(pid: usize) -> PoolAction {
    PoolAction::AwaitPort { pid, timeout: Timeout { secs: 1000, nanos: 0 } }
}

/// Drives a connect with the events and returns every action asked for.
fn connect_with(pool: &mut NailgunPool, classpath: &str, events: Vec<PoolEvent>) -> Vec<PoolAction> {
    let (mut connection, first) = begin(pool, classpath);
    let mut actions = vec![first];
    for event in events {
        assert!(connection.expects(&event));
        let (next, action) = pool.advance(connection, event);
        connection = next;
        actions.push(action);
    }
    assert!(connection.is_done());
    assert_eq!(connection.name(), NAME);
    actions
}

fn start_cleanly(pool: &mut NailgunPool, classpath: &str, pid: usize, port: usize) -> Vec<PoolAction> {
    connect_with(
        pool,
        classpath,
        vec![
            PoolEvent::Materialized(Ok(())),
            PoolEvent::Spawned(Ok(pid)),
            PoolEvent::PortAnnounced(Some(port)),
        ],
    )
}

fn count_spawns(actions: &[PoolAction]) -> usize {
    actions.iter().filter(|a| matches!(a, PoolAction::Spawn { .. })).count()
}

fn count_terminations(actions: &[PoolAction]) -> usize {
    actions.iter().filter(|a| matches!(a, PoolAction::Terminate { .. })).count()
}

fn filed(classpath: &str, pid: usize, port: usize) -> NailgunProcess {
    NailgunProcess {
        name: NAME.to_string(),
        fingerprint: Digest::of_bytes(classpath.as_bytes()),
        port,
        pid,
        workdir: WORKDIR.to_string(),
        liveness: Liveness::Alive,
    }
}

#[test]
fn a_new_pool_is_empty() {
    let pool = NailgunPool::new();
    pool.in_order();
    assert_eq!(pool.get(NAME), None);
    assert_eq!(pool.get(""), None);
}

#[test]
fn first_connect_materializes_starts_and_waits() {
    let mut pool = NailgunPool::new();
    let actions = start_cleanly(&mut pool, "a.jar", 71, 4001);
    assert_eq!(
        actions,
        vec![materialize(), spawn("a.jar"), await_port(71), PoolAction::Connected(4001)]
    );
    assert_eq!(pool.get(NAME), Some(filed("a.jar", 71, 4001)));
}

#[test]
fn second_connect_with_the_same_fingerprint_reuses_the_server() {
    let mut pool = NailgunPool::new();
    let first = start_cleanly(&mut pool, "a.jar", 71, 4001);
    let second = connect_with(&mut pool, "a.jar", vec![PoolEvent::Liveness(Liveness::Alive)]);
    assert_eq!(second, vec![PoolAction::Probe { pid: 71 }, PoolAction::Connected(4001)]);
    assert_eq!(count_spawns(&second), 0);
    assert_eq!(count_terminations(&second), 0);
    assert_eq!(second.last(), first.last());
    assert_eq!(pool.get(NAME), Some(filed("a.jar", 71, 4001)));
}

#[test]
fn a_changed_fingerprint_replaces_the_server() {
    let mut pool = NailgunPool::new();
    start_cleanly(&mut pool, "a.jar", 71, 4001);
    let (connection, first) = begin(&mut pool, "a.jar:b.jar");
    assert_eq!(first, materialize());
    assert_eq!(pool.get(NAME), None);
    let (connection, a1) = pool.advance(connection, PoolEvent::Materialized(Ok(())));
    assert_eq!(a1, PoolAction::Terminate { pid: 71 });
    let (connection, a2) = pool.advance(connection, PoolEvent::Terminated);
    assert_eq!(a2, spawn("a.jar:b.jar"));
    let (connection, a3) = pool.advance(connection, PoolEvent::Spawned(Ok(72)));
    assert_eq!(a3, await_port(72));
    assert_eq!(pool.get(NAME), None);
    let (connection, a4) = pool.advance(connection, PoolEvent::PortAnnounced(Some(4002)));
    assert_eq!(a4, PoolAction::Connected(4002));
    assert!(connection.is_done());
    assert_eq!(pool.get(NAME), Some(filed("a.jar:b.jar", 72, 4002)));
}

#[test]
fn a_replacement_terminates_once_and_spawns_once() {
    let mut pool = NailgunPool::new();
    start_cleanly(&mut pool, "a.jar", 71, 4001);
    let actions = connect_with(
        &mut pool,
        "b.jar",
        vec![
            PoolEvent::Materialized(Ok(())),
            PoolEvent::Terminated,
            PoolEvent::Spawned(Ok(90)),
            PoolEvent::PortAnnounced(Some(5000)),
        ],
    );
    assert_eq!(count_terminations(&actions), 1);
    assert_eq!(count_spawns(&actions), 1);
    let terminate = actions.iter().position(|a| matches!(a, PoolAction::Terminate { .. }));
    let spawned = actions.iter().position(|a| matches!(a, PoolAction::Spawn { .. }));
    assert!(terminate < spawned);
    assert_eq!(actions.last(), Some(&PoolAction::Connected(5000)));
}

#[test]
fn a_dead_server_is_replaced() {
    let mut pool = NailgunPool::new();
    start_cleanly(&mut pool, "a.jar", 71, 4001);
    let actions = connect_with(
        &mut pool,
        "a.jar",
        vec![
            PoolEvent::Liveness(Liveness::Dead),
            PoolEvent::Materialized(Ok(())),
            PoolEvent::Terminated,
            PoolEvent::Spawned(Ok(72)),
            PoolEvent::PortAnnounced(Some(4002)),
        ],
    );
    assert_eq!(
        actions,
        vec![
            PoolAction::Probe { pid: 71 },
            materialize(),
            PoolAction::Terminate { pid: 71 },
            spawn("a.jar"),
            await_port(72),
            PoolAction::Connected(4002),
        ]
    );
    assert_eq!(pool.get(NAME), Some(filed("a.jar", 72, 4002)));
}

#[test]
fn a_dead_server_leaves_the_pool_at_once() {
    let mut pool = NailgunPool::new();
    start_cleanly(&mut pool, "a.jar", 71, 4001);
    let (connection, _) = begin(&mut pool, "a.jar");
    assert_eq!(pool.get(NAME), Some(filed("a.jar", 71, 4001)));
    let (connection, action) = pool.advance(connection, PoolEvent::Liveness(Liveness::Dead));
    assert_eq!(action, materialize());
    assert!(!connection.is_done());
    assert_eq!(pool.get(NAME), None);
}

#[test]
fn a_startup_timeout_terminates_and_fails() {
    let mut pool = NailgunPool::new();
    let actions = connect_with(
        &mut pool,
        "a.jar",
        vec![
            PoolEvent::Materialized(Ok(())),
            PoolEvent::Spawned(Ok(71)),
            PoolEvent::PortAnnounced(None),
            PoolEvent::Terminated,
        ],
    );
    assert_eq!(
        actions,
        vec![
            materialize(),
            spawn("a.jar"),
            await_port(71),
            PoolAction::Terminate { pid: 71 },
            PoolAction::Failed(PoolStartError::StartupTimeout),
        ]
    );
    assert_eq!(pool.get(NAME), None);
}

#[test]
fn a_connect_after_a_timeout_starts_cleanly() {
    let mut pool = NailgunPool::new();
    connect_with(
        &mut pool,
        "a.jar",
        vec![
            PoolEvent::Materialized(Ok(())),
            PoolEvent::Spawned(Ok(71)),
            PoolEvent::PortAnnounced(None),
            PoolEvent::Terminated,
        ],
    );
    let actions = start_cleanly(&mut pool, "a.jar", 72, 4002);
    assert_eq!(
        actions,
        vec![materialize(), spawn("a.jar"), await_port(72), PoolAction::Connected(4002)]
    );
    assert_eq!(pool.get(NAME), Some(filed("a.jar", 72, 4002)));
}

#[test]
fn a_failed_materialization_spawns_nothing() {
    let mut pool = NailgunPool::new();
    let actions = connect_with(
        &mut pool,
        "a.jar",
        vec![PoolEvent::Materialized(Err("no such digest".to_string()))],
    );
    assert_eq!(
        actions,
        vec![
            materialize(),
            PoolAction::Failed(PoolStartError::MaterializeFailed("no such digest".to_string())),
        ]
    );
    assert_eq!(count_spawns(&actions), 0);
    assert_eq!(pool.get(NAME), None);
}

#[test]
fn a_failed_materialization_still_terminates_the_stale_server() {
    let mut pool = NailgunPool::new();
    start_cleanly(&mut pool, "a.jar", 71, 4001);
    let actions = connect_with(
        &mut pool,
        "b.jar",
        vec![PoolEvent::Materialized(Err("disk full".to_string())), PoolEvent::Terminated],
    );
    assert_eq!(
        actions,
        vec![
            materialize(),
            PoolAction::Terminate { pid: 71 },
            PoolAction::Failed(PoolStartError::MaterializeFailed("disk full".to_string())),
        ]
    );
    assert_eq!(pool.get(NAME), None);
}

#[test]
fn a_failed_spawn_files_nothing() {
    let mut pool = NailgunPool::new();
    let actions = connect_with(
        &mut pool,
        "a.jar",
        vec![
            PoolEvent::Materialized(Ok(())),
            PoolEvent::Spawned(Err("permission denied".to_string())),
        ],
    );
    assert_eq!(
        actions.last(),
        Some(&PoolAction::Failed(PoolStartError::SpawnFailed("permission denied".to_string())))
    );
    assert_eq!(count_spawns(&actions), 1);
    assert_eq!(pool.get(NAME), None);
}

#[test]
fn other_names_are_left_alone() {
    let mut pool = NailgunPool::new();
    let (connection, _) = pool.connect(
        "nailgun_server_other.Main".to_string(),
        server_request("o.jar"),
        "/tmp/ng/other".to_string(),
        Digest::of_bytes(b"o"),
        "build-0".to_string(),
        Digest::of_bytes(b"inputs"),
    );
    let (connection, _) = pool.advance(connection, PoolEvent::Materialized(Ok(())));
    let (connection, _) = pool.advance(connection, PoolEvent::Spawned(Ok(5)));
    let (_, done) = pool.advance(connection, PoolEvent::PortAnnounced(Some(3000)));
    assert_eq!(done, PoolAction::Connected(3000));
    let other = pool.get("nailgun_server_other.Main");
    assert!(other.is_some());
    start_cleanly(&mut pool, "a.jar", 71, 4001);
    assert_eq!(pool.get("nailgun_server_other.Main"), other);
    connect_with(
        &mut pool,
        "b.jar",
        vec![PoolEvent::Materialized(Err("x".to_string())), PoolEvent::Terminated],
    );
    assert_eq!(pool.get("nailgun_server_other.Main"), other);
    assert_eq!(pool.get(NAME), None);
}

#[test]
fn a_connect_takes_only_the_event_it_waits_for() {
    let mut pool = NailgunPool::new();
    let (connection, _) = begin(&mut pool, "a.jar");
    assert!(connection.expects(&PoolEvent::Materialized(Ok(()))));
    assert!(connection.expects(&PoolEvent::Materialized(Err("e".to_string()))));
    assert!(!connection.expects(&PoolEvent::Liveness(Liveness::Alive)));
    assert!(!connection.expects(&PoolEvent::Terminated));
    assert!(!connection.expects(&PoolEvent::Spawned(Ok(1))));
    assert!(!connection.expects(&PoolEvent::PortAnnounced(Some(1))));
    let (connection, _) = pool.advance(connection, PoolEvent::Materialized(Ok(())));
    assert!(connection.expects(&PoolEvent::Spawned(Ok(1))));
    assert!(!connection.expects(&PoolEvent::Materialized(Ok(()))));
    let (connection, _) = pool.advance(connection, PoolEvent::Spawned(Ok(1)));
    assert!(connection.expects(&PoolEvent::PortAnnounced(Some(1))));
    assert!(connection.expects(&PoolEvent::PortAnnounced(None)));
    assert!(!connection.expects(&PoolEvent::PortAnnounced(Some(0))));
    let (connection, _) = pool.advance(connection, PoolEvent::PortAnnounced(None));
    assert!(connection.expects(&PoolEvent::Terminated));
    assert!(!connection.expects(&PoolEvent::PortAnnounced(None)));
    let (connection, _) = pool.advance(connection, PoolEvent::Terminated);
    assert!(connection.is_done());
    assert!(!connection.expects(&PoolEvent::Terminated));
    assert!(!connection.expects(&PoolEvent::Liveness(Liveness::Dead)));
}

#[test]
fn pool_error_messages() {
    assert_eq!(
        PoolStartError::MaterializeFailed("x".to_string()).message(),
        "x"
    );
    assert_eq!(
        PoolStartError::SpawnFailed("y".to_string()).message(),
        "y"
    );
    assert_eq!(
        PoolStartError::StartupTimeout.message(),
        "The nailgun server did not announce its port in time."
    );
}

#[test]
fn try_advance_hands_back_what_it_cannot_take() {
    let mut pool = NailgunPool::new();
    let (connection, _) = begin(&mut pool, "a.jar");
    let connection = match pool.try_advance(connection, PoolEvent::Terminated) {
        Ok(_) => panic!("a connect that materializes expects no termination"),
        Err((connection, event)) => {
            assert_eq!(event, PoolEvent::Terminated);
            connection
        }
    };
    assert_eq!(pool.get(NAME), None);
    match pool.try_advance(connection, PoolEvent::Materialized(Ok(()))) {
        Ok((connection, action)) => {
            assert_eq!(action, spawn("a.jar"));
            assert!(connection.expects(&PoolEvent::Spawned(Ok(1))));
        }
        Err(_) => panic!("a connect that materializes expects the outcome of it"),
    }
}
