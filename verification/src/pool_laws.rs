//! What holds of every connect, however it is driven.
//!
//! A connect is followed from its first step through a sequence of events.
//! The laws below speak of the actions it hands out on the way and of the
//! pool it leaves behind.

use crate::digest::DigestView;
use crate::nailgun_pool::{
    advance, begin, expects, materialize, pool_ok, spawn, started, ConnectionView, Liveness,
    Outcome, PhaseView, Pid, PoolActionView, PoolEventView, PoolStartErrorView, PoolView, Port,
};
use crate::request::RequestView;
use vstd::prelude::*;

verus! {

/// Where a connect stands after a run of events, and what it asked for on
/// the way.
pub struct Trace {
    pub pool: PoolView,
    pub connection: ConnectionView,
    pub actions: Seq<PoolActionView>,
}

/// Drives a connect with `events`, one step for each, and stops at the first
/// event that the connect cannot take (none can be taken once it is over).
pub open spec fn drive(pool: PoolView, c: ConnectionView, events: Seq<PoolEventView>) -> Trace
    decreases events.len(),
{
    if events.len() == 0 || !expects(c.phase, events[0]) {
        Trace { pool, connection: c, actions: Seq::empty() }
    } else {
        let step = advance(pool, c, events[0]);
        let rest = drive(step.pool, step.connection, events.drop_first());
        Trace {
            pool: rest.pool,
            connection: rest.connection,
            actions: seq![step.action] + rest.actions,
        }
    }
}

/// What a connect is begun with.
pub struct Wanted {
    pub name: Seq<char>,
    pub startup_options: RequestView,
    pub workdir: Seq<char>,
    pub fingerprint: DigestView,
    pub build_id: Seq<char>,
    pub input_files: DigestView,
}

/// The first step of a connect for what is wanted.
pub open spec fn begin_for(pool: PoolView, w: Wanted) -> Outcome {
    begin(pool, w.name, w.startup_options, w.workdir, w.fingerprint, w.build_id, w.input_files)
}

/// A whole connect: its first step, then one step for each event.
pub open spec fn connect_trace(pool: PoolView, w: Wanted, events: Seq<PoolEventView>) -> Trace {
    let first = begin_for(pool, w);
    let rest = drive(first.pool, first.connection, events);
    Trace {
        pool: rest.pool,
        connection: rest.connection,
        actions: seq![first.action] + rest.actions,
    }
}

/// How many of the actions start a server.
pub open spec fn count_spawns(actions: Seq<PoolActionView>) -> nat
    decreases actions.len(),
{
    if actions.len() == 0 {
        0
    } else {
        count_spawns(actions.drop_last()) + if actions.last() is Spawn {
            1nat
        } else {
            0nat
        }
    }
}

/// How many of the actions terminate a process.
pub open spec fn count_terminations(actions: Seq<PoolActionView>) -> nat
    decreases actions.len(),
{
    if actions.len() == 0 {
        0
    } else {
        count_terminations(actions.drop_last()) + if actions.last() is Terminate {
            1nat
        } else {
            0nat
        }
    }
}

/// How many servers a connect may still start from a phase.
pub open spec fn spawns_ahead(phase: PhaseView) -> nat {
    match phase {
        PhaseView::Probing { .. } => 1,
        PhaseView::Materializing { .. } => 1,
        PhaseView::Terminating => 1,
        PhaseView::Spawning => 0,
        PhaseView::AwaitingPort { .. } => 0,
        PhaseView::Aborting { .. } => 0,
        PhaseView::Done => 0,
    }
}

/// The pool and the connect fit together: a server that is being probed is
/// the one filed under the name, with the fingerprint asked for; while a
/// server is being replaced or started, none is filed under the name.
pub open spec fn fits(pool: PoolView, c: ConnectionView) -> bool {
    match c.phase {
        PhaseView::Probing { pid, port } => {
            &&& pool.dom().contains(c.name)
            &&& pool[c.name].pid == pid
            &&& pool[c.name].port == port
            &&& pool[c.name].fingerprint == c.fingerprint
        },
        PhaseView::Done => true,
        _ => !pool.dom().contains(c.name),
    }
}

/// Two connects ask for the same thing.
pub open spec fn same_request(a: ConnectionView, b: ConnectionView) -> bool {
    a == (ConnectionView { phase: a.phase, ..b })
}

proof fn lemma_count_spawns_prepend(a: PoolActionView, rest: Seq<PoolActionView>)
    ensures
        count_spawns(seq![a] + rest) == count_spawns(rest) + if a is Spawn {
            1nat
        } else {
            0nat
        },
    decreases rest.len(),
{
    let all = seq![a] + rest;
    if rest.len() == 0 {
        assert(all.drop_last() =~= Seq::<PoolActionView>::empty());
        assert(count_spawns(all.drop_last()) == 0);
    } else {
        assert(all.drop_last() =~= seq![a] + rest.drop_last());
        assert(all.last() == rest.last());
        lemma_count_spawns_prepend(a, rest.drop_last());
    }
}

proof fn lemma_count_terminations_prepend(a: PoolActionView, rest: Seq<PoolActionView>)
    ensures
        count_terminations(seq![a] + rest) == count_terminations(rest) + if a is Terminate {
            1nat
        } else {
            0nat
        },
    decreases rest.len(),
{
    let all = seq![a] + rest;
    if rest.len() == 0 {
        assert(all.drop_last() =~= Seq::<PoolActionView>::empty());
        assert(count_terminations(all.drop_last()) == 0);
    } else {
        assert(all.drop_last() =~= seq![a] + rest.drop_last());
        assert(all.last() == rest.last());
        lemma_count_terminations_prepend(a, rest.drop_last());
    }
}

/// The first step of a connect leaves a pool that is in order and a connect
/// that fits it, and touches nothing that is filed under another name.
pub proof fn lemma_begin_fits(pool: PoolView, w: Wanted)
    requires
        pool_ok(pool),
    ensures
        pool_ok(begin_for(pool, w).pool),
        fits(begin_for(pool, w).pool, begin_for(pool, w).connection),
        begin_for(pool, w).connection.name == w.name,
        begin_for(pool, w).connection.fingerprint == w.fingerprint,
        !(begin_for(pool, w).action is Spawn),
        !(begin_for(pool, w).action is Terminate),
        begin_for(pool, w).pool.remove(w.name) == pool.remove(w.name),
{
    assert(begin_for(pool, w).pool.remove(w.name) =~= pool.remove(w.name));
}

/// One step keeps the pool in order and the connect fitting it, asks for
/// the same thing as before, touches nothing that is filed under another
/// name, and starts a server only where one was still ahead.
pub proof fn lemma_advance_fits(pool: PoolView, c: ConnectionView, event: PoolEventView)
    requires
        pool_ok(pool),
        fits(pool, c),
        expects(c.phase, event),
    ensures
        pool_ok(advance(pool, c, event).pool),
        fits(advance(pool, c, event).pool, advance(pool, c, event).connection),
        same_request(advance(pool, c, event).connection, c),
        advance(pool, c, event).pool.remove(c.name) == pool.remove(c.name),
        spawns_ahead(advance(pool, c, event).connection.phase) + (if advance(
            pool,
            c,
            event,
        ).action is Spawn {
            1nat
        } else {
            0nat
        }) <= spawns_ahead(c.phase),
        advance(pool, c, event).action is Connected ==> ({
            let after = advance(pool, c, event);
            &&& after.connection.phase is Done
            &&& after.pool.dom().contains(c.name)
            &&& after.pool[c.name].fingerprint == c.fingerprint
            &&& after.pool[c.name].port == after.action->Connected_0
        }),
        advance(pool, c, event).action is Failed ==> ({
            let after = advance(pool, c, event);
            &&& after.connection.phase is Done
            &&& !after.pool.dom().contains(c.name)
        }),
        advance(pool, c, event).connection.phase is Done ==> (advance(
            pool,
            c,
            event,
        ).action is Connected || advance(pool, c, event).action is Failed),
{
    assert(advance(pool, c, event).pool.remove(c.name) =~= pool.remove(c.name));
}

/// Order of actions. A port is handed out only on the word that the server
/// is ready: a server from the pool was just found alive, or the server
/// that this connect started has just announced that very port. A server
/// is started only when nothing runs under the name any more: there was
/// nothing to replace, or what was there has just been reported terminated.
/// And a server is filed in the pool only in the step that hands out its
/// port.
pub proof fn law_order_of_actions(pool: PoolView, c: ConnectionView, event: PoolEventView)
    requires
        expects(c.phase, event),
    ensures
        ({
            let after = advance(pool, c, event);
            &&& after.action is Connected ==> {
                ||| (c.phase is Probing && event == PoolEventView::Liveness(Liveness::Alive)
                    && after.action->Connected_0 == c.phase->Probing_port && after.pool == pool)
                ||| (c.phase is AwaitingPort && event == PoolEventView::PortAnnounced(
                    Some(after.action->Connected_0),
                ))
            }
            &&& after.action is Spawn ==> {
                ||| c.phase == (PhaseView::Materializing { old: None })
                ||| (c.phase is Terminating && event is Terminated)
            }
            &&& (after.pool.dom().contains(c.name) && !pool.dom().contains(c.name))
                ==> after.action is Connected
            &&& after.action is AwaitPort ==> (event is Spawned && event->Spawned_0 is Ok
                && after.action->AwaitPort_pid == event->Spawned_0->Ok_0
                && after.action->AwaitPort_timeout == c.startup_options.timeout)
        }),
{
}

/// A connect in this phase can still end with a port.
pub open spec fn can_connect(phase: PhaseView) -> bool {
    !(phase is Aborting) && !(phase is Done)
}

/// What holds at the end of any run of steps, by induction on the events.
proof fn lemma_drive(pool: PoolView, c: ConnectionView, events: Seq<PoolEventView>)
    requires
        pool_ok(pool),
        fits(pool, c),
    ensures
        ({
            let t = drive(pool, c, events);
            &&& pool_ok(t.pool)
            &&& fits(t.pool, t.connection)
            &&& same_request(t.connection, c)
            &&& t.pool.remove(c.name) == pool.remove(c.name)
            &&& count_spawns(t.actions) + spawns_ahead(t.connection.phase) <= spawns_ahead(c.phase)
            &&& t.actions.len() == 0 ==> t.pool == pool && t.connection == c
            &&& t.actions.len() > 0 ==> (t.connection.phase is Done <==> (t.actions.last() is Connected
                || t.actions.last() is Failed))
            &&& t.actions.len() > 0 && t.actions.last() is Connected ==> {
                &&& can_connect(c.phase)
                &&& t.pool.dom().contains(c.name)
                &&& t.pool[c.name].fingerprint == c.fingerprint
                &&& t.pool[c.name].port == t.actions.last()->Connected_0
            }
            &&& t.actions.len() > 0 && t.actions.last() is Failed ==> !t.pool.dom().contains(c.name)
        }),
    decreases events.len(),
{
    if events.len() == 0 || !expects(c.phase, events[0]) {
    } else {
        let step = advance(pool, c, events[0]);
        lemma_advance_fits(pool, c, events[0]);
        lemma_drive(step.pool, step.connection, events.drop_first());
        let rest = drive(step.pool, step.connection, events.drop_first());
        let t = drive(pool, c, events);
        assert(t.actions == seq![step.action] + rest.actions);
        lemma_count_spawns_prepend(step.action, rest.actions);
        if rest.actions.len() == 0 {
            assert(t.actions.last() == step.action);
        } else {
            assert(t.actions.last() == rest.actions.last());
        }
    }
}

/// A whole connect keeps the pool in order, touches nothing that is filed
/// under another name, and starts at most one server, whatever the events
/// are.
pub proof fn law_at_most_one_spawn(pool: PoolView, w: Wanted, events: Seq<PoolEventView>)
    requires
        pool_ok(pool),
    ensures
        pool_ok(connect_trace(pool, w, events).pool),
        count_spawns(connect_trace(pool, w, events).actions) <= 1,
        connect_trace(pool, w, events).pool.remove(w.name) == pool.remove(w.name),
{
    let first = begin_for(pool, w);
    lemma_begin_fits(pool, w);
    lemma_drive(first.pool, first.connection, events);
    lemma_count_spawns_prepend(first.action, drive(first.pool, first.connection, events).actions);
}

/// How a connect ends decides what the pool holds under the name. After a
/// port was handed out, the server filed under the name has the fingerprint
/// that was asked for and listens on that port. After a failure, nothing is
/// filed under the name. A connect is over exactly when its last action is
/// one of these two.
pub proof fn law_outcome_and_pool(pool: PoolView, w: Wanted, events: Seq<PoolEventView>)
    requires
        pool_ok(pool),
    ensures
        ({
            let t = connect_trace(pool, w, events);
            &&& t.actions.last() is Connected ==> {
                &&& t.pool.dom().contains(w.name)
                &&& t.pool[w.name].name == w.name
                &&& t.pool[w.name].fingerprint == w.fingerprint
                &&& t.pool[w.name].port == t.actions.last()->Connected_0
                &&& t.pool[w.name].port > 0
            }
            &&& t.actions.last() is Failed ==> !t.pool.dom().contains(w.name)
            &&& t.connection.phase is Done <==> (t.actions.last() is Connected
                || t.actions.last() is Failed)
        }),
{
    let first = begin_for(pool, w);
    lemma_begin_fits(pool, w);
    lemma_drive(first.pool, first.connection, events);
    let rest = drive(first.pool, first.connection, events);
    let t = connect_trace(pool, w, events);
    if rest.actions.len() == 0 {
        assert(t.actions.last() == first.action);
    } else {
        assert(t.actions.last() == rest.actions.last());
    }
}

/// Reuse. Where a server with the fingerprint asked for is filed under the
/// name and is found alive, the connect probes it, hands out its port, and
/// does nothing else: no server is started, none is terminated, and the pool
/// stays as it was.
pub proof fn law_live_server_is_reused(pool: PoolView, w: Wanted, events: Seq<PoolEventView>)
    requires
        pool_ok(pool),
        pool.dom().contains(w.name),
        pool[w.name].fingerprint == w.fingerprint,
        events.len() > 0,
        events[0] == PoolEventView::Liveness(Liveness::Alive),
    ensures
        ({
            let t = connect_trace(pool, w, events);
            &&& t.actions == seq![
                PoolActionView::Probe { pid: pool[w.name].pid },
                PoolActionView::Connected(pool[w.name].port),
            ]
            &&& t.pool == pool
            &&& count_spawns(t.actions) == 0
            &&& count_terminations(t.actions) == 0
        }),
{
    reveal_with_fuel(drive, 3);
    let first = begin_for(pool, w);
    let step = advance(first.pool, first.connection, events[0]);
    let rest = drive(step.pool, step.connection, events.drop_first());
    assert(rest.actions =~= Seq::<PoolActionView>::empty());
    let t = connect_trace(pool, w, events);
    assert(t.actions =~= seq![first.action, step.action]);
    lemma_count_spawns_prepend(step.action, rest.actions);
    lemma_count_spawns_prepend(first.action, seq![step.action] + rest.actions);
    lemma_count_terminations_prepend(step.action, rest.actions);
    lemma_count_terminations_prepend(first.action, seq![step.action] + rest.actions);
}

/// Two connects in a row. When a connect has handed out a port, a second
/// connect under the same name with the same fingerprint that finds the
/// server alive starts nothing and hands out the same port.
pub proof fn law_second_connect_reuses(
    pool: PoolView,
    first: Wanted,
    first_events: Seq<PoolEventView>,
    second: Wanted,
    second_events: Seq<PoolEventView>,
)
    requires
        pool_ok(pool),
        connect_trace(pool, first, first_events).actions.last() is Connected,
        second.name == first.name,
        second.fingerprint == first.fingerprint,
        second_events.len() > 0,
        second_events[0] == PoolEventView::Liveness(Liveness::Alive),
    ensures
        ({
            let before = connect_trace(pool, first, first_events);
            let after = connect_trace(before.pool, second, second_events);
            &&& count_spawns(after.actions) == 0
            &&& after.actions.last() == before.actions.last()
            &&& after.pool == before.pool
        }),
{
    law_outcome_and_pool(pool, first, first_events);
    law_at_most_one_spawn(pool, first, first_events);
    let before = connect_trace(pool, first, first_events);
    law_live_server_is_reused(before.pool, second, second_events);
}

/// How a connect goes on that has an old process to get rid of and ends
/// with a port.
proof fn lemma_replacement(pool: PoolView, c: ConnectionView, events: Seq<PoolEventView>)
    requires
        pool_ok(pool),
        fits(pool, c),
        c.phase is Materializing,
        c.phase->Materializing_old is Some,
        drive(pool, c, events).actions.len() > 0,
        drive(pool, c, events).actions.last() is Connected,
    ensures
        ({
            let t = drive(pool, c, events);
            &&& events.len() >= 4
            &&& events[0] is Materialized
            &&& events[0]->Materialized_0 is Ok
            &&& events[1] == PoolEventView::Terminated
            &&& events[2] is Spawned
            &&& events[2]->Spawned_0 is Ok
            &&& events[3] is PortAnnounced
            &&& events[3]->PortAnnounced_0 is Some
            &&& t.actions == seq![
                PoolActionView::Terminate { pid: c.phase->Materializing_old->0 },
                spawn(c),
                PoolActionView::AwaitPort {
                    pid: events[2]->Spawned_0->Ok_0,
                    timeout: c.startup_options.timeout,
                },
                PoolActionView::Connected(events[3]->PortAnnounced_0->Some_0),
            ]
            &&& count_terminations(t.actions) == 1
            &&& count_spawns(t.actions) == 1
            &&& t.pool == pool.insert(
                c.name,
                started(c, events[2]->Spawned_0->Ok_0, events[3]->PortAnnounced_0->Some_0),
            )
        }),
{
    let r0 = drive(pool, c, events);
    let s1 = advance(pool, c, events[0]);
    lemma_advance_fits(pool, c, events[0]);
    let e1 = events.drop_first();
    let r1 = drive(s1.pool, s1.connection, e1);
    lemma_drive(s1.pool, s1.connection, e1);
    assert(r0.actions == seq![s1.action] + r1.actions);
    assert(r1.actions.len() > 0 && r0.actions.last() == r1.actions.last()) by {
        if r1.actions.len() == 0 {
            assert(r0.actions.last() == s1.action);
        }
    }
    assert(events[0] is Materialized && events[0]->Materialized_0 is Ok);
    let s2 = advance(s1.pool, s1.connection, e1[0]);
    lemma_advance_fits(s1.pool, s1.connection, e1[0]);
    let e2 = e1.drop_first();
    let r2 = drive(s2.pool, s2.connection, e2);
    lemma_drive(s2.pool, s2.connection, e2);
    assert(r1.actions == seq![s2.action] + r2.actions);
    assert(r2.actions.len() > 0 && r1.actions.last() == r2.actions.last()) by {
        if r2.actions.len() == 0 {
            assert(r1.actions.last() == s2.action);
        }
    }
    let s3 = advance(s2.pool, s2.connection, e2[0]);
    lemma_advance_fits(s2.pool, s2.connection, e2[0]);
    let e3 = e2.drop_first();
    let r3 = drive(s3.pool, s3.connection, e3);
    lemma_drive(s3.pool, s3.connection, e3);
    assert(r2.actions == seq![s3.action] + r3.actions);
    assert(r3.actions.len() > 0 && r2.actions.last() == r3.actions.last()) by {
        if r3.actions.len() == 0 {
            assert(r2.actions.last() == s3.action);
        }
    }
    assert(e2[0] is Spawned && e2[0]->Spawned_0 is Ok);
    let s4 = advance(s3.pool, s3.connection, e3[0]);
    lemma_advance_fits(s3.pool, s3.connection, e3[0]);
    let e4 = e3.drop_first();
    let r4 = drive(s4.pool, s4.connection, e4);
    lemma_drive(s4.pool, s4.connection, e4);
    assert(r3.actions == seq![s4.action] + r4.actions);
    assert(e3[0] is PortAnnounced && e3[0]->PortAnnounced_0 is Some) by {
        if r4.actions.len() == 0 {
            assert(r3.actions.last() == s4.action);
        } else {
            assert(r3.actions.last() == r4.actions.last());
        }
    }
    assert(r4.actions =~= Seq::<PoolActionView>::empty());
    assert(e1[0] == events[1] && e2[0] == events[2] && e3[0] == events[3]);
    assert(r0.actions =~= seq![s1.action, s2.action, s3.action, s4.action]);
    lemma_count_spawns_prepend(s4.action, r4.actions);
    lemma_count_spawns_prepend(s3.action, r3.actions);
    lemma_count_spawns_prepend(s2.action, r2.actions);
    lemma_count_spawns_prepend(s1.action, r1.actions);
    lemma_count_terminations_prepend(s4.action, r4.actions);
    lemma_count_terminations_prepend(s3.action, r3.actions);
    lemma_count_terminations_prepend(s2.action, r2.actions);
    lemma_count_terminations_prepend(s1.action, r1.actions);
}

/// Replacement. Where a server with another fingerprint is filed under the
/// name, a connect that ends with a port has gone exactly this way: the
/// files were materialized, the old server was terminated, then one new
/// server was started and waited for, and the port handed out is the one
/// that the new server announced. The new server is filed in place of the
/// old one.
pub proof fn law_stale_server_is_replaced(pool: PoolView, w: Wanted, events: Seq<PoolEventView>)
    requires
        pool_ok(pool),
        pool.dom().contains(w.name),
        pool[w.name].fingerprint != w.fingerprint,
        connect_trace(pool, w, events).actions.last() is Connected,
    ensures
        ({
            let t = connect_trace(pool, w, events);
            let c = begin_for(pool, w).connection;
            &&& events.len() >= 4
            &&& events[0] is Materialized
            &&& events[0]->Materialized_0 is Ok
            &&& events[1] == PoolEventView::Terminated
            &&& events[2] is Spawned
            &&& events[2]->Spawned_0 is Ok
            &&& events[3] is PortAnnounced
            &&& events[3]->PortAnnounced_0 is Some
            &&& t.actions == seq![
                materialize(c),
                PoolActionView::Terminate { pid: pool[w.name].pid },
                spawn(c),
                PoolActionView::AwaitPort {
                    pid: events[2]->Spawned_0->Ok_0,
                    timeout: w.startup_options.timeout,
                },
                PoolActionView::Connected(events[3]->PortAnnounced_0->Some_0),
            ]
            &&& count_terminations(t.actions) == 1
            &&& count_spawns(t.actions) == 1
            &&& t.pool == pool.insert(
                w.name,
                started(c, events[2]->Spawned_0->Ok_0, events[3]->PortAnnounced_0->Some_0),
            )
        }),
{
    let first = begin_for(pool, w);
    let c0 = first.connection;
    let t = connect_trace(pool, w, events);
    lemma_begin_fits(pool, w);
    let r0 = drive(first.pool, c0, events);
    assert(r0.actions.len() > 0) by {
        if r0.actions.len() == 0 {
            assert(t.actions.last() == first.action);
        }
    }
    assert(t.actions.last() == r0.actions.last());
    lemma_replacement(first.pool, c0, events);
    assert(t.actions =~= seq![first.action, r0.actions[0], r0.actions[1], r0.actions[2], r0.actions[3]]);
    let port = events[3]->PortAnnounced_0->Some_0;
    let pid = events[2]->Spawned_0->Ok_0;
    assert(first.pool.insert(w.name, started(c0, pid, port)) =~= pool.insert(
        w.name,
        started(c0, pid, port),
    ));
    lemma_count_spawns_prepend(first.action, r0.actions);
    lemma_count_terminations_prepend(first.action, r0.actions);
}

/// A dead server is replaced. Where the server filed under the name has
/// the fingerprint asked for and is found dead, a connect that ends with a
/// port has gone exactly this way: the probe, then the files, then the
/// dead process is reaped, then one new server is started and waited for.
/// The caller gets the port of the new server and sees no error.
pub proof fn law_dead_server_is_replaced(pool: PoolView, w: Wanted, events: Seq<PoolEventView>)
    requires
        pool_ok(pool),
        pool.dom().contains(w.name),
        pool[w.name].fingerprint == w.fingerprint,
        events.len() > 0,
        events[0] == PoolEventView::Liveness(Liveness::Dead),
        connect_trace(pool, w, events).actions.last() is Connected,
    ensures
        ({
            let t = connect_trace(pool, w, events);
            let c = begin_for(pool, w).connection;
            &&& events.len() >= 5
            &&& events[1] is Materialized
            &&& events[1]->Materialized_0 is Ok
            &&& events[2] == PoolEventView::Terminated
            &&& events[3] is Spawned
            &&& events[3]->Spawned_0 is Ok
            &&& events[4] is PortAnnounced
            &&& events[4]->PortAnnounced_0 is Some
            &&& t.actions == seq![
                PoolActionView::Probe { pid: pool[w.name].pid },
                materialize(c),
                PoolActionView::Terminate { pid: pool[w.name].pid },
                spawn(c),
                PoolActionView::AwaitPort {
                    pid: events[3]->Spawned_0->Ok_0,
                    timeout: w.startup_options.timeout,
                },
                PoolActionView::Connected(events[4]->PortAnnounced_0->Some_0),
            ]
            &&& count_terminations(t.actions) == 1
            &&& count_spawns(t.actions) == 1
            &&& t.pool == pool.insert(
                w.name,
                started(c, events[3]->Spawned_0->Ok_0, events[4]->PortAnnounced_0->Some_0),
            )
        }),
{
    let first = begin_for(pool, w);
    let c0 = first.connection;
    let t = connect_trace(pool, w, events);
    lemma_begin_fits(pool, w);
    let r0 = drive(first.pool, c0, events);
    let s1 = advance(first.pool, c0, events[0]);
    lemma_advance_fits(first.pool, c0, events[0]);
    let e1 = events.drop_first();
    let r1 = drive(s1.pool, s1.connection, e1);
    assert(r0.actions == seq![s1.action] + r1.actions);
    assert(t.actions.last() == r0.actions.last());
    assert(r1.actions.len() > 0 && r0.actions.last() == r1.actions.last()) by {
        if r1.actions.len() == 0 {
            assert(r0.actions.last() == s1.action);
        }
    }
    lemma_replacement(s1.pool, s1.connection, e1);
    assert(e1[0] == events[1] && e1[1] == events[2] && e1[2] == events[3] && e1[3] == events[4]);
    assert(t.actions =~= seq![
        first.action,
        s1.action,
        r1.actions[0],
        r1.actions[1],
        r1.actions[2],
        r1.actions[3],
    ]);
    let port = events[4]->PortAnnounced_0->Some_0;
    let pid = events[3]->Spawned_0->Ok_0;
    assert(s1.pool.insert(w.name, started(s1.connection, pid, port)) =~= pool.insert(
        w.name,
        started(c0, pid, port),
    ));
    lemma_count_spawns_prepend(s1.action, r1.actions);
    lemma_count_spawns_prepend(first.action, r0.actions);
    lemma_count_terminations_prepend(s1.action, r1.actions);
    lemma_count_terminations_prepend(first.action, r0.actions);
}

/// Driving a connect with one run of events after another is driving it
/// with the two runs joined, as long as every event of the first run was
/// taken.
pub proof fn lemma_drive_split(
    pool: PoolView,
    c: ConnectionView,
    head: Seq<PoolEventView>,
    tail: Seq<PoolEventView>,
)
    requires
        drive(pool, c, head).actions.len() == head.len(),
    ensures
        ({
            let first = drive(pool, c, head);
            let second = drive(first.pool, first.connection, tail);
            drive(pool, c, head + tail) == (Trace {
                pool: second.pool,
                connection: second.connection,
                actions: first.actions + second.actions,
            })
        }),
    decreases head.len(),
{
    let first = drive(pool, c, head);
    let second = drive(first.pool, first.connection, tail);
    if head.len() == 0 {
        assert(head + tail =~= tail);
        assert(first.actions + second.actions =~= second.actions);
    } else {
        assert(expects(c.phase, head[0]));
        let step = advance(pool, c, head[0]);
        let rest = drive(step.pool, step.connection, head.drop_first());
        assert(first.actions == seq![step.action] + rest.actions);
        assert(rest.actions.len() == head.drop_first().len());
        lemma_drive_split(step.pool, step.connection, head.drop_first(), tail);
        assert((head + tail)[0] == head[0]);
        assert((head + tail).drop_first() =~= head.drop_first() + tail);
        assert(seq![step.action] + (rest.actions + second.actions) =~= first.actions
            + second.actions);
    }
}

/// Timeout. A connect that has started a server and is waiting for its
/// port, and is then told that the wait ran out, asks for that server to be
/// terminated and, once it is, fails with the startup-timeout error. Nothing
/// is filed under the name, and what is filed under other names stays.
///
/// `taken` is the number of events up to the moment the connect waits for
/// the port.
pub proof fn law_startup_timeout(
    pool: PoolView,
    w: Wanted,
    events: Seq<PoolEventView>,
    taken: int,
)
    requires
        pool_ok(pool),
        0 <= taken,
        taken + 2 <= events.len(),
        connect_trace(pool, w, events.take(taken)).actions.len() == taken + 1,
        connect_trace(pool, w, events.take(taken)).connection.phase is AwaitingPort,
        events[taken] == PoolEventView::PortAnnounced(None),
        events[taken + 1] == PoolEventView::Terminated,
    ensures
        ({
            let waiting = connect_trace(pool, w, events.take(taken)).connection;
            let t = connect_trace(pool, w, events);
            &&& t.actions.len() == taken + 3
            &&& t.actions[taken + 1] == PoolActionView::Terminate {
                pid: waiting.phase->AwaitingPort_pid,
            }
            &&& t.actions[taken + 2] == PoolActionView::Failed(PoolStartErrorView::StartupTimeout)
            &&& t.connection.phase is Done
            &&& !t.pool.dom().contains(w.name)
            &&& t.pool.remove(w.name) == pool.remove(w.name)
        }),
{
    let first = begin_for(pool, w);
    lemma_begin_fits(pool, w);
    let head = events.take(taken);
    let tail = events.skip(taken);
    assert(events =~= head + tail);
    let before = drive(first.pool, first.connection, head);
    assert(before.actions.len() == head.len());
    lemma_drive(first.pool, first.connection, head);
    lemma_drive_split(first.pool, first.connection, head, tail);
    reveal_with_fuel(drive, 3);
    let s1 = advance(before.pool, before.connection, tail[0]);
    let s2 = advance(s1.pool, s1.connection, tail[1]);
    let after = drive(before.pool, before.connection, tail);
    assert(tail.drop_first()[0] == tail[1]);
    assert(after.actions =~= seq![s1.action, s2.action]);
    law_at_most_one_spawn(pool, w, events);
}

/// A clean start. Where nothing is filed under the name, a connect whose
/// files are materialized, whose server starts and announces a port goes
/// exactly this way: materialize, start, wait, and hand out the port that
/// was announced. Nothing is terminated, and the new server is filed under
/// the name.
pub proof fn law_fresh_start(
    pool: PoolView,
    w: Wanted,
    events: Seq<PoolEventView>,
    pid: Pid,
    port: Port,
)
    requires
        pool_ok(pool),
        !pool.dom().contains(w.name),
        port > 0,
        events.len() >= 3,
        events[0] is Materialized,
        events[0]->Materialized_0 is Ok,
        events[1] == PoolEventView::Spawned(Ok(pid)),
        events[2] == PoolEventView::PortAnnounced(Some(port)),
    ensures
        ({
            let t = connect_trace(pool, w, events);
            let c = begin_for(pool, w).connection;
            &&& t.actions == seq![
                materialize(c),
                spawn(c),
                PoolActionView::AwaitPort { pid, timeout: w.startup_options.timeout },
                PoolActionView::Connected(port),
            ]
            &&& count_spawns(t.actions) == 1
            &&& count_terminations(t.actions) == 0
            &&& t.pool == pool.insert(w.name, started(c, pid, port))
        }),
{
    reveal_with_fuel(drive, 5);
    let first = begin_for(pool, w);
    let e1 = events.drop_first();
    let e2 = e1.drop_first();
    let e3 = e2.drop_first();
    assert(e1[0] == events[1] && e2[0] == events[2]);
    let s1 = advance(first.pool, first.connection, events[0]);
    let s2 = advance(s1.pool, s1.connection, e1[0]);
    let s3 = advance(s2.pool, s2.connection, e2[0]);
    let r3 = drive(s3.pool, s3.connection, e3);
    assert(r3.actions =~= Seq::<PoolActionView>::empty());
    let r2 = drive(s2.pool, s2.connection, e2);
    let r1 = drive(s1.pool, s1.connection, e1);
    let r0 = drive(first.pool, first.connection, events);
    let t = connect_trace(pool, w, events);
    assert(t.actions =~= seq![first.action, s1.action, s2.action, s3.action]);
    lemma_count_spawns_prepend(s3.action, r3.actions);
    lemma_count_spawns_prepend(s2.action, r2.actions);
    lemma_count_spawns_prepend(s1.action, r1.actions);
    lemma_count_spawns_prepend(first.action, r0.actions);
    lemma_count_terminations_prepend(s3.action, r3.actions);
    lemma_count_terminations_prepend(s2.action, r2.actions);
    lemma_count_terminations_prepend(s1.action, r1.actions);
    lemma_count_terminations_prepend(first.action, r0.actions);
}

/// No poisoned state. After a connect has failed, for whatever reason, a
/// connect under the same name starts cleanly: with the files materialized
/// and a server that starts and announces a port, it hands out that port
/// and finds nothing left over to terminate.
pub proof fn law_connect_after_failure(
    pool: PoolView,
    failed: Wanted,
    failed_events: Seq<PoolEventView>,
    next: Wanted,
    next_events: Seq<PoolEventView>,
    pid: Pid,
    port: Port,
)
    requires
        pool_ok(pool),
        connect_trace(pool, failed, failed_events).actions.last() is Failed,
        next.name == failed.name,
        port > 0,
        next_events.len() >= 3,
        next_events[0] is Materialized,
        next_events[0]->Materialized_0 is Ok,
        next_events[1] == PoolEventView::Spawned(Ok(pid)),
        next_events[2] == PoolEventView::PortAnnounced(Some(port)),
    ensures
        ({
            let before = connect_trace(pool, failed, failed_events);
            let after = connect_trace(before.pool, next, next_events);
            &&& !before.pool.dom().contains(failed.name)
            &&& after.actions.last() == PoolActionView::Connected(port)
            &&& count_spawns(after.actions) == 1
            &&& count_terminations(after.actions) == 0
            &&& after.pool.dom().contains(next.name)
            &&& after.pool[next.name].port == port
            &&& after.pool[next.name].fingerprint == next.fingerprint
        }),
{
    law_outcome_and_pool(pool, failed, failed_events);
    law_at_most_one_spawn(pool, failed, failed_events);
    let before = connect_trace(pool, failed, failed_events);
    law_fresh_start(before.pool, next, next_events, pid, port);
}

} // verus!
