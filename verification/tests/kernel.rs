use serde_json::Value;
use sim_core::input::{PolicyConfig, Workload};
use sim_core::kernel::{
    Boundary, CoreStatus, ErrorCode, Event, IntervalOwner, Kernel, Payload, Pending, Policy, RunStatus, State,
    ThreadStatus,
};
use sim_core::kernel::Kind;
use std::collections::{BTreeSet, VecDeque};

/// Test-only driver of the kernel's FIFO and time-slice mechanisms.
struct TestPolicy(PolicyConfig);

impl Policy for TestPolicy {
    fn spec_configuration(&self) -> PolicyConfig {
        self.0
    }
    fn spec_quantum(&self) -> Option<u64> {
        self.0.quantum()
    }
    fn configuration(&self) -> PolicyConfig {
        self.0
    }
    fn quantum(&self) -> Option<u64> {
        self.0.quantum()
    }
    fn select(&mut self, ready: &VecDeque<usize>) -> Option<usize> {
        ready.front().copied()
    }
}

fn value(text: &str) -> Value {
    serde_json::from_str(text).unwrap()
}

fn compute(id: &str, n: u64) -> Value {
    value(&format!(r#"{{"blockId":"{id}","op":"compute","duration":{{"literal":"{n}"}}}}"#))
}

fn io_wait(id: &str, n: u64) -> Value {
    value(&format!(r#"{{"blockId":"{id}","op":"ioWait","duration":{{"literal":"{n}"}}}}"#))
}

fn simple(id: &str, op: &str) -> Value {
    value(&format!(r#"{{"blockId":"{id}","op":"{op}"}}"#))
}

fn end(id: &str) -> Value {
    simple(id, "end")
}

fn repeat(id: &str, n: u64, body: Vec<Value>) -> Value {
    let mut v = value(&format!(r#"{{"blockId":"{id}","op":"repeat","count":{{"literal":"{n}"}}}}"#));
    v["body"] = Value::Array(body);
    v
}

fn workload(
    programs: Vec<Vec<Value>>,
    arrivals: &[u64],
    cores: usize,
    cost: u64,
    budget: u64,
    quantum: Option<u64>,
) -> Value {
    let mut v = value(&format!(
        r#"{{"schemaVersion":"os-lab-workload/1","applicationVersion":"app.test","modelVersion":"sched.m1/revision-1","engineVersion":"sim-engine.0.1.0","randomAlgorithmVersion":"none.v1","seed":"42","machine":{{"machineId":"m","cores":{cores},"switchCost":"{cost}","controlOperationBudgetPerTick":"{budget}"}}}}"#
    ));
    v["policy"] = match quantum {
        None => value(r#"{"kind":"fcfs"}"#),
        Some(q) => value(&format!(r#"{{"kind":"roundRobin","quantum":"{q}"}}"#)),
    };
    v["programs"] = Value::Array(
        programs
            .into_iter()
            .enumerate()
            .map(|(i, blocks)| {
                let mut p = value(&format!(
                    r#"{{"schemaVersion":"os-lab-program/1","programId":"p{i}","name":"Test","parameters":[]}}"#
                ));
                p["blocks"] = Value::Array(blocks);
                p
            })
            .collect(),
    );
    v["threads"] = Value::Array(
        arrivals
            .iter()
            .enumerate()
            .map(|(i, arrival)| {
                value(&format!(
                    r#"{{"threadId":"m:t{i}","programId":"p{i}","arrival":"{arrival}","parameters":{{}}}}"#
                ))
            })
            .collect(),
    );
    v
}

fn decode(v: &Value) -> Workload {
    Workload::decode(&serde_json::to_vec(v).unwrap()).unwrap()
}

fn kernel(v: &Value) -> Kernel<TestPolicy> {
    let workload = decode(v);
    let policy = TestPolicy(*workload.policy());
    Kernel::new(workload, policy).unwrap()
}

fn payload_json(p: &Payload) -> Value {
    let mut m = serde_json::Map::new();
    match p {
        Payload::Empty => {}
        Payload::Arrival { declaration_index } => {
            m.insert("declarationIndex".into(), Value::from(*declaration_index));
        }
        Payload::Core { core_id, generation } => {
            m.insert("coreId".into(), Value::from(*core_id));
            m.insert("generation".into(), Value::from(generation.to_string()));
        }
        Payload::IoSubmitted { duration, completion_tick } => {
            m.insert("duration".into(), Value::from(duration.to_string()));
            m.insert("completionTick".into(), Value::from(completion_tick.to_string()));
        }
        Payload::RunCompleted { completed_threads, errored_threads, censored_threads } => {
            m.insert("completedThreads".into(), Value::from(*completed_threads));
            m.insert("erroredThreads".into(), Value::from(*errored_threads));
            m.insert("censoredThreads".into(), Value::from(*censored_threads));
        }
        Payload::RuntimeError { code } => {
            m.insert("code".into(), Value::from(code.name()));
        }
    }
    Value::Object(m)
}

fn event_json(e: &Event) -> Value {
    let mut m = serde_json::Map::new();
    m.insert("eventId".into(), Value::from(e.event_id.clone()));
    m.insert("eventSequence".into(), Value::from(e.event_sequence.to_string()));
    m.insert("tick".into(), Value::from(e.tick.to_string()));
    m.insert("kind".into(), Value::from(e.kind.name()));
    m.insert("entityIds".into(), Value::from(e.entity_ids.clone()));
    m.insert("causalParentIds".into(), Value::from(e.causal_parent_ids.clone()));
    m.insert("payload".into(), payload_json(&e.payload));
    if let Some(t) = &e.thread_id {
        m.insert("threadId".into(), Value::from(t.clone()));
    }
    if let Some(b) = &e.block_id {
        m.insert("blockId".into(), Value::from(b.clone()));
    }
    Value::Object(m)
}

fn events(b: &Boundary) -> Vec<Value> {
    b.events.iter().map(event_json).collect()
}

fn check_ownership(state: &State) {
    let ready: BTreeSet<_> = state.ready_queue.iter().collect();
    assert_eq!(ready.len(), state.ready_queue.len());
    assert!(ready.is_empty() || state.cores.iter().all(|c| c.status != CoreStatus::Idle));
    for t in &state.threads {
        assert_eq!(ready.contains(&t.thread_id), t.status == ThreadStatus::Ready);
        assert_eq!(
            t.core_id.is_some(),
            matches!(t.status, ThreadStatus::Dispatching | ThreadStatus::Running)
        );
        if let Some(core) = t.core_id {
            let c = &state.cores[core];
            assert_eq!(c.thread_id.as_ref(), Some(&t.thread_id));
            assert_eq!(c.status == CoreStatus::Running, t.status == ThreadStatus::Running);
        }
    }
    for c in &state.cores {
        assert_eq!(c.thread_id.is_none(), c.status == CoreStatus::Idle);
        if let Some(thread) = &c.thread_id {
            assert_eq!(
                state.threads.iter().find(|t| &t.thread_id == thread).unwrap().core_id,
                Some(c.core_id)
            );
        }
    }
}

fn finish(k: &mut Kernel<TestPolicy>) -> Boundary {
    let (mut events, mut intervals) = (Vec::new(), Vec::new());
    for _ in 0..1000 {
        let boundary = k.advance_tick();
        check_ownership(&boundary.state);
        events.extend(boundary.events);
        intervals.extend(boundary.intervals);
        if !matches!(boundary.state.status, RunStatus::Created | RunStatus::Running) {
            return Boundary { state: boundary.state, events, intervals };
        }
    }
    panic!("test failed to terminate within independent 1000-tick boundary cap")
}

fn kinds_at(events: &[Value], tick: u64) -> Vec<(String, String)> {
    let tick = tick.to_string();
    events
        .iter()
        .filter(|e| e["tick"] == tick)
        .map(|e| {
            (
                e["kind"].as_str().unwrap().to_owned(),
                e["threadId"].as_str().unwrap_or("").to_owned(),
            )
        })
        .collect()
}

fn count_kind(events: &[Value], kind: &str) -> usize {
    events.iter().filter(|e| e["kind"] == kind).count()
}

/// One independently worked scheduling case: thread names, programs and arrivals;
/// machine; the final tick, whether the run errs, and each core's ledger.
struct Case {
    id: &'static str,
    threads: Vec<(&'static str, Vec<Value>, u64)>,
    cores: usize,
    switch_cost: u64,
    budget: u64,
    quantum: Option<u64>,
    final_tick: u64,
    error: bool,
    ledgers: Vec<Vec<(u64, u64, &'static str, Option<&'static str>)>>,
}

fn reference_cases() -> Vec<Case> {
    vec![
        Case {
            id: "C01",
            threads: vec![
                ("A", vec![compute("A.b0", 2), end("A.b1")], 0),
                ("B", vec![compute("B.b0", 1), end("B.b1")], 0),
                ("C", vec![compute("C.b0", 1), end("C.b1")], 0),
            ],
            cores: 1,
            switch_cost: 0,
            budget: 100,
            quantum: None,
            final_tick: 4,
            error: false,
            ledgers: vec![vec![(0, 2, "useful", Some("A")), (2, 3, "useful", Some("B")), (3, 4, "useful", Some("C"))]],
        },
        Case {
            id: "C02",
            threads: vec![
                ("A", vec![compute("A.b0", 2), end("A.b1")], 0),
                ("B", vec![compute("B.b0", 1), end("B.b1")], 0),
            ],
            cores: 1,
            switch_cost: 0,
            budget: 100,
            quantum: Some(2),
            final_tick: 3,
            error: false,
            ledgers: vec![vec![(0, 2, "useful", Some("A")), (2, 3, "useful", Some("B"))]],
        },
        Case {
            id: "C03",
            threads: vec![
                ("A", vec![compute("A.b0", 2), end("A.b1")], 0),
                ("B", vec![compute("B.b0", 1), end("B.b1")], 1),
            ],
            cores: 1,
            switch_cost: 1,
            budget: 100,
            quantum: None,
            final_tick: 5,
            error: false,
            ledgers: vec![vec![
                (0, 1, "overhead", Some("A")),
                (1, 3, "useful", Some("A")),
                (3, 4, "overhead", Some("B")),
                (4, 5, "useful", Some("B")),
            ]],
        },
        Case {
            id: "C04",
            threads: vec![
                ("A", vec![compute("A.b0", 1), io_wait("A.b1", 2), compute("A.b2", 1), end("A.b3")], 0),
                ("B", vec![compute("B.b0", 4), end("B.b1")], 0),
            ],
            cores: 1,
            switch_cost: 0,
            budget: 100,
            quantum: Some(2),
            final_tick: 6,
            error: false,
            ledgers: vec![vec![
                (0, 1, "useful", Some("A")),
                (1, 3, "useful", Some("B")),
                (3, 4, "useful", Some("A")),
                (4, 6, "useful", Some("B")),
            ]],
        },
        Case {
            id: "C05",
            threads: vec![("A", vec![compute("A.b0", 2), end("A.b1")], 2)],
            cores: 2,
            switch_cost: 1,
            budget: 100,
            quantum: None,
            final_tick: 5,
            error: false,
            ledgers: vec![
                vec![(0, 2, "idle", None), (2, 3, "overhead", Some("A")), (3, 5, "useful", Some("A"))],
                vec![(0, 5, "idle", None)],
            ],
        },
        Case {
            id: "C06",
            threads: vec![
                ("A", vec![compute("A.b0", 2), end("A.b1")], 0),
                ("B", vec![compute("B.b0", 2), end("B.b1")], 0),
                ("C", vec![compute("C.b0", 2), end("C.b1")], 0),
            ],
            cores: 2,
            switch_cost: 1,
            budget: 100,
            quantum: None,
            final_tick: 6,
            error: false,
            ledgers: vec![
                vec![
                    (0, 1, "overhead", Some("A")),
                    (1, 3, "useful", Some("A")),
                    (3, 4, "overhead", Some("C")),
                    (4, 6, "useful", Some("C")),
                ],
                vec![(0, 1, "overhead", Some("B")), (1, 3, "useful", Some("B")), (3, 6, "idle", None)],
            ],
        },
        Case {
            id: "C07",
            threads: vec![
                (
                    "A",
                    vec![compute("A.b0", 1), simple("A.b1", "yield"), compute("A.b2", 1), end("A.b3")],
                    0,
                ),
                ("B", vec![compute("B.b0", 2), end("B.b1")], 0),
            ],
            cores: 1,
            switch_cost: 0,
            budget: 100,
            quantum: None,
            final_tick: 4,
            error: false,
            ledgers: vec![vec![(0, 1, "useful", Some("A")), (1, 3, "useful", Some("B")), (3, 4, "useful", Some("A"))]],
        },
        Case {
            id: "C08",
            threads: vec![
                ("A", vec![end("A.b0")], 0),
                ("B", vec![compute("B.b0", 1), end("B.b1")], 0),
            ],
            cores: 1,
            switch_cost: 0,
            budget: 100,
            quantum: None,
            final_tick: 1,
            error: false,
            ledgers: vec![vec![(0, 1, "useful", Some("B"))]],
        },
        Case {
            id: "C09",
            threads: vec![
                ("A", vec![repeat("A-loop", 4, vec![]), end("A.b1")], 0),
                ("B", vec![compute("B.b0", 1), end("B.b1")], 0),
            ],
            cores: 1,
            switch_cost: 0,
            budget: 3,
            quantum: None,
            final_tick: 0,
            error: true,
            ledgers: vec![vec![]],
        },
        Case {
            id: "C10",
            threads: vec![("A", vec![io_wait("A.b0", 1), end("A.b1")], 0)],
            cores: 1,
            switch_cost: 0,
            budget: 100,
            quantum: None,
            final_tick: 1,
            error: false,
            ledgers: vec![vec![(0, 1, "idle", None)]],
        },
    ]
}

#[test]
fn reference_lifecycle_intervals_with_test_only_policy() {
    for case in reference_cases() {
        let names: Vec<&str> = case.threads.iter().map(|t| t.0).collect();
        let arrivals: Vec<u64> = case.threads.iter().map(|t| t.2).collect();
        let programs: Vec<Vec<Value>> = case.threads.iter().map(|t| t.1.clone()).collect();
        let v = workload(programs, &arrivals, case.cores, case.switch_cost, case.budget, case.quantum);
        let b = finish(&mut kernel(&v));
        assert_eq!(b.state.tick, case.final_tick, "{}", case.id);
        assert_eq!(
            b.state.status,
            if case.error { RunStatus::Error } else { RunStatus::Completed },
            "{}",
            case.id
        );
        for (core, ledger) in case.ledgers.iter().enumerate() {
            let actual: Vec<(u64, u64, &str, Option<&str>)> = b
                .intervals
                .iter()
                .filter_map(|i| match &i.owner {
                    IntervalOwner::Core { core_id, status, thread_id } if *core_id == core => Some((
                        i.start,
                        i.end,
                        match status {
                            CoreStatus::Idle => "idle",
                            CoreStatus::Running => "useful",
                            CoreStatus::Dispatching => "overhead",
                        },
                        thread_id.as_ref().map(|id| {
                            names[id.strip_prefix("m:t").unwrap().parse::<usize>().unwrap()]
                        }),
                    )),
                    _ => None,
                })
                .collect();
            assert_eq!(&actual, ledger, "{} core {core}", case.id);
        }
        assert_eq!(b, finish(&mut kernel(&v)), "repeat determinism {}", case.id);
    }
}

#[test]
fn repeat_charge_boundaries_and_source_identity() {
    for (count, budget, expected, block) in [
        (3, 4, RunStatus::Completed, "done"),
        (3, 3, RunStatus::Error, "done"),
        (4, 3, RunStatus::Error, "loop"),
    ] {
        let b = finish(&mut kernel(&workload(
            vec![vec![repeat("loop", count, vec![]), end("done")]],
            &[0],
            1,
            0,
            budget,
            None,
        )));
        assert_eq!(b.state.tick, 0);
        assert_eq!(b.state.status, expected);
        assert_eq!(b.state.threads[0].block_id, block);
    }
    let v = workload(vec![vec![repeat("loop", 3, vec![compute("cpu", 1)]), end("done")]], &[0], 1, 0, 1, None);
    let b = finish(&mut kernel(&v));
    assert_eq!((b.state.status, b.state.tick), (RunStatus::Completed, 3));
    assert_eq!(
        events(&b).iter().filter(|e| e["kind"] == "computeCompleted" && e["blockId"] == "cpu").count(),
        3
    );
    let nested = workload(
        vec![vec![repeat("outer", 2, vec![repeat("inner", 2, vec![compute("cpu", 1)])]), end("done")]],
        &[0],
        1,
        0,
        2,
        None,
    );
    assert_eq!(finish(&mut kernel(&nested)).state.tick, 4);
    let terminating = workload(vec![vec![repeat("outer", u64::MAX, vec![end("inside")])]], &[0], 1, 0, 2, None);
    assert_eq!(finish(&mut kernel(&terminating)).state.threads[0].block_id, "inside");
}

#[test]
fn fatal_budget_is_run_wide_and_stops_later_phases() {
    let b = finish(&mut kernel(&workload(vec![vec![end("a")], vec![end("b")]], &[0, 0], 2, 0, 1, None)));
    assert_eq!(
        b.state.threads.iter().map(|t| t.status).collect::<Vec<_>>(),
        [ThreadStatus::Terminated, ThreadStatus::Error]
    );
    assert_eq!(b.state.error.unwrap().block_id.as_deref(), Some("b"));
    let mut k = kernel(&workload(
        vec![vec![compute("cpu", 1), repeat("loop", 2, vec![]), end("a")], vec![end("b")]],
        &[0, 1],
        2,
        0,
        1,
        None,
    ));
    let b = finish(&mut k);
    assert_eq!((b.state.status, b.state.tick), (RunStatus::Error, 1));
    assert!(!events(&b).iter().any(|e| e["kind"] == "arrival" && e["threadId"] == "m:t1"));
    assert!(k.pending_len() == 0 && k.state().ready_queue.is_empty());
    assert!(k.advance_tick().events.is_empty());
    assert_eq!(b.state.threads[1].status, ThreadStatus::Censored);
    let cycle = workload(
        vec![vec![repeat("loop", 100, vec![simple("give", "yield")]), end("done")]],
        &[0],
        1,
        0,
        5,
        None,
    );
    let mut k = kernel(&cycle);
    let b = finish(&mut k);
    assert_eq!(k.controls(), 5);
    assert_eq!(b.state.error.unwrap().block_id.as_deref(), Some("give"));
}

#[test]
fn phase_order_quantum_instruction_match_and_stale_tokens() {
    let b = finish(&mut kernel(&workload(vec![vec![compute("cpu", 5), end("done")]], &[0], 1, 0, 100, Some(2))));
    let e = events(&b);
    assert_eq!(b.state.tick, 5);
    assert_eq!(count_kind(&e, "computeCompleted"), 1);
    assert_eq!(count_kind(&e, "quantumExpired"), 2);
    assert_eq!(e.iter().find(|e| e["kind"] == "computeCompleted").unwrap()["payload"]["generation"], "3");
    let v = workload(
        vec![vec![compute("a1", 2), compute("a2", 1), end("a")], vec![compute("b1", 1), end("b")]],
        &[0, 2],
        1,
        0,
        100,
        Some(2),
    );
    let b = finish(&mut kernel(&v));
    assert_eq!(
        kinds_at(&events(&b), 2),
        vec![
            ("computeCompleted".into(), "m:t0".into()),
            ("computeStarted".into(), "m:t0".into()),
            ("arrival".into(), "m:t1".into()),
            ("quantumExpired".into(), "m:t0".into()),
            ("dispatchStarted".into(), "m:t1".into()),
            ("dispatchCompleted".into(), "m:t1".into()),
            ("computeStarted".into(), "m:t1".into())
        ]
    );
    let v = workload(
        vec![vec![compute("cpu", 1), io_wait("io", 1), compute("cpu2", 1), end("done")]],
        &[0],
        1,
        0,
        100,
        Some(2),
    );
    let b = finish(&mut kernel(&v));
    let e = events(&b);
    assert_eq!(b.state.tick, 3);
    assert!(!e.iter().any(|e| e["kind"] == "quantumExpired"));
    assert_eq!(e.iter().find(|e| e["kind"] == "ioCompleted").unwrap()["blockId"], "io");
}

#[test]
fn phase_four_scans_finish_ascending_cores() {
    let b = finish(&mut kernel(&workload(
        vec![vec![end("a")], vec![compute("b", 1), end("be")], vec![compute("c", 1), end("ce")]],
        &[0, 0, 0],
        2,
        0,
        100,
        None,
    )));
    let e = events(&b);
    let starts: Vec<_> = e
        .iter()
        .filter(|e| e["kind"] == "dispatchStarted")
        .map(|e| (e["threadId"].clone(), e["payload"]["coreId"].clone()))
        .collect();
    assert_eq!(
        starts,
        vec![
            (Value::from("m:t0"), Value::from(0)),
            (Value::from("m:t1"), Value::from(1)),
            (Value::from("m:t2"), Value::from(0))
        ]
    );
    // Equal-tick completion order is original insertion order, not a new core sort.
    let completed: Vec<_> =
        e.iter().filter(|e| e["kind"] == "computeCompleted").map(|e| e["payload"]["coreId"].clone()).collect();
    assert_eq!(completed, vec![Value::from(1), Value::from(0)]);
}

#[test]
fn arithmetic_failures_close_active_and_future_ownership() {
    for (cost, blocks) in [
        (1, vec![end("end")]),
        (0, vec![compute("cpu", 1), end("end")]),
        (0, vec![io_wait("io", 1), end("end")]),
    ] {
        let b = finish(&mut kernel(&workload(vec![blocks], &[u64::MAX], 1, cost, 100, None)));
        assert_eq!(b.state.tick, u64::MAX);
        assert_eq!(b.state.error.clone().unwrap().code, ErrorCode::ArithmeticOverflow);
        assert_eq!(
            b.intervals
                .iter()
                .filter_map(|i| matches!(i.owner, IntervalOwner::Core { .. }).then_some(i.end - i.start))
                .sum::<u64>(),
            u64::MAX
        );
        assert!(!events(&b).iter().any(|e| e["kind"] == "terminated"));
    }
    let v = workload(
        vec![
            vec![compute("a", 1), repeat("loop", 2, vec![]), end("ae")],
            vec![compute("b", 5), end("be")],
            vec![end("ce")],
        ],
        &[0, 0, 2],
        2,
        0,
        1,
        None,
    );
    let b = finish(&mut kernel(&v));
    for core in 0..2 {
        let durations: u64 = b
            .intervals
            .iter()
            .filter_map(|i| {
                if matches!(i.owner, IntervalOwner::Core { core_id, .. } if core_id == core) {
                    Some(i.end - i.start)
                } else {
                    None
                }
            })
            .sum();
        assert_eq!(durations, 1);
    }
    assert_eq!(
        b.state.threads.iter().map(|t| t.status).collect::<Vec<_>>(),
        vec![ThreadStatus::Error, ThreadStatus::Censored, ThreadStatus::Censored]
    );
}

#[test]
fn checked_counter_overflow_and_reserved_terminal_event() {
    let v = workload(vec![vec![compute("cpu", 1), end("done")]], &[0], 1, 0, 100, None);
    for counter in ["insertion", "core", "instruction"] {
        let mut k = kernel(&v);
        match counter {
            "insertion" => k.set_insertion(u64::MAX),
            "core" => k.set_core_generation(0, u64::MAX),
            _ => k.set_instruction_generation(0, u64::MAX),
        }
        let b = finish(&mut k);
        assert_eq!(b.state.error.clone().unwrap().code, ErrorCode::ArithmeticOverflow, "{counter}");
        assert!(k.pending_len() == 0);
    }
    let mut k = kernel(&v);
    k.set_last_event(u64::MAX - 1);
    let b = finish(&mut k);
    let e = events(&b);
    assert_eq!(e.len(), 1);
    assert_eq!(e[0]["eventSequence"], u64::MAX.to_string());
    assert_eq!(e[0]["kind"], "runtimeError");
    assert_eq!(k.insertion(), 1); // arrival never made ready or dispatched
    assert_eq!(k.core_generation(0), 0);
    let mut k = kernel(&workload(vec![vec![end("done")]], &[0], 1, 0, 100, None));
    k.set_last_event(u64::MAX - 5); // arrival, two dispatch events, end consume final ordinary slots
    let b = finish(&mut k);
    let e = events(&b);
    assert_eq!(b.state.error.clone().unwrap().code, ErrorCode::InternalEngine);
    assert_eq!(b.state.threads[0].status, ThreadStatus::Terminated);
    assert_eq!(e.last().unwrap()["eventSequence"], u64::MAX.to_string());
    assert!(e.last().unwrap().get("threadId").is_none());
}

#[test]
fn generated_ids_causal_predecessors_and_producer_artifact() {
    for (machine, thread) in [
        ("m".to_owned(), "m:core:0".to_owned()),
        ("m".repeat(127), format!("{}:", "m".repeat(127))),
    ] {
        let mut v = workload(vec![vec![compute("cpu", 1), end("end")]], &[0], 1, 0, 100, None);
        v["machine"]["machineId"] = Value::from(machine);
        v["threads"][0]["threadId"] = Value::from(thread);
        let b = finish(&mut kernel(&v));
        let mut previous = None;
        for (i, e) in events(&b).iter().enumerate() {
            assert_eq!(e["eventSequence"], (i + 1).to_string());
            assert!(e["eventId"].as_str().unwrap().len() <= 160);
            let parents = e["causalParentIds"].as_array().unwrap();
            assert_eq!(parents, &previous.iter().cloned().collect::<Vec<Value>>());
            if let Some(entities) = e["entityIds"].as_array() {
                assert!(entities.iter().all(|id| id.as_str().unwrap().len() <= 160));
                if entities.len() == 2 {
                    assert_ne!(entities[0], entities[1]);
                }
            }
            previous = Some(e["eventId"].clone());
        }
    }
    let v = workload(
        vec![vec![compute("cpu", 3), io_wait("io", 1), simple("give", "yield"), end("done")]],
        &[0],
        1,
        1,
        100,
        Some(2),
    );
    let all = finish(&mut kernel(&v));
    assert_eq!(all.state.status, RunStatus::Completed);
    let v = workload(vec![vec![repeat("loop", 2, vec![]), end("done")]], &[0], 1, 0, 1, None);
    let fatal = finish(&mut kernel(&v));
    assert_eq!(fatal.state.status, RunStatus::Error);
}

#[test]
fn insertion_preflight_rejects_before_operation_event() {
    for (cost, blocks, quantum, forbidden, slots) in [
        (1, vec![end("done")], None, "dispatchStarted", 0),
        (0, vec![compute("cpu", 1), end("done")], None, "computeStarted", 0),
        (0, vec![compute("cpu", 2), end("done")], Some(2), "computeStarted", 1),
        (0, vec![io_wait("io", 1), end("done")], None, "ioSubmitted", 0),
    ] {
        let mut k = kernel(&workload(vec![blocks], &[0], 1, cost, 100, quantum));
        k.set_insertion(u64::MAX - slots);
        let b = finish(&mut k);
        assert_eq!(b.state.error.clone().unwrap().code, ErrorCode::ArithmeticOverflow);
        assert!(!events(&b).iter().any(|e| e["kind"] == forbidden), "{forbidden}");
        assert_eq!(k.insertion(), u64::MAX - slots);
    }
}

#[test]
fn earliest_deadline_near_u64_limit() {
    for (arrival, quantum, duration, tick, status, expirations) in [
        (u64::MAX - 5, u64::MAX, 2, u64::MAX - 3, RunStatus::Completed, 0),
        (u64::MAX - 5, 2, 10, u64::MAX - 1, RunStatus::Error, 2),
        (u64::MAX - 2, 2, 2, u64::MAX, RunStatus::Completed, 0),
    ] {
        let b = finish(&mut kernel(&workload(
            vec![vec![compute("cpu", duration), end("done")]],
            &[arrival],
            1,
            0,
            100,
            Some(quantum),
        )));
        assert_eq!((b.state.tick, b.state.status), (tick, status));
        assert_eq!(count_kind(&events(&b), "quantumExpired"), expirations);
    }
    // Equality reaches another compute with zero grant at MAX; phase 3 still
    // expires it before a fresh positive grant makes the real next deadline fail.
    let b = finish(&mut kernel(&workload(
        vec![vec![compute("a", 2), compute("b", 1), end("done")]],
        &[u64::MAX - 2],
        1,
        0,
        100,
        Some(2),
    )));
    assert_eq!(b.state.tick, u64::MAX);
    assert_eq!(count_kind(&events(&b), "quantumExpired"), 1);
}

#[test]
fn stale_tokens_do_not_advance_time_or_mutate_current_occurrence() {
    let v = workload(vec![vec![compute("cpu", 5), end("done")]], &[0], 1, 0, 100, Some(2));
    let mut clean = kernel(&v);
    let mut injected = kernel(&v);
    assert_eq!(clean.advance_tick(), injected.advance_tick());
    let old = injected.earliest_pending().unwrap();
    assert_eq!(clean.advance_tick(), injected.advance_tick()); // generation 2 now owns core
    for kind in [Kind::Compute, Kind::Expire, Kind::Switch] {
        injected.set_insertion(injected.insertion() + 1);
        injected.push_pending(Pending { tick: 3, phase: kind.phase(), sequence: injected.insertion(), kind, ..old });
    }
    injected.set_insertion(injected.insertion() + 1);
    injected.push_pending(Pending { tick: u64::MAX, sequence: injected.insertion(), ..old });
    assert_eq!(finish(&mut clean), finish(&mut injected));
}

/// A policy that claims FCFS but selects a thread that is not queued.
struct Bad;

impl Policy for Bad {
    fn spec_configuration(&self) -> PolicyConfig {
        PolicyConfig::Fcfs
    }
    fn spec_quantum(&self) -> Option<u64> {
        None
    }
    fn configuration(&self) -> PolicyConfig {
        PolicyConfig::Fcfs
    }
    fn quantum(&self) -> Option<u64> {
        None
    }
    fn select(&mut self, _: &VecDeque<usize>) -> Option<usize> {
        Some(99)
    }
}

#[test]
fn policy_contract_rejects_mismatch_and_invalid_selection() {
    let v = workload(vec![vec![end("done")]], &[0], 1, 0, 100, None);
    assert!(Kernel::new(decode(&v), TestPolicy(PolicyConfig::RoundRobin { quantum: 1 })).is_err());
    let mut k = Kernel::new(decode(&v), Bad).unwrap();
    let b = k.advance_tick();
    assert_eq!(b.state.error.clone().unwrap().code, ErrorCode::InternalEngine);
    assert_eq!(b.state.threads[0].status, ThreadStatus::Censored);
}

#[test]
fn boundaries_keep_ownership_consistent_and_number_events_contiguously() {
    let v = workload(
        vec![
            vec![compute("a", 3), io_wait("io", 2), simple("give", "yield"), compute("a2", 1), end("ae")],
            vec![compute("b", 1), simple("y", "yield"), compute("b2", 4), end("be")],
            vec![repeat("loop", 2, vec![compute("c", 1)]), end("ce")],
        ],
        &[0, 1, 1],
        2,
        1,
        100,
        Some(2),
    );
    let mut k = kernel(&v);
    let mut next = 1u64;
    loop {
        let b = k.advance_tick();
        check_ownership(&b.state);
        for e in &b.events {
            assert_eq!(e.event_sequence, next);
            assert_eq!(e.event_id, format!("m:event:{next}"));
            next += 1;
        }
        if !matches!(b.state.status, RunStatus::Created | RunStatus::Running) {
            assert_eq!(b.state.status, RunStatus::Completed);
            break;
        }
    }
    let after = k.advance_tick();
    assert!(after.events.is_empty() && after.intervals.is_empty());
    assert_eq!(after.state.status, RunStatus::Completed);
}

#[test]
fn core_ledgers_tile_the_run_without_gaps() {
    for case in reference_cases() {
        let arrivals: Vec<u64> = case.threads.iter().map(|t| t.2).collect();
        let programs: Vec<Vec<Value>> = case.threads.iter().map(|t| t.1.clone()).collect();
        let v = workload(programs, &arrivals, case.cores, case.switch_cost, case.budget, case.quantum);
        let b = finish(&mut kernel(&v));
        for core in 0..case.cores {
            let mut at = 0u64;
            let mut total = 0u64;
            for i in &b.intervals {
                if let IntervalOwner::Core { core_id, .. } = &i.owner {
                    if *core_id == core {
                        assert_eq!(i.start, at, "{} core {core}", case.id);
                        assert!(i.start < i.end);
                        total += i.end - i.start;
                        at = i.end;
                    }
                }
            }
            assert_eq!(total, b.state.tick, "{} core {core}", case.id);
        }
    }
}

#[test]
fn new_kernel_schedules_each_arrival_in_declaration_order() {
    let v = workload(vec![vec![compute("cpu", 3), end("done")], vec![end("e")]], &[5, 2], 2, 0, 100, None);
    let mut k = kernel(&v);
    assert_eq!(k.pending_len(), 2);
    assert_eq!(k.insertion(), 2);
    assert_eq!(
        k.earliest_pending(),
        Some(Pending {
            tick: 2,
            phase: 2,
            sequence: 2,
            kind: Kind::Arrival,
            thread: 1,
            core: 0,
            generation: 0,
            instruction: 0
        })
    );
    let s = k.state();
    assert_eq!((s.tick, s.status), (0, RunStatus::Created));
    assert!(s.threads.iter().all(|t| t.status == ThreadStatus::NotArrived && t.core_id.is_none()));
    assert_eq!(s.threads[0].block_id, "cpu");
    let b = k.advance_tick();
    assert_eq!(b.state.tick, 2);
    assert_eq!(b.state.threads[1].status, ThreadStatus::Terminated);
    let b = k.advance_tick();
    assert_eq!(b.state.tick, 5);
    assert_eq!(b.state.threads[0].status, ThreadStatus::Running);
    assert_eq!(b.state.threads[0].block_id, "cpu");
    assert_eq!(b.state.cores[0].thread_id.as_deref(), Some("m:t0"));
}

#[test]
fn thread_ledgers_account_turnaround_to_components() {
    for case in reference_cases() {
        let arrivals: Vec<u64> = case.threads.iter().map(|t| t.2).collect();
        let programs: Vec<Vec<Value>> = case.threads.iter().map(|t| t.1.clone()).collect();
        let v = workload(programs, &arrivals, case.cores, case.switch_cost, case.budget, case.quantum);
        let mut k = kernel(&v);
        let mut intervals = Vec::new();
        let mut ended = vec![None; arrivals.len()];
        loop {
            let b = k.advance_tick();
            for e in &b.events {
                if e.kind.name() == "terminated" {
                    let t: usize = e.thread_id.as_ref().unwrap().strip_prefix("m:t").unwrap().parse().unwrap();
                    ended[t] = Some(e.tick);
                }
            }
            intervals.extend(b.intervals);
            if !matches!(b.state.status, RunStatus::Created | RunStatus::Running) {
                break;
            }
        }
        for (t, arrival) in arrivals.iter().enumerate() {
            let name = format!("m:t{t}");
            let mut at = *arrival;
            let mut total = 0u64;
            for i in &intervals {
                if let IntervalOwner::Thread { thread_id, .. } = &i.owner {
                    if *thread_id == name {
                        assert_eq!(i.start, at, "{} {name}", case.id);
                        total += i.end - i.start;
                        at = i.end;
                    }
                }
            }
            if let Some(end) = ended[t] {
                assert_eq!(total, end - arrival, "{} {name}", case.id);
            }
        }
    }
}

#[test]
fn thread_events_chain_to_the_threads_previous_event() {
    for case in reference_cases() {
        let arrivals: Vec<u64> = case.threads.iter().map(|t| t.2).collect();
        let programs: Vec<Vec<Value>> = case.threads.iter().map(|t| t.1.clone()).collect();
        let v = workload(programs, &arrivals, case.cores, case.switch_cost, case.budget, case.quantum);
        let mut k = kernel(&v);
        let mut last: Vec<Option<String>> = vec![None; arrivals.len()];
        let mut seen = 0usize;
        loop {
            let b = k.advance_tick();
            for e in &b.events {
                if let Some(name) = &e.thread_id {
                    let t: usize = name.strip_prefix("m:t").unwrap().parse().unwrap();
                    let expected: Vec<String> = last[t].iter().cloned().collect();
                    assert_eq!(e.causal_parent_ids, expected, "{} {}", case.id, e.event_id);
                    assert_eq!(e.entity_ids[0], *name);
                    last[t] = Some(e.event_id.clone());
                    seen += 1;
                }
            }
            if !matches!(b.state.status, RunStatus::Created | RunStatus::Running) {
                break;
            }
        }
        assert!(seen > 0, "{}", case.id);
    }
}

#[test]
fn runs_without_a_time_slice_never_expire_a_thread() {
    let mut checked = 0;
    for case in reference_cases() {
        if case.quantum.is_some() {
            continue;
        }
        let arrivals: Vec<u64> = case.threads.iter().map(|t| t.2).collect();
        let programs: Vec<Vec<Value>> = case.threads.iter().map(|t| t.1.clone()).collect();
        let v = workload(programs, &arrivals, case.cores, case.switch_cost, case.budget, case.quantum);
        let mut k = kernel(&v);
        loop {
            let b = k.advance_tick();
            assert_eq!(count_kind(&events(&b), "quantumExpired"), 0, "{}", case.id);
            if !matches!(b.state.status, RunStatus::Created | RunStatus::Running) {
                break;
            }
        }
        checked += 1;
    }
    assert!(checked > 0);
}

#[test]
fn a_run_completes_exactly_when_every_thread_has_terminated() {
    for case in reference_cases() {
        let arrivals: Vec<u64> = case.threads.iter().map(|t| t.2).collect();
        let programs: Vec<Vec<Value>> = case.threads.iter().map(|t| t.1.clone()).collect();
        let v = workload(programs, &arrivals, case.cores, case.switch_cost, case.budget, case.quantum);
        let mut k = kernel(&v);
        loop {
            let b = k.advance_tick();
            let done = b.state.threads.iter().all(|t| t.status == ThreadStatus::Terminated);
            match b.state.status {
                RunStatus::Completed => assert!(done, "{}", case.id),
                RunStatus::Running => assert!(!done, "{}", case.id),
                _ => {}
            }
            if !matches!(b.state.status, RunStatus::Created | RunStatus::Running) {
                assert_eq!(b.state.status == RunStatus::Completed, !case.error, "{}", case.id);
                break;
            }
        }
    }
}

#[test]
fn each_kind_of_event_carries_its_identities() {
    for case in reference_cases() {
        let arrivals: Vec<u64> = case.threads.iter().map(|t| t.2).collect();
        let programs: Vec<Vec<Value>> = case.threads.iter().map(|t| t.1.clone()).collect();
        let v = workload(programs, &arrivals, case.cores, case.switch_cost, case.budget, case.quantum);
        let mut k = kernel(&v);
        loop {
            let b = k.advance_tick();
            for e in &b.events {
                let (thread, block, entities) = match e.kind.name() {
                    "arrival" => (true, false, 1),
                    "dispatchStarted" | "dispatchCompleted" => (true, false, 2),
                    "computeStarted" | "computeCompleted" | "quantumExpired" => (true, true, 2),
                    "ioSubmitted" | "ioCompleted" | "yielded" | "terminated" => (true, true, 1),
                    "runCompleted" => (false, false, 0),
                    _ => {
                        let named = e.thread_id.is_some();
                        (named, named, if named { 1 } else { 0 })
                    }
                };
                assert_eq!(e.thread_id.is_some(), thread, "{} {}", case.id, e.event_id);
                assert_eq!(e.block_id.is_some(), block, "{} {}", case.id, e.event_id);
                assert_eq!(e.entity_ids.len(), entities, "{} {}", case.id, e.event_id);
            }
            if !matches!(b.state.status, RunStatus::Created | RunStatus::Running) {
                break;
            }
        }
    }
}

#[test]
fn time_moves_to_the_next_live_occurrence() {
    let v = workload(vec![vec![compute("a", 3), end("a-end")]], &[5], 1, 0, 100, None);
    let mut k = kernel(&v);
    assert_eq!(k.earliest_pending().unwrap().tick, 5);
    let b = k.advance_tick();
    assert_eq!(b.state.tick, 5);
    assert_eq!(b.state.status, RunStatus::Running);
    assert_eq!(k.earliest_pending().unwrap().tick, 8);
    let b = k.advance_tick();
    assert_eq!(b.state.tick, 8);
    assert_eq!(b.state.status, RunStatus::Completed);
    assert_eq!(k.pending_len(), 0);
}

#[test]
fn core_entities_step_clear_of_thread_names() {
    let mut v = workload(vec![vec![compute("cpu", 1), end("end")]], &[0], 1, 0, 100, None);
    v["threads"][0]["threadId"] = Value::from("m:core:0");
    let mut k = kernel(&v);
    let mut seen = 0;
    loop {
        let b = k.advance_tick();
        for e in &b.events {
            if matches!(e.payload, Payload::Core { .. }) {
                assert_eq!(e.entity_ids, vec!["m:core:0".to_string(), "m:core:0:".to_string()]);
                seen += 1;
            }
        }
        if !matches!(b.state.status, RunStatus::Created | RunStatus::Running) {
            break;
        }
    }
    assert_eq!(seen, 4);
}

#[test]
fn new_kernel_state_names_threads_at_their_first_block() {
    let v = workload(vec![vec![compute("cpu", 1), end("end")], vec![simple("y", "yield"), end("e")]], &[0, 3], 2, 0, 100, None);
    let k = kernel(&v);
    let s = k.state();
    assert_eq!(s.tick, 0);
    assert_eq!(s.status, RunStatus::Created);
    assert_eq!(s.threads.len(), 2);
    assert_eq!((s.threads[0].thread_id.as_str(), s.threads[0].block_id.as_str()), ("m:t0", "cpu"));
    assert_eq!((s.threads[1].thread_id.as_str(), s.threads[1].block_id.as_str()), ("m:t1", "y"));
    assert!(s.threads.iter().all(|t| t.status == ThreadStatus::NotArrived && t.core_id.is_none()));
    assert_eq!(s.cores.len(), 2);
    for (j, c) in s.cores.iter().enumerate() {
        assert_eq!((c.core_id, c.status, c.thread_id.is_none()), (j, CoreStatus::Idle, true));
    }
    assert!(s.ready_queue.is_empty());
    assert!(s.error.is_none());
}

#[test]
fn a_finished_run_accepts_no_further_events() {
    let v = workload(vec![vec![compute("cpu", 1), end("end")]], &[0], 1, 0, 100, None);
    let mut k = kernel(&v);
    let done = finish(&mut k);
    let again = k.advance_tick();
    assert!(again.events.is_empty() && again.intervals.is_empty());
    assert_eq!(again.state, done.state);
    assert_eq!(k.state(), done.state);
}
