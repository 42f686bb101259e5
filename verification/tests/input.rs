use serde_json::Value;
use sim_core::input::{parse, InputError, PolicyConfig, Program, Workload, MAX_BYTES};

const SAMPLE: &str = r#"{"schemaVersion":"os-lab-workload/1","applicationVersion":"app.test","modelVersion":"sched.m1/revision-1","engineVersion":"sim-engine.0.1.0","randomAlgorithmVersion":"none.v1","seed":"18446744073709551615","machine":{"machineId":"m","cores":2,"switchCost":"1","controlOperationBudgetPerTick":"18446744073709551615"},"policy":{"kind":"roundRobin","quantum":"2"},"programs":[{"schemaVersion":"os-lab-program/1","programId":"p0","name":"Sample","parameters":[],"blocks":[{"blockId":"cpu","op":"compute","duration":{"literal":"18446744073709551615"}},{"blockId":"done","op":"end"}]}],"threads":[{"threadId":"m:t0","programId":"p0","arrival":"18446744073709551615","parameters":{}}]}"#;

fn sample() -> Value {
    serde_json::from_str(SAMPLE).unwrap()
}

fn value(text: &str) -> Value {
    serde_json::from_str(text).unwrap()
}

fn decode(v: &Value) -> Result<Workload, InputError> {
    Workload::decode(&serde_json::to_vec(v).unwrap())
}

fn set(v: &mut Value, pointer: &str, new: Value) {
    *v.pointer_mut(pointer).unwrap() = new;
}

#[test]
fn t02_program_workload_fixture_parity() {
    let v = sample();
    let w = decode(&v).unwrap();
    assert_eq!(w.arrival(0), Some(u64::MAX));
    assert_eq!(w.arrival(1), None);
    assert_eq!(w.seed(), u64::MAX);
    assert_eq!(w.control_budget(), u64::MAX);
    assert_eq!(w.policy(), &PolicyConfig::RoundRobin { quantum: 2 });
    assert_eq!(w.source(), &parse(&serde_json::to_vec(&v).unwrap()).unwrap());
    let program = v["programs"][0].clone();
    assert!(Program::decode(&serde_json::to_vec(&program).unwrap()).is_ok());
    let mut future = program.clone();
    future["schemaVersion"] = Value::from("os-lab-program/2");
    assert_eq!(
        Program::decode(&serde_json::to_vec(&future).unwrap()).unwrap_err(),
        InputError::UnsupportedSchema
    );
    let mut dup = program;
    dup["blocks"] = value(r#"[{"blockId":"a","op":"yield"},{"blockId":"a","op":"end"}]"#);
    assert_eq!(
        Program::decode(&serde_json::to_vec(&dup).unwrap()).unwrap_err(),
        InputError::InvalidCommand
    );
}

#[test]
fn integer_lexical_range_and_parameter_boundaries() {
    for raw in [
        Value::from(0),
        Value::from("00"),
        Value::from("+1"),
        Value::from("-1"),
        Value::from("1e3"),
        Value::from(" 1"),
        Value::from("18446744073709551616"),
    ] {
        let mut v = sample();
        v["seed"] = raw;
        assert_eq!(decode(&v).unwrap_err(), InputError::InvalidCommand);
    }
    for n in [0, 9_007_199_254_740_993, u64::MAX] {
        let mut v = sample();
        v["seed"] = Value::from(n.to_string());
        assert_eq!(decode(&v).unwrap().seed(), n);
    }
    let mut v = sample();
    v["programs"][0]["parameters"] = value(&format!(
        r#"[{{"id":"n","minimum":"{}","default":"1","maximum":"{}"}}]"#,
        i64::MIN,
        i64::MAX
    ));
    v["programs"][0]["blocks"][0]["duration"] = value(r#"{"parameter":"n"}"#);
    v["threads"][0]["parameters"] = value(&format!(r#"{{"n":"{}"}}"#, i64::MAX));
    assert!(decode(&v).is_ok());
    for raw in [
        Value::from("0"),
        Value::from("-0"),
        Value::from("-1"),
        Value::from("9223372036854775808"),
        Value::from(1),
    ] {
        v["threads"][0]["parameters"]["n"] = raw;
        assert!(decode(&v).is_err());
    }
    v["threads"][0]["parameters"] = value(r#"{"unknown":"1"}"#);
    assert!(decode(&v).is_err());
    for field in ["switchCost", "controlOperationBudgetPerTick"] {
        let mut v = sample();
        v["machine"][field] = Value::from("0");
        assert_eq!(decode(&v).is_ok(), field == "switchCost");
    }
}

#[test]
fn compatibility_precedence_and_closed_shapes() {
    let mut v = sample();
    for field in ["schemaVersion", "modelVersion", "engineVersion", "randomAlgorithmVersion"] {
        v[field] = Value::from("future");
    }
    for (field, expected, good) in [
        ("schemaVersion", InputError::UnsupportedSchema, "os-lab-workload/1"),
        ("modelVersion", InputError::UnsupportedModel, "sched.m1/revision-1"),
        ("engineVersion", InputError::UnsupportedEngine, "sim-engine.0.1.0"),
        ("randomAlgorithmVersion", InputError::UnsupportedRandomAlgorithm, "none.v1"),
    ] {
        assert_eq!(decode(&v).unwrap_err(), expected);
        v[field] = Value::from(good);
    }
    assert!(decode(&v).is_ok());
    v["engineVersion"] = Value::from("future");
    v["threads"][0]["arrival"] = Value::from("invalid");
    assert_eq!(decode(&v).unwrap_err(), InputError::InvalidCommand);
    for pointer in ["", "/machine", "/policy", "/programs/0", "/programs/0/blocks/0", "/threads/0"] {
        let mut v = sample();
        v.pointer_mut(pointer)
            .unwrap()
            .as_object_mut()
            .unwrap()
            .insert("unknown".into(), Value::from(true));
        assert!(decode(&v).is_err(), "{pointer}");
    }
    let mut v = sample();
    v["programs"][0]["blocks"][0]["duration"] = value(r#"{"literal":"1","parameter":"x"}"#);
    assert!(decode(&v).is_err());
    assert!(Workload::decode(b"{} trailing").is_err());
}

fn nested_repeat(depth: usize) -> Value {
    let mut block = value(r#"{"blockId":"done","op":"end"}"#);
    for i in 0..depth {
        let mut outer = value(r#"{"op":"repeat","count":{"literal":"1"}}"#);
        outer["blockId"] = Value::from(format!("r{i}"));
        outer["body"] = Value::Array(vec![block]);
        block = outer;
    }
    block
}

fn yields_then_end(count: usize) -> Value {
    let mut parts: Vec<String> = (0..count - 1)
        .map(|i| format!(r#"{{"blockId":"b{i}","op":"yield"}}"#))
        .collect();
    parts.push(r#"{"blockId":"done","op":"end"}"#.to_owned());
    value(&format!("[{}]", parts.join(",")))
}

fn parameter_list(count: usize) -> Value {
    let parts: Vec<String> = (0..count)
        .map(|i| format!(r#"{{"id":"n{i}","minimum":"0","default":"0","maximum":"0"}}"#))
        .collect();
    value(&format!("[{}]", parts.join(",")))
}

#[test]
fn resource_limits_exact_depth_blocks_bytes_and_counts() {
    for depth in [64, 65] {
        let mut v = sample();
        v["programs"][0]["blocks"] = Value::Array(vec![nested_repeat(depth)]);
        assert_eq!(decode(&v).is_ok(), depth == 64);
    }
    for count in [10_000, 10_001] {
        let mut outer = value(r#"{"blockId":"outer","op":"repeat","count":{"literal":"1"},"body":[]}"#);
        outer["body"] = yields_then_end(count);
        let mut v = sample();
        v["programs"][0]["blocks"] = Value::Array(vec![outer]);
        assert_eq!(decode(&v).unwrap_err(), InputError::ResourceLimit);
    }
    let mut v = sample();
    v["programs"][0]["blocks"] = yields_then_end(10_000);
    assert!(decode(&v).is_ok());
    let v = sample();
    let mut bytes = serde_json::to_vec(&v).unwrap();
    bytes.resize(MAX_BYTES, b' ');
    assert!(Workload::decode(&bytes).is_ok());
    bytes.push(b' ');
    assert_eq!(Workload::decode(&bytes).unwrap_err(), InputError::ResourceLimit);
    for length in [128, 129] {
        let mut v = sample();
        v["programs"][0]["name"] = Value::from("😀".repeat(length));
        assert_eq!(decode(&v).is_ok(), length == 128);
    }
    for cores in [0, 1, 64, 65] {
        let mut v = sample();
        v["machine"]["cores"] = Value::from(cores);
        assert_eq!(decode(&v).is_ok(), (1..=64).contains(&cores));
    }
    for (number, valid) in [("1.0", true), ("1e0", true), ("1.5", false)] {
        let raw = serde_json::to_string(&sample())
            .unwrap()
            .replace("\"cores\":2", &format!("\"cores\":{number}"));
        assert_eq!(Workload::decode(raw.as_bytes()).is_ok(), valid, "cores {number}");
    }
    let mut v = sample();
    v["programs"][0]["parameters"] = parameter_list(129);
    assert_eq!(decode(&v).unwrap_err(), InputError::ResourceLimit);
}

#[test]
fn resource_limit_preflight_precedes_unrelated_shape_errors() {
    let mut oversized = sample();
    oversized["programs"][0]["parameters"] = parameter_list(129);
    oversized["machine"]["machineId"] = Value::from("1invalid");
    assert_eq!(decode(&oversized).unwrap_err(), InputError::ResourceLimit);
    let mut at_limit = sample();
    at_limit["programs"][0]["parameters"] = parameter_list(128);
    at_limit["machine"]["machineId"] = Value::from("1invalid");
    assert_eq!(decode(&at_limit).unwrap_err(), InputError::InvalidCommand);
}

#[test]
fn nesting_bound_of_the_byte_scan() {
    let deep = format!("{}{}", "[".repeat(161), "]".repeat(161));
    assert_eq!(parse(deep.as_bytes()).unwrap_err(), InputError::ResourceLimit);
    let ok = format!("{}{}", "[".repeat(160), "]".repeat(160));
    assert!(parse(ok.as_bytes()).is_ok());
    let quoted = format!("\"{}\"", "[".repeat(500));
    assert!(parse(quoted.as_bytes()).is_ok());
    assert_eq!(parse(b"{").unwrap_err(), InputError::InvalidCommand);
}

#[test]
fn policy_quantum_and_errors() {
    assert_eq!(PolicyConfig::Fcfs.quantum(), None);
    assert_eq!(PolicyConfig::RoundRobin { quantum: 3 }.quantum(), Some(3));
    assert_eq!(PolicyConfig::RoundRobin { quantum: 0 }.quantum(), None);
    let mut v = sample();
    v["policy"] = value(r#"{"kind":"roundRobin","quantum":"0"}"#);
    assert_eq!(decode(&v).unwrap_err(), InputError::InvalidCommand);
    v["policy"] = value(r#"{"kind":"fcfs"}"#);
    assert_eq!(decode(&v).unwrap().policy(), &PolicyConfig::Fcfs);
    v["policy"] = value(r#"{"kind":"lottery"}"#);
    assert_eq!(decode(&v).unwrap_err(), InputError::InvalidCommand);
}

#[test]
fn thread_identity_rules() {
    let mut v = sample();
    v["threads"][0]["threadId"] = Value::from("n:t0");
    assert_eq!(decode(&v).unwrap_err(), InputError::InvalidCommand);
    let mut v = sample();
    let t = v["threads"][0].clone();
    v["threads"].as_array_mut().unwrap().push(t);
    assert_eq!(decode(&v).unwrap_err(), InputError::InvalidCommand);
    let mut v = sample();
    v["threads"][0]["programId"] = Value::from("missing");
    assert_eq!(decode(&v).unwrap_err(), InputError::InvalidCommand);
    let mut v = sample();
    v["programs"][0]["blocks"] = value(r#"[{"blockId":"a","op":"yield"}]"#);
    assert_eq!(decode(&v).unwrap_err(), InputError::InvalidCommand);
    let mut v = sample();
    v["programs"][0]["blocks"] = value(r#"[{"blockId":"a","op":"end"},{"blockId":"b","op":"end"}]"#);
    assert_eq!(decode(&v).unwrap_err(), InputError::InvalidCommand);
}

#[test]
fn preflight_follows_only_repeat_bodies() {
    let mut v = sample();
    let mut fake = value(r#"{"blockId":"y","op":"yield"}"#);
    fake["body"] = Value::Array(vec![Value::from(0); 10_001]);
    v["programs"][0]["blocks"].as_array_mut().unwrap().insert(0, fake.clone());
    assert_eq!(decode(&v).unwrap_err(), InputError::InvalidCommand);
    let mut program = sample()["programs"][0].clone();
    program["blocks"] = Value::Array(vec![fake, value(r#"{"blockId":"e","op":"end"}"#)]);
    assert_eq!(
        Program::decode(&serde_json::to_vec(&program).unwrap()).unwrap_err(),
        InputError::InvalidCommand
    );
    let mut real = value(r#"{"blockId":"r","op":"repeat","count":{"literal":"1"}}"#);
    real["body"] = Value::Array(vec![Value::from(0); 10_001]);
    let mut v = sample();
    v["programs"][0]["blocks"].as_array_mut().unwrap().insert(0, real);
    assert_eq!(decode(&v).unwrap_err(), InputError::ResourceLimit);
}
