use engram::command::effect::Outcome;
use engram::command::vsave::{after_truncate, after_write, Saving};
use engram::command::{dispatch as serve, has_room, Arity, Command};
use engram::config::Config;
use engram::persist::op::Op;
use engram::persist::recovery::Recovery;
use engram::persist::wal;
use engram::resp::Value;
use engram::state::State;
use engram::vector;
use engram::vector::float::{Float, Operation};
use engram::vector::VectorRegistry;

fn num(x: Float) -> f32 {
    f32::from_bits(x.bits)
}

fn float(x: f32) -> Float {
    Float { bits: x.to_bits() }
}

fn arith(op: Operation<'_>) -> Float {
    float(match op {
        Operation::Dot(a, b) => a.iter().zip(b).map(|(x, y)| num(*x) * num(*y)).sum(),
        Operation::SquaredDistance(a, b) => a
            .iter()
            .zip(b)
            .map(|(x, y)| (num(*x) - num(*y)) * (num(*x) - num(*y)))
            .sum(),
        Operation::Subtract(a, b) => num(a) - num(b),
        Operation::Divide(a, b) => num(a) / num(b),
        Operation::SquareRoot(a) => num(a).sqrt(),
    })
}

fn level(numerator: u64, denominator: u64, m: usize) -> u8 {
    let u = numerator as f64 / denominator as f64;
    (-u.ln() / (m as f64).ln()) as u8
}

fn write(x: Float) -> Vec<u8> {
    num(x).to_string().into_bytes()
}

fn encode(v: &[f32]) -> Vec<u8> {
    let floats: Vec<Float> = v.iter().map(|x| float(*x)).collect();
    vector::encode(&floats)
}

fn cmd(words: &[&str]) -> Vec<Vec<u8>> {
    words.iter().map(|w| w.as_bytes().to_vec()).collect()
}

fn config(dir: Option<&str>) -> Config {
    Config {
        bind: "127.0.0.1".to_string(),
        port: 6380,
        max_clients: 16,
        dir: dir.map(|d| d.to_string()),
    }
}

fn state() -> State {
    State::new(config(None), None)
}

fn persistent() -> State {
    State::new(config(Some("data")), Some(VectorRegistry::new()))
}

fn outcome(argv: &[Vec<u8>], state: &mut State) -> Outcome {
    assert!(has_room(argv, state));
    serve(argv, state, &arith, &level, &write)
}

fn dispatch(argv: &[Vec<u8>], state: &mut State) -> Value {
    match outcome(argv, state) {
        Outcome::Reply(v) => v,
        Outcome::Logged { reply, .. } => reply,
        Outcome::Save { .. } => panic!("nothing to save to"),
    }
}

fn add(state: &mut State, index: &str, key: &str, v: &[f32]) -> Value {
    let args = vec![
        b"VADD".to_vec(),
        index.as_bytes().to_vec(),
        key.as_bytes().to_vec(),
        encode(v),
    ];
    dispatch(&args, state)
}

fn error(text: &str) -> Value {
    Value::Error(text.to_string())
}

#[test]
fn add_then_overwrite_reports_new_flag() {
    let mut state = state();
    dispatch(&cmd(&["VNEW", "mem", "2", "METRIC", "l2"]), &mut state);
    assert_eq!(add(&mut state, "mem", "a", &[1.0, 0.0]), Value::Integer(1));
    assert_eq!(add(&mut state, "mem", "a", &[0.0, 1.0]), Value::Integer(0));
    assert_eq!(state.vectors.get(b"mem").unwrap().len(), 1);
}

#[test]
fn vadd_rejects_missing_index() {
    let mut state = state();
    assert_eq!(
        add(&mut state, "nope", "a", &[1.0, 0.0]),
        error("ERR no such index")
    );
}

#[test]
fn vadd_rejects_wrong_dimension() {
    let mut state = state();
    dispatch(&cmd(&["VNEW", "mem", "2"]), &mut state);
    match add(&mut state, "mem", "a", &[1.0, 2.0, 3.0]) {
        Value::Error(e) => assert!(e.contains("wrong vector dimension"), "{e}"),
        other => panic!("expected error, got {other:?}"),
    }
}

#[test]
fn rejects_invalid_encoding() {
    let mut state = state();
    dispatch(&cmd(&["VNEW", "mem", "2"]), &mut state);
    let args = vec![
        b"VADD".to_vec(),
        b"mem".to_vec(),
        b"a".to_vec(),
        vec![1, 2, 3], // not a multiple of four
    ];
    assert_eq!(
        dispatch(&args, &mut state),
        error("ERR invalid vector encoding")
    );
}

#[test]
fn deletes_present_key() {
    let mut state = state();
    dispatch(&cmd(&["VNEW", "mem", "2"]), &mut state);
    let args = vec![
        b"VADD".to_vec(),
        b"mem".to_vec(),
        b"a".to_vec(),
        encode(&[1.0, 0.0]),
    ];
    dispatch(&args, &mut state);

    assert_eq!(
        dispatch(&cmd(&["VDEL", "mem", "a"]), &mut state),
        Value::Integer(1)
    );
    assert_eq!(
        dispatch(&cmd(&["VDEL", "mem", "a"]), &mut state),
        Value::Integer(0)
    );
}

#[test]
fn vdel_rejects_missing_index() {
    let mut state = state();
    assert_eq!(
        dispatch(&cmd(&["VDEL", "nope", "a"]), &mut state),
        error("ERR no such index")
    );
}

fn field(reply: &Value, name: &str) -> String {
    let Value::Array(items) = reply else {
        panic!("expected array");
    };
    let mut it = items.iter();
    while let (Some(k), Some(v)) = (it.next(), it.next()) {
        if let (Value::Bulk(k), Value::Bulk(v)) = (k, v) {
            if k == name.as_bytes() {
                return String::from_utf8(v.clone()).unwrap();
            }
        }
    }
    panic!("field {name} not found");
}

#[test]
fn reports_dim_metric_count() {
    let mut state = state();
    dispatch(&cmd(&["VNEW", "mem", "16", "METRIC", "dot"]), &mut state);
    let reply = dispatch(&cmd(&["VINFO", "mem"]), &mut state);
    assert_eq!(field(&reply, "dim"), "16");
    assert_eq!(field(&reply, "metric"), "dot");
    assert_eq!(field(&reply, "count"), "0");
}

#[test]
fn vinfo_rejects_missing_index() {
    let mut state = state();
    assert_eq!(
        dispatch(&cmd(&["VINFO", "nope"]), &mut state),
        error("ERR no such index")
    );
}

#[test]
fn creates_index_with_default_metric() {
    let mut state = state();
    assert_eq!(
        dispatch(&cmd(&["VNEW", "mem", "8"]), &mut state),
        Value::Simple("OK".to_string())
    );
    assert_eq!(state.vectors.get(b"mem").unwrap().dim(), 8);
}

#[test]
fn creates_index_with_explicit_metric() {
    let mut state = state();
    assert_eq!(
        dispatch(&cmd(&["VNEW", "mem", "8", "METRIC", "l2"]), &mut state),
        Value::Simple("OK".to_string())
    );
}

#[test]
fn rejects_duplicate() {
    let mut state = state();
    dispatch(&cmd(&["VNEW", "mem", "8"]), &mut state);
    assert_eq!(
        dispatch(&cmd(&["VNEW", "mem", "8"]), &mut state),
        error("ERR index already exists")
    );
}

#[test]
fn rejects_bad_dimension() {
    let mut state = state();
    assert_eq!(
        dispatch(&cmd(&["VNEW", "mem", "0"]), &mut state),
        error("ERR dimension must be a positive integer")
    );
    assert_eq!(
        dispatch(&cmd(&["VNEW", "mem", "x"]), &mut state),
        error("ERR dimension must be a positive integer")
    );
}

#[test]
fn rejects_unknown_metric() {
    let mut state = state();
    assert_eq!(
        dispatch(&cmd(&["VNEW", "mem", "8", "METRIC", "nope"]), &mut state),
        error("ERR unknown metric")
    );
}

#[test]
fn rejects_syntax_error() {
    let mut state = state();
    assert_eq!(
        dispatch(&cmd(&["VNEW", "mem", "8", "GARBAGE", "l2"]), &mut state),
        error("ERR syntax error")
    );
}

#[test]
fn errors_without_persistence() {
    let mut state = state();
    assert_eq!(
        dispatch(&cmd(&["VSAVE"]), &mut state),
        error("ERR persistence not enabled; start with a data dir")
    );
}

fn search(state: &mut State, index: &str, q: &[f32], k: usize) -> Vec<Vec<u8>> {
    let args = vec![
        b"VSEARCH".to_vec(),
        index.as_bytes().to_vec(),
        encode(q),
        k.to_string().into_bytes(),
    ];
    match dispatch(&args, state) {
        Value::Array(items) => items
            .into_iter()
            .map(|v| match v {
                Value::Bulk(b) => b,
                other => panic!("expected bulk, got {other:?}"),
            })
            .collect(),
        other => panic!("expected array, got {other:?}"),
    }
}

fn setup() -> State {
    let mut state = state();
    dispatch(&cmd(&["VNEW", "mem", "2", "METRIC", "l2"]), &mut state);
    add(&mut state, "mem", "origin", &[0.0, 0.0]);
    add(&mut state, "mem", "near", &[1.0, 0.0]);
    add(&mut state, "mem", "far", &[9.0, 0.0]);
    state
}

#[test]
fn returns_keys_closest_first() {
    let mut state = setup();
    let flat = search(&mut state, "mem", &[0.0, 0.0], 3);
    // Flat [key, score, key, score, ...].
    assert_eq!(flat.len(), 6);
    assert_eq!(flat[0], b"origin");
    assert_eq!(flat[2], b"near");
    assert_eq!(flat[4], b"far");
}

#[test]
fn respects_k() {
    let mut state = setup();
    let flat = search(&mut state, "mem", &[0.0, 0.0], 1);
    assert_eq!(flat.len(), 2);
    assert_eq!(flat[0], b"origin");
}

#[test]
fn distance_is_parseable_and_ordered() {
    let mut state = setup();
    let flat = search(&mut state, "mem", &[0.0, 0.0], 3);
    let d0: f32 = std::str::from_utf8(&flat[1]).unwrap().parse().unwrap();
    let d1: f32 = std::str::from_utf8(&flat[3]).unwrap().parse().unwrap();
    let d2: f32 = std::str::from_utf8(&flat[5]).unwrap().parse().unwrap();
    assert!(d0 <= d1 && d1 <= d2);
    assert!((d0 - 0.0).abs() < 1e-5);
    assert!((d1 - 1.0).abs() < 1e-5);
}

#[test]
fn accepts_ef_option() {
    let mut state = setup();
    let args = vec![
        b"VSEARCH".to_vec(),
        b"mem".to_vec(),
        encode(&[0.0, 0.0]),
        b"2".to_vec(),
        b"EF".to_vec(),
        b"128".to_vec(),
    ];
    match dispatch(&args, &mut state) {
        Value::Array(items) => assert_eq!(items.len(), 4),
        other => panic!("expected array, got {other:?}"),
    }
}

#[test]
fn vsearch_rejects_missing_index() {
    let mut state = state();
    let args = vec![
        b"VSEARCH".to_vec(),
        b"nope".to_vec(),
        encode(&[0.0, 0.0]),
        b"1".to_vec(),
    ];
    assert_eq!(dispatch(&args, &mut state), error("ERR no such index"));
}

#[test]
fn vsearch_rejects_wrong_dimension() {
    let mut state = setup();
    let args = vec![
        b"VSEARCH".to_vec(),
        b"mem".to_vec(),
        encode(&[0.0, 0.0, 0.0]),
        b"1".to_vec(),
    ];
    match dispatch(&args, &mut state) {
        Value::Error(e) => assert!(e.contains("wrong vector dimension"), "{e}"),
        other => panic!("expected error, got {other:?}"),
    }
}

#[test]
fn wrong_dimension_names_both_dimensions() {
    let mut state = setup();
    assert_eq!(
        add(&mut state, "mem", "a", &[1.0, 2.0, 3.0]),
        error("ERR wrong vector dimension: index expects 2, got 3")
    );
}

#[test]
fn search_arguments_are_checked_in_order() {
    let mut state = setup();
    let q = encode(&[0.0, 0.0]);
    let run = |state: &mut State, tail: &[&[u8]]| {
        let mut args = vec![b"vsearch".to_vec(), b"mem".to_vec(), q.clone()];
        args.extend(tail.iter().map(|t| t.to_vec()));
        dispatch(&args, state)
    };
    let not_integer = error("ERR value is not an integer or out of range");
    assert_eq!(
        run(&mut state, &[]),
        error("ERR wrong number of arguments for 'vsearch' command")
    );
    assert_eq!(run(&mut state, &[b"x"]), not_integer);
    assert_eq!(run(&mut state, &[b"-1"]), not_integer);
    assert_eq!(run(&mut state, &[b"99999999999999999999999"]), not_integer);
    assert_eq!(run(&mut state, &[b"1", b"EF", b"x"]), not_integer);
    assert_eq!(run(&mut state, &[b"1", b"EF"]), error("ERR syntax error"));
    assert_eq!(run(&mut state, &[b"1", b"FE", b"2"]), error("ERR syntax error"));
    match run(&mut state, &[b"+1", b"ef", b"002"]) {
        Value::Array(items) => assert_eq!(items.len(), 2),
        other => panic!("expected array, got {other:?}"),
    }
}

#[test]
fn search_rejects_invalid_encoding() {
    let mut state = setup();
    assert_eq!(
        dispatch(&cmd(&["VSEARCH", "mem", "abc", "1"]), &mut state),
        error("ERR invalid vector encoding")
    );
}

#[test]
fn unknown_commands_and_wrong_counts_are_refused() {
    let mut state = state();
    assert_eq!(dispatch(&cmd(&["NOPE"]), &mut state), error("ERR unknown command"));
    assert_eq!(
        dispatch(&cmd(&["VADD", "mem", "a"]), &mut state),
        error("ERR wrong number of arguments for 'vadd' command")
    );
    assert_eq!(
        dispatch(&cmd(&["vDeL", "mem"]), &mut state),
        error("ERR wrong number of arguments for 'vdel' command")
    );
    assert_eq!(
        dispatch(&cmd(&["VNEW", "mem"]), &mut state),
        error("ERR wrong number of arguments for 'vnew' command")
    );
    assert_eq!(
        dispatch(&cmd(&["VINFO", "mem", "x"]), &mut state),
        error("ERR wrong number of arguments for 'vinfo' command")
    );
    assert_eq!(
        dispatch(&cmd(&["VSAVE", "x"]), &mut state),
        error("ERR wrong number of arguments for 'vsave' command")
    );
}

#[test]
fn commands_are_found_in_either_case() {
    assert_eq!(Command::find(b"VSearch"), Some(Command::Vsearch));
    assert_eq!(Command::find(b"vsearc"), None);
    assert_eq!(Command::Vsearch.as_str(), "vsearch");
    assert_eq!(Command::Vsave.arity(), Arity::Exact(1));
    assert!(Arity::Min(3).accepts(7));
    assert!(!Arity::Min(3).accepts(2));
    assert!(!Arity::Exact(3).accepts(4));
}

#[test]
fn default_metric_is_cosine() {
    let mut state = state();
    dispatch(&cmd(&["VNEW", "mem", "3"]), &mut state);
    let reply = dispatch(&cmd(&["VINFO", "mem"]), &mut state);
    assert_eq!(field(&reply, "metric"), "cosine");
}

#[test]
fn log_recovers_what_the_commands_did() {
    let mut live = persistent();
    let mut log: Vec<u8> = Vec::new();
    let mut vadd = cmd(&["VADD", "mem", "a"]);
    vadd.push(encode(&[1.0, 2.0]));
    let mut again = cmd(&["VADD", "mem", "b"]);
    again.push(encode(&[3.0, 4.0]));
    for argv in [
        cmd(&["VNEW", "mem", "2", "METRIC", "l2"]),
        cmd(&["VNEW", "mem", "5"]),
        vadd,
        again,
        cmd(&["VDEL", "mem", "a"]),
        cmd(&["VDEL", "mem", "a"]),
    ] {
        if let Outcome::Logged { frame, .. } = outcome(&argv, &mut live) {
            log.extend_from_slice(&frame);
        }
    }
    // One record each for the creation, the two additions and the deletion.
    let records = wal::replay(&log);
    assert_eq!(records.len(), 4);
    assert!(matches!(Op::decode(&records[0]), Some(Op::New { dim: 2, metric: 1, .. })));

    // A torn append behind them changes nothing.
    log.extend_from_slice(&wal::frame(b"half")[..7]);
    let recovery = Recovery::load(None, Some(&log)).unwrap();
    let restored = recovery.restore(&arith, &level).unwrap();
    let index = restored.get(b"mem").unwrap();
    assert_eq!(index.dim(), 2);
    let entries = index.entries();
    assert_eq!(entries.len(), 1);
    assert_eq!(entries[0].0, b"b");
    assert_eq!(entries[0].1, &[float(3.0), float(4.0)]);
}

#[test]
fn snapshot_recovers_the_registry_and_a_redundant_log_is_harmless() {
    let mut live = persistent();
    let mut log: Vec<u8> = Vec::new();
    let mut vadd = cmd(&["VADD", "mem", "a"]);
    vadd.push(encode(&[1.0, 2.0]));
    for argv in [
        cmd(&["VNEW", "mem", "2", "METRIC", "dot"]),
        cmd(&["VNEW", "other", "7"]),
        vadd,
    ] {
        if let Outcome::Logged { frame, .. } = outcome(&argv, &mut live) {
            log.extend_from_slice(&frame);
        }
    }
    let bytes = match outcome(&cmd(&["VSAVE"]), &mut live) {
        Outcome::Save { snapshot } => snapshot,
        _ => panic!("expected a snapshot"),
    };
    for tail in [&[][..], &log[..]] {
        let recovery = Recovery::load(Some(&bytes), Some(tail)).unwrap();
        let restored = recovery.restore(&arith, &level).unwrap();
        assert_eq!(restored.iter().len(), 2);
        let index = restored.get(b"mem").unwrap();
        assert_eq!(index.metric(), vector::Metric::Dot);
        assert_eq!(index.entries(), vec![(&b"a"[..], &[float(1.0), float(2.0)][..])]);
        assert_eq!(restored.get(b"other").unwrap().dim(), 7);
        assert_eq!(restored.get(b"other").unwrap().len(), 0);
    }
}

#[test]
fn saving_clears_the_log_only_after_the_snapshot() {
    assert!(matches!(after_write(Ok(())), Saving::Truncate));
    match after_write(Err("disk full".to_string())) {
        Saving::Reply(v) => assert_eq!(v, error("ERR save failed: disk full")),
        Saving::Truncate => panic!("the log must not be cleared"),
    }
    assert_eq!(after_truncate(Ok(())), Value::Simple("OK".to_string()));
    assert_eq!(
        after_truncate(Err("bad handle".to_string())),
        error("ERR save failed: bad handle")
    );
}

#[test]
fn state_keeps_the_configuration_and_starts_with_an_empty_store() {
    let mut registry = VectorRegistry::new();
    registry.create(b"mem".to_vec(), 2, vector::Metric::L2);
    let state = State::new(config(Some("data")), Some(registry));
    assert_eq!(state.config.dir.as_deref(), Some("data"));
    assert_eq!(state.config.port, 6380);
    assert!(state.store.get(b"mem").is_none());
    assert!(state.persistent);
    assert!(state.vectors.get(b"mem").is_some());

    // Without a directory, or when opening it failed, the server runs in memory.
    for state in [
        State::new(config(None), None),
        State::new(config(None), Some(VectorRegistry::new())),
        State::new(config(Some("data")), None),
    ] {
        assert!(!state.persistent);
        assert_eq!(state.vectors.iter().len(), 0);
    }
}

#[test]
fn uncleared_log_brings_back_the_same_keys_under_cosine() {
    let mut live = persistent();
    let mut log: Vec<u8> = Vec::new();
    let mut first = cmd(&["VADD", "mem", "a"]);
    first.push(encode(&[3.0, 4.0]));
    let mut second = cmd(&["VADD", "mem", "b"]);
    second.push(encode(&[1.0, 2.0]));
    for argv in [
        cmd(&["VNEW", "mem", "2"]),
        first,
        second,
        cmd(&["VDEL", "mem", "b"]),
    ] {
        if let Outcome::Logged { frame, .. } = outcome(&argv, &mut live) {
            log.extend_from_slice(&frame);
        }
    }
    let bytes = match outcome(&cmd(&["VSAVE"]), &mut live) {
        Outcome::Save { snapshot } => snapshot,
        _ => panic!("expected a snapshot"),
    };
    let recovery = Recovery::load(Some(&bytes), Some(&log)).unwrap();
    let restored = recovery.restore(&arith, &level).unwrap();
    let index = restored.get(b"mem").unwrap();
    assert_eq!(index.dim(), 2);
    assert_eq!(index.metric(), vector::Metric::Cosine);
    assert_eq!(index.entries(), vec![(&b"a"[..], &[float(0.6), float(0.8)][..])]);
}
