use flux::commands::{process_command, process_read_command, Command, Response, ServerState};
use flux::errors::ServerError;

fn fresh() -> ServerState {
    ServerState::new("127.0.0.1:6214".to_string())
}

#[test]
fn set_then_get_returns_the_value() {
    let mut state = fresh();
    let set = Command::SET { key: "k".to_string(), value: b"payload".to_vec() };
    assert!(matches!(process_command(set, &mut state), Ok(Response::Success)));
    let get = Command::GET { key: "k".to_string() };
    match process_command(get, &mut state) {
        Ok(Response::Data(v)) => assert_eq!(v, b"payload".to_vec()),
        other => panic!("expected Data, got {:?}", other.map(|_| ())),
    }
}

#[test]
fn get_on_empty_store_is_key_not_found() {
    let mut state = fresh();
    let get = Command::GET { key: "missing".to_string() };
    match process_command(get, &mut state) {
        Err(ServerError::KeyNotFound(k)) => assert_eq!(k, "missing"),
        _ => panic!("expected KeyNotFound"),
    }
}

#[test]
fn exists_reflects_the_store() {
    let mut state = fresh();
    let q = Command::EXISTS { key: "k".to_string() };
    assert!(matches!(process_command(q, &mut state), Ok(Response::Exists(false))));
    let set = Command::SET { key: "k".to_string(), value: b"v".to_vec() };
    process_command(set, &mut state).unwrap();
    let q = Command::EXISTS { key: "k".to_string() };
    assert!(matches!(process_command(q, &mut state), Ok(Response::Exists(true))));
}

#[test]
fn del_succeeds_when_any_key_existed() {
    let mut state = fresh();
    let set = Command::SET { key: "k1".to_string(), value: b"v".to_vec() };
    process_command(set, &mut state).unwrap();
    let del = Command::DEL { keys: vec!["k1".to_string(), "k2".to_string()] };
    assert!(matches!(process_command(del, &mut state), Ok(Response::Success)));
    let del_again = Command::DEL { keys: vec!["k1".to_string()] };
    match process_command(del_again, &mut state) {
        Err(ServerError::KeyNotFound(m)) => assert_eq!(m, "None of the keys found"),
        _ => panic!("expected KeyNotFound"),
    }
}

#[test]
fn cluster_join_and_slots() {
    let mut state = fresh();
    let join = Command::CLUSTER_JOIN { address: "10.0.0.2:6214".to_string() };
    assert!(matches!(process_command(join, &mut state), Ok(Response::Success)));
    match process_command(Command::CLUSTER_SLOTS, &mut state) {
        Ok(Response::Slots(json)) => {
            let parsed: serde_json::Value = serde_json::from_str(&json).unwrap();
            let records = parsed.as_array().unwrap();
            assert_eq!(records.len(), 2);
            assert_eq!(records[0]["address"], "10.0.0.2:6214");
            assert_eq!(records[1]["address"], "127.0.0.1:6214");
            assert_eq!(records[0]["slot_range"][0], 0);
            assert_eq!(records[0]["slot_range"][1], 8191);
            assert_eq!(records[1]["slot_range"][0], 8192);
            assert_eq!(records[1]["slot_range"][1], 16383);
        },
        _ => panic!("expected Slots"),
    }
}

#[test]
fn read_only_dispatch_matches_the_store() {
    let mut state = fresh();
    let set = Command::SET { key: "k".to_string(), value: b"shared read".to_vec() };
    process_command(set, &mut state).unwrap();
    let get = Command::GET { key: "k".to_string() };
    match process_read_command(&get, &state) {
        Ok(Response::Data(v)) => assert_eq!(v, b"shared read".to_vec()),
        _ => panic!("expected Data"),
    }
    let q = Command::EXISTS { key: "k".to_string() };
    assert!(matches!(process_read_command(&q, &state), Ok(Response::Exists(true))));
    match process_read_command(&Command::CLUSTER_SLOTS, &state) {
        Ok(Response::Slots(json)) => {
            let parsed: serde_json::Value = serde_json::from_str(&json).unwrap();
            let records = parsed.as_array().unwrap();
            assert_eq!(records.len(), 1);
            assert_eq!(records[0]["address"], "127.0.0.1:6214");
            assert_eq!(records[0]["slot_range"][0], 0);
            assert_eq!(records[0]["slot_range"][1], 16383);
        },
        _ => panic!("expected Slots"),
    }
}

#[test]
fn join_of_present_address_changes_nothing() {
    let mut state = fresh();
    let join = Command::CLUSTER_JOIN { address: "127.0.0.1:6214".to_string() };
    assert!(matches!(process_command(join, &mut state), Ok(Response::Success)));
    assert_eq!(state.cluster.nodes.len(), 1);
}
