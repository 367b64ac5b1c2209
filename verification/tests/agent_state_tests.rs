use lau_database_theory::agent_state::{base64_decode, base64_encode, AgentStateStore};
use lau_database_theory::relational::{Relation, Tuple, Value};

#[test]
fn test_agent_put_get() {
    let mut store = AgentStateStore::new();
    store.put("agent-1", "mood", vec![1, 2, 3], 100);
    let val = store.get("agent-1", "mood");
    assert_eq!(val, Some(vec![1, 2, 3]));
}

#[test]
fn test_agent_latest_value() {
    let mut store = AgentStateStore::new();
    store.put("agent-1", "mood", vec![1], 100);
    store.put("agent-1", "mood", vec![2], 200);
    let val = store.get("agent-1", "mood");
    assert_eq!(val, Some(vec![2]));
}

#[test]
fn test_agent_get_all() {
    let mut store = AgentStateStore::new();
    store.put("agent-1", "mood", vec![1], 100);
    store.put("agent-1", "energy", vec![2], 100);
    let all = store.get_all("agent-1");
    assert_eq!(all.len(), 2);
}

#[test]
fn test_agent_query() {
    let mut store = AgentStateStore::new();
    store.put("agent-1", "mood", vec![1], 100);
    store.put("agent-1", "energy", vec![2], 100);
    store.put("agent-2", "mood", vec![3], 200);

    let results = store.query(|t, _schema| t.values[2] == Value::Text("mood".into()));
    assert_eq!(results.len(), 2);
}

#[test]
fn test_agent_project() {
    let mut store = AgentStateStore::new();
    store.put("agent-1", "mood", vec![1], 100);
    let projected = store.project(&["key", "timestamp"]);
    assert_eq!(projected.schema, vec!["key", "timestamp"]);
    assert_eq!(projected.cardinality(), 1);
}

#[test]
fn test_agent_isolation() {
    let mut store = AgentStateStore::new();
    store.put("agent-1", "data", vec![1], 100);
    store.put("agent-2", "data", vec![2], 100);
    assert_eq!(store.get("agent-1", "data"), Some(vec![1]));
    assert_eq!(store.get("agent-2", "data"), Some(vec![2]));
}

#[test]
fn test_agent_len() {
    let mut store = AgentStateStore::new();
    assert!(store.is_empty());
    store.put("agent-1", "x", vec![1], 100);
    assert_eq!(store.len(), 1);
    store.put("agent-1", "y", vec![2], 100);
    assert_eq!(store.len(), 2);
}

#[test]
fn test_base64_roundtrip() {
    let data = vec![1, 2, 3, 4, 5, 6, 7, 8];
    let encoded = base64_encode(&data);
    let decoded = base64_decode(&encoded);
    assert_eq!(data, decoded);
}

#[test]
fn test_base64_empty() {
    let data: Vec<u8> = vec![];
    let encoded = base64_encode(&data);
    let decoded = base64_decode(&encoded);
    assert_eq!(data, decoded);
}

#[test]
fn base64_known_texts() {
    assert_eq!(base64_encode(b"Man"), "TWFu");
    assert_eq!(base64_encode(b"Ma"), "TWE=");
    assert_eq!(base64_encode(b"M"), "TQ==");
    assert_eq!(base64_encode(&[0xfb, 0xff]), "+/8=");
    assert_eq!(base64_decode("TWFu"), b"Man".to_vec());
    assert_eq!(base64_decode("TQ=="), b"M".to_vec());
    assert_eq!(base64_decode("T!Q=="), b"M".to_vec());
    assert_eq!(base64_decode(""), Vec::<u8>::new());
}

#[test]
fn base64_roundtrip_all_lengths() {
    for len in 0..10usize {
        let data: Vec<u8> = (0..len).map(|i| (i * 37 + 250) as u8).collect();
        assert_eq!(base64_decode(&base64_encode(&data)), data);
    }
}

#[test]
fn latest_value_wins_by_timestamp_not_by_order() {
    let mut store = AgentStateStore::new();
    store.put("a", "k", vec![1], 300);
    store.put("a", "k", vec![2], 100);
    assert_eq!(store.get("a", "k"), Some(vec![1]));
    store.put("a", "k", vec![3], 300);
    assert_eq!(store.get("a", "k"), Some(vec![3]));
    assert_eq!(store.get("a", "other"), None);
    assert_eq!(store.get("b", "k"), None);
}

#[test]
fn get_all_and_query_give_records_in_order() {
    let mut store = AgentStateStore::new();
    store.put("agent-1", "mood", vec![9, 9], 5);
    store.put("agent-2", "mood", vec![1], 6);
    store.put("agent-1", "energy", vec![], 7);
    let all = store.get_all("agent-1");
    assert_eq!(
        all,
        vec![("mood".to_string(), vec![9, 9], 5), ("energy".to_string(), vec![], 7)]
    );
    let records = store.query(|t, _schema| t.values[4] == Value::Int(6));
    assert_eq!(records.len(), 1);
    assert!(records[0].agent_id.starts_with("agent_"));
    assert_eq!(records[0].key, "mood");
    assert_eq!(records[0].value, vec![1]);
    assert_eq!(records[0].timestamp, 6);
    assert_eq!(records[0].metadata.len(), 0);
    let id_digits: i64 = records[0].agent_id["agent_".len()..].parse().unwrap();
    assert!(id_digits >= 0);
}

#[test]
fn join_store_with_a_relation_on_key() {
    let mut store = AgentStateStore::new();
    store.put("agent-1", "mood", vec![1], 10);
    store.put("agent-1", "energy", vec![2], 11);
    let labels = Relation::with_tuples(
        vec!["key".into(), "label".into()],
        vec![Tuple::new(vec![Value::Text("mood".into()), Value::Text("Mood".into())])],
    );
    let joined = store.join(&labels);
    assert_eq!(joined.schema, vec!["id", "agent_id_hash", "key", "value", "timestamp", "label"]);
    assert_eq!(joined.cardinality(), 1);
    assert_eq!(joined.tuples[0].get(0), Some(&Value::Int(1)));
}
