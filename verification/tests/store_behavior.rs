use state_store::errors::StoreError;
use state_store::json::{JsonValue, render};
use state_store::parse::parse;
use state_store::registry::{get_state_keys, readings_reducer, sources_reducer, state_identity};
use state_store::store::{DispatchPlan, StateStore};

fn empty_obj() -> JsonValue {
    JsonValue::Obj(Vec::new())
}

fn empty_arr() -> JsonValue {
    JsonValue::Arr(Vec::new())
}

fn startup_empty() -> StateStore {
    let values = vec![empty_arr(), empty_obj()];
    StateStore::startup(values).unwrap()
}

#[test]
fn registry_holds_readings_then_sources() {
    let reg = get_state_keys();
    assert_eq!(reg.len(), 2);
    assert_eq!(reg[0].name, "readings");
    assert_eq!(render(&reg[0].initial), "[]");
    assert_eq!(reg[1].name, "sources");
    assert_eq!(render(&reg[1].initial), "{}");
}

#[test]
fn add_source_assigns_id_zero() {
    let store = startup_empty();
    let plan = store.dispatch("add_source", Some("{\"name\":\"a\"}")).unwrap();
    assert_eq!(plan.files[1].name, "sources.json");
    assert_eq!(
        plan.files[1].content,
        "{\"0\":{\"id\":0,\"source\":{\"name\":\"a\"}}}"
    );
    assert_eq!(plan.files[0].name, "readings.json");
    assert_eq!(plan.files[0].content, "[]");
}

#[test]
fn second_source_gets_id_one_and_first_entry_unchanged() {
    let mut store = startup_empty();
    let plan = store.dispatch("add_source", Some("{\"name\":\"a\"}")).unwrap();
    store.commit(plan).unwrap();
    let plan2 = store.dispatch("add_source", Some("{\"name\":\"b\"}")).unwrap();
    assert_eq!(
        plan2.files[1].content,
        "{\"0\":{\"id\":0,\"source\":{\"name\":\"a\"}},\"1\":{\"id\":1,\"source\":{\"name\":\"b\"}}}"
    );
    assert!(plan2.files[1]
        .content
        .starts_with("{\"0\":{\"id\":0,\"source\":{\"name\":\"a\"}},"));
}

#[test]
fn add_reading_appends_record() {
    let store = startup_empty();
    let plan = store.dispatch("add_reading", Some("42")).unwrap();
    assert_eq!(plan.files[0].name, "readings.json");
    assert_eq!(plan.files[0].content, "[{\"reading\":\"42\"}]");
    assert_eq!(plan.files[1].content, "{}");
}

#[test]
fn unknown_event_rewrites_identical_content() {
    let mut store = startup_empty();
    let plan1 = store.dispatch("add_source", Some("{\"name\":\"a\"}")).unwrap();
    let expected_sources = plan1.files[1].content.clone();
    let expected_readings = plan1.files[0].content.clone();
    let expected_snapshot = plan1.snapshot.clone();
    store.commit(plan1).unwrap();
    let plan2 = store.dispatch("noop_event", None).unwrap();
    assert_eq!(plan2.files[0].content, expected_readings);
    assert_eq!(plan2.files[1].content, expected_sources);
    assert_eq!(plan2.snapshot, expected_snapshot);
    for fw in &plan2.files {
        let reloaded = parse(&fw.content).unwrap();
        assert_eq!(render(&reloaded), fw.content);
    }
}

#[test]
fn restart_with_persisted_sources_continues_ids() {
    let sources_text =
        "{\"0\":{\"id\":0,\"source\":{\"name\":\"a\"}},\"1\":{\"id\":1,\"source\":{\"name\":\"b\"}}}";
    let values = vec![parse("[]").unwrap(), parse(sources_text).unwrap()];
    let store = StateStore::startup(values).unwrap();
    let plan = store.dispatch("add_source", Some("{\"name\":\"c\"}")).unwrap();
    assert_eq!(
        plan.files[1].content,
        "{\"0\":{\"id\":0,\"source\":{\"name\":\"a\"}},\"1\":{\"id\":1,\"source\":{\"name\":\"b\"}},\"2\":{\"id\":2,\"source\":{\"name\":\"c\"}}}"
    );
}

#[test]
fn disjoint_dispatches_keep_both_updates() {
    let mut store = startup_empty();
    let p1 = store.dispatch("add_source", Some("{\"name\":\"a\"}")).unwrap();
    store.commit(p1).unwrap();
    let p2 = store.dispatch("add_reading", Some("7")).unwrap();
    store.commit(p2).unwrap();
    let peek = store.dispatch("noop_event", None).unwrap();
    assert_eq!(
        peek.snapshot,
        "{\"readings\":[{\"reading\":\"7\"}],\"sources\":{\"0\":{\"id\":0,\"source\":{\"name\":\"a\"}}}}"
    );
}

#[test]
fn snapshot_lists_domains_in_registry_order() {
    let store = startup_empty();
    let plan = store.dispatch("noop_event", None).unwrap();
    assert_eq!(plan.snapshot, "{\"readings\":[],\"sources\":{}}");
}

#[test]
fn add_source_with_bad_payload_is_a_parse_error() {
    let store = startup_empty();
    let r = store.dispatch("add_source", Some("not json"));
    assert!(matches!(r, Err(StoreError::Parse)));
}

#[test]
fn add_source_over_non_object_is_a_parse_error() {
    let values = vec![empty_arr(), empty_arr()];
    let store = StateStore::startup(values).unwrap();
    let r = store.dispatch("add_source", Some("{\"name\":\"a\"}"));
    assert!(matches!(r, Err(StoreError::Parse)));
}

#[test]
fn add_reading_over_non_array_is_a_parse_error() {
    let values = vec![empty_obj(), empty_obj()];
    let store = StateStore::startup(values).unwrap();
    let r = store.dispatch("add_reading", Some("42"));
    assert!(matches!(r, Err(StoreError::Parse)));
}

#[test]
fn startup_with_wrong_arity_is_missing_domain() {
    let r = StateStore::startup(Vec::new());
    assert!(matches!(r, Err(StoreError::MissingDomain)));
    let r3 = StateStore::startup(vec![empty_arr(), empty_obj(), empty_obj()]);
    assert!(matches!(r3, Err(StoreError::MissingDomain)));
}

#[test]
fn commit_refuses_a_plan_of_wrong_arity() {
    let mut store = startup_empty();
    let bogus = DispatchPlan {
        new_values: Vec::new(),
        files: Vec::new(),
        snapshot: String::new(),
    };
    assert!(matches!(store.commit(bogus), Err(StoreError::MissingDomain)));
    let plan = store.dispatch("noop_event", None).unwrap();
    assert_eq!(plan.snapshot, "{\"readings\":[],\"sources\":{}}");
}

#[test]
fn sources_reducer_ignores_other_events() {
    let v = parse("{\"0\":{\"id\":0,\"source\":null}}").unwrap();
    let r = sources_reducer(&v, "add_reading", "42").unwrap();
    assert_eq!(render(&r), render(&v));
}

#[test]
fn readings_reducer_ignores_other_events() {
    let v = parse("[{\"reading\":\"1\"}]").unwrap();
    let r = readings_reducer(&v, "add_source", "{}").unwrap();
    assert_eq!(render(&r), render(&v));
}

#[test]
fn state_identity_returns_the_value_unchanged() {
    let v = parse("{\"a\":[1,2,3]}").unwrap();
    let r = state_identity(&v, "anything", "payload");
    assert_eq!(render(&r), "{\"a\":[1,2,3]}");
}

#[test]
fn replacing_an_existing_key_keeps_its_position() {
    let sources_text = "{\"1\":{\"id\":9,\"source\":null}}";
    let values = vec![parse("[]").unwrap(), parse(sources_text).unwrap()];
    let store = StateStore::startup(values).unwrap();
    let plan = store.dispatch("add_source", Some("{\"name\":\"x\"}")).unwrap();
    assert_eq!(
        plan.files[1].content,
        "{\"1\":{\"id\":1,\"source\":{\"name\":\"x\"}}}"
    );
}

#[test]
fn sources_apply_files_a_parsed_source() {
    let state = parse("{}").unwrap();
    let source = parse("{\"name\":\"a\"}").unwrap();
    let r = state_store::registry::sources_apply(&state, source).unwrap();
    assert_eq!(render(&r), "{\"0\":{\"id\":0,\"source\":{\"name\":\"a\"}}}");
}

#[test]
fn sources_apply_refuses_a_non_object_state() {
    let state = parse("[]").unwrap();
    let source = parse("null").unwrap();
    let r = state_store::registry::sources_apply(&state, source);
    assert!(matches!(r, Err(StoreError::Parse)));
}
