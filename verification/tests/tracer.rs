use queries::cache::{Cache, CacheMap, CacheStore, Cached};
use queries::error::ExecutionError;
use queries::execution::{singleton, ExecutionView};
use queries::fingerprinting::Fingerprint;
use queries::query_id::QueryId;
use queries::trace::{body_execution, NoOpTrace, Trace};
use queries::tracer::{stack, translate, translate_deps, Described, Tracer, TracingCache};
use queries::tracer_types::Message;
use std::sync::Arc;

struct Text(&'static str);

impl Described for Text {
    fn description(&self) -> String {
        format!("{:?}", self.0)
    }
}

fn entry(value: &'static str) -> Cached<Text> {
    Cached {
        result: Arc::new(Ok((Fingerprint::new(0x1234 << 48, 0xabcd), Text(value)))),
        world_state: singleton(QueryId::new_static("input"), Fingerprint::new(1 << 48, 2)),
        deps_state: CacheMap::empty(),
        direct_world_state: CacheMap::empty(),
    }
}

fn failure() -> Cached<Text> {
    Cached {
        result: Arc::new(Err(ExecutionError::CacheCorrupted)),
        world_state: CacheMap::empty(),
        deps_state: CacheMap::empty(),
        direct_world_state: CacheMap::empty(),
    }
}

#[test]
fn an_entry_is_shown_with_its_states() {
    let shown = translate(&entry("v"));
    assert_eq!("\"v\"", shown.value);
    assert_eq!("1234~abcd", shown.fingerprint);
    assert_eq!(vec![("[input]".to_string(), "0001~0002".to_string())], shown.world_state);
    assert!(shown.deps_state.is_empty());
    assert!(shown.direct_world_state.is_empty());
}

#[test]
fn a_state_is_shown_pair_by_pair() {
    let a = Fingerprint::new(0xa << 48, 0xa);
    let b = Fingerprint::new(0xb << 48, 0xb);
    let map = CacheMap::empty()
        .insert(QueryId::new_static("a"), a)
        .insert(QueryId::new_static("b"), b);
    let mut shown = translate_deps(&map);
    shown.sort();
    assert_eq!(
        vec![
            ("[a]".to_string(), "000a~000a".to_string()),
            ("[b]".to_string(), "000b~000b".to_string())
        ],
        shown
    );
    assert!(translate_deps(&CacheMap::empty()).is_empty());
}

#[test]
fn the_stack_lists_the_callers() {
    assert!(stack(None).is_empty());
    let a = Arc::new(ExecutionView::root(QueryId::new_static("A")));
    let b = ExecutionView::child(a.clone(), QueryId::new_static("B"));
    assert_eq!(vec!["[B]", "[A]"], stack(Some(&b)));
    assert_eq!(vec!["[A]"], stack(Some(&a)));
}

#[test]
fn the_full_trace_keeps_every_event() {
    let mut tracer = Tracer::new();
    let key = QueryId::new_static("q");
    let view = ExecutionView::root(QueryId::new_static("A"));
    tracer.cache_push(&key, &entry("v"), Some(&view));
    Trace::<Text>::cache_pull(&mut tracer, &key, "why", None);
    Trace::<Text>::cache_remove(&mut tracer, &key, None);
    tracer.cache_modify(&key, &entry("w"), None);
    Trace::<Text>::body_run(&mut tracer, &key, Some(&view));
    tracer.cache_push(&key, &failure(), None);
    let messages = tracer.drain();
    assert_eq!(5, messages.len());
    match &messages[0] {
        Message::Push { key, entry, stack } => {
            assert_eq!("[q]", key);
            assert_eq!("\"v\"", entry.value);
            assert_eq!(&vec!["[A]".to_string()], stack);
        }
        _ => panic!("the first event is a push"),
    }
    match &messages[1] {
        Message::Pull { key, reason, stack } => {
            assert_eq!("[q]", key);
            assert_eq!("why", reason);
            assert!(stack.is_empty());
        }
        _ => panic!("the second event is a pull"),
    }
    assert!(matches!(&messages[2], Message::Remove { key, .. } if key == "[q]"));
    assert!(matches!(&messages[3], Message::Modify { entry, .. } if entry.value == "\"w\""));
    assert!(matches!(&messages[4], Message::BodyExecuted { key, .. } if key == "[q]"));
    assert!(tracer.drain().is_empty());
}

#[test]
fn the_body_trace_keeps_the_names_of_the_runs() {
    let mut trace = body_execution();
    let key = QueryId::new_static("q");
    trace.cache_push(&key, &entry("v"), None);
    Trace::<Text>::body_run(&mut trace, &key, None);
    Trace::<Text>::cache_remove(&mut trace, &key, None);
    Trace::<Text>::body_run(&mut trace, &QueryId::new_static("r"), None);
    assert_eq!(vec!["[q]", "[r]"], trace.get_trace());
    let mut nothing = NoOpTrace;
    nothing.cache_push(&key, &entry("v"), None);
    Trace::<Text>::body_run(&mut nothing, &key, None);
}

#[test]
fn a_store_keeps_one_entry_for_each_query() {
    let mut store = CacheStore::<Text>::new();
    let key = QueryId::new_static("q");
    assert!(store.pull(&key).is_none());
    assert!(!store.remove(&key));
    assert!(!store.modify(key.clone(), CacheMap::empty(), CacheMap::empty()));
    store.push(key.clone(), entry("v"));
    let pulled = store.pull(&key).expect("the entry was pushed");
    assert_eq!(1, pulled.world_state.len());
    let world = singleton(QueryId::new_static("other"), Fingerprint::new(3, 4))
        .insert(QueryId::new_static("input"), Fingerprint::new(5, 6));
    assert!(store.modify(key.clone(), world, CacheMap::empty()));
    let changed = store.pull(&key).expect("the entry is still there");
    assert_eq!(2, changed.world_state.len());
    assert_eq!(0, changed.direct_world_state.len());
    assert!(matches!(&*changed.result, Ok((_, Text("v")))));
    assert_eq!(1, pulled.world_state.len());
    assert!(store.remove(&key));
    assert!(store.pull(&key).is_none());
}

#[test]
fn a_tracing_store_keeps_an_event_for_each_operation() {
    let mut store = TracingCache::<Text>::new();
    let key = QueryId::new_static("q");
    store.push(key.clone(), entry("v"));
    assert!(store.pull(&key).is_some());
    assert!(store.modify(key.clone(), CacheMap::empty(), CacheMap::empty()));
    assert!(store.remove(&key));
    assert!(store.pull(&key).is_none());
    store.push(key.clone(), failure());
    let messages = store.drain();
    assert_eq!(5, messages.len());
    assert!(matches!(&messages[0], Message::Push { key, .. } if key == "[q]"));
    assert!(matches!(&messages[1], Message::Pull { .. }));
    assert!(matches!(&messages[2], Message::Modify { entry, .. } if entry.world_state.is_empty()));
    assert!(matches!(&messages[3], Message::Remove { .. }));
    assert!(matches!(&messages[4], Message::Pull { .. }));
    assert!(store.pull(&key).is_some());
}
