use queries::cache::{CacheMap, Cached};
use queries::check::{calc_steps, check, divisors, mix, Op};
use queries::error::ExecutionError;
use queries::execution::{
    assemble, fold_states, singleton, Consultation, Continuity, ExecutionView, Reactor,
};
use queries::fingerprinting::{stamp_with_fingerprint, Fingerprint};
use queries::query_id::QueryId;
use queries::structure::PerMap;
use std::sync::Arc;

#[derive(Clone, Debug, PartialEq)]
enum Value {
    Num(u64),
    List(Vec<u64>),
    Text(String),
    Texts(Vec<String>),
}

#[derive(Clone, Copy, Debug, PartialEq)]
enum Query {
    Length,
    RefRead(usize),
    Sum,
    Double,
    A,
    B,
    Broken,
    Process(usize),
}

impl Query {
    fn id(&self) -> QueryId {
        match self {
            Query::Length => QueryId::new_static("Length"),
            Query::RefRead(n) => QueryId::new(format!("RefRead({n})")),
            Query::Sum => QueryId::new_static("Sum"),
            Query::Double => QueryId::new_static("Double"),
            Query::A => QueryId::new_static("A"),
            Query::B => QueryId::new_static("B"),
            Query::Broken => QueryId::new_static("Broken"),
            Query::Process(n) => QueryId::new(format!("Process({n})")),
        }
    }
}

struct Engine {
    reactor: Reactor<Value, Query>,
}

struct Context {
    view: Arc<ExecutionView>,
    world: Vec<CacheMap>,
    deps: Vec<CacheMap>,
    direct: Vec<CacheMap>,
}

fn letters(text: &str) -> Vec<u64> {
    text.chars().map(u64::from).collect()
}

fn stamp(value: &Value) -> Fingerprint {
    match value {
        Value::Num(n) => stamp_with_fingerprint(Arc::new(*n)).0,
        Value::List(v) => stamp_with_fingerprint(Arc::new(v.clone())).0,
        Value::Text(t) => stamp_with_fingerprint(Arc::new(letters(t))).0,
        Value::Texts(v) => {
            stamp_with_fingerprint(Arc::new(v.iter().map(|t| letters(t)).collect::<Vec<_>>())).0
        }
    }
}

fn input() -> QueryId {
    QueryId::new_static("input")
}

impl Engine {
    fn new() -> Self {
        Engine { reactor: Reactor::new() }
    }

    fn set_param(&mut self, values: Vec<u64>) {
        let value = Value::List(values);
        self.reactor.set_param(input(), (stamp(&value), value));
    }

    fn set_texts(&mut self, texts: Vec<String>) {
        let value = Value::Texts(texts);
        self.reactor.set_param(input(), (stamp(&value), value));
    }

    fn count(&self, name: &str) -> usize {
        self.reactor.trace().iter().filter(|s| s.as_str() == name).count()
    }

    fn execute(&mut self, query: Query) -> Result<Value, ExecutionError> {
        loop {
            let mut continuity = Continuity::new();
            let (_, value) = self.drive(&mut continuity, query, None)?;
            if self.reactor.settled(&query.id())? {
                return Ok(value);
            }
        }
    }

    fn drive(
        &mut self,
        continuity: &mut Continuity,
        query: Query,
        parent: Option<&mut Context>,
    ) -> Result<(Fingerprint, Value), ExecutionError> {
        let id = query.id();
        let result = match continuity.lookup(&id, &self.reactor)? {
            Some((fingerprint, value)) => (fingerprint, value.clone()),
            None => self.do_execute(continuity, query, parent).map_err(|e| e.context(id.clone()))?,
        };
        continuity.mark_fresh(id);
        Ok(result)
    }

    fn do_execute(
        &mut self,
        continuity: &mut Continuity,
        query: Query,
        parent: Option<&mut Context>,
    ) -> Result<(Fingerprint, Value), ExecutionError> {
        let id = query.id();
        if self.reactor.poll_first(id.clone()) {
            self.process(continuity, query, parent);
        }
        let entry = self.reactor.poll_again(&id).expect("the processing has ended");
        match &*entry.result {
            Ok((fingerprint, value)) => Ok((*fingerprint, value.clone())),
            Err(e) => Err(ExecutionError::Dependency { message: e.message() }),
        }
    }

    fn process(&mut self, continuity: &mut Continuity, query: Query, parent: Option<&mut Context>) {
        let id = query.id();
        let keep = match self.reactor.consult(&id) {
            Consultation::Fresh => true,
            Consultation::Absent | Consultation::Stale => false,
            Consultation::Recheck { deps_state } => self.recheck(&id, &deps_state),
        };
        if !keep {
            let view = parent.as_ref().map(|p| p.view.clone());
            let entry = loop {
                if let Some(entry) = self.run_body_once(continuity, query, view.clone()) {
                    break entry;
                }
            };
            self.reactor.finish_body(id.clone(), entry);
        }
        if let Some(parent) = parent {
            let entry = self.reactor.entry(&id).expect("an entry was stored");
            parent.world.push(entry.world_state.clone());
        }
        self.reactor.register(id.clone(), query);
        self.reactor.wake(&id);
    }

    fn run_body_once(
        &mut self,
        continuity: &mut Continuity,
        query: Query,
        parent: Option<Arc<ExecutionView>>,
    ) -> Option<Cached<Value>> {
        let id = query.id();
        self.reactor.begin_body(&id);
        let view = match parent {
            Some(parent) => ExecutionView::child(parent, id),
            None => ExecutionView::root(id),
        };
        let mut context =
            Context { view: Arc::new(view), world: vec![], deps: vec![], direct: vec![] };
        let result = self.body(continuity, &mut context, query);
        let stamped = result.map(|value| (stamp(&value), value));
        assemble(stamped, &context.world, &context.deps, &context.direct)
    }

    fn recheck(&mut self, id: &QueryId, deps_state: &CacheMap) -> bool {
        let targets = match self.reactor.recheck_targets(deps_state) {
            Some(targets) => targets,
            None => return false,
        };
        let mut checked = Vec::new();
        for (dep, expected) in targets {
            let query = *self.reactor.past_query(&dep).expect("the query is known");
            let mut continuity = Continuity::new();
            let outcome = self.do_execute(&mut continuity, query, None).ok().map(|r| r.0);
            checked.push((dep, expected, outcome));
        }
        self.reactor.finish_recheck(id, &checked)
    }

    fn get_value(&mut self, context: &mut Context) -> Result<Value, ExecutionError> {
        let (fingerprint, value) = self.reactor.param(&input())?;
        context.world.push(singleton(input(), *fingerprint));
        context.direct.push(singleton(input(), *fingerprint));
        Ok(value.clone())
    }

    fn get_param(&mut self, context: &mut Context) -> Result<Vec<u64>, ExecutionError> {
        match self.get_value(context)? {
            Value::List(values) => Ok(values),
            _ => Err(ExecutionError::ConflictingParam { id: input() }),
        }
    }

    fn get_texts(&mut self, context: &mut Context) -> Result<Vec<String>, ExecutionError> {
        match self.get_value(context)? {
            Value::Texts(texts) => Ok(texts),
            _ => Err(ExecutionError::ConflictingParam { id: input() }),
        }
    }

    fn run_any(
        &mut self,
        continuity: &mut Continuity,
        context: &mut Context,
        query: Query,
    ) -> Result<Value, ExecutionError> {
        let id = query.id();
        context.view.check_run(&id)?;
        let (fingerprint, value) =
            self.drive(continuity, query, Some(context)).map_err(|e| e.context(id.clone()))?;
        context.deps.push(singleton(id, fingerprint));
        Ok(value)
    }

    fn run(
        &mut self,
        continuity: &mut Continuity,
        context: &mut Context,
        query: Query,
    ) -> Result<u64, ExecutionError> {
        match self.run_any(continuity, context, query)? {
            Value::Num(n) => Ok(n),
            _ => Err(ExecutionError::ConflictingQuery { id: query.id() }),
        }
    }

    fn body(
        &mut self,
        continuity: &mut Continuity,
        context: &mut Context,
        query: Query,
    ) -> Result<Value, ExecutionError> {
        match query {
            Query::Length => Ok(Value::Num(self.get_param(context)?.len() as u64)),
            Query::RefRead(n) => Ok(Value::Num(self.get_param(context)?[n])),
            Query::Sum => {
                let length = self.run(continuity, context, Query::Length)?;
                let mut sum = 0;
                for n in 0..length {
                    sum += self.run(continuity, context, Query::RefRead(n as usize))?;
                }
                Ok(Value::Num(sum))
            }
            Query::Double => Ok(Value::Num(self.run(continuity, context, Query::Sum)? * 2)),
            Query::A => Ok(Value::Num(self.run(continuity, context, Query::B)?)),
            Query::B => Ok(Value::Num(self.run(continuity, context, Query::A)?)),
            Query::Broken => Err(ExecutionError::Body { message: "broken".to_string() }),
            Query::Process(n) => {
                let mut acc = self.get_texts(context)?[n].clone();
                let all = divisors(n + 1);
                for d in &all[..all.len() - 1] {
                    match self.run_any(continuity, context, Query::Process(d - 1))? {
                        Value::Text(text) => acc = mix(acc, &text),
                        _ => return Err(ExecutionError::ConflictingQuery { id: query.id() }),
                    }
                }
                Ok(Value::Text(acc))
            }
        }
    }
}

/// A source of numbers that gives the same numbers each time.
struct Numbers(u64);

impl Numbers {
    fn below(&mut self, bound: usize) -> usize {
        self.0 = self.0.wrapping_mul(6364136223846793005).wrapping_add(1442695040888963407);
        ((self.0 >> 33) % bound as u64) as usize
    }

    fn letter(&mut self) -> String {
        ((b'a' + self.below(26) as u8) as char).to_string()
    }
}

fn scenario(
    numbers: &mut Numbers,
    input_size: usize,
    process_count: usize,
    modification_count: usize,
    max_weight: usize,
) {
    let mut texts: Vec<String> = (0..input_size).map(|_| numbers.letter()).collect();
    let mut ops = Vec::new();
    for _ in 0..process_count {
        ops.push((numbers.below(max_weight), Op::Calculate(numbers.below(input_size))));
    }
    for _ in 0..modification_count {
        let place = numbers.below(input_size);
        ops.push((numbers.below(max_weight), Op::Replace(place, numbers.letter())));
    }
    let mut ctx = Engine::new();
    ctx.set_texts(texts.clone());
    for step in calc_steps(&ops) {
        for (place, text) in step.updates {
            texts[place] = text;
        }
        ctx.set_texts(texts.clone());
        let mut cache = PerMap::<u64, String>::empty();
        for place in step.processes {
            let expected = check(place, &texts, &mut cache);
            assert_eq!(Value::Text(expected), ctx.execute(Query::Process(place)).ok().unwrap());
        }
    }
}

#[test]
fn processes_give_what_is_expected_without_modification() {
    scenario(&mut Numbers(1), 32, 300, 0, 30);
}

#[test]
fn processes_give_what_is_expected_after_modification() {
    scenario(&mut Numbers(2), 10, 200, 50, 10);
    scenario(&mut Numbers(3), 32, 300, 60, 40);
}

#[test]
fn queries_are_not_executed_when_no_changes_to_direct_dependencies_() {
    let mut values = vec![1, 2, 3];
    let (inc, dec) = (0, 1);
    let sum: u64 = values.iter().sum::<u64>() * 2;

    let mut ctx = Engine::new();
    ctx.set_param(values.clone());
    let result_sum = ctx.execute(Query::Double);
    assert_eq!(Value::Num(sum), result_sum.ok().unwrap());

    values[inc] += 1;
    values[dec] -= 1;
    ctx.set_param(values.clone());
    let result_sum = ctx.execute(Query::Double);
    let res = result_sum.ok().unwrap();
    assert_eq!(Value::Num(sum), res);

    let doubling_num = ctx.reactor.trace().iter().filter(|s| s == &"[Double]").count();
    assert_eq!(1, doubling_num);
}

#[test]
fn queries_are_executed() {
    let mut ctx = Engine::new();
    ctx.set_param(vec![1, 2, 3]);
    let result = ctx.execute(Query::Length);
    assert_eq!(Value::Num(3), result.ok().unwrap());
}

#[test]
fn the_sum_of_a_list_runs_each_query_once() {
    let mut ctx = Engine::new();
    ctx.set_param(vec![2, 5, 7]);
    assert_eq!(Value::Num(14), ctx.execute(Query::Sum).ok().unwrap());
    let trace = ctx.reactor.trace();
    assert_eq!(5, trace.len());
    assert_eq!("[Length]", trace[0]);
    assert_eq!("[Sum]", trace[4]);
    let mut middle = trace[1..4].to_vec();
    middle.sort();
    assert_eq!(vec!["[RefRead(0)]", "[RefRead(1)]", "[RefRead(2)]"], middle);
}

#[test]
fn queries_results_are_cached() {
    let mut ctx = Engine::new();
    ctx.set_param(vec![2, 5, 7]);
    assert_eq!(Value::Num(14), ctx.execute(Query::Sum).ok().unwrap());
    assert_eq!(Value::Num(3), ctx.execute(Query::Length).ok().unwrap());
    assert_eq!(1, ctx.count("[Length]"));
    assert_eq!(Value::Num(14), ctx.execute(Query::Sum).ok().unwrap());
    assert_eq!(1, ctx.count("[Sum]"));
    assert_eq!(5, ctx.reactor.trace().len());
}

#[test]
fn a_balanced_change_reruns_the_sum_but_not_its_double() {
    let mut ctx = Engine::new();
    ctx.set_param(vec![2, 5, 7]);
    assert_eq!(Value::Num(28), ctx.execute(Query::Double).ok().unwrap());
    ctx.set_param(vec![3, 5, 6]);
    assert_eq!(Value::Num(28), ctx.execute(Query::Double).ok().unwrap());
    assert_eq!(1, ctx.count("[Double]"));
    assert_eq!(2, ctx.count("[Sum]"));
    assert_eq!(2, ctx.count("[Length]"));
}

#[test]
fn queries_are_executed_when_direct_dependencies_changed() {
    let mut ctx = Engine::new();
    ctx.set_param(vec![2, 5, 7]);
    assert_eq!(Value::Num(14), ctx.execute(Query::Sum).ok().unwrap());
    ctx.set_param(vec![2, 5, 8]);
    assert_eq!(Value::Num(15), ctx.execute(Query::Sum).ok().unwrap());
    assert_eq!(2, ctx.count("[Sum]"));
    assert_eq!(Value::Num(30), ctx.execute(Query::Double).ok().unwrap());
    ctx.set_param(vec![2, 5, 9]);
    assert_eq!(Value::Num(32), ctx.execute(Query::Double).ok().unwrap());
    assert_eq!(2, ctx.count("[Double]"));
}

#[test]
fn a_cycle_is_reported_with_its_trace() {
    let mut ctx = Engine::new();
    let error = match ctx.execute(Query::A) {
        Err(e) => e,
        Ok(_) => panic!("the query waits for itself"),
    };
    let message = error.message();
    let first = message.find("[A]").expect("the message names A");
    let second = first + message[first..].find("[B]").expect("the message names B after A");
    assert!(message[second..].contains("[A]"));
    assert!(message.contains(
        "Cyclic dependency during execution of [A]\nTrace: [[B], [A]]"
    ));
}

#[test]
fn the_view_of_a_body_knows_its_callers() {
    let a = Arc::new(ExecutionView::root(QueryId::new_static("A")));
    let b = Arc::new(ExecutionView::child(a.clone(), QueryId::new_static("B")));
    let c = ExecutionView::child(b.clone(), QueryId::new_static("C"));
    let names = |ids: Vec<QueryId>| ids.iter().map(|id| id.to_string()).collect::<Vec<_>>();
    assert_eq!(vec!["[C]", "[B]", "[A]"], names(c.trace()));
    assert_eq!(vec!["[C]", "[B]"], names(c.trace_until(&QueryId::new_static("B"))));
    assert_eq!(vec!["[C]"], names(c.trace_until(&QueryId::new_static("C"))));
    assert_eq!(vec!["[C]", "[B]", "[A]"], names(c.trace_until(&QueryId::new_static("D"))));
    assert_eq!("[C]", c.current().to_string());
    assert!(c.check_run(&QueryId::new_static("D")).is_ok());
    match c.check_run(&QueryId::new_static("A")) {
        Err(ExecutionError::CyclicDependency { id, trace }) => {
            assert_eq!("[A]", id.to_string());
            assert_eq!(vec!["[C]", "[B]", "[A]"], names(trace));
        }
        _ => panic!("A is on the chain"),
    }
    assert!(a.check_run(&QueryId::new_static("B")).is_ok());
}

#[test]
fn one_body_run_serves_all_who_wait() {
    let mut ctx = Engine::new();
    ctx.set_param(vec![2, 5, 7]);
    let id = Query::Sum.id();
    let mut started = 0;
    for _ in 0..64 {
        if ctx.reactor.poll_first(id.clone()) {
            started += 1;
        }
        assert!(ctx.reactor.poll_again(&id).is_none());
    }
    assert_eq!(1, started);
    let mut continuity = Continuity::new();
    ctx.process(&mut continuity, Query::Sum, None);
    for _ in 0..64 {
        let entry = ctx.reactor.poll_again(&id).expect("the body has run");
        assert_eq!(Some(&Value::Num(14)), entry.result.as_ref().as_ref().ok().map(|r| &r.1));
    }
    assert_eq!(1, ctx.count("[Sum]"));
    assert!(ctx.reactor.poll_first(id.clone()));
}

#[test]
fn a_missing_param_is_an_error() {
    let mut ctx = Engine::new();
    let error = ctx.execute(Query::Length).err().expect("no param was set");
    assert_eq!(
        "as a part of [Length]: Error in dependency: No param with id [input]",
        error.message()
    );
    assert!(matches!(
        ctx.reactor.param(&input()),
        Err(ExecutionError::MissingParam { .. })
    ));
}

#[test]
fn a_failed_body_is_stored_and_reported() {
    let mut ctx = Engine::new();
    let error = ctx.execute(Query::Broken).err().expect("the body fails");
    assert_eq!("as a part of [Broken]: Error in dependency: broken", error.message());
    assert_eq!(1, ctx.count("[Broken]"));
}

#[test]
fn a_fresh_query_is_read_from_the_cache() {
    let mut ctx = Engine::new();
    ctx.set_param(vec![4]);
    let mut continuity = Continuity::new();
    let id = Query::Length.id();
    assert!(matches!(continuity.lookup(&id, &ctx.reactor), Ok(None)));
    continuity.mark_fresh(id.clone());
    assert!(matches!(
        continuity.lookup(&id, &ctx.reactor),
        Err(ExecutionError::CacheCorrupted)
    ));
    assert_eq!(Value::Num(1), ctx.execute(Query::Length).ok().unwrap());
    match continuity.lookup(&id, &ctx.reactor) {
        Ok(Some((fingerprint, value))) => {
            assert_eq!(&Value::Num(1), value);
            assert_eq!(stamp(&Value::Num(1)), fingerprint);
        }
        _ => panic!("the entry is in the cache"),
    }
    let broken = Query::Broken.id();
    assert!(ctx.execute(Query::Broken).is_err());
    continuity.mark_fresh(broken.clone());
    match continuity.lookup(&broken, &ctx.reactor) {
        Err(e) => assert_eq!(
            "Query [Broken] in cache was overriden with failed execution.",
            e.message()
        ),
        Ok(_) => panic!("the entry holds a failure"),
    }
}

#[test]
fn the_cache_is_consulted_as_described() {
    let mut ctx = Engine::new();
    ctx.set_param(vec![2, 5, 7]);
    assert!(matches!(ctx.reactor.consult(&Query::Sum.id()), Consultation::Absent));
    assert_eq!(Value::Num(28), ctx.execute(Query::Double).ok().unwrap());
    assert!(matches!(ctx.reactor.consult(&Query::Sum.id()), Consultation::Fresh));
    assert!(matches!(ctx.reactor.settled(&Query::Sum.id()), Ok(true)));
    ctx.set_param(vec![2, 5, 7]);
    assert!(matches!(ctx.reactor.consult(&Query::Sum.id()), Consultation::Fresh));
    ctx.set_param(vec![3, 5, 6]);
    assert!(matches!(ctx.reactor.settled(&Query::Sum.id()), Ok(false)));
    assert!(matches!(ctx.reactor.consult(&Query::Length.id()), Consultation::Stale));
    match ctx.reactor.consult(&Query::Double.id()) {
        Consultation::Recheck { deps_state } => {
            assert_eq!(1, deps_state.len());
            assert!(deps_state.get(&Query::Sum.id()).is_some());
        }
        _ => panic!("the double read no parameter itself"),
    }
    assert!(matches!(
        ctx.reactor.settled(&Query::A.id()),
        Err(ExecutionError::CacheCorrupted)
    ));
    let empty = CacheMap::empty();
    assert!(ctx.reactor.recheck_targets(&empty).is_none());
    let unknown = singleton(QueryId::new_static("unknown"), stamp(&Value::Num(1)));
    assert!(ctx.reactor.recheck_targets(&unknown).is_none());
    let known = singleton(Query::Sum.id(), stamp(&Value::Num(14)));
    let targets = ctx.reactor.recheck_targets(&known).expect("the sum is known");
    assert_eq!(1, targets.len());
    assert_eq!("[Sum]", targets[0].0.to_string());
    assert_eq!(stamp(&Value::Num(14)), targets[0].1);
}

#[test]
fn reports_are_folded_whatever_their_order() {
    let a = QueryId::new_static("a");
    let b = QueryId::new_static("b");
    let one = stamp(&Value::Num(1));
    let two = stamp(&Value::Num(2));
    let states = vec![
        singleton(a.clone(), one),
        singleton(b.clone(), two),
        singleton(a.clone(), one),
    ];
    let sum = fold_states(&states).expect("the reports agree");
    assert_eq!(2, sum.len());
    assert_eq!(Some(&one), sum.get(&a));
    assert_eq!(Some(&two), sum.get(&b));
    let reversed: Vec<CacheMap> = states.iter().rev().cloned().collect();
    let other = fold_states(&reversed).expect("the reports agree");
    assert_eq!(sum.get(&a), other.get(&a));
    assert_eq!(sum.get(&b), other.get(&b));
    assert_eq!(0, fold_states(&vec![]).expect("nothing disagrees").len());
    let clash = vec![singleton(a.clone(), one), singleton(b.clone(), two), singleton(a, two)];
    assert!(fold_states(&clash).is_none());
    assert!(assemble(Ok((one, Value::Num(1))), &states, &clash, &vec![]).is_none());
    let entry = assemble(Ok((one, Value::Num(1))), &states, &vec![], &reversed)
        .expect("the reports agree");
    assert_eq!(2, entry.world_state.len());
    assert_eq!(0, entry.deps_state.len());
    assert_eq!(2, entry.direct_world_state.len());
}
