use std::any::Any;
use std::cell::RefCell;
use std::rc::Rc;

use anchors::ext::{any_pending, cutoff_poll, MapNode, Then, VecCollect};
use anchors::singlethread::engine::EngineContextMut;
use anchors::singlethread::{Engine, EngineError, NodeGuard, NodeKey, ObservedState};
use anchors::{Constant, Poll, Var, VarSetter};

// A small runtime over the verified engine: it holds the computations of the
// nodes, polls them when the engine hands them out, and hands the answers back.

type Slots = Vec<Option<Box<dyn Computation>>>;

struct Ctx<'a> {
    engine: &'a mut Engine,
    slots: &'a Slots,
    node: EngineContextMut,
}

impl<'a> Ctx<'a> {
    fn request(&mut self, key: NodeKey) -> Poll {
        match self.engine.request(&mut self.node, key, true) {
            Ok(p) => p,
            Err(e) => panic!("request failed: {:?}", e),
        }
    }

    fn get(&self, key: NodeKey) -> &'a dyn Any {
        output_of(self.engine, self.slots, key)
    }
}

fn output_of<'a>(engine: &Engine, slots: &'a Slots, key: NodeKey) -> &'a dyn Any {
    engine.output_ready(key).expect("attempted to get node that was not previously requested");
    slots[key.ptr()].as_ref().unwrap().output(engine, slots)
}

trait Computation {
    fn dirty(&mut self, child: NodeKey);
    fn poll(&mut self, ctx: &mut Ctx) -> Poll;
    fn output<'a>(&'a self, engine: &Engine, slots: &'a Slots) -> &'a dyn Any;
}

struct VarNode<T> {
    var: Var<T>,
    shared: Rc<RefCell<VarSetter<T>>>,
}

impl<T: 'static> Computation for VarNode<T> {
    fn dirty(&mut self, _child: NodeKey) {
        panic!("somehow an input was dirtied on var; it never has any inputs to dirty")
    }
    fn poll(&mut self, ctx: &mut Ctx) -> Poll {
        let handle = ctx.engine.dirty_handle(&ctx.node);
        self.var.poll_updated(&mut self.shared.borrow_mut(), handle)
    }
    fn output<'a>(&'a self, _engine: &Engine, _slots: &'a Slots) -> &'a dyn Any {
        self.var.output()
    }
}

struct ConstNode<T>(Constant<T>);

impl<T: 'static> Computation for ConstNode<T> {
    fn dirty(&mut self, _child: NodeKey) {
        panic!("Constant never has any inputs; dirty should not have been called.")
    }
    fn poll(&mut self, _ctx: &mut Ctx) -> Poll {
        self.0.poll_updated()
    }
    fn output<'a>(&'a self, _engine: &Engine, _slots: &'a Slots) -> &'a dyn Any {
        self.0.output()
    }
}

struct MapComp {
    inputs: Vec<NodeKey>,
    f: Box<dyn FnMut(&[&dyn Any]) -> Box<dyn Any>>,
    state: MapNode<Box<dyn Any>>,
}

impl Computation for MapComp {
    fn dirty(&mut self, _child: NodeKey) {}
    fn poll(&mut self, ctx: &mut Ctx) -> Poll {
        let mut answers: Vec<Poll> = Vec::new();
        for k in self.inputs.iter() {
            answers.push(ctx.request(*k));
        }
        let answer = self.state.poll_inputs(&answers);
        if answer != Poll::Updated {
            return answer;
        }
        let vals: Vec<&dyn Any> = self.inputs.iter().map(|k| ctx.get(*k)).collect();
        let v = (self.f)(&vals);
        self.state.store(v);
        answer
    }
    fn output<'a>(&'a self, _engine: &Engine, _slots: &'a Slots) -> &'a dyn Any {
        &**self.state.output().expect("output called on Map before value was calculated")
    }
}

struct ThenComp {
    inputs: Vec<NodeKey>,
    f: Box<dyn FnMut(&[&dyn Any]) -> NodeKey>,
    state: Then,
}

impl Computation for ThenComp {
    fn dirty(&mut self, child: NodeKey) {
        self.state.dirty(child);
    }
    fn poll(&mut self, ctx: &mut Ctx) -> Poll {
        if self.state.needs_inputs() {
            let mut answers: Vec<Poll> = Vec::new();
            for k in self.inputs.iter() {
                answers.push(ctx.request(*k));
            }
            if any_pending(&answers) {
                return Poll::Pending;
            }
            let vals: Vec<&dyn Any> = self.inputs.iter().map(|k| ctx.get(*k)).collect();
            let chosen = (self.f)(&vals);
            self.state.choose_node(chosen);
        }
        let chosen = self.state.chosen_node().unwrap();
        let answer = ctx.request(chosen);
        Then::poll_chosen(answer)
    }
    fn output<'a>(&'a self, engine: &Engine, slots: &'a Slots) -> &'a dyn Any {
        output_of(engine, slots, self.state.chosen_node().unwrap())
    }
}

struct CutoffComp {
    input: NodeKey,
    f: Box<dyn FnMut(&dyn Any) -> bool>,
}

impl Computation for CutoffComp {
    fn dirty(&mut self, _child: NodeKey) {}
    fn poll(&mut self, ctx: &mut Ctx) -> Poll {
        let upstream = ctx.request(self.input);
        let changed = upstream == Poll::Updated && (self.f)(ctx.get(self.input));
        cutoff_poll(upstream, changed)
    }
    fn output<'a>(&'a self, engine: &Engine, slots: &'a Slots) -> &'a dyn Any {
        output_of(engine, slots, self.input)
    }
}

struct RefMapComp {
    input: NodeKey,
    f: Box<dyn for<'x> Fn(&'x dyn Any) -> &'x dyn Any>,
}

impl Computation for RefMapComp {
    fn dirty(&mut self, _child: NodeKey) {}
    fn poll(&mut self, ctx: &mut Ctx) -> Poll {
        ctx.request(self.input)
    }
    fn output<'a>(&'a self, engine: &Engine, slots: &'a Slots) -> &'a dyn Any {
        (self.f)(output_of(engine, slots, self.input))
    }
}

struct CollectComp<T> {
    inputs: Vec<NodeKey>,
    state: VecCollect<T>,
}

impl<T: Clone + 'static> Computation for CollectComp<T> {
    fn dirty(&mut self, _child: NodeKey) {
        self.state.dirty();
    }
    fn poll(&mut self, ctx: &mut Ctx) -> Poll {
        if self.state.needs_values() {
            let mut answers: Vec<Poll> = Vec::new();
            for k in self.inputs.iter() {
                let answer = ctx.request(*k);
                answers.push(answer);
                if answer == Poll::Pending {
                    break;
                }
            }
            if self.state.poll_inputs(&answers) == Poll::Pending {
                return Poll::Pending;
            }
            let vals: Vec<T> = self.inputs.iter().map(|k| ctx.get(*k).downcast_ref::<T>().unwrap().clone()).collect();
            self.state.store(vals);
        }
        Poll::Updated
    }
    fn output<'a>(&'a self, _engine: &Engine, _slots: &'a Slots) -> &'a dyn Any {
        self.state.output().expect("output called on VecCollect before values were collected")
    }
}

struct Setter<T> {
    shared: Rc<RefCell<VarSetter<T>>>,
    marks: Rc<RefCell<Vec<NodeKey>>>,
}

impl<T> Setter<T> {
    fn set(&self, val: T) {
        self.shared.borrow_mut().set(val, &mut self.marks.borrow_mut());
    }
}

struct Runtime {
    engine: Engine,
    slots: Slots,
    marks: Rc<RefCell<Vec<NodeKey>>>,
}

impl Runtime {
    fn new() -> Runtime {
        Runtime { engine: Engine::new(7), slots: Vec::new(), marks: Rc::new(RefCell::new(Vec::new())) }
    }

    fn mount(&mut self, c: Box<dyn Computation>) -> NodeKey {
        let key = self.engine.mount().token();
        if self.slots.len() <= key.ptr() {
            self.slots.resize_with(key.ptr() + 1, || None);
        }
        self.slots[key.ptr()] = Some(c);
        key
    }

    fn var<T: 'static>(&mut self, v: T) -> (NodeKey, Setter<T>) {
        let (var, shared) = Var::new(v);
        let shared = Rc::new(RefCell::new(shared));
        let key = self.mount(Box::new(VarNode { var, shared: shared.clone() }));
        (key, Setter { shared, marks: self.marks.clone() })
    }

    fn constant<T: 'static>(&mut self, v: T) -> NodeKey {
        self.mount(Box::new(ConstNode(Constant::new(v))))
    }

    fn map1<A: 'static, O: 'static>(&mut self, a: NodeKey, mut f: impl FnMut(&A) -> O + 'static) -> NodeKey {
        let g = move |vals: &[&dyn Any]| -> Box<dyn Any> { Box::new(f(vals[0].downcast_ref::<A>().unwrap())) };
        self.mount(Box::new(MapComp { inputs: vec![a], f: Box::new(g), state: MapNode::new() }))
    }

    fn map2<A: 'static, B: 'static, O: 'static>(
        &mut self,
        a: NodeKey,
        b: NodeKey,
        mut f: impl FnMut(&A, &B) -> O + 'static,
    ) -> NodeKey {
        let g = move |vals: &[&dyn Any]| -> Box<dyn Any> {
            Box::new(f(vals[0].downcast_ref::<A>().unwrap(), vals[1].downcast_ref::<B>().unwrap()))
        };
        self.mount(Box::new(MapComp { inputs: vec![a, b], f: Box::new(g), state: MapNode::new() }))
    }

    fn map3<A: 'static, B: 'static, C: 'static, O: 'static>(
        &mut self,
        a: NodeKey,
        b: NodeKey,
        c: NodeKey,
        mut f: impl FnMut(&A, &B, &C) -> O + 'static,
    ) -> NodeKey {
        let g = move |vals: &[&dyn Any]| -> Box<dyn Any> {
            Box::new(f(
                vals[0].downcast_ref::<A>().unwrap(),
                vals[1].downcast_ref::<B>().unwrap(),
                vals[2].downcast_ref::<C>().unwrap(),
            ))
        };
        self.mount(Box::new(MapComp { inputs: vec![a, b, c], f: Box::new(g), state: MapNode::new() }))
    }

    fn then1<A: 'static>(&mut self, a: NodeKey, mut f: impl FnMut(&A) -> NodeKey + 'static) -> NodeKey {
        let g = move |vals: &[&dyn Any]| -> NodeKey { f(vals[0].downcast_ref::<A>().unwrap()) };
        self.mount(Box::new(ThenComp { inputs: vec![a], f: Box::new(g), state: Then::new(vec![a]) }))
    }

    fn cutoff<A: 'static>(&mut self, a: NodeKey, mut f: impl FnMut(&A) -> bool + 'static) -> NodeKey {
        let g = move |v: &dyn Any| -> bool { f(v.downcast_ref::<A>().unwrap()) };
        self.mount(Box::new(CutoffComp { input: a, f: Box::new(g) }))
    }

    fn refmap(&mut self, a: NodeKey, f: Box<dyn for<'x> Fn(&'x dyn Any) -> &'x dyn Any>) -> NodeKey {
        self.mount(Box::new(RefMapComp { input: a, f }))
    }

    fn collect<T: Clone + 'static>(&mut self, inputs: Vec<NodeKey>) -> NodeKey {
        self.mount(Box::new(CollectComp::<T> { inputs, state: VecCollect::new() }))
    }

    fn mark_observed(&mut self, k: NodeKey) {
        self.engine.mark_observed(k).unwrap();
    }

    fn mark_unobserved(&mut self, k: NodeKey) {
        self.engine.mark_unobserved(k).unwrap();
    }

    fn check_observed(&self, k: NodeKey) -> ObservedState {
        self.engine.check_observed(k).unwrap()
    }

    fn notify(&mut self, notes: Vec<(NodeGuard, NodeKey)>) {
        for (parent, child) in notes {
            if let Some(c) = self.slots[parent.slot()].as_mut() {
                c.dirty(child);
            }
        }
    }

    fn stabilize(&mut self) {
        let marks = std::mem::take(&mut *self.marks.borrow_mut());
        let notes = self.engine.stabilize_begin(&marks).unwrap();
        self.notify(notes);
        self.stabilize0();
    }

    fn stabilize0(&mut self) {
        while let Some(node) = self.engine.stabilize_next().unwrap() {
            let slot = node.slot();
            let mut comp = self.slots[slot].take().unwrap();
            let (poll, pending) = {
                let mut ctx = Ctx {
                    engine: &mut self.engine,
                    slots: &self.slots,
                    node: EngineContextMut::new(node),
                };
                let poll = comp.poll(&mut ctx);
                (poll, ctx.node.pending_on_anchor_get)
            };
            self.slots[slot] = Some(comp);
            assert!(poll != Poll::Pending || pending, "poll_updated return pending without requesting another anchor");
            let (_done, notes) = self.engine.recalculate(node, poll, pending).unwrap();
            self.notify(notes);
        }
    }

    fn get<T: Clone + 'static>(&mut self, k: NodeKey) -> T {
        self.stabilize();
        self.engine.lookup(k).ok().unwrap();
        if self.engine.prepare_get(k).unwrap() {
            self.stabilize0();
        }
        output_of(&self.engine, &self.slots, k).downcast_ref::<T>().unwrap().clone()
    }
}

#[test]
fn lib_test_observed_marking() {
    let mut rt = Runtime::new();
    let (v1, _v1_setter) = rt.var(1usize);
    let a = rt.map1(v1, |num1: &usize| *num1 + 1);
    let b = rt.map1(a, |num1: &usize| *num1 + 2);
    let c = rt.map1(b, |num1: &usize| *num1 + 3);
    rt.mark_observed(a);
    rt.mark_observed(c);

    assert_eq!(ObservedState::Unnecessary, rt.check_observed(v1));
    assert_eq!(ObservedState::Observed, rt.check_observed(a));
    assert_eq!(ObservedState::Unnecessary, rt.check_observed(b));
    assert_eq!(ObservedState::Observed, rt.check_observed(c));

    rt.stabilize();

    assert_eq!(ObservedState::Necessary, rt.check_observed(v1));
    assert_eq!(ObservedState::Observed, rt.check_observed(a));
    assert_eq!(ObservedState::Necessary, rt.check_observed(b));
    assert_eq!(ObservedState::Observed, rt.check_observed(c));

    rt.mark_unobserved(c);

    assert_eq!(ObservedState::Necessary, rt.check_observed(v1));
    assert_eq!(ObservedState::Observed, rt.check_observed(a));
    assert_eq!(ObservedState::Unnecessary, rt.check_observed(b));
    assert_eq!(ObservedState::Unnecessary, rt.check_observed(c));

    rt.mark_unobserved(a);

    assert_eq!(ObservedState::Unnecessary, rt.check_observed(v1));
    assert_eq!(ObservedState::Unnecessary, rt.check_observed(a));
    assert_eq!(ObservedState::Unnecessary, rt.check_observed(b));
    assert_eq!(ObservedState::Unnecessary, rt.check_observed(c));
}

#[test]
fn lib_test_map_simple() {
    let mut rt = Runtime::new();
    let (v1, _v1_setter) = rt.var(1usize);
    let (v2, _v2_setter) = rt.var(123usize);
    let _a2 = rt.map1(v1, |num1: &usize| {
        println!("a: adding to {:?}", num1);
        *num1
    });
    let a = rt.map2(v1, v2, |num1: &usize, num2: &usize| num1 + num2);
    let b = rt.map3(v1, a, v2, |num1: &usize, num2: &usize, num3: &usize| num1 + num2 + num3);
    rt.mark_observed(b);
    rt.stabilize();
    assert_eq!(rt.get::<usize>(b), 248);
}

#[test]
fn lib_test_then_simple() {
    let mut rt = Runtime::new();
    let (v1, v1_setter) = rt.var(true);
    let (v2, _v2_setter) = rt.var(10usize);
    let (v3, _v3_setter) = rt.var(20usize);
    let a = rt.then1(v1, move |val: &bool| if *val { v2 } else { v3 });
    rt.mark_observed(a);
    rt.stabilize();
    assert_eq!(rt.get::<usize>(a), 10);

    v1_setter.set(false);
    rt.stabilize();
    assert_eq!(rt.get::<usize>(a), 20);
}

fn cutoff_graph(rt: &mut Runtime) -> (NodeKey, Setter<i32>) {
    let (v, v_setter) = rt.var(100i32);
    let mut old_val = 0i32;
    let post_cutoff = rt.cutoff(v, move |new_val: &i32| {
        if (old_val - *new_val).abs() < 50 {
            false
        } else {
            old_val = *new_val;
            true
        }
    });
    let mapped = rt.map1(post_cutoff, |v: &i32| *v + 10);
    (mapped, v_setter)
}

#[test]
fn lib_test_cutoff_simple_observed() {
    let mut rt = Runtime::new();
    let (post_cutoff, v_setter) = cutoff_graph(&mut rt);
    rt.mark_observed(post_cutoff);
    assert_eq!(rt.get::<i32>(post_cutoff), 110);
    v_setter.set(125);
    assert_eq!(rt.get::<i32>(post_cutoff), 110);
    v_setter.set(151);
    assert_eq!(rt.get::<i32>(post_cutoff), 161);
    v_setter.set(125);
    assert_eq!(rt.get::<i32>(post_cutoff), 161);
}

#[test]
fn lib_test_cutoff_simple_unobserved() {
    let mut rt = Runtime::new();
    let (post_cutoff, v_setter) = cutoff_graph(&mut rt);
    assert_eq!(rt.get::<i32>(post_cutoff), 110);
    v_setter.set(125);
    assert_eq!(rt.get::<i32>(post_cutoff), 110);
    v_setter.set(151);
    assert_eq!(rt.get::<i32>(post_cutoff), 161);
    v_setter.set(125);
    assert_eq!(rt.get::<i32>(post_cutoff), 161);
}

#[derive(PartialEq, Debug)]
struct NoClone(usize);

fn first_of_pair(v: &dyn Any) -> &dyn Any {
    &v.downcast_ref::<(NoClone, NoClone)>().unwrap().0
}

fn second_of_pair(v: &dyn Any) -> &dyn Any {
    &v.downcast_ref::<(NoClone, NoClone)>().unwrap().1
}

#[test]
fn lib_test_refmap_simple() {
    let mut rt = Runtime::new();
    let (v, _) = rt.var((NoClone(1), NoClone(2)));
    let a = rt.refmap(v, Box::new(first_of_pair));
    let b = rt.refmap(v, Box::new(second_of_pair));
    let a_correct = rt.map1(a, |a: &NoClone| a == &NoClone(1));
    let b_correct = rt.map1(b, |b: &NoClone| b == &NoClone(2));
    assert!(rt.get::<bool>(a_correct));
    assert!(rt.get::<bool>(b_correct));
}

#[test]
fn lib_test_garbage_collection_wont_panic() {
    let mut rt = Runtime::new();
    let (v1, _v1_setter) = rt.var(1usize);
    rt.get::<usize>(v1);
    assert_eq!(Ok(true), rt.engine.handle_drop(v1));
    rt.stabilize();
}

#[test]
fn lib_test_readme_example() {
    let mut rt = Runtime::new();

    let (my_name, my_name_updater) = rt.var("Bob".to_string());
    let (my_unread, my_unread_updater) = rt.var(999usize);

    assert_eq!(&rt.get::<String>(my_name), "Bob");
    assert_eq!(rt.get::<usize>(my_unread), 999);

    let my_greeting = rt.map1(my_name, |name: &String| {
        println!("calculating name!");
        format!("Hello, {}!", name)
    });
    assert_eq!(rt.get::<String>(my_greeting), "Hello, Bob!");

    assert_eq!(rt.get::<String>(my_greeting), "Hello, Bob!");
    my_name_updater.set("Robo".to_string());
    assert_eq!(rt.get::<String>(my_greeting), "Hello, Robo!");

    let header = rt.map2(my_greeting, my_unread, |greeting: &String, unread: &usize| {
        format!("{} You have {} new messages.", greeting, unread)
    });
    assert_eq!(rt.get::<String>(header), "Hello, Robo! You have 999 new messages.");

    let (insulting_name, _) = rt.var("Lazybum".to_string());
    let dynamic_name = rt.then1(my_unread, move |unread: &usize| if *unread < 100 { my_name } else { insulting_name });
    assert_eq!(rt.get::<String>(dynamic_name), "Lazybum");
    my_unread_updater.set(50);
    assert_eq!(rt.get::<String>(dynamic_name), "Robo");
}

#[test]
fn values_are_cached_until_an_input_changes() {
    let mut rt = Runtime::new();
    let runs = Rc::new(RefCell::new(0usize));
    let (v, setter) = rt.var(1i64);
    let counter = runs.clone();
    let doubled = rt.map1(v, move |x: &i64| {
        *counter.borrow_mut() += 1;
        x * 2
    });
    assert_eq!(rt.get::<i64>(doubled), 2);
    assert_eq!(rt.get::<i64>(doubled), 2);
    assert_eq!(*runs.borrow(), 1);
    setter.set(5);
    assert_eq!(rt.get::<i64>(doubled), 10);
    assert_eq!(*runs.borrow(), 2);
}

#[test]
fn constants_poll_updated_once() {
    let mut rt = Runtime::new();
    let c = rt.constant(41i64);
    let plus_one = rt.map1(c, |x: &i64| x + 1);
    assert_eq!(rt.get::<i64>(plus_one), 42);
    assert_eq!(rt.get::<i64>(plus_one), 42);
}

#[test]
fn each_stabilization_is_a_new_generation() {
    let mut rt = Runtime::new();
    assert_eq!(1, rt.engine.current_generation().get());
    rt.stabilize();
    assert_eq!(2, rt.engine.current_generation().get());
    rt.stabilize();
    assert_eq!(3, rt.engine.current_generation().get());
}

#[test]
fn unknown_keys_are_refused() {
    let mut rt = Runtime::new();
    let mut other = Engine::new(99);
    let k = other.mount().token();
    assert_eq!(Err(EngineError::UnknownNode), rt.engine.mark_observed(k));
    assert_eq!(Err(EngineError::UnknownNode), rt.engine.check_observed(k));
}

#[test]
fn engine_without_heights_cannot_stabilize() {
    let mut e = Engine::new_with_max_height(0, 3);
    assert_eq!(Err(EngineError::NoHeights), e.stabilize_next());
}

#[test]
fn output_of_a_node_not_ready_is_refused() {
    let mut e = Engine::new(5);
    let k = e.mount().token();
    assert_eq!(Err(EngineError::NotRequested), e.output_ready(k));
}

#[test]
fn debug_state_is_empty() {
    let e = Engine::new(5);
    assert_eq!("", e.debug_state());
}

#[test]
fn unrequest_drops_the_clean_parent_and_the_necessary_edge() {
    let mut e = Engine::new(21);
    let p = e.mount().token();
    let c = e.mount().token();
    e.mark_observed(p).unwrap();
    let pg = e.stabilize_next().unwrap().unwrap();
    let mut ctx = EngineContextMut::new(pg);
    assert_eq!(Ok(Poll::Pending), e.request(&mut ctx, c, true));
    assert!(ctx.pending_on_anchor_get);
    assert_eq!(Ok(ObservedState::Necessary), e.check_observed(c));
    assert_eq!(Ok(false), e.recalculate(pg, Poll::Pending, true).map(|(d, _)| d));
    let cg = e.stabilize_next().unwrap().unwrap();
    assert_eq!(c, e.graph_ref().key(cg));
    assert_eq!(Ok(true), e.recalculate(cg, Poll::Updated, false).map(|(d, _)| d));
    let pg2 = e.stabilize_next().unwrap().unwrap();
    assert_eq!(pg, pg2);
    let mut ctx = EngineContextMut::new(pg2);
    assert_eq!(Ok(Poll::Updated), e.request(&mut ctx, c, true));
    assert!(!ctx.pending_on_anchor_get);
    assert_eq!(vec![pg], cg.clean_parents(e.graph_ref()));
    e.unrequest(&ctx, c).unwrap();
    assert!(cg.clean_parents(e.graph_ref()).is_empty());
    assert_eq!(Ok(ObservedState::Unnecessary), e.check_observed(c));
}

#[test]
fn second_request_of_an_unchanged_child_is_unchanged() {
    let mut e = Engine::new(22);
    let p = e.mount().token();
    let c = e.mount().token();
    e.mark_observed(p).unwrap();
    let pg = e.stabilize_next().unwrap().unwrap();
    let mut ctx = EngineContextMut::new(pg);
    assert_eq!(Ok(Poll::Pending), e.request(&mut ctx, c, true));
    e.recalculate(pg, Poll::Pending, true).unwrap();
    let cg = e.stabilize_next().unwrap().unwrap();
    e.recalculate(cg, Poll::Updated, false).unwrap();
    let pg = e.stabilize_next().unwrap().unwrap();
    let mut ctx = EngineContextMut::new(pg);
    assert_eq!(Ok(Poll::Updated), e.request(&mut ctx, c, true));
    e.recalculate(pg, Poll::Updated, false).unwrap();
    assert_eq!(Ok(None), e.stabilize_next());
    // nothing changed since: asking again answers Unchanged
    let mut ctx = EngineContextMut::new(pg);
    assert_eq!(Ok(Poll::Unchanged), e.request(&mut ctx, c, true));
}

#[test]
fn collect() {
    let mut rt = Runtime::new();
    let (a, a_setter) = rt.var(1usize);
    let (b, _b_setter) = rt.var(2usize);
    let (c, c_setter) = rt.var(5usize);
    let nums = rt.collect::<usize>(vec![a, b, c]);
    let sum = rt.map1(nums, |nums: &Vec<usize>| nums.iter().sum::<usize>());

    assert_eq!(rt.get::<usize>(sum), 8);

    a_setter.set(2);
    assert_eq!(rt.get::<usize>(sum), 9);

    c_setter.set(1);
    assert_eq!(rt.get::<usize>(sum), 5);
}

#[test]
fn nothing_is_pending_after_a_stabilization() {
    let mut rt = Runtime::new();
    let (v, setter) = rt.var(1i64);
    let a = rt.map1(v, |x: &i64| x + 1);
    let b = rt.map1(a, |x: &i64| x * 3);
    rt.mark_observed(b);
    rt.stabilize();
    setter.set(2);
    rt.stabilize();
    for k in [v, a, b] {
        let g = rt.engine.lookup(k).unwrap();
        assert_eq!(
            anchors::singlethread::RecalcState::Ready,
            anchors::singlethread::graph2::recalc_state(rt.engine.graph_ref(), g)
        );
    }
    assert_eq!(rt.get::<i64>(b), 9);
}
