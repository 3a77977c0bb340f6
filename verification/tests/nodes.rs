use anchors::ext::{any_pending, cutoff_poll, filter_map_step, DiffKind, MapEdit, MapNode, Then, VecCollect};
use anchors::singlethread::{Engine, NodeKey};
use anchors::{Constant, Poll, Var};

fn keys(n: usize) -> Vec<NodeKey> {
    let mut e = Engine::new(11);
    let mut out = Vec::new();
    for _ in 0..n {
        out.push(e.mount().token());
    }
    out
}

#[test]
fn pending_answers_are_found() {
    assert!(!any_pending(&vec![]));
    assert!(!any_pending(&vec![Poll::Updated, Poll::Unchanged]));
    assert!(any_pending(&vec![Poll::Updated, Poll::Pending]));
}

#[test]
fn map_recomputes_only_on_change() {
    let mut m: MapNode<i64> = MapNode::new();
    assert_eq!(Poll::Updated, m.poll_inputs(&vec![Poll::Unchanged]));
    m.store(3);
    assert_eq!(Some(&3), m.output());
    assert_eq!(Poll::Unchanged, m.poll_inputs(&vec![Poll::Unchanged, Poll::Unchanged]));
    assert_eq!(Poll::Updated, m.poll_inputs(&vec![Poll::Unchanged, Poll::Updated]));
    assert_eq!(Poll::Pending, m.poll_inputs(&vec![Poll::Updated, Poll::Pending]));
}

#[test]
fn collection_waits_for_pending_inputs_only_until_collected() {
    let mut c: VecCollect<i64> = VecCollect::new();
    assert_eq!(Poll::Pending, c.poll_inputs(&vec![Poll::Updated, Poll::Pending]));
    assert_eq!(Poll::Updated, c.poll_inputs(&vec![Poll::Updated, Poll::Unchanged]));
    assert_eq!(Poll::Updated, c.poll_inputs(&vec![]));
    c.store(vec![1, 2]);
    assert_eq!(Poll::Updated, c.poll_inputs(&vec![Poll::Pending]));
    c.dirty();
    assert_eq!(Poll::Pending, c.poll_inputs(&vec![Poll::Pending]));
}

#[test]
fn cutoff_passes_on_only_changes_it_accepts() {
    assert_eq!(Poll::Pending, cutoff_poll(Poll::Pending, true));
    assert_eq!(Poll::Unchanged, cutoff_poll(Poll::Unchanged, true));
    assert_eq!(Poll::Updated, cutoff_poll(Poll::Updated, true));
    assert_eq!(Poll::Unchanged, cutoff_poll(Poll::Updated, false));
}

#[test]
fn then_drops_its_pick_only_when_an_input_changes() {
    let k = keys(3);
    let mut t = Then::new(vec![k[0], k[1]]);
    assert!(t.needs_inputs());
    t.choose_node(k[2]);
    assert!(!t.needs_inputs());
    t.dirty(k[2]);
    assert_eq!(Some(k[2]), t.chosen_node());
    t.dirty(k[1]);
    assert_eq!(None, t.chosen_node());
    assert_eq!(Poll::Pending, Then::poll_chosen(Poll::Pending));
    assert_eq!(Poll::Updated, Then::poll_chosen(Poll::Unchanged));
}

#[test]
fn constant_is_updated_on_first_poll_only() {
    let mut c = Constant::new(5u8);
    assert_eq!(Poll::Updated, c.poll_updated());
    assert_eq!(Poll::Unchanged, c.poll_updated());
    assert_eq!(5, *c.output());
}

#[test]
fn var_takes_in_set_values() {
    let mut e = Engine::new(12);
    let k = e.mount().token();
    let mut ctx = anchors::singlethread::engine::EngineContextMut::new(e.lookup(k).unwrap());
    ctx.pending_on_anchor_get = false;
    let handle = e.dirty_handle(&ctx);
    let (mut var, mut shared) = Var::new(1i32);
    let mut marks: Vec<NodeKey> = Vec::new();
    shared.set(2, &mut marks);
    assert!(marks.is_empty());
    assert_eq!(Poll::Updated, var.poll_updated(&mut shared, handle));
    assert_eq!(2, *var.output());
    assert_eq!(Poll::Unchanged, var.poll_updated(&mut shared, handle));
    shared.set(3, &mut marks);
    assert_eq!(vec![k], marks);
    assert_eq!(Poll::Updated, var.poll_updated(&mut shared, handle));
    assert_eq!(3, *var.output());
}

#[test]
fn first_poll_of_a_var_is_updated() {
    let mut e = Engine::new(13);
    let k = e.mount().token();
    let ctx = anchors::singlethread::engine::EngineContextMut::new(e.lookup(k).unwrap());
    let handle = e.dirty_handle(&ctx);
    let (mut var, mut shared) = Var::new(7u32);
    assert_eq!(Poll::Updated, var.poll_updated(&mut shared, handle));
    assert_eq!(Poll::Unchanged, var.poll_updated(&mut shared, handle));
}

#[test]
fn filter_map_edits_follow_each_change() {
    assert_eq!((MapEdit::Insert, true), filter_map_step(DiffKind::Add, true, false));
    assert_eq!((MapEdit::Keep, false), filter_map_step(DiffKind::Add, false, false));
    assert_eq!((MapEdit::Insert, true), filter_map_step(DiffKind::Update, true, true));
    assert_eq!((MapEdit::Remove, true), filter_map_step(DiffKind::Update, false, true));
    assert_eq!((MapEdit::Keep, false), filter_map_step(DiffKind::Update, false, false));
    assert_eq!((MapEdit::Remove, true), filter_map_step(DiffKind::Remove, false, false));
}

#[test]
fn last_value_set_before_a_poll_wins() {
    let mut e = Engine::new(14);
    let k = e.mount().token();
    let ctx = anchors::singlethread::engine::EngineContextMut::new(e.lookup(k).unwrap());
    let handle = e.dirty_handle(&ctx);
    let (mut var, mut shared) = Var::new(0u32);
    let mut marks: Vec<NodeKey> = Vec::new();
    shared.set(1, &mut marks);
    shared.set(2, &mut marks);
    assert!(marks.is_empty());
    assert_eq!(Poll::Updated, var.poll_updated(&mut shared, handle));
    assert_eq!(2, *var.output());
}
