use anchors::singlethread::graph2::{ensure_height_increases, height, set_min_height, Graph2, GraphError, NodeGuard, RecalcState};

fn necessary_count(graph: &Graph2, g: NodeGuard) -> usize {
    graph.node_ref(g).necessary_count
}

#[test]
fn set_edge_updates_correctly() {
    let mut graph = Graph2::new(256, 1);
    let a = graph.insert_testing_guard();
    let b = graph.insert_testing_guard();
    let empty: Vec<NodeGuard> = vec![];

    assert_eq!(empty, a.necessary_children(&graph));
    assert_eq!(empty, a.clean_parents(&graph));
    assert_eq!(empty, b.necessary_children(&graph));
    assert_eq!(empty, b.clean_parents(&graph));
    assert_eq!(false, necessary_count(&graph, a) > 0);
    assert_eq!(false, necessary_count(&graph, b) > 0);

    assert_eq!(Ok(false), ensure_height_increases(&mut graph, a, b));
    assert_eq!(Ok(true), ensure_height_increases(&mut graph, a, b));
    a.add_clean_parent(&mut graph, b);

    assert_eq!(empty, a.necessary_children(&graph));
    assert_eq!(vec![b], a.clean_parents(&graph));
    assert_eq!(empty, b.necessary_children(&graph));
    assert_eq!(empty, b.clean_parents(&graph));
    assert_eq!(false, necessary_count(&graph, a) > 0);
    assert_eq!(false, necessary_count(&graph, b) > 0);

    assert_eq!(Ok(true), ensure_height_increases(&mut graph, a, b));
    b.add_necessary_child(&mut graph, a).unwrap();

    assert_eq!(empty, a.necessary_children(&graph));
    assert_eq!(vec![b], a.clean_parents(&graph));
    assert_eq!(vec![a], b.necessary_children(&graph));
    assert_eq!(empty, b.clean_parents(&graph));
    assert_eq!(true, necessary_count(&graph, a) > 0);
    assert_eq!(false, necessary_count(&graph, b) > 0);

    let _ = a.drain_clean_parents(&mut graph);

    assert_eq!(empty, a.necessary_children(&graph));
    assert_eq!(empty, a.clean_parents(&graph));
    assert_eq!(vec![a], b.necessary_children(&graph));
    assert_eq!(empty, b.clean_parents(&graph));
    assert_eq!(true, necessary_count(&graph, a) > 0);
    assert_eq!(false, necessary_count(&graph, b) > 0);

    let _ = b.drain_necessary_children(&mut graph).unwrap();

    assert_eq!(empty, a.necessary_children(&graph));
    assert_eq!(empty, a.clean_parents(&graph));
    assert_eq!(empty, b.necessary_children(&graph));
    assert_eq!(empty, b.clean_parents(&graph));
    assert_eq!(false, necessary_count(&graph, a) > 0);
    assert_eq!(false, necessary_count(&graph, b) > 0);
}

#[test]
fn height_calculated_correctly() {
    let mut graph = Graph2::new(256, 1);
    let a = graph.insert_testing_guard();
    let b = graph.insert_testing_guard();
    let c = graph.insert_testing_guard();

    assert_eq!(0, height(&graph, a));
    assert_eq!(0, height(&graph, b));
    assert_eq!(0, height(&graph, c));

    assert_eq!(Ok(false), ensure_height_increases(&mut graph, b, c));
    assert_eq!(Ok(true), ensure_height_increases(&mut graph, b, c));
    b.add_clean_parent(&mut graph, c);

    assert_eq!(0, height(&graph, a));
    assert_eq!(0, height(&graph, b));
    assert_eq!(1, height(&graph, c));

    assert_eq!(Ok(false), ensure_height_increases(&mut graph, a, b));
    assert_eq!(Ok(true), ensure_height_increases(&mut graph, a, b));
    a.add_clean_parent(&mut graph, b);

    assert_eq!(0, height(&graph, a));
    assert_eq!(1, height(&graph, b));
    assert_eq!(2, height(&graph, c));

    let _ = a.drain_clean_parents(&mut graph);

    assert_eq!(0, height(&graph, a));
    assert_eq!(1, height(&graph, b));
    assert_eq!(2, height(&graph, c));
}

#[test]
fn cycles_cause_error() {
    let mut graph = Graph2::new(256, 1);
    let b = graph.insert_testing_guard();
    let c = graph.insert_testing_guard();
    ensure_height_increases(&mut graph, b, c).unwrap();
    b.add_clean_parent(&mut graph, c);
    ensure_height_increases(&mut graph, c, b).unwrap_err();
}

#[test]
fn cycle_error_is_loop_detected() {
    let mut graph = Graph2::new(256, 1);
    let b = graph.insert_testing_guard();
    let c = graph.insert_testing_guard();
    ensure_height_increases(&mut graph, b, c).unwrap();
    b.add_clean_parent(&mut graph, c);
    assert_eq!(Err(GraphError::LoopDetected), ensure_height_increases(&mut graph, c, b));
}

#[test]
fn non_cycles_wont_cause_errors() {
    let mut graph = Graph2::new(256, 1);
    let a = graph.insert_testing_guard();
    let b = graph.insert_testing_guard();
    let c = graph.insert_testing_guard();
    let d = graph.insert_testing_guard();
    let e = graph.insert_testing_guard();

    ensure_height_increases(&mut graph, b, c).unwrap();
    b.add_clean_parent(&mut graph, c);
    ensure_height_increases(&mut graph, c, e).unwrap();
    c.add_clean_parent(&mut graph, e);
    ensure_height_increases(&mut graph, b, d).unwrap();
    b.add_clean_parent(&mut graph, d);
    ensure_height_increases(&mut graph, d, e).unwrap();
    d.add_clean_parent(&mut graph, e);
    ensure_height_increases(&mut graph, a, b).unwrap();
    a.add_clean_parent(&mut graph, b);
}

#[test]
fn graph2_test_insert_pop() {
    let mut graph = Graph2::new(10, 1);
    let a = graph.insert_testing_guard();
    set_min_height(&mut graph, a, 0).unwrap();
    let b = graph.insert_testing_guard();
    set_min_height(&mut graph, b, 5).unwrap();
    let c = graph.insert_testing_guard();
    set_min_height(&mut graph, c, 3).unwrap();
    let d = graph.insert_testing_guard();
    set_min_height(&mut graph, d, 4).unwrap();
    let e = graph.insert_testing_guard();
    set_min_height(&mut graph, e, 1).unwrap();
    let e2 = graph.insert_testing_guard();
    set_min_height(&mut graph, e2, 1).unwrap();
    let e3 = graph.insert_testing_guard();
    set_min_height(&mut graph, e3, 1).unwrap();

    graph.queue_recalc(a).unwrap();
    graph.queue_recalc(a).unwrap();
    graph.queue_recalc(a).unwrap();
    graph.queue_recalc(b).unwrap();
    graph.queue_recalc(c).unwrap();
    graph.queue_recalc(d).unwrap();

    assert_eq!(Some(a), graph.recalc_pop_next().map(|(_, v)| v));
    assert_eq!(Some(c), graph.recalc_pop_next().map(|(_, v)| v));
    assert_eq!(Some(d), graph.recalc_pop_next().map(|(_, v)| v));

    graph.queue_recalc(e).unwrap();
    graph.queue_recalc(e2).unwrap();
    graph.queue_recalc(e3).unwrap();

    assert_eq!(Some(e3), graph.recalc_pop_next().map(|(_, v)| v));
    assert_eq!(Some(e2), graph.recalc_pop_next().map(|(_, v)| v));
    assert_eq!(Some(e), graph.recalc_pop_next().map(|(_, v)| v));
    assert_eq!(Some(b), graph.recalc_pop_next().map(|(_, v)| v));

    assert_eq!(None, graph.recalc_pop_next().map(|(_, v)| v));
}

#[test]
#[should_panic]
fn graph2_test_insert_above_max_height() {
    let mut graph = Graph2::new(10, 1);
    let a = graph.insert_testing_guard();
    set_min_height(&mut graph, a, 10).unwrap();
    let _ = graph.queue_recalc(a);
}

#[test]
fn popped_node_is_ready() {
    let mut graph = Graph2::new(4, 1);
    let a = graph.insert_testing_guard();
    graph.queue_recalc(a).unwrap();
    assert_eq!(RecalcState::Pending, anchors::singlethread::graph2::recalc_state(&graph, a));
    assert_eq!(Some((0, a)), graph.recalc_pop_next());
    assert_eq!(RecalcState::Ready, anchors::singlethread::graph2::recalc_state(&graph, a));
}

fn drop_handle(graph: &mut Graph2, h: anchors::singlethread::AnchorHandle) {
    let g = graph.get(h.token()).unwrap();
    graph.handle_drop(g).unwrap();
}

#[test]
fn test_free_list() {
    let mut graph = Graph2::new(10, 1);
    let a = graph.insert_testing();
    let b = graph.insert_testing();
    let c = graph.insert_testing();

    let a_token = a.token();
    let b_token = b.token();
    let c_token = c.token();

    drop_handle(&mut graph, a);
    drop_handle(&mut graph, b);
    drop_handle(&mut graph, c);

    let c = graph.insert_testing();
    let b = graph.insert_testing();
    let a = graph.insert_testing();
    let d = graph.insert_testing();

    assert_eq!(a_token, a.token());
    assert_eq!(b_token, b.token());
    assert_eq!(c_token, c.token());
    let d_token = d.token();

    drop_handle(&mut graph, c);
    drop_handle(&mut graph, a);
    drop_handle(&mut graph, b);
    drop_handle(&mut graph, d);

    let d = graph.insert_testing();
    let b = graph.insert_testing();
    let a = graph.insert_testing();
    let c = graph.insert_testing();

    assert_eq!(a_token, a.token());
    assert_eq!(b_token, b.token());
    assert_eq!(c_token, c.token());
    assert_eq!(d_token, d.token());
}

#[test]
fn keys_of_another_graph_are_not_found() {
    let mut g1 = Graph2::new(4, 1);
    let g2 = Graph2::new(4, 2);
    let h = g1.insert_testing();
    assert!(g1.get(h.token()).is_some());
    assert!(g2.get(h.token()).is_none());
}

#[test]
fn dropping_a_queued_node_keeps_the_rest_of_its_queue_in_order() {
    let mut graph = Graph2::new(4, 1);
    let a = graph.insert_testing();
    let b = graph.insert_testing();
    let c = graph.insert_testing();
    let ga = graph.get(a.token()).unwrap();
    let gb = graph.get(b.token()).unwrap();
    let gc = graph.get(c.token()).unwrap();
    graph.queue_recalc(ga).unwrap();
    graph.queue_recalc(gb).unwrap();
    graph.queue_recalc(gc).unwrap();
    assert_eq!(Ok(true), graph.handle_drop(gb));
    assert_eq!(Some((0, gc)), graph.recalc_pop_next());
    assert_eq!(Some((0, ga)), graph.recalc_pop_next());
    assert_eq!(None, graph.recalc_pop_next());
}

#[test]
fn min_height_raises_only_as_far_as_asked() {
    let mut graph = Graph2::new(16, 1);
    let a = graph.insert_testing_guard();
    let b = graph.insert_testing_guard();
    assert_eq!(Ok(false), ensure_height_increases(&mut graph, a, b));
    a.add_clean_parent(&mut graph, b);
    assert_eq!(Ok(()), set_min_height(&mut graph, a, 5));
    assert_eq!(5, height(&graph, a));
    assert_eq!(6, height(&graph, b));
    assert_eq!(Ok(()), set_min_height(&mut graph, a, 3));
    assert_eq!(5, height(&graph, a));
    assert_eq!(6, height(&graph, b));
}

#[test]
fn adding_then_removing_a_necessary_child_restores_the_list() {
    let mut graph = Graph2::new(8, 1);
    let p = graph.insert_testing_guard();
    let a = graph.insert_testing_guard();
    let b = graph.insert_testing_guard();
    let c = graph.insert_testing_guard();
    p.add_necessary_child(&mut graph, a).unwrap();
    p.add_necessary_child(&mut graph, c).unwrap();
    let before = p.necessary_children(&graph);
    let count_before = necessary_count(&graph, b);
    p.add_necessary_child(&mut graph, b).unwrap();
    assert_eq!(count_before + 1, necessary_count(&graph, b));
    p.remove_necessary_child(&mut graph, b).unwrap();
    assert_eq!(before, p.necessary_children(&graph));
    assert_eq!(count_before, necessary_count(&graph, b));
}
