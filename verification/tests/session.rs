use share_module_split::build_session::BuildSession;
use share_module_split::chunk_graph::ChunkGraph;
use share_module_split::chunk_group::ChunkGroup;
use share_module_split::mutation::Mutation;

#[test]
fn new_session_is_empty() {
    let session = BuildSession::new();
    assert_eq!(session.chunk_count(), 0);
    assert_eq!(session.module_count(), 0);
    assert_eq!(session.group_count(), 0);
    assert_eq!(session.mutations().len(), 0);
}

#[test]
fn handles_count_up_from_zero() {
    let mut session = BuildSession::new();
    assert_eq!(session.add_chunk(None), 0);
    assert_eq!(session.add_chunk(Some("x".to_string())), 1);
    assert_eq!(session.add_module(), 0);
    assert_eq!(session.add_module(), 1);
    assert_eq!(session.add_group(), 0);
    assert_eq!(session.add_group(), 1);
    assert_eq!(session.chunk_count(), 2);
    assert_eq!(session.module_count(), 2);
    assert_eq!(session.group_count(), 2);
    assert_eq!(session.chunk(0).name(), &None);
    assert_eq!(session.chunk(1).name(), &Some("x".to_string()));
    assert_eq!(session.chunk(1).reason(), "");
}

#[test]
fn find_chunk_by_name_returns_the_first_match() {
    let mut session = BuildSession::new();
    session.add_chunk(Some("x".to_string()));
    session.add_chunk(Some("y".to_string()));
    session.add_chunk(Some("y".to_string()));
    assert_eq!(session.find_chunk_by_name(&"y".to_string()), Some(1));
    assert_eq!(session.find_chunk_by_name(&"x".to_string()), Some(0));
    assert_eq!(session.find_chunk_by_name(&"z".to_string()), None);
}

#[test]
fn add_named_chunk_reports_a_taken_name() {
    let mut session = BuildSession::new();
    assert_eq!(session.add_named_chunk("x".to_string()), (0, true));
    assert_eq!(session.add_named_chunk("y".to_string()), (1, true));
    assert_eq!(session.add_named_chunk("x".to_string()), (0, false));
    assert_eq!(session.chunk_count(), 2);
    assert_eq!(session.chunk_modules(1), &Vec::<usize>::new());
}

#[test]
fn reasons_are_joined_by_commas() {
    let mut session = BuildSession::new();
    let c = session.add_chunk(None);
    session.append_chunk_reason(c, "first");
    assert_eq!(session.chunk(c).reason(), "first");
    session.append_chunk_reason(c, "second");
    assert_eq!(session.chunk(c).reason(), "first,second");
}

#[test]
fn connecting_twice_adds_one_edge() {
    let mut session = BuildSession::new();
    let c = session.add_chunk(None);
    let m = session.add_module();
    let n = session.add_module();
    session.connect_chunk_and_module(c, n);
    session.connect_chunk_and_module(c, m);
    session.connect_chunk_and_module(c, n);
    assert_eq!(session.chunk_modules(c), &vec![n, m]);
    assert_eq!(session.module_chunks(n), &vec![c]);
    assert_eq!(session.module_chunks(m), &vec![c]);
}

#[test]
fn disconnecting_keeps_the_order_of_the_rest() {
    let mut session = BuildSession::new();
    let c = session.add_chunk(None);
    let d = session.add_chunk(None);
    for _ in 0..4 {
        session.add_module();
    }
    for m in 0..4 {
        session.connect_chunk_and_module(c, m);
    }
    session.connect_chunk_and_module(d, 1);
    session.disconnect_chunk_and_module(c, 1);
    assert_eq!(session.chunk_modules(c), &vec![0, 2, 3]);
    assert_eq!(session.module_chunks(1), &vec![d]);
    assert_eq!(session.chunk_modules(d), &vec![1]);
}

#[test]
fn moving_a_module_changes_its_owner() {
    let mut session = BuildSession::new();
    let c = session.add_chunk(None);
    let d = session.add_chunk(None);
    let m = session.add_module();
    let n = session.add_module();
    session.connect_chunk_and_module(c, m);
    session.connect_chunk_and_module(c, n);
    session.move_module(c, d, m);
    assert_eq!(session.chunk_modules(c), &vec![n]);
    assert_eq!(session.chunk_modules(d), &vec![m]);
    assert_eq!(session.module_chunks(m), &vec![d]);
    session.move_module(c, c, n);
    assert_eq!(session.chunk_modules(c), &vec![n]);
}

#[test]
fn module_is_shared_with_two_owners() {
    let mut session = BuildSession::new();
    let c = session.add_chunk(None);
    let d = session.add_chunk(None);
    let m = session.add_module();
    assert!(!session.is_module_shared(m));
    session.connect_chunk_and_module(c, m);
    assert!(!session.is_module_shared(m));
    session.connect_chunk_and_module(d, m);
    assert!(session.is_module_shared(m));
    session.disconnect_chunk_and_module(c, m);
    assert!(!session.is_module_shared(m));
}

#[test]
fn groups_hold_each_chunk_once() {
    let mut session = BuildSession::new();
    let c = session.add_chunk(None);
    let d = session.add_chunk(None);
    let g = session.add_group();
    let h = session.add_group();
    session.add_chunk_to_group(g, d);
    session.add_chunk_to_group(g, c);
    session.add_chunk_to_group(g, d);
    session.add_child_group(g, h);
    assert_eq!(session.group_chunks(g), &vec![d, c]);
    assert_eq!(session.group_children(g), &vec![h]);
    assert_eq!(session.group_chunks(h), &Vec::<usize>::new());
}

#[test]
fn split_chunk_skips_groups_without_the_source() {
    let mut session = BuildSession::new();
    let c = session.add_chunk(None);
    let d = session.add_chunk(None);
    let e = session.add_chunk(None);
    let g = session.add_group();
    let h = session.add_group();
    session.add_chunk_to_group(g, c);
    session.add_chunk_to_group(h, d);
    session.split_chunk(c, e);
    assert_eq!(session.group_chunks(g), &vec![e, c]);
    assert_eq!(session.group_chunks(h), &vec![d]);
    session.split_chunk(c, e);
    assert_eq!(session.group_chunks(g), &vec![e, c]);
    assert_eq!(session.mutations().len(), 0);
}

#[test]
fn records_are_kept_in_order() {
    let mut session = BuildSession::new();
    session.record(Mutation::ChunkSplit { from: 1, to: 2 });
    session.record(Mutation::ChunkAdd { chunk: 3 });
    assert_eq!(
        session.mutations(),
        &vec![Mutation::ChunkSplit { from: 1, to: 2 }, Mutation::ChunkAdd { chunk: 3 }]
    );
    assert!(session.mutations()[0].refers_to(1));
    assert!(session.mutations()[0].refers_to(2));
    assert!(!session.mutations()[0].refers_to(3));
    assert!(session.mutations()[1].refers_to(3));
    assert!(!session.mutations()[1].refers_to(1));
}

#[test]
fn chunk_graph_indexes_edges_both_ways() {
    let mut graph = ChunkGraph::new();
    let c = graph.add_chunk();
    let d = graph.add_chunk();
    let m = graph.add_module();
    graph.connect_chunk_and_module(c, m);
    graph.connect_chunk_and_module(d, m);
    assert_eq!(graph.chunk_count(), 2);
    assert_eq!(graph.module_count(), 1);
    assert_eq!(graph.chunk_modules(c), &vec![m]);
    assert_eq!(graph.module_chunks(m), &vec![c, d]);
    assert!(graph.is_module_in_chunk(m, d));
    assert!(graph.is_module_shared(m));
    graph.disconnect_chunk_and_module(c, m);
    assert!(!graph.is_module_in_chunk(m, c));
    assert_eq!(graph.module_chunks(m), &vec![d]);
    assert!(!graph.is_module_shared(m));
}

#[test]
fn chunk_group_splits_in_place() {
    let mut group = ChunkGroup::new();
    group.push_chunk(4);
    group.push_chunk(7);
    group.push_chunk(4);
    group.push_child(2);
    assert_eq!(group.chunks(), &vec![4, 7]);
    assert!(group.contains_chunk(7));
    assert!(!group.contains_chunk(5));
    group.split_chunk(7, 9);
    assert_eq!(group.chunks(), &vec![4, 9, 7]);
    group.split_chunk(5, 1);
    assert_eq!(group.chunks(), &vec![4, 9, 7]);
    assert_eq!(group.children(), &vec![2]);
}
