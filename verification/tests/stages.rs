use share_module_split::build_session::BuildSession;
use share_module_split::error::SplitError;
use share_module_split::mutation::Mutation;
use share_module_split::split_chunk_share_module::{
    create_extraction_chunk, detect_shared, find_shared_modules, migrate_modules, resolve_chunks,
    split_chunk_groups,
};

/// Chunks `a` (0), an unnamed chunk (1), `b` (2) and `c` (3). Chunk `a` owns
/// modules 0 to 3, the unnamed chunk owns 3 and 1, `b` owns 4, `c` owns
/// nothing.
fn session() -> BuildSession {
    let mut session = BuildSession::new();
    let a = session.add_chunk(Some("a".to_string()));
    let unnamed = session.add_chunk(None);
    let b = session.add_chunk(Some("b".to_string()));
    session.add_chunk(Some("c".to_string()));
    for _ in 0..5 {
        session.add_module();
    }
    for m in 0..4 {
        session.connect_chunk_and_module(a, m);
    }
    session.connect_chunk_and_module(unnamed, 3);
    session.connect_chunk_and_module(unnamed, 1);
    session.connect_chunk_and_module(b, 4);
    session
}

#[test]
fn resolver_keeps_the_order_of_the_names() {
    let session = session();
    let names = vec!["c".to_string(), "a".to_string(), "b".to_string(), "a".to_string()];
    assert_eq!(resolve_chunks(&session, &names), Ok(vec![3, 0, 2, 0]));
}

#[test]
fn resolver_fails_at_the_first_unknown_name() {
    let session = session();
    let names = vec!["a".to_string(), "x".to_string(), "y".to_string()];
    assert_eq!(
        resolve_chunks(&session, &names),
        Err(SplitError::UnresolvedChunkName("x".to_string()))
    );
}

#[test]
fn resolver_matches_names_exactly() {
    let session = session();
    assert_eq!(
        resolve_chunks(&session, &vec!["A".to_string()]),
        Err(SplitError::UnresolvedChunkName("A".to_string()))
    );
    assert_eq!(
        resolve_chunks(&session, &vec!["".to_string()]),
        Err(SplitError::UnresolvedChunkName("".to_string()))
    );
    assert_eq!(resolve_chunks(&session, &Vec::new()), Ok(Vec::new()));
}

#[test]
fn detector_lists_shared_modules_in_the_order_of_the_chunk() {
    let session = session();
    assert_eq!(find_shared_modules(&session, 0), vec![1, 3]);
    assert_eq!(find_shared_modules(&session, 1), vec![3, 1]);
    assert_eq!(find_shared_modules(&session, 2), Vec::<usize>::new());
    assert_eq!(find_shared_modules(&session, 3), Vec::<usize>::new());
}

#[test]
fn detector_leaves_out_chunks_without_shared_modules() {
    let session = session();
    let plan = detect_shared(&session, &vec![2, 1, 3, 0]);
    assert_eq!(plan.len(), 2);
    assert_eq!(plan[0].source, 1);
    assert_eq!(plan[0].modules, vec![3, 1]);
    assert_eq!(plan[1].source, 0);
    assert_eq!(plan[1].modules, vec![1, 3]);
}

#[test]
fn factory_registers_an_empty_named_chunk() {
    let mut session = session();
    assert_eq!(create_extraction_chunk(&mut session, 2), Ok(4));
    assert_eq!(session.chunk_count(), 5);
    assert_eq!(session.chunk(4).name(), &Some("b_share_module".to_string()));
    assert_eq!(session.chunk(4).reason(), "split by shared-module extraction");
    assert_eq!(session.chunk_modules(4), &Vec::<usize>::new());
    assert_eq!(session.mutations(), &vec![Mutation::ChunkAdd { chunk: 4 }]);
}

#[test]
fn factory_refuses_a_name_that_is_taken() {
    let mut session = session();
    assert_eq!(create_extraction_chunk(&mut session, 2), Ok(4));
    assert_eq!(
        create_extraction_chunk(&mut session, 2),
        Err(SplitError::DuplicateChunkName("b_share_module".to_string()))
    );
    assert_eq!(session.chunk_count(), 5);
    assert_eq!(session.mutations().len(), 1);
}

#[test]
fn migrator_moves_the_listed_modules_in_order() {
    let mut session = session();
    migrate_modules(&mut session, 0, 3, &vec![2, 0]);
    assert_eq!(session.chunk_modules(0), &vec![1, 3]);
    assert_eq!(session.chunk_modules(3), &vec![2, 0]);
    assert_eq!(session.module_chunks(2), &vec![3]);
    assert_eq!(session.module_chunks(0), &vec![3]);
    assert_eq!(session.mutations().len(), 0);
}

#[test]
fn migrator_adds_to_what_the_target_owns() {
    let mut session = session();
    migrate_modules(&mut session, 0, 2, &vec![3]);
    assert_eq!(session.chunk_modules(0), &vec![0, 1, 2]);
    assert_eq!(session.chunk_modules(2), &vec![4, 3]);
    let mut owners = session.module_chunks(3).clone();
    owners.sort();
    assert_eq!(owners, vec![1, 2]);
}

#[test]
fn splitter_puts_the_new_chunk_before_its_source() {
    let mut session = session();
    let first = session.add_group();
    let second = session.add_group();
    let third = session.add_group();
    session.add_chunk_to_group(first, 1);
    session.add_chunk_to_group(first, 0);
    session.add_chunk_to_group(first, 2);
    session.add_chunk_to_group(second, 2);
    session.add_chunk_to_group(third, 0);
    session.add_chunk_to_group(third, 3);

    split_chunk_groups(&mut session, 0, 3);
    assert_eq!(session.group_chunks(first), &vec![1, 3, 0, 2]);
    assert_eq!(session.group_chunks(second), &vec![2]);
    assert_eq!(session.group_chunks(third), &vec![0, 3]);
    assert_eq!(session.mutations(), &vec![Mutation::ChunkSplit { from: 0, to: 3 }]);
}

#[test]
fn error_messages_name_the_chunk() {
    let missing = SplitError::UnresolvedChunkName("main".to_string());
    assert_eq!(missing.message(), "chunk main not found");
    assert_eq!(missing.chunk_name(), "main");
    let taken = SplitError::DuplicateChunkName("main_share_module".to_string());
    assert_eq!(taken.message(), "新建 chunk 的时候存在重名的情况：main_share_module");
    assert_eq!(taken.chunk_name(), "main_share_module");
}
