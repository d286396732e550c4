use share_module_split::build_session::BuildSession;
use share_module_split::error::SplitError;
use share_module_split::mutation::Mutation;
use share_module_split::split_chunk_share_module::SplitChunkShareModule;

fn names(list: &[&str]) -> Vec<String> {
    list.iter().map(|name| name.to_string()).collect()
}

fn name_of(session: &BuildSession, chunk: usize) -> Option<String> {
    session.chunk(chunk).name().clone()
}

/// Chunks `app` (0) and `vendor` (1); module 0 owned by both, module 1 by
/// `app` alone.
fn app_and_vendor() -> BuildSession {
    let mut session = BuildSession::new();
    let app = session.add_chunk(Some("app".to_string()));
    let vendor = session.add_chunk(Some("vendor".to_string()));
    let shared = session.add_module();
    let own = session.add_module();
    session.connect_chunk_and_module(app, shared);
    session.connect_chunk_and_module(vendor, shared);
    session.connect_chunk_and_module(app, own);
    session
}

#[test]
fn module_shared_by_two_targets_is_extracted_from_both() {
    let mut session = app_and_vendor();
    let plugin = SplitChunkShareModule::new(names(&["app", "vendor"]));
    assert_eq!(plugin.process_assets(&mut session), Ok(()));

    assert_eq!(session.chunk_count(), 4);
    assert_eq!(name_of(&session, 2), Some("app_share_module".to_string()));
    assert_eq!(name_of(&session, 3), Some("vendor_share_module".to_string()));
    assert_eq!(session.chunk_modules(0), &vec![1]);
    assert_eq!(session.chunk_modules(1), &Vec::<usize>::new());
    assert_eq!(session.chunk_modules(2), &vec![0]);
    assert_eq!(session.chunk_modules(3), &vec![0]);
    assert_eq!(
        session.mutations(),
        &vec![
            Mutation::ChunkAdd { chunk: 2 },
            Mutation::ChunkAdd { chunk: 3 },
            Mutation::ChunkSplit { from: 0, to: 2 },
            Mutation::ChunkSplit { from: 1, to: 3 },
        ]
    );
}

#[test]
fn extraction_chunk_carries_the_reason_of_its_creation() {
    let mut session = app_and_vendor();
    let plugin = SplitChunkShareModule::new(names(&["app"]));
    assert_eq!(plugin.process_assets(&mut session), Ok(()));
    assert_eq!(session.chunk(2).reason(), "split by shared-module extraction");
    assert_eq!(session.chunk(0).reason(), "");
}

#[test]
fn reverse_index_follows_the_modules() {
    let mut session = app_and_vendor();
    let plugin = SplitChunkShareModule::new(names(&["app"]));
    assert_eq!(plugin.process_assets(&mut session), Ok(()));
    let mut owners = session.module_chunks(0).clone();
    owners.sort();
    assert_eq!(owners, vec![1, 2]);
    assert_eq!(session.module_chunks(1), &vec![0]);
    assert!(session.is_module_shared(0));
    assert!(!session.is_module_shared(1));
}

#[test]
fn missing_chunk_name_fails_and_changes_nothing() {
    let mut session = app_and_vendor();
    let plugin = SplitChunkShareModule::new(names(&["missing"]));
    assert_eq!(
        plugin.process_assets(&mut session),
        Err(SplitError::UnresolvedChunkName("missing".to_string()))
    );
    assert_eq!(session.mutations().len(), 0);
    assert_eq!(session.chunk_count(), 2);
    assert_eq!(session.chunk_modules(0), &vec![0, 1]);
    assert_eq!(session.chunk_modules(1), &vec![0]);
}

#[test]
fn first_missing_name_is_reported() {
    let mut session = app_and_vendor();
    let plugin = SplitChunkShareModule::new(names(&["app", "nowhere", "vendor", "neither"]));
    assert_eq!(
        plugin.process_assets(&mut session),
        Err(SplitError::UnresolvedChunkName("nowhere".to_string()))
    );
    assert_eq!(session.mutations().len(), 0);
    assert_eq!(session.chunk_count(), 2);
}

#[test]
fn taken_extraction_name_fails() {
    let mut session = app_and_vendor();
    session.add_chunk(Some("app_share_module".to_string()));
    let plugin = SplitChunkShareModule::new(names(&["app"]));
    assert_eq!(
        plugin.process_assets(&mut session),
        Err(SplitError::DuplicateChunkName("app_share_module".to_string()))
    );
    assert_eq!(session.chunk_count(), 3);
    assert_eq!(session.mutations().len(), 0);
    assert_eq!(session.chunk_modules(0), &vec![0, 1]);
}

#[test]
fn chunks_created_before_a_taken_name_stay_registered() {
    let mut session = app_and_vendor();
    session.add_chunk(Some("vendor_share_module".to_string()));
    let plugin = SplitChunkShareModule::new(names(&["app", "vendor"]));
    assert_eq!(
        plugin.process_assets(&mut session),
        Err(SplitError::DuplicateChunkName("vendor_share_module".to_string()))
    );
    assert_eq!(session.chunk_count(), 4);
    assert_eq!(name_of(&session, 3), Some("app_share_module".to_string()));
    assert_eq!(session.mutations(), &vec![Mutation::ChunkAdd { chunk: 3 }]);
    assert_eq!(session.chunk_modules(0), &vec![0, 1]);
    assert_eq!(session.chunk_modules(1), &vec![0]);
    assert_eq!(session.chunk_modules(3), &Vec::<usize>::new());
}

#[test]
fn name_requested_twice_collides_with_itself() {
    let mut session = app_and_vendor();
    let plugin = SplitChunkShareModule::new(names(&["app", "app"]));
    assert_eq!(
        plugin.process_assets(&mut session),
        Err(SplitError::DuplicateChunkName("app_share_module".to_string()))
    );
    assert_eq!(session.mutations(), &vec![Mutation::ChunkAdd { chunk: 2 }]);
}

#[test]
fn chunk_without_shared_modules_is_skipped() {
    let mut session = BuildSession::new();
    let app = session.add_chunk(Some("app".to_string()));
    let lone = session.add_chunk(Some("lone".to_string()));
    let vendor = session.add_chunk(Some("vendor".to_string()));
    let shared = session.add_module();
    let own = session.add_module();
    session.connect_chunk_and_module(app, shared);
    session.connect_chunk_and_module(vendor, shared);
    session.connect_chunk_and_module(lone, own);

    let plugin = SplitChunkShareModule::new(names(&["lone", "app"]));
    assert_eq!(plugin.process_assets(&mut session), Ok(()));
    assert_eq!(session.chunk_count(), 4);
    assert_eq!(name_of(&session, 3), Some("app_share_module".to_string()));
    assert_eq!(session.find_chunk_by_name(&"lone_share_module".to_string()), None);
    assert_eq!(session.chunk_modules(lone), &vec![own]);
    for record in session.mutations() {
        assert!(!record.refers_to(lone));
    }
}

#[test]
fn no_requested_names_is_a_run_without_effect() {
    let mut session = app_and_vendor();
    let plugin = SplitChunkShareModule::new(Vec::new());
    assert_eq!(plugin.process_assets(&mut session), Ok(()));
    assert_eq!(session.chunk_count(), 2);
    assert_eq!(session.mutations().len(), 0);
}

#[test]
fn split_neither_loses_nor_duplicates_a_module() {
    let mut session = BuildSession::new();
    let app = session.add_chunk(Some("app".to_string()));
    let other = session.add_chunk(None);
    let mut modules = Vec::new();
    for _ in 0..6 {
        modules.push(session.add_module());
    }
    for m in &modules {
        session.connect_chunk_and_module(app, *m);
    }
    session.connect_chunk_and_module(other, modules[1]);
    session.connect_chunk_and_module(other, modules[4]);
    session.connect_chunk_and_module(other, modules[5]);
    let before = session.chunk_modules(app).clone();

    let plugin = SplitChunkShareModule::new(names(&["app"]));
    assert_eq!(plugin.process_assets(&mut session), Ok(()));

    let kept = session.chunk_modules(app).clone();
    let moved = session.chunk_modules(2).clone();
    assert_eq!(kept, vec![0, 2, 3]);
    assert_eq!(moved, vec![1, 4, 5]);
    for m in &before {
        assert!(kept.contains(m) != moved.contains(m));
    }
    assert_eq!(kept.len() + moved.len(), before.len());
    assert_eq!(session.chunk_modules(other), &vec![1, 4, 5]);
}

#[test]
fn extraction_chunk_joins_the_groups_of_its_source() {
    let mut session = BuildSession::new();
    let runtime = session.add_chunk(Some("runtime".to_string()));
    let app = session.add_chunk(Some("app".to_string()));
    let vendor = session.add_chunk(Some("vendor".to_string()));
    let shared = session.add_module();
    let own = session.add_module();
    session.connect_chunk_and_module(app, shared);
    session.connect_chunk_and_module(vendor, shared);
    session.connect_chunk_and_module(app, own);
    let entry = session.add_group();
    let lazy = session.add_group();
    let aside = session.add_group();
    session.add_chunk_to_group(entry, runtime);
    session.add_chunk_to_group(entry, app);
    session.add_chunk_to_group(lazy, vendor);
    session.add_chunk_to_group(aside, runtime);
    session.add_child_group(entry, lazy);

    let plugin = SplitChunkShareModule::new(names(&["app", "vendor"]));
    assert_eq!(plugin.process_assets(&mut session), Ok(()));

    assert_eq!(session.group_chunks(entry), &vec![runtime, 3, app]);
    assert_eq!(session.group_chunks(lazy), &vec![4, vendor]);
    assert_eq!(session.group_chunks(aside), &vec![runtime]);
    assert_eq!(session.group_children(entry), &vec![lazy]);
    assert_eq!(session.group_children(lazy), &Vec::<usize>::new());
}

#[test]
fn modules_stay_reachable_from_their_groups() {
    let mut session = BuildSession::new();
    let app = session.add_chunk(Some("app".to_string()));
    let vendor = session.add_chunk(Some("vendor".to_string()));
    let shared = session.add_module();
    let own = session.add_module();
    session.connect_chunk_and_module(app, shared);
    session.connect_chunk_and_module(vendor, shared);
    session.connect_chunk_and_module(app, own);
    let entry = session.add_group();
    let lazy = session.add_group();
    session.add_chunk_to_group(entry, app);
    session.add_chunk_to_group(lazy, vendor);

    let plugin = SplitChunkShareModule::new(names(&["app"]));
    assert_eq!(plugin.process_assets(&mut session), Ok(()));

    let reached = |session: &BuildSession, group: usize| -> Vec<usize> {
        let mut modules = Vec::new();
        for chunk in session.group_chunks(group) {
            for m in session.chunk_modules(*chunk) {
                if !modules.contains(m) {
                    modules.push(*m);
                }
            }
        }
        modules.sort();
        modules
    };
    assert_eq!(reached(&session, entry), vec![shared, own]);
    assert_eq!(reached(&session, lazy), vec![shared]);
}

#[test]
fn second_run_changes_nothing() {
    let mut session = app_and_vendor();
    let plugin = SplitChunkShareModule::new(names(&["app", "vendor"]));
    assert_eq!(plugin.process_assets(&mut session), Ok(()));
    let chunks = session.chunk_count();
    let log = session.mutations().clone();
    let rows: Vec<Vec<usize>> = (0..chunks).map(|c| session.chunk_modules(c).clone()).collect();

    assert_eq!(plugin.process_assets(&mut session), Ok(()));
    assert_eq!(session.chunk_count(), chunks);
    assert_eq!(session.mutations(), &log);
    for c in 0..chunks {
        assert_eq!(session.chunk_modules(c), &rows[c]);
    }
}

#[test]
fn first_chunk_with_a_name_is_the_one_extracted_from() {
    let mut session = BuildSession::new();
    let first = session.add_chunk(Some("app".to_string()));
    let second = session.add_chunk(Some("app".to_string()));
    let shared = session.add_module();
    session.connect_chunk_and_module(first, shared);
    session.connect_chunk_and_module(second, shared);

    let plugin = SplitChunkShareModule::new(names(&["app"]));
    assert_eq!(plugin.process_assets(&mut session), Ok(()));
    assert_eq!(session.chunk_modules(first), &Vec::<usize>::new());
    assert_eq!(session.chunk_modules(second), &vec![shared]);
    assert_eq!(session.chunk_modules(2), &vec![shared]);
    assert_eq!(
        session.mutations(),
        &vec![Mutation::ChunkAdd { chunk: 2 }, Mutation::ChunkSplit { from: first, to: 2 }]
    );
}

#[test]
fn plugin_keeps_its_names_and_its_name() {
    let plugin = SplitChunkShareModule::new(names(&["b", "a"]));
    assert_eq!(plugin.chunk_names(), &names(&["b", "a"]));
    assert_eq!(plugin.name(), "SplitChunkShareModule");
}
