//! The shared-module extraction pass. For each requested chunk that owns
//! modules which another chunk owns too, the pass creates an extraction
//! chunk, hands the shared modules over to it and splits it off the
//! requested chunk in the chunk groups.
//!
//! The pass runs in five stages, each a function of this module:
//! `resolve_chunks`, `detect_shared`, `create_extraction_chunk`,
//! `migrate_modules` and `split_chunk_groups`. `process_assets` runs them in
//! that order, each stage for every chunk before the next stage begins.
use crate::build_session::{
    first_named, has_name, lemma_first_named_exists, lemma_first_named_unique, name_taken,
    BuildSession, BuildState, ChunkData,
};
use crate::chunk_graph::{
    connected, disconnected, is_shared, other_than, owners_connected, owners_disconnected,
    row_without, rows_wf,
};
use crate::chunk_group::{split_groups, GroupData};
use crate::error::SplitError;
use crate::mutation::Mutation;
use crate::sequences::{
    lemma_filter_all, lemma_filter_congruence, lemma_filter_filter, lemma_filter_membership,
    lemma_filter_no_duplicates, lemma_filter_take_step, lemma_push_contains,
};
use vstd::prelude::*;
use vstd::string::*;

verus! {

/// The requested names as sequences of characters.
pub open spec fn name_views(names: Seq<String>) -> Seq<Seq<char>> {
    Seq::new(names.len(), |i: int| names[i]@)
}

/// Whether every requested name is carried by some chunk.
pub open spec fn all_resolved(chunks: Seq<ChunkData>, names: Seq<Seq<char>>) -> bool {
    forall|i: int| 0 <= i < names.len() ==> name_taken(chunks, #[trigger] names[i])
}

/// Whether `names[i]` is the first requested name that no chunk carries.
pub open spec fn is_first_unresolved(
    chunks: Seq<ChunkData>,
    names: Seq<Seq<char>>,
    i: int,
) -> bool {
    &&& 0 <= i < names.len()
    &&& !name_taken(chunks, names[i])
    &&& forall|j: int| 0 <= j < i ==> name_taken(chunks, #[trigger] names[j])
}

/// For each requested name the first chunk that carries it, in the order of
/// the names.
pub open spec fn resolved(chunks: Seq<ChunkData>, names: Seq<Seq<char>>) -> Seq<usize> {
    Seq::new(names.len(), |i: int| first_named(chunks, names[i]))
}

/// The predicate "is owned by two different chunks".
pub open spec fn shared_in(owned: Seq<Seq<usize>>) -> spec_fn(usize) -> bool {
    |m: usize| is_shared(owned, m)
}

/// The predicate "is owned by one chunk at most".
pub open spec fn unshared_in(owned: Seq<Seq<usize>>) -> spec_fn(usize) -> bool {
    |m: usize| !is_shared(owned, m)
}

/// The predicate "does not occur in `list`".
pub open spec fn outside(list: Seq<usize>) -> spec_fn(usize) -> bool {
    |m: usize| !list.contains(m)
}

/// The modules of chunk `c` that another chunk owns too, in the iteration
/// order of the chunk's modules.
pub open spec fn shared_modules(owned: Seq<Seq<usize>>, c: usize) -> Seq<usize> {
    owned[c as int].filter(shared_in(owned))
}

/// The predicate "owns a module that another chunk owns too".
pub open spec fn has_shared_in(owned: Seq<Seq<usize>>) -> spec_fn(usize) -> bool {
    |c: usize| shared_modules(owned, c).len() > 0
}

/// The chunks among `chunks` that own shared modules, in their order.
pub open spec fn with_shared(owned: Seq<Seq<usize>>, chunks: Seq<usize>) -> Seq<usize> {
    chunks.filter(has_shared_in(owned))
}

/// The chunks that a run with the requested names extracts from: the
/// resolved chunks that own shared modules.
pub open spec fn sources(st: BuildState, names: Seq<Seq<char>>) -> Seq<usize> {
    with_shared(st.owned, resolved(st.chunks, names))
}

/// The name of the extraction chunk of a chunk named `name`.
pub open spec fn extraction_name(name: Seq<char>) -> Seq<char> {
    name + "_share_module"@
}

/// The reason of an extraction chunk.
pub open spec fn extraction_reason() -> Seq<char> {
    "split by shared-module extraction"@
}

/// The registry entry of the extraction chunk of chunk `source`.
pub open spec fn extraction_chunk(chunks: Seq<ChunkData>, source: usize) -> ChunkData {
    ChunkData {
        name: Some(extraction_name(chunks[source as int].name.unwrap())),
        reason: extraction_reason(),
    }
}

/// The session after the extraction chunk of `source` has been created: the
/// chunk is registered last, owns nothing, belongs to no group, and the log
/// ends with its `ChunkAdd` record.
pub open spec fn with_extraction_chunk(st: BuildState, source: usize) -> BuildState {
    BuildState {
        chunks: st.chunks.push(extraction_chunk(st.chunks, source)),
        owned: st.owned.push(Seq::empty()),
        owners: st.owners,
        groups: st.groups,
        log: st.log.push(Mutation::ChunkAdd { chunk: st.chunks.len() as usize }),
    }
}

/// The ownership rows after `modules` have been handed over from `source`
/// to `target`: `source` keeps the rest in their order, `target` gets the
/// modules at its end in the order of the list.
pub open spec fn migrated_rows(
    owned: Seq<Seq<usize>>,
    source: usize,
    target: usize,
    modules: Seq<usize>,
) -> Seq<Seq<usize>> {
    owned.update(source as int, owned[source as int].filter(outside(modules))).update(
        target as int,
        owned[target as int] + modules,
    )
}

/// The reverse index after `modules` have been handed over from `source`
/// to `target`: in the row of each of the modules, `source` is taken out and
/// `target` is put at the end.
pub open spec fn migrated_owners(
    owners: Seq<Seq<usize>>,
    source: usize,
    target: usize,
    modules: Seq<usize>,
) -> Seq<Seq<usize>> {
    Seq::new(
        owners.len(),
        |m: int|
            if modules.contains(m as usize) {
                row_without(owners[m], source).push(target)
            } else {
                owners[m]
            },
    )
}

/// The shared modules of one chunk, as the detector found them.
#[derive(Debug)]
pub struct Extraction {
    /// The chunk that owns the modules.
    pub source: usize,
    /// The shared modules, in the iteration order of the chunk's modules.
    pub modules: Vec<usize>,
}

/// The source chunks of a list of extractions.
pub open spec fn plan_sources(plan: Seq<Extraction>) -> Seq<usize> {
    Seq::new(plan.len(), |i: int| plan[i].source)
}

/// Resolver: maps each requested name to the first chunk that carries it,
/// and fails at the first name that no chunk carries.
pub fn resolve_chunks(session: &BuildSession, names: &Vec<String>) -> (r: Result<
    Vec<usize>,
    SplitError,
>)
    ensures
        match r {
            Ok(handles) => all_resolved(session@.chunks, name_views(names@)) && handles@
                == resolved(session@.chunks, name_views(names@)),
            Err(SplitError::UnresolvedChunkName(n)) => exists|i: int|
                #[trigger] is_first_unresolved(session@.chunks, name_views(names@), i) && n@
                    == name_views(names@)[i],
            Err(SplitError::DuplicateChunkName(_)) => false,
        },
{
    let ghost wanted = name_views(names@);
    let mut handles: Vec<usize> = Vec::new();
    let mut i: usize = 0;
    while i < names.len()
        invariant
            i <= names@.len(),
            wanted == name_views(names@),
            handles@.len() == i,
            forall|j: int| 0 <= j < i ==> name_taken(session@.chunks, #[trigger] wanted[j]),
            forall|j: int|
                0 <= j < i ==> #[trigger] handles@[j] == first_named(session@.chunks, wanted[j]),
        decreases names@.len() - i,
    {
        assert(wanted[i as int] == names@[i as int]@);
        match session.find_chunk_by_name(&names[i]) {
            Some(h) => {
                proof {
                    lemma_first_named_unique(session@.chunks, wanted[i as int], h);
                }
                handles.push(h);
            },
            None => {
                assert(is_first_unresolved(session@.chunks, wanted, i as int));
                return Err(SplitError::UnresolvedChunkName(names[i].clone()));
            },
        }
        i += 1;
    }
    assert(handles@ =~= resolved(session@.chunks, wanted));
    Ok(handles)
}

/// Detector for one chunk: the modules of `chunk` that another chunk owns
/// too, in the iteration order of the chunk's modules.
pub fn find_shared_modules(session: &BuildSession, chunk: usize) -> (list: Vec<usize>)
    requires
        session.wf(),
        chunk < session@.chunks.len(),
    ensures
        list@ == shared_modules(session@.owned, chunk),
{
    let row = session.chunk_modules(chunk);
    let ghost shared = shared_in(session@.owned);
    let mut list: Vec<usize> = Vec::new();
    let mut i: usize = 0;
    assert(row@.take(0).filter(shared) =~= Seq::<usize>::empty()) by {
        reveal(Seq::filter);
    }
    while i < row.len()
        invariant
            i <= row@.len(),
            session.wf(),
            chunk < session@.chunks.len(),
            row@ == session@.owned[chunk as int],
            shared == shared_in(session@.owned),
            list@ == row@.take(i as int).filter(shared),
        decreases row@.len() - i,
    {
        let m = row[i];
        proof {
            lemma_filter_take_step(row@, shared, i as int);
        }
        if session.is_module_shared(m) {
            list.push(m);
        }
        i += 1;
    }
    assert(row@.take(row@.len() as int) =~= row@);
    list
}

/// Detector: for each of `chunks` that owns shared modules, the chunk and
/// those modules. A chunk without shared modules is left out.
pub fn detect_shared(session: &BuildSession, chunks: &Vec<usize>) -> (plan: Vec<Extraction>)
    requires
        session.wf(),
        forall|i: int| 0 <= i < chunks@.len() ==> #[trigger] chunks@[i] < session@.chunks.len(),
    ensures
        plan_sources(plan@) == with_shared(session@.owned, chunks@),
        forall|i: int|
            0 <= i < plan@.len() ==> (#[trigger] plan@[i]).modules@ == shared_modules(
                session@.owned,
                plan@[i].source,
            ),
{
    let ghost keep = has_shared_in(session@.owned);
    let mut plan: Vec<Extraction> = Vec::new();
    let mut i: usize = 0;
    assert(plan_sources(plan@) =~= chunks@.take(0).filter(keep)) by {
        reveal(Seq::filter);
    }
    while i < chunks.len()
        invariant
            i <= chunks@.len(),
            session.wf(),
            forall|j: int|
                0 <= j < chunks@.len() ==> #[trigger] chunks@[j] < session@.chunks.len(),
            keep == has_shared_in(session@.owned),
            plan_sources(plan@) == chunks@.take(i as int).filter(keep),
            forall|j: int|
                0 <= j < plan@.len() ==> (#[trigger] plan@[j]).modules@ == shared_modules(
                    session@.owned,
                    plan@[j].source,
                ),
        decreases chunks@.len() - i,
    {
        let source = chunks[i];
        let modules = find_shared_modules(session, source);
        proof {
            lemma_filter_take_step(chunks@, keep, i as int);
        }
        if modules.len() > 0 {
            let ghost before = plan@;
            plan.push(Extraction { source, modules });
            assert(plan_sources(plan@) =~= plan_sources(before).push(source));
        }
        i += 1;
    }
    assert(chunks@.take(chunks@.len() as int) =~= chunks@);
    plan
}

/// Factory: creates the extraction chunk of chunk `source`. Its name is the
/// name of `source` followed by `_share_module`. Where a chunk carries that
/// name already, the session is left as it is and the pass fails with that
/// name.
pub fn create_extraction_chunk(session: &mut BuildSession, source: usize) -> (r: Result<
    usize,
    SplitError,
>)
    requires
        old(session).wf(),
        source < old(session)@.chunks.len(),
        old(session)@.chunks[source as int].name is Some,
    ensures
        final(session).wf(),
        match r {
            Ok(c) => {
                &&& !name_taken(
                    old(session)@.chunks,
                    extraction_name(old(session)@.chunks[source as int].name.unwrap()),
                )
                &&& c == old(session)@.chunks.len()
                &&& final(session)@ == with_extraction_chunk(old(session)@, source)
            },
            Err(SplitError::DuplicateChunkName(n)) => {
                &&& name_taken(
                    old(session)@.chunks,
                    extraction_name(old(session)@.chunks[source as int].name.unwrap()),
                )
                &&& n@ == extraction_name(old(session)@.chunks[source as int].name.unwrap())
                &&& final(session)@ == old(session)@
            },
            Err(SplitError::UnresolvedChunkName(_)) => false,
        },
{
    let name = session.chunk(source).name().as_ref().unwrap().clone().concat("_share_module");
    let (chunk, created) = session.add_named_chunk(name.clone());
    if !created {
        return Err(SplitError::DuplicateChunkName(name));
    }
    session.append_chunk_reason(chunk, "split by shared-module extraction");
    session.record(Mutation::ChunkAdd { chunk });
    proof {
        assert(final(session)@.chunks =~= with_extraction_chunk(old(session)@, source).chunks);
    }
    Ok(chunk)
}

/// Migrator: hands every module of `modules` over from `source` to
/// `target`, one at a time and in the order of the list.
pub fn migrate_modules(
    session: &mut BuildSession,
    source: usize,
    target: usize,
    modules: &Vec<usize>,
)
    requires
        old(session).wf(),
        source < old(session)@.chunks.len(),
        target < old(session)@.chunks.len(),
        source != target,
        modules@.no_duplicates(),
        forall|i: int|
            0 <= i < modules@.len() ==> old(session)@.owned[source as int].contains(
                #[trigger] modules@[i],
            ) && !old(session)@.owned[target as int].contains(modules@[i]),
    ensures
        final(session).wf(),
        final(session)@ == (BuildState {
            chunks: old(session)@.chunks,
            owned: migrated_rows(old(session)@.owned, source, target, modules@),
            owners: migrated_owners(old(session)@.owners, source, target, modules@),
            groups: old(session)@.groups,
            log: old(session)@.log,
        }),
{
    let ghost start = session@;
    let mut i: usize = 0;
    proof {
        let row = start.owned[source as int];
        lemma_filter_all(row, outside(modules@.take(0)));
        assert(start.owned =~= migrated_rows(start.owned, source, target, modules@.take(0)));
        assert(start.owners =~= migrated_owners(start.owners, source, target, modules@.take(0)));
        session.lemma_counts_fit();
    }
    while i < modules.len()
        invariant
            i <= modules@.len(),
            session.wf(),
            start == old(session)@,
            start.wf(),
            start.owners.len() <= usize::MAX,
            source < start.chunks.len(),
            target < start.chunks.len(),
            source != target,
            modules@.no_duplicates(),
            forall|j: int|
                0 <= j < modules@.len() ==> start.owned[source as int].contains(
                    #[trigger] modules@[j],
                ) && !start.owned[target as int].contains(modules@[j]),
            session@ == (BuildState {
                chunks: start.chunks,
                owned: migrated_rows(start.owned, source, target, modules@.take(i as int)),
                owners: migrated_owners(start.owners, source, target, modules@.take(i as int)),
                groups: start.groups,
                log: start.log,
            }),
        decreases modules@.len() - i,
    {
        let m = modules[i];
        let ghost done = modules@.take(i as int);
        let ghost next = modules@.take(i as int + 1);
        let ghost row = start.owned[source as int];
        let ghost other = start.owned[target as int];
        let ghost now = session@.owned;
        let ghost index = session@.owners;
        proof {
            assert(next =~= done.push(m));
            assert(!done.contains(m)) by {
                if done.contains(m) {
                    let k = choose|k: int| 0 <= k < done.len() && done[k] == m;
                    assert(modules@[k] == modules@[i as int]);
                }
            }
            lemma_filter_membership(row, outside(done), m);
            assert(now[source as int] == row.filter(outside(done)));
            assert(now[target as int] == other + done);
        }
        session.move_module(source, target, m);
        proof {
            assert forall|k: int| 0 <= k < row.len() implies outside(next)(#[trigger] row[k]) == (
            outside(done)(row[k]) && other_than(m)(row[k])) by {
                lemma_push_contains(done, m, row[k]);
            }
            lemma_filter_filter(row, outside(done), other_than(m), outside(next));
            assert(!(other + done).contains(m)) by {
                if (other + done).contains(m) {
                    let k = choose|k: int| 0 <= k < (other + done).len() && (other + done)[k] == m;
                    if k < other.len() {
                        assert(other[k] == m);
                    } else {
                        assert(done[k - other.len()] == m);
                    }
                }
            }
            assert((other + done).push(m) =~= other + next);
            let cut = disconnected(now, source, m);
            assert(cut[source as int] == row.filter(outside(next)));
            assert(cut[target as int] == other + done);
            assert(session@.owned == connected(cut, target, m));
            assert(session@.owned[target as int] == other + next);
            assert(session@.owned =~= migrated_rows(start.owned, source, target, next));
            assert(m < start.owners.len()) by {
                let k = choose|k: int| 0 <= k < row.len() && row[k] == m;
                assert(row[k] < start.owners.len());
            }
            assert(index[m as int] == start.owners[m as int]);
            assert(session@.owners == owners_connected(
                cut[target as int],
                owners_disconnected(index, source, m),
                target,
                m,
            ));
            assert forall|x: int| 0 <= x < start.owners.len() implies session@.owners[x]
                == migrated_owners(start.owners, source, target, next)[x] by {
                lemma_push_contains(done, m, x as usize);
            }
            assert(session@.owners =~= migrated_owners(start.owners, source, target, next));
        }
        i += 1;
    }
    assert(modules@.take(modules@.len() as int) =~= modules@);
}

/// Splitter: splits `target` off `source` in every chunk group that holds
/// `source`, and records the split.
pub fn split_chunk_groups(session: &mut BuildSession, source: usize, target: usize)
    requires
        old(session).wf(),
        target < old(session)@.chunks.len(),
    ensures
        final(session).wf(),
        final(session)@ == (BuildState {
            chunks: old(session)@.chunks,
            owned: old(session)@.owned,
            owners: old(session)@.owners,
            groups: split_groups(old(session)@.groups, source, target),
            log: old(session)@.log.push(Mutation::ChunkSplit { from: source, to: target }),
        }),
{
    session.split_chunk(source, target);
    session.record(Mutation::ChunkSplit { from: source, to: target });
}

/// The session after the extraction chunks of the first `n` of `srcs` have
/// been created, in that order.
pub open spec fn registered(st: BuildState, srcs: Seq<usize>, n: int) -> BuildState {
    BuildState {
        chunks: st.chunks + Seq::new(n as nat, |i: int| extraction_chunk(st.chunks, srcs[i])),
        owned: st.owned + Seq::new(n as nat, |i: int| Seq::<usize>::empty()),
        owners: st.owners,
        groups: st.groups,
        log: st.log + Seq::new(
            n as nat,
            |i: int| Mutation::ChunkAdd { chunk: (st.chunks.len() + i) as usize },
        ),
    }
}

/// Whether the name of the extraction chunk of `srcs[i]` is taken once the
/// extraction chunks of the sources before it have been created.
pub open spec fn collides(st: BuildState, srcs: Seq<usize>, i: int) -> bool {
    name_taken(
        registered(st, srcs, i).chunks,
        extraction_name(st.chunks[srcs[i] as int].name.unwrap()),
    )
}

/// Whether the extraction chunks of all of `srcs` can be created.
pub open spec fn collision_free(st: BuildState, srcs: Seq<usize>) -> bool {
    forall|i: int| 0 <= i < srcs.len() ==> !#[trigger] collides(st, srcs, i)
}

/// Whether `srcs[f]` is the first source whose extraction chunk cannot be
/// created.
pub open spec fn is_first_collision(st: BuildState, srcs: Seq<usize>, f: int) -> bool {
    &&& 0 <= f < srcs.len()
    &&& collides(st, srcs, f)
    &&& forall|j: int| 0 <= j < f ==> !#[trigger] collides(st, srcs, j)
}

/// Row `c` of the ownership rows after the shared modules of the first `n`
/// of `srcs` have been handed over: a source among them keeps its unshared
/// modules, its extraction chunk owns its shared modules, and any other row
/// is as before (empty, for an extraction chunk still to be filled).
pub open spec fn migrated_row(owned: Seq<Seq<usize>>, srcs: Seq<usize>, n: int, c: int) -> Seq<
    usize,
> {
    if c < owned.len() {
        if srcs.take(n).contains(c as usize) {
            owned[c].filter(unshared_in(owned))
        } else {
            owned[c]
        }
    } else if c - owned.len() < n {
        shared_modules(owned, srcs[c - owned.len()])
    } else {
        Seq::empty()
    }
}

/// The ownership rows after the shared modules of the first `n` of `srcs`
/// have been handed over to their extraction chunks. `owned` holds the rows
/// before the pass; the extraction chunk of `srcs[i]` has the handle
/// `owned.len() + i`.
pub open spec fn migrated(owned: Seq<Seq<usize>>, srcs: Seq<usize>, n: int) -> Seq<Seq<usize>> {
    Seq::new(owned.len() + srcs.len(), |c: int| migrated_row(owned, srcs, n, c))
}

/// The reverse index after the shared modules of the first `n` of `srcs`
/// have been handed over to their extraction chunks, one source after the
/// other. `owners` and `owned` hold the two indexes before the pass.
pub open spec fn owners_after(
    owners: Seq<Seq<usize>>,
    owned: Seq<Seq<usize>>,
    srcs: Seq<usize>,
    n: int,
) -> Seq<Seq<usize>>
    decreases n,
{
    if n <= 0 {
        owners
    } else {
        migrated_owners(
            owners_after(owners, owned, srcs, n - 1),
            srcs[n - 1],
            (owned.len() + n - 1) as usize,
            shared_modules(owned, srcs[n - 1]),
        )
    }
}

/// The chunk groups after the extraction chunks of the first `n` of `srcs`
/// have been split off their sources, one after the other. `base` is the
/// handle of the first extraction chunk.
pub open spec fn regrouped(groups: Seq<GroupData>, srcs: Seq<usize>, base: nat, n: int) -> Seq<
    GroupData,
>
    decreases n,
{
    if n <= 0 {
        groups
    } else {
        split_groups(regrouped(groups, srcs, base, n - 1), srcs[n - 1], (base + n - 1) as usize)
    }
}

/// The `ChunkSplit` records of the first `n` of `srcs`.
pub open spec fn split_log(srcs: Seq<usize>, base: nat, n: int) -> Seq<Mutation> {
    Seq::new(n as nat, |i: int| Mutation::ChunkSplit { from: srcs[i], to: (base + i) as usize })
}

/// The session after a successful pass that extracts from `srcs`.
pub open spec fn extracted(st: BuildState, srcs: Seq<usize>) -> BuildState {
    let k = srcs.len() as int;
    BuildState {
        chunks: registered(st, srcs, k).chunks,
        owned: migrated(st.owned, srcs, k),
        owners: owners_after(st.owners, st.owned, srcs, k),
        groups: regrouped(st.groups, srcs, st.chunks.len(), k),
        log: registered(st, srcs, k).log + split_log(srcs, st.chunks.len(), k),
    }
}

/// Whether a run with the requested names succeeds on `st`: every name is
/// carried by a chunk, every extraction chunk can be created, and the
/// handles of the extraction chunks fit the machine.
pub open spec fn succeeds(st: BuildState, names: Seq<Seq<char>>) -> bool {
    &&& st.wf()
    &&& all_resolved(st.chunks, names)
    &&& collision_free(st, sources(st, names))
    &&& st.chunks.len() + sources(st, names).len() <= usize::MAX
}

/// Whether every one of `srcs` is a chunk of the registry that has a name.
pub open spec fn named_sources(chunks: Seq<ChunkData>, srcs: Seq<usize>) -> bool {
    forall|i: int|
        0 <= i < srcs.len() ==> #[trigger] srcs[i] < chunks.len() && chunks[srcs[i] as int].name
            is Some
}

/// Creating one more extraction chunk leads from one registered state to
/// the next.
pub proof fn lemma_registered_step(st: BuildState, srcs: Seq<usize>, i: int)
    requires
        0 <= i < srcs.len(),
        named_sources(st.chunks, srcs),
    ensures
        with_extraction_chunk(registered(st, srcs, i), srcs[i]) == registered(st, srcs, i + 1),
{
    let now = registered(st, srcs, i);
    let next = registered(st, srcs, i + 1);
    let made = with_extraction_chunk(now, srcs[i]);
    assert(now.chunks[srcs[i] as int] == st.chunks[srcs[i] as int]);
    assert(made.chunks =~= next.chunks);
    assert(made.owned =~= next.owned);
    assert(made.log =~= next.log);
}

/// Sources whose extraction chunks can all be created are pairwise
/// different.
pub proof fn lemma_sources_distinct(st: BuildState, srcs: Seq<usize>)
    requires
        named_sources(st.chunks, srcs),
        collision_free(st, srcs),
    ensures
        srcs.no_duplicates(),
{
    assert forall|a: int, b: int|
        0 <= a < srcs.len() && 0 <= b < srcs.len() && a != b implies srcs[a] != srcs[b] by {
        if srcs[a] == srcs[b] {
            let (lo, hi) = if a < b {
                (a, b)
            } else {
                (b, a)
            };
            let reg = registered(st, srcs, hi);
            let name = extraction_name(st.chunks[srcs[hi] as int].name.unwrap());
            assert(reg.chunks[st.chunks.len() + lo] == extraction_chunk(st.chunks, srcs[lo]));
            assert(has_name(reg.chunks[st.chunks.len() + lo], name));
            assert(collides(st, srcs, hi));
        }
    }
}

/// Handing over the shared modules of one more source leads from one
/// migrated state to the next, and the hand-over is in order: the source
/// still owns each of the modules, and its extraction chunk owns none.
pub proof fn lemma_migrated_step(owned: Seq<Seq<usize>>, modules: nat, srcs: Seq<usize>, i: int)
    requires
        rows_wf(owned, modules),
        0 <= i < srcs.len(),
        srcs.no_duplicates(),
        forall|j: int| 0 <= j < srcs.len() ==> #[trigger] srcs[j] < owned.len(),
        owned.len() + srcs.len() <= usize::MAX,
    ensures
        migrated_rows(
            migrated(owned, srcs, i),
            srcs[i],
            (owned.len() + i) as usize,
            shared_modules(owned, srcs[i]),
        ) == migrated(owned, srcs, i + 1),
        shared_modules(owned, srcs[i]).no_duplicates(),
        forall|j: int|
            0 <= j < shared_modules(owned, srcs[i]).len() ==> migrated(
                owned,
                srcs,
                i,
            )[srcs[i] as int].contains(#[trigger] shared_modules(owned, srcs[i])[j]) && !migrated(
                owned,
                srcs,
                i,
            )[owned.len() + i].contains(shared_modules(owned, srcs[i])[j]),
{
    let s = srcs[i];
    let t = (owned.len() + i) as usize;
    let list = shared_modules(owned, s);
    let now = migrated(owned, srcs, i);
    let next = migrated(owned, srcs, i + 1);
    let row = owned[s as int];
    assert(!srcs.take(i).contains(s)) by {
        if srcs.take(i).contains(s) {
            let k = choose|k: int| 0 <= k < srcs.take(i).len() && srcs.take(i)[k] == s;
            assert(srcs[k] == srcs[i]);
        }
    }
    assert(now[s as int] == row);
    assert(now[t as int] == Seq::<usize>::empty());
    lemma_filter_no_duplicates(row, shared_in(owned));
    assert forall|j: int| 0 <= j < list.len() implies now[s as int].contains(#[trigger] list[j])
        && !now[t as int].contains(list[j]) by {
        assert(list.contains(list[j]));
        lemma_filter_membership(row, shared_in(owned), list[j]);
    }
    assert forall|k: int| 0 <= k < row.len() implies outside(list)(#[trigger] row[k])
        == unshared_in(owned)(row[k]) by {
        lemma_filter_membership(row, shared_in(owned), row[k]);
    }
    lemma_filter_congruence(row, outside(list), unshared_in(owned));
    let moved = migrated_rows(now, s, t, list);
    assert(srcs.take(i + 1) =~= srcs.take(i).push(s));
    assert forall|c: int| 0 <= c < next.len() implies moved[c] == next[c] by {
        if c < owned.len() {
            lemma_push_contains(srcs.take(i), s, c as usize);
        }
        if c == t {
            assert(Seq::<usize>::empty() + list =~= list);
        }
    }
    assert(moved =~= next);
}

/// A plugin that moves the modules which the requested chunks share with
/// other chunks into extraction chunks of their own.
#[derive(Debug)]
pub struct SplitChunkShareModule {
    need_split_chunk_list: Vec<String>,
}

impl SplitChunkShareModule {
    /// The names of the requested chunks, in the order in which they were
    /// given.
    pub closed spec fn names(&self) -> Seq<Seq<char>> {
        name_views(self.need_split_chunk_list@)
    }

    /// A plugin that extracts from the chunks with the given names.
    pub fn new(need_split_chunk_list: Vec<String>) -> (plugin: Self)
        ensures
            plugin.names() == name_views(need_split_chunk_list@),
    {
        SplitChunkShareModule { need_split_chunk_list }
    }

    /// The name of the plugin.
    pub fn name(&self) -> (name: &'static str)
        ensures
            name@ == "SplitChunkShareModule"@,
    {
        "SplitChunkShareModule"
    }

    /// The names of the requested chunks.
    pub fn chunk_names(&self) -> (names: &Vec<String>)
        ensures
            name_views(names@) == self.names(),
    {
        &self.need_split_chunk_list
    }

    /// Runs the pass on a session.
    ///
    /// The requested names are resolved first; if one of them is carried by
    /// no chunk, the pass fails with the first such name and the session is
    /// as it was. Then the extraction chunks of the resolved chunks that own
    /// shared modules are created, in the order of the requested names; if
    /// the name of one is taken, the pass fails with that name, and the
    /// extraction chunks created before it stay registered. Otherwise the
    /// shared modules are handed over and the extraction chunks are split
    /// off their sources in the chunk groups.
    pub fn process_assets(&self, session: &mut BuildSession) -> (r: Result<(), SplitError>)
        requires
            old(session).wf(),
        ensures
            final(session).wf(),
            r is Ok <==> all_resolved(old(session)@.chunks, self.names()) && collision_free(
                old(session)@,
                sources(old(session)@, self.names()),
            ),
            r matches Err(SplitError::UnresolvedChunkName(_)) <==> !all_resolved(
                old(session)@.chunks,
                self.names(),
            ),
            r is Ok ==> succeeds(old(session)@, self.names()),
            match r {
                Ok(()) => final(session)@ == extracted(
                    old(session)@,
                    sources(old(session)@, self.names()),
                ),
                Err(SplitError::UnresolvedChunkName(n)) => {
                    &&& final(session)@ == old(session)@
                    &&& exists|i: int|
                        #[trigger] is_first_unresolved(old(session)@.chunks, self.names(), i)
                            && n@ == self.names()[i]
                },
                Err(SplitError::DuplicateChunkName(n)) => {
                    exists|f: int|
                        #[trigger] is_first_collision(
                            old(session)@,
                            sources(old(session)@, self.names()),
                            f,
                        ) && n@ == extraction_name(
                            old(session)@.chunks[sources(
                                old(session)@,
                                self.names(),
                            )[f] as int].name.unwrap(),
                        ) && final(session)@ == registered(
                            old(session)@,
                            sources(old(session)@, self.names()),
                            f,
                        )
                },
            },
    {
        let ghost st = session@;
        let ghost srcs = sources(st, self.names());
        let ghost base = st.chunks.len();
        proof {
            session.lemma_counts_fit();
        }
        let handles = match resolve_chunks(session, &self.need_split_chunk_list) {
            Ok(handles) => handles,
            Err(e) => {
                return Err(e);
            },
        };
        proof {
            assert forall|i: int| 0 <= i < handles@.len() implies #[trigger] handles@[i]
                < st.chunks.len() && st.chunks[handles@[i] as int].name is Some by {
                lemma_first_named_exists(st.chunks, self.names()[i]);
            }
        }
        let plan = detect_shared(session, &handles);
        proof {
            assert(plan_sources(plan@) == srcs);
            assert forall|i: int| 0 <= i < srcs.len() implies #[trigger] srcs[i] < st.chunks.len()
                && st.chunks[srcs[i] as int].name is Some by {
                assert(srcs.contains(srcs[i]));
                lemma_filter_membership(handles@, has_shared_in(st.owned), srcs[i]);
                let k = choose|k: int| 0 <= k < handles@.len() && handles@[k] == srcs[i];
                assert(handles@[k] < st.chunks.len());
            }
            assert(registered(st, srcs, 0).chunks =~= st.chunks);
            assert(registered(st, srcs, 0).owned =~= st.owned);
            assert(registered(st, srcs, 0).log =~= st.log);
        }
        let mut created: Vec<usize> = Vec::new();
        let mut i: usize = 0;
        while i < plan.len()
            invariant
                i <= plan@.len(),
                session.wf(),
                st.wf(),
                base == st.chunks.len(),
                st == old(session)@,
                all_resolved(st.chunks, self.names()),
                srcs == sources(st, self.names()),
                srcs == plan_sources(plan@),
                named_sources(st.chunks, srcs),
                session@ == registered(st, srcs, i as int),
                forall|j: int| 0 <= j < i ==> !#[trigger] collides(st, srcs, j),
                created@.len() == i,
                forall|j: int| 0 <= j < i ==> #[trigger] created@[j] == base + j,
            decreases plan@.len() - i,
        {
            let source = plan[i].source;
            assert(source == srcs[i as int]);
            assert(session@.chunks[source as int] == st.chunks[source as int]);
            match create_extraction_chunk(session, source) {
                Ok(chunk) => {
                    proof {
                        lemma_registered_step(st, srcs, i as int);
                    }
                    created.push(chunk);
                },
                Err(e) => {
                    assert(is_first_collision(st, srcs, i as int));
                    return Err(e);
                },
            }
            i += 1;
        }
        proof {
            lemma_sources_distinct(st, srcs);
            assert(session@.owned =~= migrated(st.owned, srcs, 0));
        }
        let ghost reg = session@;
        proof {
            session.lemma_counts_fit();
        }
        i = 0;
        while i < plan.len()
            invariant
                i <= plan@.len(),
                session.wf(),
                st.wf(),
                base == st.chunks.len(),
                base + plan@.len() == reg.chunks.len(),
                reg.chunks.len() <= usize::MAX,
                srcs == plan_sources(plan@),
                named_sources(st.chunks, srcs),
                srcs.no_duplicates(),
                reg == registered(st, srcs, srcs.len() as int),
                forall|j: int|
                    0 <= j < plan@.len() ==> (#[trigger] plan@[j]).modules@ == shared_modules(
                        st.owned,
                        plan@[j].source,
                    ),
                created@.len() == plan@.len(),
                forall|j: int| 0 <= j < created@.len() ==> #[trigger] created@[j] == base + j,
                session@ == (BuildState {
                    chunks: reg.chunks,
                    owned: migrated(st.owned, srcs, i as int),
                    owners: owners_after(st.owners, st.owned, srcs, i as int),
                    groups: st.groups,
                    log: reg.log,
                }),
            decreases plan@.len() - i,
        {
            proof {
                assert(plan@[i as int].source == srcs[i as int]);
                lemma_migrated_step(st.owned, st.owners.len(), srcs, i as int);
            }
            migrate_modules(session, plan[i].source, created[i], &plan[i].modules);
            i += 1;
        }
        i = 0;
        while i < plan.len()
            invariant
                i <= plan@.len(),
                session.wf(),
                base == st.chunks.len(),
                base + plan@.len() == reg.chunks.len(),
                reg.chunks.len() <= usize::MAX,
                srcs == plan_sources(plan@),
                created@.len() == plan@.len(),
                forall|j: int| 0 <= j < created@.len() ==> #[trigger] created@[j] == base + j,
                session@ == (BuildState {
                    chunks: reg.chunks,
                    owned: migrated(st.owned, srcs, srcs.len() as int),
                    owners: owners_after(st.owners, st.owned, srcs, srcs.len() as int),
                    groups: regrouped(st.groups, srcs, st.chunks.len(), i as int),
                    log: reg.log + split_log(srcs, st.chunks.len(), i as int),
                }),
            decreases plan@.len() - i,
        {
            let ghost log = session@.log;
            assert(plan@[i as int].source == srcs[i as int]);
            split_chunk_groups(session, plan[i].source, created[i]);
            proof {
                assert(log.push(
                    Mutation::ChunkSplit { from: srcs[i as int], to: created@[i as int] },
                ) =~= reg.log + split_log(srcs, st.chunks.len(), i as int + 1));
            }
            i += 1;
        }
        Ok(())
    }
}

} // verus!
