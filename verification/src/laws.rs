//! What holds of every run of the extraction pass.
//!
//! The laws are stated over `BuildState`, the value that a session stands
//! for, and over the functions in which `process_assets` states its result:
//! a successful run on `st` with the requested `names` ends in
//! `extracted(st, sources(st, names))`.
use crate::build_session::{
    first_named, has_name, is_first_named, lemma_first_named_exists, lemma_first_named_unique,
    name_taken, BuildState,
};
use crate::chunk_graph::is_shared;
use crate::chunk_group::{group_wf, split_group, GroupData};
use crate::mutation::Mutation;
use crate::sequences::{
    lemma_filter_membership, lemma_filter_none, lemma_insert_contains,
    lemma_insert_no_duplicates,
};
use crate::split_chunk_share_module::{
    all_resolved, collision_free, extracted, has_shared_in, lemma_sources_distinct,
    named_sources, regrouped, registered, resolved, shared_in, shared_modules, sources,
    split_log, succeeds, unshared_in,
};
use vstd::prelude::*;

verus! {

/// The chunks that a run extracts from are chunks of the registry that
/// have a name.
pub proof fn lemma_sources_named(st: BuildState, names: Seq<Seq<char>>)
    requires
        all_resolved(st.chunks, names),
        st.chunks.len() <= usize::MAX,
    ensures
        named_sources(st.chunks, sources(st, names)),
        forall|i: int|
            0 <= i < sources(st, names).len() ==> shared_modules(
                st.owned,
                #[trigger] sources(st, names)[i],
            ).len() > 0,
{
    let handles = resolved(st.chunks, names);
    let srcs = sources(st, names);
    assert forall|i: int| 0 <= i < srcs.len() implies #[trigger] srcs[i] < st.chunks.len()
        && st.chunks[srcs[i] as int].name is Some && shared_modules(st.owned, srcs[i]).len()
        > 0 by {
        assert(srcs.contains(srcs[i]));
        lemma_filter_membership(handles, has_shared_in(st.owned), srcs[i]);
        let k = choose|k: int| 0 <= k < handles.len() && handles[k] == srcs[i];
        lemma_first_named_exists(st.chunks, names[k]);
    }
}

/// A chunk without shared modules is left alone. A run does not extract
/// from it: it is none of the sources, so no extraction chunk is created
/// for it and it keeps its modules. And no record that the run adds to the
/// log names it, whether the run succeeds or stops at a name that is taken
/// (the log then holds the records of the first `n` sources).
pub proof fn law_chunk_without_shared_modules_untouched(
    st: BuildState,
    names: Seq<Seq<char>>,
    c: usize,
    n: int,
)
    requires
        st.wf(),
        all_resolved(st.chunks, names),
        st.chunks.len() + sources(st, names).len() <= usize::MAX,
        c < st.chunks.len(),
        shared_modules(st.owned, c).len() == 0,
        0 <= n <= sources(st, names).len(),
    ensures
        !sources(st, names).contains(c),
        extracted(st, sources(st, names)).owned[c as int] == st.owned[c as int],
        forall|e: int|
            st.log.len() <= e < extracted(st, sources(st, names)).log.len() ==> !(
            #[trigger] extracted(st, sources(st, names)).log[e]).mentions(c),
        forall|e: int|
            st.log.len() <= e < registered(st, sources(st, names), n).log.len() ==> !(
            #[trigger] registered(st, sources(st, names), n).log[e]).mentions(c),
{
    let srcs = sources(st, names);
    let k = srcs.len() as int;
    lemma_sources_named(st, names);
    assert(!srcs.contains(c)) by {
        lemma_filter_membership(resolved(st.chunks, names), has_shared_in(st.owned), c);
    }
    assert(!srcs.take(k).contains(c)) by {
        assert(srcs.take(k) =~= srcs);
    }
    let after = extracted(st, srcs);
    assert forall|e: int| st.log.len() <= e < after.log.len() implies !(
    #[trigger] after.log[e]).mentions(c) by {
        let i = e - st.log.len();
        if i < k {
            assert(after.log[e] == Mutation::ChunkAdd { chunk: (st.chunks.len() + i) as usize });
        } else {
            assert(after.log[e] == split_log(srcs, st.chunks.len(), k)[i - k]);
            assert(srcs.contains(srcs[i - k]));
        }
    }
    let part = registered(st, srcs, n);
    assert forall|e: int| st.log.len() <= e < part.log.len() implies !(
    #[trigger] part.log[e]).mentions(c) by {
        let i = e - st.log.len();
        assert(part.log[e] == Mutation::ChunkAdd { chunk: (st.chunks.len() + i) as usize });
    }
}

/// A successful run neither loses nor duplicates a module. For each source
/// of the run, the modules that the source owns after the run and the
/// modules that its extraction chunk owns are, together, the modules that
/// the source owned before; no module is in both; and the extraction chunk
/// owns exactly the modules that the source shared with other chunks.
pub proof fn law_split_partitions_modules(st: BuildState, names: Seq<Seq<char>>, i: int)
    requires
        succeeds(st, names),
        0 <= i < sources(st, names).len(),
    ensures
        ({
            let srcs = sources(st, names);
            let after = extracted(st, srcs).owned;
            let kept = after[srcs[i] as int];
            let moved = after[st.chunks.len() + i];
            &&& kept.to_set().union(moved.to_set()) == st.owned[srcs[i] as int].to_set()
            &&& kept.to_set().disjoint(moved.to_set())
            &&& kept == st.owned[srcs[i] as int].filter(unshared_in(st.owned))
            &&& moved == shared_modules(st.owned, srcs[i])
        }),
{
    let srcs = sources(st, names);
    let k = srcs.len() as int;
    lemma_sources_named(st, names);
    let after = extracted(st, srcs).owned;
    let row = st.owned[srcs[i] as int];
    let kept = after[srcs[i] as int];
    let moved = after[st.chunks.len() + i];
    assert(srcs.take(k) =~= srcs);
    assert(srcs.contains(srcs[i]));
    assert(kept == row.filter(unshared_in(st.owned)));
    assert(moved == row.filter(shared_in(st.owned)));
    assert forall|m: usize|
        (kept.to_set().contains(m) || moved.to_set().contains(m)) == row.to_set().contains(
            m,
        ) && !(kept.to_set().contains(m) && moved.to_set().contains(m)) by {
        lemma_filter_membership(row, unshared_in(st.owned), m);
        lemma_filter_membership(row, shared_in(st.owned), m);
    }
    assert(kept.to_set().union(moved.to_set()) =~= row.to_set());
}

/// Whether `path` leads through the chunk groups from parent to child.
pub open spec fn is_group_path(groups: Seq<GroupData>, path: Seq<int>) -> bool {
    &&& path.len() > 0
    &&& forall|i: int| 0 <= i < path.len() ==> 0 <= #[trigger] path[i] < groups.len()
    &&& forall|i: int|
        #![trigger path[i]]
        0 <= i < path.len() - 1 ==> groups[path[i]].children.contains(path[i + 1] as usize)
}

/// Whether group `to` is group `from` or one of its descendants.
pub open spec fn group_reaches(groups: Seq<GroupData>, from: int, to: int) -> bool {
    exists|path: Seq<int>|
        #[trigger] is_group_path(groups, path) && path.first() == from && path.last() == to
}

/// Whether module `m` is loaded through group `g`: a chunk of `g`, or of a
/// descendant of `g`, owns it.
pub open spec fn module_reachable(st: BuildState, g: int, m: usize) -> bool {
    exists|h: int, c: usize|
        #![trigger st.groups[h].chunks.contains(c)]
        group_reaches(st.groups, g, h) && 0 <= h < st.groups.len() && st.groups[h].chunks.contains(
            c,
        ) && c < st.owned.len() && st.owned[c as int].contains(m)
}

/// Whether `x` is the extraction chunk of one of the first `n` sources that
/// group `g` holds. `base` is the handle of the first extraction chunk.
pub open spec fn split_off_in(g: GroupData, srcs: Seq<usize>, base: nat, n: int, x: usize) -> bool {
    exists|i: int| 0 <= i < n && g.chunks.contains(#[trigger] srcs[i]) && x == base + i
}

/// What the splits of the first `n` sources do to group `h`: the group
/// keeps its children and its chunks, and gains the extraction chunks of
/// the sources that it holds, and nothing else.
pub proof fn lemma_regrouped_group(
    groups: Seq<GroupData>,
    base: nat,
    srcs: Seq<usize>,
    n: int,
    h: int,
)
    requires
        0 <= n <= srcs.len(),
        0 <= h < groups.len(),
        base + n <= usize::MAX,
        group_wf(groups[h], base, groups.len()),
        forall|j: int| 0 <= j < srcs.len() ==> #[trigger] srcs[j] < base,
    ensures
        regrouped(groups, srcs, base, n).len() == groups.len(),
        regrouped(groups, srcs, base, n)[h].children == groups[h].children,
        forall|x: usize|
            #![trigger regrouped(groups, srcs, base, n)[h].chunks.contains(x)]
            regrouped(groups, srcs, base, n)[h].chunks.contains(x) <==> groups[h].chunks.contains(
                x,
            ) || split_off_in(groups[h], srcs, base, n, x),
    decreases n,
{
    let group = groups[h];
    if n > 0 {
        lemma_regrouped_group(groups, base, srcs, n - 1, h);
        let before = regrouped(groups, srcs, base, n - 1)[h];
        let source = srcs[n - 1];
        let target = (base + n - 1) as usize;
        let after = regrouped(groups, srcs, base, n)[h];
        assert(after == split_group(before, source, target));
        assert(!group.chunks.contains(target)) by {
            if group.chunks.contains(target) {
                let j = choose|j: int| 0 <= j < group.chunks.len() && group.chunks[j] == target;
                assert(group.chunks[j] < base);
            }
        }
        assert(!split_off_in(group, srcs, base, n - 1, target));
        assert(!split_off_in(group, srcs, base, n - 1, source));
        assert(before.chunks.contains(source) == group.chunks.contains(source));
        assert(!before.chunks.contains(target));
        assert forall|x: usize|
            #![trigger after.chunks.contains(x)]
            after.chunks.contains(x) <==> group.chunks.contains(x) || split_off_in(
                group,
                srcs,
                base,
                n,
                x,
            ) by {
            assert(before.chunks.contains(x) <==> group.chunks.contains(x) || split_off_in(
                group,
                srcs,
                base,
                n - 1,
                x,
            ));
            if split_off_in(group, srcs, base, n - 1, x) {
                let i = choose|i: int|
                    0 <= i < n - 1 && group.chunks.contains(#[trigger] srcs[i]) && x == base + i;
                assert(0 <= i < n && group.chunks.contains(srcs[i]) && x == base + i);
            }
            if group.chunks.contains(source) {
                let at = before.chunks.index_of(source);
                lemma_insert_contains(before.chunks, at, target, x);
                if x == target {
                    assert(group.chunks.contains(srcs[n - 1]) && x == base + (n - 1));
                }
            }
            if split_off_in(group, srcs, base, n, x) {
                let i = choose|i: int|
                    0 <= i < n && group.chunks.contains(#[trigger] srcs[i]) && x == base + i;
                if i < n - 1 {
                    assert(split_off_in(group, srcs, base, n - 1, x));
                }
            }
        }
    }
}

/// Whether `target` stands directly before `source` in `chunks`.
pub open spec fn stands_before(chunks: Seq<usize>, target: usize, source: usize) -> bool {
    exists|p: int| 0 < p < chunks.len() && #[trigger] chunks[p] == source && chunks[p - 1] == target
}

/// The order in group `h` after the splits of the first `n` sources: the
/// group names each chunk once, and the extraction chunk of every source
/// that it holds stands directly before that source.
pub proof fn lemma_regrouped_order(
    groups: Seq<GroupData>,
    base: nat,
    srcs: Seq<usize>,
    n: int,
    h: int,
)
    requires
        0 <= n <= srcs.len(),
        0 <= h < groups.len(),
        base + n <= usize::MAX,
        group_wf(groups[h], base, groups.len()),
        forall|j: int| 0 <= j < srcs.len() ==> #[trigger] srcs[j] < base,
        srcs.no_duplicates(),
    ensures
        regrouped(groups, srcs, base, n)[h].chunks.no_duplicates(),
        forall|i: int|
            0 <= i < n && groups[h].chunks.contains(#[trigger] srcs[i]) ==> stands_before(
                regrouped(groups, srcs, base, n)[h].chunks,
                (base + i) as usize,
                srcs[i],
            ),
    decreases n,
{
    let group = groups[h];
    if n > 0 {
        lemma_regrouped_order(groups, base, srcs, n - 1, h);
        lemma_regrouped_group(groups, base, srcs, n - 1, h);
        lemma_regrouped_group(groups, base, srcs, n, h);
        let before = regrouped(groups, srcs, base, n - 1)[h].chunks;
        let source = srcs[n - 1];
        let target = (base + n - 1) as usize;
        let after = regrouped(groups, srcs, base, n)[h].chunks;
        assert(regrouped(groups, srcs, base, n)[h] == split_group(
            regrouped(groups, srcs, base, n - 1)[h],
            source,
            target,
        ));
        assert(!group.chunks.contains(target)) by {
            if group.chunks.contains(target) {
                let j = choose|j: int| 0 <= j < group.chunks.len() && group.chunks[j] == target;
                assert(group.chunks[j] < base);
            }
        }
        assert(!split_off_in(group, srcs, base, n - 1, target));
        assert(!split_off_in(group, srcs, base, n - 1, source));
        assert(!before.contains(target));
        assert(before.contains(source) == group.chunks.contains(source));
        if group.chunks.contains(source) {
            let at = before.index_of(source);
            assert(after == before.insert(at, target));
            lemma_insert_no_duplicates(before, at, target);
            assert forall|i: int|
                0 <= i < n && group.chunks.contains(#[trigger] srcs[i]) implies stands_before(
                after,
                (base + i) as usize,
                srcs[i],
            ) by {
                if i == n - 1 {
                    assert(after[at + 1] == source && after[at] == target);
                } else {
                    let p = choose|p: int|
                        0 < p < before.len() && #[trigger] before[p] == srcs[i] && before[p - 1]
                            == (base + i) as usize;
                    if at < p {
                        assert(at != p - 1);
                        assert(after[p + 1] == srcs[i] && after[p] == (base + i) as usize);
                    } else {
                        assert(at != p);
                        assert(after[p] == srcs[i] && after[p - 1] == (base + i) as usize);
                    }
                }
            }
        }
    } else {
        assert(group.chunks.no_duplicates());
    }
}

/// A successful run makes every extraction chunk a sibling of its source.
/// In every chunk group the chunks that were there stay, with their
/// children; the group gains the extraction chunk of each source that it
/// holds, directly before that source, and gains nothing else.
pub proof fn law_extraction_chunk_joins_groups_of_source(
    st: BuildState,
    names: Seq<Seq<char>>,
    h: int,
)
    requires
        succeeds(st, names),
        0 <= h < st.groups.len(),
    ensures
        ({
            let srcs = sources(st, names);
            let before = st.groups[h];
            let after = extracted(st, srcs).groups[h];
            &&& extracted(st, srcs).groups.len() == st.groups.len()
            &&& after.children == before.children
            &&& after.chunks.no_duplicates()
            &&& forall|x: usize|
                #![trigger after.chunks.contains(x)]
                after.chunks.contains(x) <==> before.chunks.contains(x) || split_off_in(
                    before,
                    srcs,
                    st.chunks.len(),
                    srcs.len() as int,
                    x,
                )
            &&& forall|i: int|
                0 <= i < srcs.len() && before.chunks.contains(#[trigger] srcs[i])
                    ==> stands_before(after.chunks, (st.chunks.len() + i) as usize, srcs[i])
        }),
{
    let srcs = sources(st, names);
    lemma_sources_named(st, names);
    lemma_sources_distinct(st, srcs);
    lemma_regrouped_group(st.groups, st.chunks.len(), srcs, srcs.len() as int, h);
    lemma_regrouped_order(st.groups, st.chunks.len(), srcs, srcs.len() as int, h);
}

/// A successful run keeps every module loaded where it was loaded. A
/// module that a chunk group reached before the run, through one of its
/// chunks or through a chunk of a descendant group, is reached by the same
/// group after the run, through the chunk that owned it or through the
/// extraction chunk of that chunk.
pub proof fn law_split_preserves_reachability(
    st: BuildState,
    names: Seq<Seq<char>>,
    g: int,
    m: usize,
)
    requires
        succeeds(st, names),
        module_reachable(st, g, m),
    ensures
        module_reachable(extracted(st, sources(st, names)), g, m),
{
    let srcs = sources(st, names);
    let k = srcs.len() as int;
    let base = st.chunks.len();
    lemma_sources_named(st, names);
    let after = extracted(st, srcs);
    let (h, c) = choose|h: int, c: usize|
        #![trigger st.groups[h].chunks.contains(c)]
        group_reaches(st.groups, g, h) && 0 <= h < st.groups.len() && st.groups[h].chunks.contains(
            c,
        ) && c < st.owned.len() && st.owned[c as int].contains(m);
    let path = choose|path: Seq<int>|
        #[trigger] is_group_path(st.groups, path) && path.first() == g && path.last() == h;
    lemma_regrouped_group(st.groups, base, srcs, k, h);
    assert forall|j: int| 0 <= j < st.groups.len() implies (#[trigger] after.groups[j]).children
        == st.groups[j].children by {
        lemma_regrouped_group(st.groups, base, srcs, k, j);
    }
    assert(is_group_path(after.groups, path)) by {
        assert forall|i: int|
            #![trigger path[i]]
            0 <= i < path.len() - 1 implies after.groups[path[i]].children.contains(
            path[i + 1] as usize,
        ) by {
            assert(after.groups[path[i]].children == st.groups[path[i]].children);
        }
    }
    assert(group_reaches(after.groups, g, h));
    assert(srcs.take(k) =~= srcs);
    let row = st.owned[c as int];
    if srcs.contains(c) && is_shared(st.owned, m) {
        let i = choose|i: int| 0 <= i < srcs.len() && srcs[i] == c;
        let t = (base + i) as usize;
        assert(st.groups[h].chunks.contains(srcs[i]));
        assert(split_off_in(st.groups[h], srcs, base, k, t));
        assert(after.groups[h].chunks.contains(t));
        lemma_filter_membership(row, shared_in(st.owned), m);
        assert(after.owned[t as int] == shared_modules(st.owned, srcs[i]));
        assert(after.owned[t as int].contains(m));
    } else {
        assert(after.groups[h].chunks.contains(c));
        lemma_filter_membership(row, unshared_in(st.owned), m);
        assert(after.owned[c as int].contains(m));
    }
}

/// A module that two chunks own after a successful run was owned by two
/// chunks before it.
pub proof fn lemma_shared_after_was_shared(st: BuildState, names: Seq<Seq<char>>, m: usize)
    requires
        succeeds(st, names),
        is_shared(extracted(st, sources(st, names)).owned, m),
    ensures
        is_shared(st.owned, m),
{
    let srcs = sources(st, names);
    let k = srcs.len() as int;
    let base = st.chunks.len();
    lemma_sources_named(st, names);
    let after = extracted(st, srcs).owned;
    let (a, b) = choose|a: usize, b: usize|
        a < b < after.len() && #[trigger] after[a as int].contains(m)
            && #[trigger] after[b as int].contains(m);
    assert forall|d: usize| d < after.len() && after[d as int].contains(m) && !is_shared(
        st.owned,
        m,
    ) implies d < base && st.owned[d as int].contains(m) by {
        if d < base {
            lemma_filter_membership(st.owned[d as int], unshared_in(st.owned), m);
        } else {
            lemma_filter_membership(st.owned[srcs[d - base] as int], shared_in(st.owned), m);
        }
    }
    if !is_shared(st.owned, m) {
        assert(st.owned[a as int].contains(m));
        assert(st.owned[b as int].contains(m));
    }
}

/// A second run finds nothing to do. After a successful run with the
/// requested names, another run with the same names resolves every name,
/// finds no requested chunk that owns shared modules, so creates no
/// extraction chunk, and ends in the session in which it began.
pub proof fn law_second_run_changes_nothing(st: BuildState, names: Seq<Seq<char>>)
    requires
        succeeds(st, names),
    ensures
        ({
            let after = extracted(st, sources(st, names));
            &&& all_resolved(after.chunks, names)
            &&& sources(after, names) == Seq::<usize>::empty()
            &&& collision_free(after, sources(after, names))
            &&& extracted(after, sources(after, names)) == after
        }),
{
    let srcs = sources(st, names);
    let k = srcs.len() as int;
    let base = st.chunks.len();
    lemma_sources_named(st, names);
    let after = extracted(st, srcs);
    let handles = resolved(st.chunks, names);
    assert(srcs.take(k) =~= srcs);
    assert forall|i: int| 0 <= i < names.len() implies name_taken(
        after.chunks,
        #[trigger] names[i],
    ) && first_named(after.chunks, names[i]) == first_named(st.chunks, names[i]) by {
        lemma_first_named_exists(st.chunks, names[i]);
        let h = first_named(st.chunks, names[i]);
        assert(after.chunks[h as int] == st.chunks[h as int]);
        assert forall|j: int| 0 <= j < h implies !has_name(
            #[trigger] after.chunks[j],
            names[i],
        ) by {
            assert(after.chunks[j] == st.chunks[j]);
        }
        assert(is_first_named(after.chunks, names[i], h));
        lemma_first_named_unique(after.chunks, names[i], h);
    }
    assert(resolved(after.chunks, names) =~= handles);
    assert forall|i: int| 0 <= i < handles.len() implies !has_shared_in(after.owned)(
        #[trigger] handles[i],
    ) by {
        let c = handles[i];
        lemma_first_named_exists(st.chunks, names[i]);
        let row = st.owned[c as int];
        let now = after.owned[c as int];
        if !srcs.contains(c) {
            lemma_filter_membership(handles, has_shared_in(st.owned), c);
            assert(handles.contains(c));
            assert(shared_modules(st.owned, c).len() == 0);
        }
        assert forall|j: int| 0 <= j < now.len() implies !shared_in(after.owned)(
            #[trigger] now[j],
        ) by {
            let x = now[j];
            assert(now.contains(x));
            if srcs.contains(c) {
                lemma_filter_membership(row, unshared_in(st.owned), x);
            } else {
                lemma_filter_membership(row, shared_in(st.owned), x);
                if is_shared(st.owned, x) {
                    assert(shared_modules(st.owned, c).contains(x));
                }
            }
            assert(!is_shared(st.owned, x));
            if is_shared(after.owned, x) {
                lemma_shared_after_was_shared(st, names, x);
            }
        }
        lemma_filter_none(now, shared_in(after.owned));
    }
    lemma_filter_none(handles, has_shared_in(after.owned));
    let none = sources(after, names);
    assert(none == Seq::<usize>::empty());
    let again = extracted(after, none);
    assert(again.chunks =~= after.chunks);
    assert(again.owned =~= after.owned) by {
        assert(none.take(0) =~= none);
    }
    assert(again.groups == after.groups);
    assert(again.log =~= after.log);
}

} // verus!
