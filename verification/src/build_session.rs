//! The build session that the extraction pass works on: the chunk registry,
//! the chunk graph, the chunk groups and the change log.
use crate::chunk_graph::{
    connected, disconnected, is_shared, owners_connected, owners_disconnected, rows_wf, symmetric,
    ChunkGraph,
};
use crate::chunk_group::{group_wf, split_group, split_groups, ChunkGroup, GroupData};
use crate::mutation::Mutation;
use vstd::prelude::*;
use vstd::string::*;

verus! {

/// What the registry holds of a chunk.
pub struct ChunkData {
    /// The chunk's name, if it has one.
    pub name: Option<Seq<char>>,
    /// Free text that says why the chunk exists.
    pub reason: Seq<char>,
}

/// The whole session as a mathematical value. Chunks, modules and groups are
/// named by their handles: positions in `chunks` and `owned`, positions in
/// `owners`, positions in `groups`.
pub struct BuildState {
    /// The registry, by chunk handle.
    pub chunks: Seq<ChunkData>,
    /// For each chunk handle, the modules that the chunk owns, in iteration
    /// order.
    pub owned: Seq<Seq<usize>>,
    /// For each module handle, the chunks that own the module, a new owner
    /// after the owners that the module had.
    pub owners: Seq<Seq<usize>>,
    /// The chunk groups, by group handle.
    pub groups: Seq<GroupData>,
    /// The change log, oldest record first.
    pub log: Seq<Mutation>,
}

impl BuildState {
    /// Every chunk has a row of modules, every row and every group names each
    /// handle once, every handle names something that exists, and the rows
    /// of the chunks and the rows of the modules hold the same ownership
    /// edges.
    pub open spec fn wf(self) -> bool {
        &&& self.owned.len() == self.chunks.len()
        &&& rows_wf(self.owned, self.owners.len())
        &&& rows_wf(self.owners, self.owned.len())
        &&& symmetric(self.owned, self.owners)
        &&& forall|g: int|
            0 <= g < self.groups.len() ==> group_wf(
                #[trigger] self.groups[g],
                self.chunks.len(),
                self.groups.len(),
            )
    }
}

/// Whether a chunk carries the name `name`.
pub open spec fn has_name(chunk: ChunkData, name: Seq<char>) -> bool {
    chunk.name == Some(name)
}

/// Whether some chunk of the registry carries the name `name`.
pub open spec fn name_taken(chunks: Seq<ChunkData>, name: Seq<char>) -> bool {
    exists|h: int| 0 <= h < chunks.len() && has_name(#[trigger] chunks[h], name)
}

/// Whether `h` is the first chunk of the registry that carries the name
/// `name`.
pub open spec fn is_first_named(chunks: Seq<ChunkData>, name: Seq<char>, h: usize) -> bool {
    &&& h < chunks.len()
    &&& has_name(chunks[h as int], name)
    &&& forall|j: int| 0 <= j < h ==> !has_name(#[trigger] chunks[j], name)
}

/// The first chunk of the registry that carries the name `name`.
pub open spec fn first_named(chunks: Seq<ChunkData>, name: Seq<char>) -> usize {
    choose|h: usize| is_first_named(chunks, name, h)
}

/// The first chunk with a given name is determined by the registry.
pub proof fn lemma_first_named_unique(chunks: Seq<ChunkData>, name: Seq<char>, h: usize)
    requires
        is_first_named(chunks, name, h),
    ensures
        first_named(chunks, name) == h,
        name_taken(chunks, name),
{
    let k = first_named(chunks, name);
    assert(is_first_named(chunks, name, k));
    if k < h {
        assert(!has_name(chunks[k as int], name));
    }
    if h < k {
        assert(!has_name(chunks[h as int], name));
    }
}

/// Among the chunks that carry a name, one is the first.
pub proof fn lemma_first_named_exists(chunks: Seq<ChunkData>, name: Seq<char>)
    requires
        name_taken(chunks, name),
        chunks.len() <= usize::MAX,
    ensures
        is_first_named(chunks, name, first_named(chunks, name)),
{
    let h = choose|h: int| 0 <= h < chunks.len() && has_name(#[trigger] chunks[h], name);
    lemma_first_named_below(chunks, name, h);
}

/// Among the chunks up to one that carries a name, one is the first to
/// carry it.
proof fn lemma_first_named_below(chunks: Seq<ChunkData>, name: Seq<char>, h: int)
    requires
        0 <= h < chunks.len(),
        has_name(chunks[h], name),
        chunks.len() <= usize::MAX,
    ensures
        is_first_named(chunks, name, first_named(chunks, name)),
    decreases h,
{
    if exists|j: int| 0 <= j < h && has_name(#[trigger] chunks[j], name) {
        let j = choose|j: int| 0 <= j < h && has_name(#[trigger] chunks[j], name);
        lemma_first_named_below(chunks, name, j);
    } else {
        assert(is_first_named(chunks, name, h as usize));
    }
}

/// The view of an optional name.
pub open spec fn name_view(name: Option<String>) -> Option<Seq<char>> {
    match name {
        Some(n) => Some(n@),
        None => None,
    }
}

/// The reason of a chunk after `text` has been appended to it: the first
/// entry stands alone, a later one follows a comma.
pub open spec fn reason_with(reason: Seq<char>, text: Seq<char>) -> Seq<char> {
    if reason.len() == 0 {
        text
    } else {
        reason + ","@ + text
    }
}

/// A chunk of the registry.
pub struct Chunk {
    name: Option<String>,
    reason: String,
}

impl View for Chunk {
    type V = ChunkData;

    closed spec fn view(&self) -> ChunkData {
        ChunkData { name: name_view(self.name), reason: self.reason@ }
    }
}

impl Chunk {
    /// The chunk's name, if it has one.
    pub fn name(&self) -> (n: &Option<String>)
        ensures
            name_view(*n) == self@.name,
    {
        &self.name
    }

    /// Why the chunk exists.
    pub fn reason(&self) -> (r: &String)
        ensures
            r@ == self@.reason,
    {
        &self.reason
    }
}

/// A build session.
pub struct BuildSession {
    chunks: Vec<Chunk>,
    graph: ChunkGraph,
    groups: Vec<ChunkGroup>,
    mutations: Vec<Mutation>,
}

impl View for BuildSession {
    type V = BuildState;

    closed spec fn view(&self) -> BuildState {
        BuildState {
            chunks: Seq::new(self.chunks@.len(), |c: int| self.chunks@[c]@),
            owned: self.graph.owned(),
            owners: self.graph.owners(),
            groups: Seq::new(self.groups@.len(), |g: int| self.groups@[g]@),
            log: self.mutations@,
        }
    }
}

impl BuildSession {
    /// The session is well formed.
    pub open spec fn wf(&self) -> bool {
        self@.wf()
    }

    /// The handles of a session fit the machine.
    pub proof fn lemma_counts_fit(&self)
        ensures
            self@.chunks.len() <= usize::MAX,
            self@.owners.len() <= usize::MAX,
            self@.groups.len() <= usize::MAX,
            self@.log.len() <= usize::MAX,
    {
        assert(self.chunks.len() == self.chunks@.len());
        self.graph.lemma_counts_fit();
        assert(self.groups.len() == self.groups@.len());
        assert(self.mutations.len() == self.mutations@.len());
    }

    /// A session without chunks, modules, groups or records.
    pub fn new() -> (s: BuildSession)
        ensures
            s.wf(),
            s@.chunks.len() == 0,
            s@.owned.len() == 0,
            s@.owners.len() == 0,
            s@.groups.len() == 0,
            s@.log.len() == 0,
    {
        BuildSession {
            chunks: Vec::new(),
            graph: ChunkGraph::new(),
            groups: Vec::new(),
            mutations: Vec::new(),
        }
    }

    /// The number of chunks.
    pub fn chunk_count(&self) -> (n: usize)
        ensures
            n == self@.chunks.len(),
    {
        self.chunks.len()
    }

    /// The number of modules.
    pub fn module_count(&self) -> (n: usize)
        ensures
            n == self@.owners.len(),
    {
        self.graph.module_count()
    }

    /// The number of chunk groups.
    pub fn group_count(&self) -> (n: usize)
        ensures
            n == self@.groups.len(),
    {
        self.groups.len()
    }

    /// Chunk `c` of the registry.
    pub fn chunk(&self, c: usize) -> (chunk: &Chunk)
        requires
            c < self@.chunks.len(),
        ensures
            chunk@ == self@.chunks[c as int],
    {
        &self.chunks[c]
    }

    /// The modules that chunk `c` owns, in iteration order.
    pub fn chunk_modules(&self, c: usize) -> (row: &Vec<usize>)
        requires
            self.wf(),
            c < self@.chunks.len(),
        ensures
            row@ == self@.owned[c as int],
    {
        self.graph.chunk_modules(c)
    }

    /// The chunks that own module `m`.
    pub fn module_chunks(&self, m: usize) -> (row: &Vec<usize>)
        requires
            m < self@.owners.len(),
        ensures
            row@ == self@.owners[m as int],
    {
        self.graph.module_chunks(m)
    }

    /// Whether more than one chunk owns module `m`.
    pub fn is_module_shared(&self, m: usize) -> (b: bool)
        requires
            self.wf(),
            m < self@.owners.len(),
        ensures
            b == is_shared(self@.owned, m),
    {
        self.graph.is_module_shared(m)
    }

    /// The chunks of group `g`, in load order.
    pub fn group_chunks(&self, g: usize) -> (v: &Vec<usize>)
        requires
            g < self@.groups.len(),
        ensures
            v@ == self@.groups[g as int].chunks,
    {
        self.groups[g].chunks()
    }

    /// The child groups of group `g`.
    pub fn group_children(&self, g: usize) -> (v: &Vec<usize>)
        requires
            g < self@.groups.len(),
        ensures
            v@ == self@.groups[g as int].children,
    {
        self.groups[g].children()
    }

    /// The change log, oldest record first.
    pub fn mutations(&self) -> (log: &Vec<Mutation>)
        ensures
            log@ == self@.log,
    {
        &self.mutations
    }

    /// The first chunk that carries the name `name`, if there is one.
    pub fn find_chunk_by_name(&self, name: &String) -> (r: Option<usize>)
        ensures
            match r {
                Some(h) => is_first_named(self@.chunks, name@, h),
                None => !name_taken(self@.chunks, name@),
            },
    {
        let mut i: usize = 0;
        while i < self.chunks.len()
            invariant
                i <= self.chunks@.len(),
                forall|j: int| 0 <= j < i ==> !has_name(#[trigger] self@.chunks[j], name@),
            decreases self.chunks@.len() - i,
        {
            let found = match &self.chunks[i].name {
                Some(n) => *n == *name,
                None => false,
            };
            assert(found == has_name(self@.chunks[i as int], name@));
            if found {
                return Some(i);
            }
            i += 1;
        }
        None
    }

    /// Adds a chunk with the given name, or without one, that owns nothing,
    /// belongs to no group and has an empty reason. Returns its handle.
    pub fn add_chunk(&mut self, name: Option<String>) -> (c: usize)
        requires
            old(self).wf(),
        ensures
            final(self).wf(),
            c == old(self)@.chunks.len(),
            final(self)@ == (BuildState {
                chunks: old(self)@.chunks.push(
                    ChunkData { name: name_view(name), reason: Seq::empty() },
                ),
                owned: old(self)@.owned.push(Seq::empty()),
                owners: old(self)@.owners,
                groups: old(self)@.groups,
                log: old(self)@.log,
            }),
    {
        let c = self.chunks.len();
        let ghost data = ChunkData { name: name_view(name), reason: Seq::empty() };
        self.chunks.push(Chunk { name, reason: String::new() });
        self.graph.add_chunk();
        proof {
            assert(self@.chunks =~= old(self)@.chunks.push(data));
            assert(self@.groups =~= old(self)@.groups);
            assert forall|g: int| 0 <= g < self@.groups.len() implies group_wf(
                #[trigger] self@.groups[g],
                self@.chunks.len(),
                self@.groups.len(),
            ) by {
                assert(group_wf(
                    old(self)@.groups[g],
                    old(self)@.chunks.len(),
                    old(self)@.groups.len(),
                ));
            }
        }
        c
    }

    /// Registers a chunk under `name`. If a chunk carries that name already,
    /// nothing changes and the result is the first such chunk and `false`;
    /// otherwise the result is the new chunk and `true`.
    pub fn add_named_chunk(&mut self, name: String) -> (r: (usize, bool))
        requires
            old(self).wf(),
        ensures
            final(self).wf(),
            r.1 == !name_taken(old(self)@.chunks, name@),
            r.1 ==> r.0 == old(self)@.chunks.len() && final(self)@ == (BuildState {
                chunks: old(self)@.chunks.push(
                    ChunkData { name: Some(name@), reason: Seq::empty() },
                ),
                owned: old(self)@.owned.push(Seq::empty()),
                owners: old(self)@.owners,
                groups: old(self)@.groups,
                log: old(self)@.log,
            }),
            !r.1 ==> is_first_named(old(self)@.chunks, name@, r.0) && final(self)@ == old(
                self,
            )@,
    {
        match self.find_chunk_by_name(&name) {
            Some(h) => {
                proof {
                    lemma_first_named_unique(self@.chunks, name@, h);
                }
                (h, false)
            },
            None => {
                let c = self.add_chunk(Some(name));
                (c, true)
            },
        }
    }

    /// Appends `text` to the reason of chunk `c`.
    pub fn append_chunk_reason(&mut self, c: usize, text: &str)
        requires
            old(self).wf(),
            c < old(self)@.chunks.len(),
        ensures
            final(self).wf(),
            final(self)@ == (BuildState {
                chunks: old(self)@.chunks.update(
                    c as int,
                    ChunkData {
                        name: old(self)@.chunks[c as int].name,
                        reason: reason_with(old(self)@.chunks[c as int].reason, text@),
                    },
                ),
                owned: old(self)@.owned,
                owners: old(self)@.owners,
                groups: old(self)@.groups,
                log: old(self)@.log,
            }),
    {
        let ghost before = self@.chunks[c as int];
        if !self.chunks[c].reason.as_str().is_empty() {
            self.chunks[c].reason.append(",");
        }
        self.chunks[c].reason.append(text);
        proof {
            assert(self@.chunks =~= old(self)@.chunks.update(
                c as int,
                ChunkData { name: before.name, reason: reason_with(before.reason, text@) },
            ));
            assert(self@.groups =~= old(self)@.groups);
        }
    }

    /// Adds a module that no chunk owns and returns its handle.
    pub fn add_module(&mut self) -> (m: usize)
        requires
            old(self).wf(),
        ensures
            final(self).wf(),
            m == old(self)@.owners.len(),
            final(self)@ == (BuildState {
                chunks: old(self)@.chunks,
                owned: old(self)@.owned,
                owners: old(self)@.owners.push(Seq::empty()),
                groups: old(self)@.groups,
                log: old(self)@.log,
            }),
    {
        let m = self.graph.add_module();
        proof {
            assert(self@.chunks =~= old(self)@.chunks);
            assert(self@.groups =~= old(self)@.groups);
        }
        m
    }

    /// Adds the ownership edge between chunk `c` and module `m`. A chunk
    /// that already owns the module is left as it is.
    pub fn connect_chunk_and_module(&mut self, c: usize, m: usize)
        requires
            old(self).wf(),
            c < old(self)@.chunks.len(),
            m < old(self)@.owners.len(),
        ensures
            final(self).wf(),
            final(self)@ == (BuildState {
                chunks: old(self)@.chunks,
                owned: connected(old(self)@.owned, c, m),
                owners: owners_connected(old(self)@.owned[c as int], old(self)@.owners, c, m),
                groups: old(self)@.groups,
                log: old(self)@.log,
            }),
    {
        self.graph.connect_chunk_and_module(c, m);
        proof {
            assert(self@.chunks =~= old(self)@.chunks);
            assert(self@.groups =~= old(self)@.groups);
        }
    }

    /// Removes the ownership edge between chunk `c` and module `m`.
    pub fn disconnect_chunk_and_module(&mut self, c: usize, m: usize)
        requires
            old(self).wf(),
            c < old(self)@.chunks.len(),
            old(self)@.owned[c as int].contains(m),
        ensures
            final(self).wf(),
            final(self)@ == (BuildState {
                chunks: old(self)@.chunks,
                owned: disconnected(old(self)@.owned, c, m),
                owners: owners_disconnected(old(self)@.owners, c, m),
                groups: old(self)@.groups,
                log: old(self)@.log,
            }),
    {
        self.graph.disconnect_chunk_and_module(c, m);
        proof {
            assert(self@.chunks =~= old(self)@.chunks);
            assert(self@.groups =~= old(self)@.groups);
        }
    }

    /// Hands module `m` over from chunk `from` to chunk `to`: the edge to
    /// `from` is removed and the edge to `to` is added in one step.
    pub fn move_module(&mut self, from: usize, to: usize, m: usize)
        requires
            old(self).wf(),
            from < old(self)@.chunks.len(),
            to < old(self)@.chunks.len(),
            old(self)@.owned[from as int].contains(m),
        ensures
            final(self).wf(),
            final(self)@ == (BuildState {
                chunks: old(self)@.chunks,
                owned: connected(disconnected(old(self)@.owned, from, m), to, m),
                owners: owners_connected(
                    disconnected(old(self)@.owned, from, m)[to as int],
                    owners_disconnected(old(self)@.owners, from, m),
                    to,
                    m,
                ),
                groups: old(self)@.groups,
                log: old(self)@.log,
            }),
    {
        proof {
            let row = self@.owned[from as int];
            let i = choose|i: int| 0 <= i < row.len() && row[i] == m;
            assert(row[i] < self@.owners.len());
        }
        self.disconnect_chunk_and_module(from, m);
        self.connect_chunk_and_module(to, m);
    }

    /// Adds a group without chunks or children and returns its handle.
    pub fn add_group(&mut self) -> (g: usize)
        requires
            old(self).wf(),
        ensures
            final(self).wf(),
            g == old(self)@.groups.len(),
            final(self)@ == (BuildState {
                chunks: old(self)@.chunks,
                owned: old(self)@.owned,
                owners: old(self)@.owners,
                groups: old(self)@.groups.push(
                    GroupData { chunks: Seq::empty(), children: Seq::empty() },
                ),
                log: old(self)@.log,
            }),
    {
        let g = self.groups.len();
        self.groups.push(ChunkGroup::new());
        proof {
            assert(self@.chunks =~= old(self)@.chunks);
            assert(self@.groups =~= old(self)@.groups.push(
                GroupData { chunks: Seq::empty(), children: Seq::empty() },
            ));
            assert forall|h: int| 0 <= h < self@.groups.len() implies group_wf(
                #[trigger] self@.groups[h],
                self@.chunks.len(),
                self@.groups.len(),
            ) by {
                if h < old(self)@.groups.len() {
                    assert(group_wf(
                        old(self)@.groups[h],
                        old(self)@.chunks.len(),
                        old(self)@.groups.len(),
                    ));
                }
            }
        }
        g
    }

    /// Puts chunk `c` at the end of group `g`, unless the group holds it.
    pub fn add_chunk_to_group(&mut self, g: usize, c: usize)
        requires
            old(self).wf(),
            g < old(self)@.groups.len(),
            c < old(self)@.chunks.len(),
        ensures
            final(self).wf(),
            final(self)@ == (BuildState {
                chunks: old(self)@.chunks,
                owned: old(self)@.owned,
                owners: old(self)@.owners,
                groups: old(self)@.groups.update(
                    g as int,
                    GroupData {
                        chunks: if old(self)@.groups[g as int].chunks.contains(c) {
                            old(self)@.groups[g as int].chunks
                        } else {
                            old(self)@.groups[g as int].chunks.push(c)
                        },
                        children: old(self)@.groups[g as int].children,
                    },
                ),
                log: old(self)@.log,
            }),
    {
        let ghost before = self@.groups[g as int];
        assert(group_wf(before, self@.chunks.len(), self@.groups.len()));
        self.groups[g].push_chunk(c);
        proof {
            let after = self.groups@[g as int]@;
            assert(self@.chunks =~= old(self)@.chunks);
            assert(self@.groups =~= old(self)@.groups.update(g as int, after));
            assert forall|h: int| 0 <= h < self@.groups.len() implies group_wf(
                #[trigger] self@.groups[h],
                self@.chunks.len(),
                self@.groups.len(),
            ) by {
                assert(group_wf(
                    old(self)@.groups[h],
                    old(self)@.chunks.len(),
                    old(self)@.groups.len(),
                ));
                if h == g {
                    assert forall|i: int| 0 <= i < after.chunks.len() implies
                        #[trigger] after.chunks[i] < self@.chunks.len() by {
                        if i < before.chunks.len() {
                            assert(after.chunks[i] == before.chunks[i]);
                        }
                    }
                }
            }
        }
    }

    /// Makes group `child` a child of group `parent`.
    pub fn add_child_group(&mut self, parent: usize, child: usize)
        requires
            old(self).wf(),
            parent < old(self)@.groups.len(),
            child < old(self)@.groups.len(),
        ensures
            final(self).wf(),
            final(self)@ == (BuildState {
                chunks: old(self)@.chunks,
                owned: old(self)@.owned,
                owners: old(self)@.owners,
                groups: old(self)@.groups.update(
                    parent as int,
                    GroupData {
                        chunks: old(self)@.groups[parent as int].chunks,
                        children: old(self)@.groups[parent as int].children.push(child),
                    },
                ),
                log: old(self)@.log,
            }),
    {
        let ghost before = self@.groups[parent as int];
        assert(group_wf(before, self@.chunks.len(), self@.groups.len()));
        self.groups[parent].push_child(child);
        proof {
            let after = self.groups@[parent as int]@;
            assert(self@.chunks =~= old(self)@.chunks);
            assert(self@.groups =~= old(self)@.groups.update(parent as int, after));
            assert forall|h: int| 0 <= h < self@.groups.len() implies group_wf(
                #[trigger] self@.groups[h],
                self@.chunks.len(),
                self@.groups.len(),
            ) by {
                assert(group_wf(
                    old(self)@.groups[h],
                    old(self)@.chunks.len(),
                    old(self)@.groups.len(),
                ));
                if h == parent {
                    assert forall|i: int| 0 <= i < after.children.len() implies
                        #[trigger] after.children[i] < self@.groups.len() by {
                        if i < before.children.len() {
                            assert(after.children[i] == before.children[i]);
                        }
                    }
                }
            }
        }
    }

    /// Splits chunk `target` off chunk `source` in the chunk groups: every
    /// group that holds `source`, and not yet `target`, gets `target` directly
    /// before `source`.
    pub fn split_chunk(&mut self, source: usize, target: usize)
        requires
            old(self).wf(),
            target < old(self)@.chunks.len(),
        ensures
            final(self).wf(),
            final(self)@ == (BuildState {
                chunks: old(self)@.chunks,
                owned: old(self)@.owned,
                owners: old(self)@.owners,
                groups: split_groups(old(self)@.groups, source, target),
                log: old(self)@.log,
            }),
    {
        let mut g: usize = 0;
        while g < self.groups.len()
            invariant
                g <= self.groups@.len(),
                self.groups@.len() == old(self).groups@.len(),
                self.chunks == old(self).chunks,
                self.graph == old(self).graph,
                self.mutations == old(self).mutations,
                old(self).wf(),
                target < old(self)@.chunks.len(),
                forall|h: int|
                    0 <= h < g ==> (#[trigger] self.groups@[h])@ == split_group(
                        old(self)@.groups[h],
                        source,
                        target,
                    ),
                forall|h: int|
                    g <= h < self.groups@.len() ==> (#[trigger] self.groups@[h])@ == old(
                        self,
                    )@.groups[h],
            decreases self.groups@.len() - g,
        {
            assert(group_wf(
                old(self)@.groups[g as int],
                old(self)@.chunks.len(),
                old(self)@.groups.len(),
            ));
            self.groups[g].split_chunk(source, target);
            g += 1;
        }
        proof {
            assert(self@.chunks =~= old(self)@.chunks);
            assert(self@.groups =~= split_groups(old(self)@.groups, source, target));
            assert forall|h: int| 0 <= h < self@.groups.len() implies group_wf(
                #[trigger] self@.groups[h],
                self@.chunks.len(),
                self@.groups.len(),
            ) by {
                let before = old(self)@.groups[h];
                let after = self@.groups[h];
                assert(group_wf(before, old(self)@.chunks.len(), old(self)@.groups.len()));
                assert((self.groups@[h])@ == split_group(before, source, target));
                if before.chunks.contains(source) && !before.chunks.contains(target) {
                    let at = before.chunks.index_of(source);
                    assert forall|i: int| 0 <= i < after.chunks.len() implies
                        #[trigger] after.chunks[i] < self@.chunks.len() by {
                        if i < at {
                            assert(after.chunks[i] == before.chunks[i]);
                        } else if i > at {
                            assert(after.chunks[i] == before.chunks[i - 1]);
                        }
                    }
                }
            }
        }
    }

    /// Appends a record to the change log.
    pub fn record(&mut self, mutation: Mutation)
        requires
            old(self).wf(),
        ensures
            final(self).wf(),
            final(self)@ == (BuildState {
                chunks: old(self)@.chunks,
                owned: old(self)@.owned,
                owners: old(self)@.owners,
                groups: old(self)@.groups,
                log: old(self)@.log.push(mutation),
            }),
    {
        self.mutations.push(mutation);
        proof {
            assert(self@.chunks =~= old(self)@.chunks);
            assert(self@.groups =~= old(self)@.groups);
        }
    }
}

} // verus!
