//! The chunk graph: which chunk owns which module, indexed in both directions.
use crate::sequences::{
    lemma_filter_membership, lemma_filter_no_duplicates, lemma_push_contains,
    lemma_push_no_duplicates, lemma_remove_is_filter, position,
};
use vstd::prelude::*;

verus! {

/// The predicate "is another handle than `m`".
pub open spec fn other_than(m: usize) -> spec_fn(usize) -> bool {
    |x: usize| x != m
}

/// A row with every occurrence of `m` taken out, the rest in their order.
pub open spec fn row_without(row: Seq<usize>, m: usize) -> Seq<usize> {
    row.filter(other_than(m))
}

/// A row that holds `m`: the row itself if `m` is already in it, else the row
/// with `m` at its end.
pub open spec fn row_with(row: Seq<usize>, m: usize) -> Seq<usize> {
    if row.contains(m) {
        row
    } else {
        row.push(m)
    }
}

/// Every row is free of duplicates and holds only handles below `bound`.
pub open spec fn rows_wf(rows: Seq<Seq<usize>>, bound: nat) -> bool {
    forall|r: int|
        0 <= r < rows.len() ==> (#[trigger] rows[r]).no_duplicates() && forall|i: int|
            0 <= i < rows[r].len() ==> #[trigger] rows[r][i] < bound
}

/// The two indexes describe the same set of ownership edges.
pub open spec fn symmetric(owned: Seq<Seq<usize>>, owners: Seq<Seq<usize>>) -> bool {
    forall|c: usize, m: usize|
        #![trigger owned[c as int].contains(m)]
        #![trigger owners[m as int].contains(c)]
        c < owned.len() && m < owners.len() ==> (owned[c as int].contains(m)
            <==> owners[m as int].contains(c))
}

/// A module is shared when two different chunks own it.
pub open spec fn is_shared(owned: Seq<Seq<usize>>, m: usize) -> bool {
    exists|a: usize, b: usize|
        a < b < owned.len() && #[trigger] owned[a as int].contains(m)
            && #[trigger] owned[b as int].contains(m)
}

/// The ownership rows after chunk `c` has given up module `m`.
pub open spec fn disconnected(owned: Seq<Seq<usize>>, c: usize, m: usize) -> Seq<Seq<usize>> {
    owned.update(c as int, row_without(owned[c as int], m))
}

/// The ownership rows after chunk `c` has taken module `m`.
pub open spec fn connected(owned: Seq<Seq<usize>>, c: usize, m: usize) -> Seq<Seq<usize>> {
    owned.update(c as int, row_with(owned[c as int], m))
}

/// The reverse index after chunk `c` has given up module `m`.
pub open spec fn owners_disconnected(owners: Seq<Seq<usize>>, c: usize, m: usize) -> Seq<
    Seq<usize>,
> {
    owners.update(m as int, row_without(owners[m as int], c))
}

/// The reverse index after chunk `c` has taken module `m`, where `c` had the
/// modules `row` before: a new owner is put at the end of the module's row.
pub open spec fn owners_connected(
    row: Seq<usize>,
    owners: Seq<Seq<usize>>,
    c: usize,
    m: usize,
) -> Seq<Seq<usize>> {
    if row.contains(m) {
        owners
    } else {
        owners.update(m as int, owners[m as int].push(c))
    }
}

/// Ownership edges between chunks and modules. Chunks and modules are named
/// by the handles that `add_chunk` and `add_module` hand out; an edge is
/// recorded both in the row of its chunk and in the row of its module.
pub struct ChunkGraph {
    chunk_modules: Vec<Vec<usize>>,
    module_chunks: Vec<Vec<usize>>,
}

impl ChunkGraph {
    /// For each chunk handle, the modules that the chunk owns, in the order
    /// in which they are iterated.
    pub closed spec fn owned(&self) -> Seq<Seq<usize>> {
        Seq::new(self.chunk_modules@.len(), |c: int| self.chunk_modules@[c]@)
    }

    /// For each module handle, the chunks that own the module.
    pub closed spec fn owners(&self) -> Seq<Seq<usize>> {
        Seq::new(self.module_chunks@.len(), |m: int| self.module_chunks@[m]@)
    }

    /// Both indexes are well formed and agree on every edge.
    pub open spec fn wf(&self) -> bool {
        &&& rows_wf(self.owned(), self.owners().len())
        &&& rows_wf(self.owners(), self.owned().len())
        &&& symmetric(self.owned(), self.owners())
    }

    /// The handles of a graph fit the machine.
    pub proof fn lemma_counts_fit(&self)
        ensures
            self.owned().len() <= usize::MAX,
            self.owners().len() <= usize::MAX,
    {
        assert(self.chunk_modules.len() == self.chunk_modules@.len());
        assert(self.module_chunks.len() == self.module_chunks@.len());
    }

    /// A graph without chunks, modules or edges.
    pub fn new() -> (g: ChunkGraph)
        ensures
            g.wf(),
            g.owned().len() == 0,
            g.owners().len() == 0,
    {
        ChunkGraph { chunk_modules: Vec::new(), module_chunks: Vec::new() }
    }

    /// The number of chunks.
    pub fn chunk_count(&self) -> (n: usize)
        ensures
            n == self.owned().len(),
    {
        self.chunk_modules.len()
    }

    /// The number of modules.
    pub fn module_count(&self) -> (n: usize)
        ensures
            n == self.owners().len(),
    {
        self.module_chunks.len()
    }

    /// Adds a chunk that owns nothing and returns its handle.
    pub fn add_chunk(&mut self) -> (c: usize)
        requires
            old(self).wf(),
        ensures
            final(self).wf(),
            c == old(self).owned().len(),
            final(self).owned() == old(self).owned().push(Seq::empty()),
            final(self).owners() == old(self).owners(),
    {
        let c = self.chunk_modules.len();
        self.chunk_modules.push(Vec::new());
        proof {
            assert(self.owned() =~= old(self).owned().push(Seq::empty()));
            assert(self.owners() =~= old(self).owners());
            assert forall|r: int| 0 <= r < self.owned().len() implies (#[trigger] self.owned()[
                r
            ]).no_duplicates() && forall|i: int|
                0 <= i < self.owned()[r].len() ==> #[trigger] self.owned()[r][i]
                    < self.owners().len() by {
                if r < old(self).owned().len() {
                    assert(self.owned()[r] == old(self).owned()[r]);
                }
            }
            assert forall|k: usize, m: usize|
                #![trigger self.owned()[k as int].contains(m)]
                #![trigger self.owners()[m as int].contains(k)]
                k < self.owned().len() && m < self.owners().len() implies (self.owned()[k as int]
                .contains(m) <==> self.owners()[m as int].contains(k)) by {
                if k < old(self).owned().len() {
                    assert(self.owned()[k as int] == old(self).owned()[k as int]);
                } else {
                    assert(self.owned()[k as int] == Seq::<usize>::empty());
                    if old(self).owners()[m as int].contains(k) {
                        let i = choose|i: int|
                            0 <= i < old(self).owners()[m as int].len() && old(
                                self,
                            ).owners()[m as int][i] == k;
                        assert(old(self).owners()[m as int][i] < old(self).owned().len());
                    }
                }
            }
        }
        c
    }

    /// Adds a module that no chunk owns and returns its handle.
    pub fn add_module(&mut self) -> (m: usize)
        requires
            old(self).wf(),
        ensures
            final(self).wf(),
            m == old(self).owners().len(),
            final(self).owners() == old(self).owners().push(Seq::empty()),
            final(self).owned() == old(self).owned(),
    {
        let m = self.module_chunks.len();
        self.module_chunks.push(Vec::new());
        proof {
            assert(self.owners() =~= old(self).owners().push(Seq::empty()));
            assert(self.owned() =~= old(self).owned());
            assert forall|r: int| 0 <= r < self.owners().len() implies (#[trigger] self.owners()[
                r
            ]).no_duplicates() && forall|i: int|
                0 <= i < self.owners()[r].len() ==> #[trigger] self.owners()[r][i]
                    < self.owned().len() by {
                if r < old(self).owners().len() {
                    assert(self.owners()[r] == old(self).owners()[r]);
                }
            }
            assert forall|c: usize, k: usize|
                #![trigger self.owned()[c as int].contains(k)]
                #![trigger self.owners()[k as int].contains(c)]
                c < self.owned().len() && k < self.owners().len() implies (self.owned()[c as int]
                .contains(k) <==> self.owners()[k as int].contains(c)) by {
                if k < old(self).owners().len() {
                    assert(self.owners()[k as int] == old(self).owners()[k as int]);
                } else {
                    assert(self.owners()[k as int] == Seq::<usize>::empty());
                    if old(self).owned()[c as int].contains(k) {
                        let i = choose|i: int|
                            0 <= i < old(self).owned()[c as int].len() && old(
                                self,
                            ).owned()[c as int][i] == k;
                        assert(old(self).owned()[c as int][i] < old(self).owners().len());
                    }
                }
            }
        }
        m
    }

    /// The modules that chunk `c` owns, in iteration order.
    pub fn chunk_modules(&self, c: usize) -> (row: &Vec<usize>)
        requires
            c < self.owned().len(),
        ensures
            row@ == self.owned()[c as int],
    {
        &self.chunk_modules[c]
    }

    /// The chunks that own module `m`.
    pub fn module_chunks(&self, m: usize) -> (row: &Vec<usize>)
        requires
            m < self.owners().len(),
        ensures
            row@ == self.owners()[m as int],
    {
        &self.module_chunks[m]
    }

    /// Whether chunk `c` owns module `m`.
    pub fn is_module_in_chunk(&self, m: usize, c: usize) -> (b: bool)
        requires
            c < self.owned().len(),
        ensures
            b == self.owned()[c as int].contains(m),
    {
        position(&self.chunk_modules[c], m).is_some()
    }

    /// Whether more than one chunk owns module `m`.
    pub fn is_module_shared(&self, m: usize) -> (b: bool)
        requires
            self.wf(),
            m < self.owners().len(),
        ensures
            b == is_shared(self.owned(), m),
    {
        let n = self.module_chunks[m].len();
        proof {
            let owners = self.owners()[m as int];
            if n > 1 {
                let x = owners[0];
                let y = owners[1];
                assert(owners.contains(x));
                assert(owners.contains(y));
                assert(x != y);
                assert(self.owned()[x as int].contains(m));
                assert(self.owned()[y as int].contains(m));
            }
            if is_shared(self.owned(), m) {
                let (a, b) = choose|a: usize, b: usize|
                    a < b < self.owned().len() && #[trigger] self.owned()[a as int].contains(m)
                        && #[trigger] self.owned()[b as int].contains(m);
                assert(owners.contains(a));
                assert(owners.contains(b));
                let i = choose|i: int| 0 <= i < owners.len() && owners[i] == a;
                let j = choose|j: int| 0 <= j < owners.len() && owners[j] == b;
                assert(i != j);
            }
        }
        n > 1
    }

    /// Adds the edge between chunk `c` and module `m`. A chunk that already
    /// owns the module is left as it is.
    pub fn connect_chunk_and_module(&mut self, c: usize, m: usize)
        requires
            old(self).wf(),
            c < old(self).owned().len(),
            m < old(self).owners().len(),
        ensures
            final(self).wf(),
            final(self).owned() == connected(old(self).owned(), c, m),
            final(self).owners() == owners_connected(
                old(self).owned()[c as int],
                old(self).owners(),
                c,
                m,
            ),
    {
        if position(&self.chunk_modules[c], m).is_none() {
            let ghost row = self.owned()[c as int];
            let ghost col = self.owners()[m as int];
            assert(!col.contains(c));
            self.chunk_modules[c].push(m);
            self.module_chunks[m].push(c);
            proof {
                lemma_push_no_duplicates(row, m);
                lemma_push_no_duplicates(col, c);
                assert(self.owned() =~= old(self).owned().update(c as int, row.push(m)));
                assert(self.owners() =~= old(self).owners().update(m as int, col.push(c)));
                assert forall|k: usize, n: usize|
                    #![trigger self.owned()[k as int].contains(n)]
                    #![trigger self.owners()[n as int].contains(k)]
                    k < self.owned().len() && n < self.owners().len() implies (self.owned()[k as int]
                    .contains(n) <==> self.owners()[n as int].contains(k)) by {
                    lemma_push_contains(row, m, n);
                    lemma_push_contains(col, c, k);
                    assert(old(self).owned()[k as int].contains(n) <==> old(
                        self,
                    ).owners()[n as int].contains(k));
                }
            }
        } else {
            assert(self.owned() =~= connected(old(self).owned(), c, m));
            assert(self.owners() =~= old(self).owners());
        }
    }

    /// Removes the edge between chunk `c` and module `m`.
    pub fn disconnect_chunk_and_module(&mut self, c: usize, m: usize)
        requires
            old(self).wf(),
            c < old(self).owned().len(),
            old(self).owned()[c as int].contains(m),
        ensures
            final(self).wf(),
            final(self).owned() == disconnected(old(self).owned(), c, m),
            final(self).owners() == owners_disconnected(old(self).owners(), c, m),
    {
        let ghost row = self.owned()[c as int];
        proof {
            let i = choose|i: int| 0 <= i < row.len() && row[i] == m;
            assert(row[i] < self.owners().len());
        }
        let ghost col = self.owners()[m as int];
        assert(col.contains(c));
        let at = position(&self.chunk_modules[c], m).unwrap();
        let back = position(&self.module_chunks[m], c).unwrap();
        self.chunk_modules[c].remove(at);
        self.module_chunks[m].remove(back);
        proof {
            lemma_remove_is_filter(row, at as int, other_than(m));
            lemma_remove_is_filter(col, back as int, other_than(c));
            let row2 = row_without(row, m);
            let col2 = row_without(col, c);
            lemma_filter_no_duplicates(row, other_than(m));
            lemma_filter_no_duplicates(col, other_than(c));
            assert(self.owned() =~= old(self).owned().update(c as int, row2));
            assert(self.owners() =~= old(self).owners().update(m as int, col2));
            assert forall|r: int| 0 <= r < self.owned().len() implies (#[trigger] self.owned()[
                r
            ]).no_duplicates() && forall|i: int|
                0 <= i < self.owned()[r].len() ==> #[trigger] self.owned()[r][i]
                    < self.owners().len() by {
                if r == c {
                    assert forall|i: int| 0 <= i < row2.len() implies #[trigger] row2[i]
                        < self.owners().len() by {
                        assert(row2.contains(row2[i]));
                        lemma_filter_membership(row, other_than(m), row2[i]);
                        let j = choose|j: int| 0 <= j < row.len() && row[j] == row2[i];
                        assert(row[j] < old(self).owners().len());
                    }
                } else {
                    assert(self.owned()[r] == old(self).owned()[r]);
                }
            }
            assert forall|r: int| 0 <= r < self.owners().len() implies (#[trigger] self.owners()[
                r
            ]).no_duplicates() && forall|i: int|
                0 <= i < self.owners()[r].len() ==> #[trigger] self.owners()[r][i]
                    < self.owned().len() by {
                if r == m {
                    assert forall|i: int| 0 <= i < col2.len() implies #[trigger] col2[i]
                        < self.owned().len() by {
                        assert(col2.contains(col2[i]));
                        lemma_filter_membership(col, other_than(c), col2[i]);
                        let j = choose|j: int| 0 <= j < col.len() && col[j] == col2[i];
                        assert(col[j] < old(self).owned().len());
                    }
                } else {
                    assert(self.owners()[r] == old(self).owners()[r]);
                }
            }
            assert forall|k: usize, n: usize|
                #![trigger self.owned()[k as int].contains(n)]
                #![trigger self.owners()[n as int].contains(k)]
                k < self.owned().len() && n < self.owners().len() implies (self.owned()[k as int]
                .contains(n) <==> self.owners()[n as int].contains(k)) by {
                lemma_filter_membership(row, other_than(m), n);
                lemma_filter_membership(col, other_than(c), k);
                assert(old(self).owned()[k as int].contains(n) <==> old(
                    self,
                ).owners()[n as int].contains(k));
            }
        }
    }
}

} // verus!
