//! Searching a vector, and the facts about sequences on which the proofs of
//! the chunk graph and of the chunk groups rest.
use vstd::prelude::*;

verus! {

/// An element is kept by a filter exactly when it occurs in the sequence and
/// satisfies the predicate.
pub proof fn lemma_filter_membership<A>(s: Seq<A>, p: spec_fn(A) -> bool, x: A)
    ensures
        s.filter(p).contains(x) <==> s.contains(x) && p(x),
    decreases s.len(),
{
    reveal(Seq::filter);
    if s.len() > 0 {
        let rest = s.drop_last();
        lemma_filter_membership(rest, p, x);
        let kept = rest.filter(p);
        if s.contains(x) && p(x) {
            let i = choose|i: int| 0 <= i < s.len() && s[i] == x;
            if i == s.len() - 1 {
                assert(kept.push(s.last())[kept.len() as int] == x);
            } else {
                assert(rest[i] == x);
                let j = choose|j: int| 0 <= j < kept.len() && kept[j] == x;
                assert(s.filter(p)[j] == x);
            }
        }
        if s.filter(p).contains(x) {
            let j = choose|j: int| 0 <= j < s.filter(p).len() && s.filter(p)[j] == x;
            if p(s.last()) && j == kept.len() {
                assert(s[s.len() - 1] == x);
            } else {
                assert(kept[j] == x);
                let i = choose|i: int| 0 <= i < rest.len() && rest[i] == x;
                assert(s[i] == x);
            }
        }
    }
}

/// Filtering the first `i + 1` elements extends the filter of the first `i`
/// by the next element, if it satisfies the predicate.
pub proof fn lemma_filter_take_step<A>(s: Seq<A>, p: spec_fn(A) -> bool, i: int)
    requires
        0 <= i < s.len(),
    ensures
        s.take(i + 1).filter(p) == if p(s[i]) {
            s.take(i).filter(p).push(s[i])
        } else {
            s.take(i).filter(p)
        },
{
    reveal(Seq::filter);
    assert(s.take(i + 1).drop_last() =~= s.take(i));
}

/// Two predicates that agree on every element of a sequence filter it alike.
pub proof fn lemma_filter_congruence<A>(s: Seq<A>, p: spec_fn(A) -> bool, q: spec_fn(A) -> bool)
    requires
        forall|i: int| 0 <= i < s.len() ==> p(#[trigger] s[i]) == q(s[i]),
    ensures
        s.filter(p) == s.filter(q),
    decreases s.len(),
{
    reveal(Seq::filter);
    if s.len() > 0 {
        let rest = s.drop_last();
        assert forall|i: int| 0 <= i < rest.len() implies p(#[trigger] rest[i]) == q(rest[i]) by {
            assert(rest[i] == s[i]);
        }
        lemma_filter_congruence(rest, p, q);
    }
}

/// A predicate that holds of every element filters nothing out.
pub proof fn lemma_filter_all<A>(s: Seq<A>, p: spec_fn(A) -> bool)
    requires
        forall|i: int| 0 <= i < s.len() ==> p(#[trigger] s[i]),
    ensures
        s.filter(p) == s,
    decreases s.len(),
{
    reveal(Seq::filter);
    if s.len() > 0 {
        let rest = s.drop_last();
        assert forall|i: int| 0 <= i < rest.len() implies p(#[trigger] rest[i]) by {
            assert(rest[i] == s[i]);
        }
        lemma_filter_all(rest, p);
        assert(rest.push(s.last()) =~= s);
    }
}

/// A predicate that holds of no element filters everything out.
pub proof fn lemma_filter_none<A>(s: Seq<A>, p: spec_fn(A) -> bool)
    requires
        forall|i: int| 0 <= i < s.len() ==> !p(#[trigger] s[i]),
    ensures
        s.filter(p) == Seq::<A>::empty(),
{
    let kept = s.filter(p);
    if kept.len() > 0 {
        assert(kept.contains(kept[0]));
        lemma_filter_membership(s, p, kept[0]);
        let i = choose|i: int| 0 <= i < s.len() && s[i] == kept[0];
        assert(!p(s[i]));
    }
    assert(kept =~= Seq::<A>::empty());
}

/// Filtering twice is filtering once by a predicate that holds where both
/// hold.
pub proof fn lemma_filter_filter<A>(
    s: Seq<A>,
    p: spec_fn(A) -> bool,
    q: spec_fn(A) -> bool,
    both: spec_fn(A) -> bool,
)
    requires
        forall|i: int| 0 <= i < s.len() ==> both(#[trigger] s[i]) == (p(s[i]) && q(s[i])),
    ensures
        s.filter(p).filter(q) == s.filter(both),
    decreases s.len(),
{
    reveal(Seq::filter);
    if s.len() > 0 {
        let rest = s.drop_last();
        assert forall|i: int| 0 <= i < rest.len() implies both(#[trigger] rest[i]) == (p(rest[i])
            && q(rest[i])) by {
            assert(rest[i] == s[i]);
        }
        lemma_filter_filter(rest, p, q, both);
        assert(both(s[s.len() - 1]) == (p(s.last()) && q(s.last())));
        if p(s.last()) {
            let kept = rest.filter(p);
            assert(kept.push(s.last()).drop_last() =~= kept);
        }
    }
}

/// A filter keeps a sequence free of duplicates.
pub proof fn lemma_filter_no_duplicates<A>(s: Seq<A>, p: spec_fn(A) -> bool)
    requires
        s.no_duplicates(),
    ensures
        s.filter(p).no_duplicates(),
    decreases s.len(),
{
    reveal(Seq::filter);
    if s.len() > 0 {
        let rest = s.drop_last();
        lemma_filter_no_duplicates(rest, p);
        if p(s.last()) {
            lemma_filter_membership(rest, p, s.last());
            if rest.contains(s.last()) {
                let i = choose|i: int| 0 <= i < rest.len() && rest[i] == s.last();
                assert(s[i] == s[s.len() - 1]);
            }
            let kept = rest.filter(p);
            assert forall|i: int, j: int|
                0 <= i < kept.len() + 1 && 0 <= j < kept.len() + 1 && i != j implies kept.push(
                s.last(),
            )[i] != kept.push(s.last())[j] by {
                if i == kept.len() {
                    assert(kept[j] != s.last());
                } else if j == kept.len() {
                    assert(kept[i] != s.last());
                }
            }
        }
    }
}

/// In a sequence free of duplicates, removing the element at an index is
/// filtering by a predicate that holds of every other value.
pub proof fn lemma_remove_is_filter<A>(s: Seq<A>, i: int, keep: spec_fn(A) -> bool)
    requires
        s.no_duplicates(),
        0 <= i < s.len(),
        forall|j: int| 0 <= j < s.len() ==> keep(#[trigger] s[j]) == (s[j] != s[i]),
    ensures
        s.remove(i) == s.filter(keep),
    decreases s.len(),
{
    reveal(Seq::filter);
    let rest = s.drop_last();
    if i == s.len() - 1 {
        assert forall|j: int| 0 <= j < rest.len() implies keep(#[trigger] rest[j]) by {
            assert(rest[j] == s[j]);
        }
        lemma_filter_all(rest, keep);
        assert(!keep(s[s.len() - 1]));
        assert(s.remove(i) =~= rest);
    } else {
        assert(rest[i] == s[i]);
        assert forall|j: int| 0 <= j < rest.len() implies keep(#[trigger] rest[j]) == (rest[j]
            != rest[i]) by {
            assert(rest[j] == s[j]);
        }
        lemma_remove_is_filter(rest, i, keep);
        assert(keep(s[s.len() - 1]));
        assert(s.remove(i) =~= rest.remove(i).push(s.last()));
    }
}

/// What a sequence contains after a push.
pub proof fn lemma_push_contains<A>(s: Seq<A>, x: A, y: A)
    ensures
        s.push(x).contains(y) <==> s.contains(y) || y == x,
{
    if s.contains(y) {
        let i = choose|i: int| 0 <= i < s.len() && s[i] == y;
        assert(s.push(x)[i] == y);
    }
    if y == x {
        assert(s.push(x)[s.len() as int] == y);
    }
    if s.push(x).contains(y) {
        let i = choose|i: int| 0 <= i < s.push(x).len() && s.push(x)[i] == y;
        if i < s.len() {
            assert(s[i] == y);
        }
    }
}

/// Pushing a value that a duplicate-free sequence lacks keeps it duplicate-free.
pub proof fn lemma_push_no_duplicates<A>(s: Seq<A>, x: A)
    requires
        s.no_duplicates(),
        !s.contains(x),
    ensures
        s.push(x).no_duplicates(),
{
    assert forall|i: int, j: int|
        0 <= i < s.len() + 1 && 0 <= j < s.len() + 1 && i != j implies s.push(x)[i] != s.push(
        x,
    )[j] by {
        if i == s.len() {
            assert(s[j] != x);
        } else if j == s.len() {
            assert(s[i] != x);
        }
    }
}

/// What a sequence contains after an insertion.
pub proof fn lemma_insert_contains<A>(s: Seq<A>, at: int, x: A, y: A)
    requires
        0 <= at <= s.len(),
    ensures
        s.insert(at, x).contains(y) <==> s.contains(y) || y == x,
{
    let t = s.insert(at, x);
    if s.contains(y) {
        let i = choose|i: int| 0 <= i < s.len() && s[i] == y;
        if i < at {
            assert(t[i] == y);
        } else {
            assert(t[i + 1] == y);
        }
    }
    if y == x {
        assert(t[at] == y);
    }
    if t.contains(y) {
        let i = choose|i: int| 0 <= i < t.len() && t[i] == y;
        if i < at {
            assert(s[i] == y);
        } else if i > at {
            assert(s[i - 1] == y);
        }
    }
}

/// Inserting a value that a duplicate-free sequence lacks keeps it
/// duplicate-free.
pub proof fn lemma_insert_no_duplicates<A>(s: Seq<A>, at: int, x: A)
    requires
        0 <= at <= s.len(),
        s.no_duplicates(),
        !s.contains(x),
    ensures
        s.insert(at, x).no_duplicates(),
{
    let t = s.insert(at, x);
    assert forall|i: int, j: int| 0 <= i < t.len() && 0 <= j < t.len() && i != j implies t[i]
        != t[j] by {
        let a = if i < at {
            i
        } else {
            i - 1
        };
        let b = if j < at {
            j
        } else {
            j - 1
        };
        if i == at {
            assert(s[b] != x);
        } else if j == at {
            assert(s[a] != x);
        } else {
            assert(s[a] != s[b]);
        }
    }
}

/// In a duplicate-free sequence a value has one position only.
pub proof fn lemma_index_of_unique<A>(s: Seq<A>, at: int)
    requires
        0 <= at < s.len(),
        s.no_duplicates(),
    ensures
        s.index_of(s[at]) == at,
{
    let i = s.index_of(s[at]);
    assert(0 <= i < s.len() && s[i] == s[at]);
}

/// The first position of `x` in `v`, if it occurs there.
pub fn position(v: &Vec<usize>, x: usize) -> (r: Option<usize>)
    ensures
        match r {
            Some(i) => i < v@.len() && v@[i as int] == x && forall|j: int|
                0 <= j < i ==> v@[j] != x,
            None => !v@.contains(x),
        },
{
    let mut i: usize = 0;
    while i < v.len()
        invariant
            i <= v@.len(),
            forall|j: int| 0 <= j < i ==> v@[j] != x,
        decreases v@.len() - i,
    {
        if v[i] == x {
            return Some(i);
        }
        i += 1;
    }
    None
}

} // verus!
