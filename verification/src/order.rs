//! Orders: the lexicographic order on sequences, and a stable sort that
//! hands back positions rather than moving values.
//!
//! The sort is what every listing in this crate goes through — scenes by
//! number, files by name, recordings in natural order — so its contract is the
//! one they all lean on: the result is a rearrangement of the input, in order,
//! and things that compare equal keep the order they arrived in.

use vstd::prelude::*;

verus! {

/// `le` is total: any two values compare one way or the other.
pub open spec fn is_total<A>(le: spec_fn(A, A) -> bool) -> bool {
    forall|x: A, y: A| #[trigger] le(x, y) || le(y, x)
}

/// `le` is transitive.
pub open spec fn is_transitive<A>(le: spec_fn(A, A) -> bool) -> bool {
    forall|x: A, y: A, z: A| #[trigger] le(x, y) && #[trigger] le(y, z) ==> le(x, z)
}

/// `le` only holds both ways between equal values.
pub open spec fn is_antisymmetric<A>(le: spec_fn(A, A) -> bool) -> bool {
    forall|x: A, y: A| #[trigger] le(x, y) && le(y, x) ==> x == y
}

/// `le` is a total order.
pub open spec fn is_total_order<A>(le: spec_fn(A, A) -> bool) -> bool {
    is_total(le) && is_transitive(le) && is_antisymmetric(le)
}

/// The lexicographic order on sequences built from `le` on their elements:
/// the first place they differ decides, and a prefix comes first.
pub open spec fn lex_le<A>(a: Seq<A>, b: Seq<A>, le: spec_fn(A, A) -> bool) -> bool
    decreases a.len(),
{
    if a.len() == 0 {
        true
    } else if b.len() == 0 {
        false
    } else if !le(b[0], a[0]) {
        true
    } else if !le(a[0], b[0]) {
        false
    } else {
        lex_le(a.drop_first(), b.drop_first(), le)
    }
}

/// The lexicographic order is total.
pub proof fn lemma_lex_total<A>(a: Seq<A>, b: Seq<A>, le: spec_fn(A, A) -> bool)
    requires
        is_total(le),
    ensures
        lex_le(a, b, le) || lex_le(b, a, le),
    decreases a.len(),
{
    if a.len() > 0 && b.len() > 0 && le(b[0], a[0]) && le(a[0], b[0]) {
        lemma_lex_total(a.drop_first(), b.drop_first(), le);
    }
}

/// The lexicographic order is antisymmetric.
pub proof fn lemma_lex_antisymmetric<A>(a: Seq<A>, b: Seq<A>, le: spec_fn(A, A) -> bool)
    requires
        is_total(le),
        is_antisymmetric(le),
        lex_le(a, b, le),
        lex_le(b, a, le),
    ensures
        a == b,
    decreases a.len(),
{
    if a.len() > 0 {
        assert(le(a[0], b[0]) || le(b[0], a[0]));
        assert(le(a[0], b[0]) && le(b[0], a[0]));
        assert(a[0] == b[0]);
        lemma_lex_antisymmetric(a.drop_first(), b.drop_first(), le);
        assert(a =~= seq![a[0]] + a.drop_first());
        assert(b =~= seq![b[0]] + b.drop_first());
    } else {
        assert(b.len() == 0);
        assert(a =~= b);
    }
}

/// The lexicographic order is transitive.
pub proof fn lemma_lex_transitive<A>(a: Seq<A>, b: Seq<A>, c: Seq<A>, le: spec_fn(A, A) -> bool)
    requires
        is_total_order(le),
        lex_le(a, b, le),
        lex_le(b, c, le),
    ensures
        lex_le(a, c, le),
    decreases a.len(),
{
    if a.len() > 0 {
        let (x, y, z) = (a[0], b[0], c[0]);
        assert(le(x, y) || le(y, x));
        assert(le(y, z) || le(z, y));
        if le(y, x) && le(x, y) && le(z, y) && le(y, z) {
            lemma_lex_transitive(a.drop_first(), b.drop_first(), c.drop_first(), le);
            assert(x == y && y == z);
        } else if le(z, x) {
            if le(y, x) && le(x, y) {
                assert(x == y);
            } else {
                assert(le(z, y) ==> le(z, x) && le(x, y));
            }
        }
    }
}

/// The order on keys a listing is sorted by.
pub trait SortKey: Sized {
    /// `self` sorts no later than `other`.
    spec fn key_le(self, other: Self) -> bool;

    /// Any two keys compare, and the comparison is transitive.
    proof fn lemma_key_order()
        ensures
            is_total(|x: Self, y: Self| x.key_le(y)),
            is_transitive(|x: Self, y: Self| x.key_le(y)),
    ;

    /// Whether `self` sorts no later than `other`.
    fn le(&self, other: &Self) -> (r: bool)
        ensures
            r == self.key_le(*other),
    ;
}

/// Whether `order` lists each position below `n` exactly once.
pub open spec fn is_permutation(order: Seq<usize>, n: nat) -> bool {
    &&& order.len() == n
    &&& forall|p: int| 0 <= p < n ==> #[trigger] order[p] < n
    &&& forall|p: int, q: int| 0 <= p < q < n ==> order[p] != order[q]
    &&& forall|i: int| 0 <= i < n ==> #[trigger] appears_in(order, i)
}

/// Whether `i` is listed somewhere in `order`.
pub open spec fn appears_in(order: Seq<usize>, i: int) -> bool {
    exists|p: int| 0 <= p < order.len() && order[p] == i
}

/// Whether `order` puts the keys in order, earlier positions first among
/// equal keys.
pub open spec fn is_stably_sorted<K: SortKey>(keys: Seq<K>, order: Seq<usize>) -> bool {
    forall|p: int, q: int|
        0 <= p < q < order.len() ==> {
            &&& (#[trigger] keys[order[p] as int]).key_le(#[trigger] keys[order[q] as int])
            &&& (keys[order[q] as int].key_le(keys[order[p] as int]) ==> order[p] < order[q])
        }
}

/// The positions of `keys`, in the order a stable sort would put them.
pub fn stable_order<K: SortKey>(keys: &Vec<K>) -> (order: Vec<usize>)
    ensures
        is_permutation(order@, keys@.len()),
        is_stably_sorted(keys@, order@),
{
    proof {
        K::lemma_key_order();
    }
    let ghost le = |x: K, y: K| x.key_le(y);
    let n = keys.len();
    let mut order: Vec<usize> = Vec::new();
    let mut i: usize = 0;
    while i < n
        invariant
            n == keys@.len(),
            0 <= i <= n,
            is_total(le),
            is_transitive(le),
            le == (|x: K, y: K| x.key_le(y)),
            order@.len() == i,
            forall|p: int| 0 <= p < i ==> #[trigger] order@[p] < i,
            forall|p: int, q: int| 0 <= p < q < i ==> order@[p] != order@[q],
            forall|j: int| 0 <= j < i ==> #[trigger] appears_in(order@, j),
            is_stably_sorted(keys@, order@),
        decreases n - i,
    {
        let mut pos: usize = i;
        while pos > 0 && !keys[order[pos - 1]].le(&keys[i])
            invariant
                n == keys@.len(),
                i < n,
                0 <= pos <= i,
                order@.len() == i,
                forall|p: int| 0 <= p < i ==> #[trigger] order@[p] < i,
                forall|p: int| pos <= p < i ==> !(#[trigger] keys@[order@[p] as int]).key_le(
                    keys@[i as int],
                ),
            decreases pos,
        {
            pos = pos - 1;
        }
        let ghost before = order@;
        proof {
            if pos > 0 {
                let k = keys@[i as int];
                let last = keys@[before[pos - 1] as int];
                assert(last.key_le(k));
                assert forall|p: int| 0 <= p < pos implies (#[trigger] keys@[before[p] as int]).key_le(
                    k,
                ) by {
                    if p < pos - 1 {
                        assert(keys@[before[p] as int].key_le(keys@[before[pos - 1] as int]));
                        assert(le(keys@[before[p] as int], last) && le(last, k));
                    }
                }
            }
        }
        order.insert(pos, i);
        proof {
            assert forall|j: int| 0 <= j < i + 1 implies #[trigger] appears_in(order@, j) by {
                if j == i {
                    assert(order@[pos as int] == j);
                } else {
                    assert(appears_in(before, j));
                    let p = choose|p: int| 0 <= p < before.len() && before[p] == j;
                    if p < pos {
                        assert(order@[p] == j);
                    } else {
                        assert(order@[p + 1] == j);
                    }
                }
            }
            let k = keys@[i as int];
            assert forall|p: int, q: int| 0 <= p < q < order@.len() implies {
                &&& (#[trigger] keys@[order@[p] as int]).key_le(#[trigger] keys@[order@[q] as int])
                &&& (keys@[order@[q] as int].key_le(keys@[order@[p] as int]) ==> order@[p]
                    < order@[q])
            } by {
                if p < pos && q == pos {
                    assert(order@[p] == before[p]);
                    assert(keys@[before[p] as int].key_le(k));
                } else if p == pos {
                    assert(order@[q] == before[q - 1]);
                    let other = keys@[before[q - 1] as int];
                    assert(!other.key_le(k));
                    assert(le(other, k) || le(k, other));
                } else if p < pos && q < pos {
                    assert(order@[p] == before[p] && order@[q] == before[q]);
                } else if p < pos {
                    assert(order@[p] == before[p] && order@[q] == before[q - 1]);
                } else {
                    assert(order@[p] == before[p - 1] && order@[q] == before[q - 1]);
                }
            }
        }
        i = i + 1;
    }
    order
}

/// `u64` keys in ascending order.
impl SortKey for u64 {
    open spec fn key_le(self, other: Self) -> bool {
        self <= other
    }

    proof fn lemma_key_order() {
    }

    fn le(&self, other: &Self) -> (r: bool) {
        *self <= *other
    }
}

} // verus!
