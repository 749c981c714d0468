use crate::bound_op::{dedup_equiv, dedup_from, dedup_solutions, lemma_eval_wf, lemma_equiv_reflexive, lemma_node_count, seqs_equiv, BoundOp, Solutions};
use crate::op::{default_universe, Op, Ops};
use crate::rat::Rat;
use itertools::Itertools;
use vstd::pervasive::VecAdditionalExecFns;
use vstd::prelude::*;
use vstd::slice::slice_subrange;

verus! {

broadcast use vstd::seq_lib::group_seq_properties;

/// Each tuple of `ts`, with the coordinate `x` put in front.
pub open spec fn prefixed(ts: Seq<Seq<usize>>, x: usize) -> Seq<Seq<usize>> {
    Seq::new(ts.len(), |j: int| seq![x] + ts[j])
}

/// All index tuples over `sizes` whose leading coordinate lies below `k`,
/// in lexicographic order.
pub open spec fn tuples_below(sizes: Seq<usize>, k: int) -> Seq<Seq<usize>>
    decreases sizes.len(), k,
{
    if sizes.len() == 0 || k <= 0 {
        Seq::empty()
    } else {
        tuples_below(sizes, k - 1) + prefixed(all_tuples(sizes.drop_first()), (k - 1) as usize)
    }
}

/// Every index tuple over the dimension sizes `sizes`, in lexicographic
/// order; the empty list of dimensions has exactly the empty tuple.
pub open spec fn all_tuples(sizes: Seq<usize>) -> Seq<Seq<usize>>
    decreases sizes.len(), sizes[0] as int + 1,
{
    if sizes.len() == 0 {
        seq![Seq::<usize>::empty()]
    } else {
        tuples_below(sizes, sizes[0] as int)
    }
}

/// An index tuple picks one index per dimension.
pub open spec fn valid_tuple(sizes: Seq<usize>, t: Seq<usize>) -> bool {
    t.len() == sizes.len() && forall|j: int| 0 <= j < t.len() ==> t[j] < sizes[j]
}

proof fn lemma_tuples_below_valid(sizes: Seq<usize>, k: int)
    requires
        sizes.len() >= 1,
        k <= sizes[0],
    ensures
        forall|i: int|
            0 <= i < tuples_below(sizes, k).len() ==> valid_tuple(
                sizes,
                #[trigger] tuples_below(sizes, k)[i],
            ),
    decreases sizes.len(), k,
{
    if k > 0 {
        lemma_tuples_below_valid(sizes, k - 1);
        lemma_all_tuples_valid(sizes.drop_first());
        let left = tuples_below(sizes, k - 1);
        let mapped = prefixed(all_tuples(sizes.drop_first()), (k - 1) as usize);
        assert forall|i: int|
            0 <= i < tuples_below(sizes, k).len() implies valid_tuple(
            sizes,
            #[trigger] tuples_below(sizes, k)[i],
        ) by {
            if i >= left.len() {
                let t = all_tuples(sizes.drop_first())[i - left.len()];
                assert(valid_tuple(sizes.drop_first(), t));
                let full = seq![(k - 1) as usize] + t;
                assert(tuples_below(sizes, k)[i] == full);
                assert(full[0] == (k - 1) as usize);
                assert forall|j: int| 0 <= j < full.len() implies full[j] < sizes[j] by {
                    if j > 0 {
                        assert(full[j] == t[j - 1]);
                        assert(t[j - 1] < sizes.drop_first()[j - 1]);
                    }
                }
            }
        }
    }
}

/// Every emitted tuple is a valid index tuple for `sizes`.
pub proof fn lemma_all_tuples_valid(sizes: Seq<usize>)
    ensures
        forall|i: int|
            0 <= i < all_tuples(sizes).len() ==> valid_tuple(
                sizes,
                #[trigger] all_tuples(sizes)[i],
            ),
    decreases sizes.len(), sizes[0] as int + 1,
{
    if sizes.len() == 0 {
        assert forall|i: int|
            0 <= i < all_tuples(sizes).len() implies valid_tuple(
            sizes,
            #[trigger] all_tuples(sizes)[i],
        ) by {
            assert(all_tuples(sizes)[i] == Seq::<usize>::empty());
        }
    } else {
        lemma_tuples_below_valid(sizes, sizes[0] as int);
        assert forall|i: int|
            0 <= i < all_tuples(sizes).len() implies valid_tuple(
            sizes,
            #[trigger] all_tuples(sizes)[i],
        ) by {
            assert(all_tuples(sizes)[i] == tuples_below(sizes, sizes[0] as int)[i]);
        }
    }
}

/// The view of a list of index tuples.
pub open spec fn tuple_views(r: Seq<Vec<usize>>) -> Seq<Seq<usize>> {
    r.map_values(|t: Vec<usize>| t@)
}

/// Materialises every index tuple over `sizes`, in lexicographic order.
pub fn index_tuples(sizes: &[usize]) -> (r: Vec<Vec<usize>>)
    ensures
        tuple_views(r@) == all_tuples(sizes@),
    decreases sizes@.len(),
{
    if sizes.len() == 0 {
        let mut r: Vec<Vec<usize>> = Vec::new();
        r.push(Vec::new());
        proof {
            assert(tuple_views(r@) =~= all_tuples(sizes@));
        }
        r
    } else {
        let rest = index_tuples(slice_subrange(sizes, 1, sizes.len()));
        proof {
            assert(sizes@.subrange(1, sizes@.len() as int) =~= sizes@.drop_first());
        }
        let mut r: Vec<Vec<usize>> = Vec::new();
        proof {
            assert(tuple_views(r@) =~= tuples_below(sizes@, 0));
        }
        let s0 = sizes[0];
        let mut i: usize = 0;
        while i < s0
            invariant
                sizes@.len() >= 1,
                s0 == sizes@[0],
                i <= s0,
                tuple_views(rest@) == all_tuples(sizes@.drop_first()),
                tuple_views(r@) == tuples_below(sizes@, i as int),
            decreases s0 - i,
        {
            let ghost mapped = prefixed(all_tuples(sizes@.drop_first()), i);
            let mut j: usize = 0;
            while j < rest.len()
                invariant
                    sizes@.len() >= 1,
                    s0 == sizes@[0],
                    i < s0,
                    j <= rest@.len(),
                    tuple_views(rest@) == all_tuples(sizes@.drop_first()),
                    mapped == prefixed(all_tuples(sizes@.drop_first()), i),
                    tuple_views(r@) == tuples_below(sizes@, i as int) + mapped.take(j as int),
                decreases rest@.len() - j,
            {
                let rj = &rest[j];
                let mut t: Vec<usize> = Vec::new();
                t.push(i);
                let mut k: usize = 0;
                while k < rj.len()
                    invariant
                        k <= rj@.len(),
                        t@ == seq![i as usize] + rj@.take(k as int),
                    decreases rj@.len() - k,
                {
                    t.push(rj[k]);
                    proof {
                        assert(t@ =~= seq![i as usize] + rj@.take(k + 1));
                    }
                    k = k + 1;
                }
                proof {
                    assert(rj@.take(rj@.len() as int) =~= rj@);
                    assert(t@ == seq![i as usize] + rj@);
                    assert(rj@ == tuple_views(rest@)[j as int]);
                    assert(t@ == mapped[j as int]);
                }
                let ghost old_r = r@;
                r.push(t);
                proof {
                    assert(tuple_views(r@) =~= tuple_views(old_r).push(t@));
                    assert(mapped.take(j + 1) =~= mapped.take(j as int).push(mapped[j as int]));
                    assert(tuple_views(old_r).push(t@) =~= tuples_below(sizes@, i as int)
                        + mapped.take(j + 1));
                }
                j = j + 1;
            }
            proof {
                assert(mapped.take(rest@.len() as int) =~= mapped);
                assert(tuples_below(sizes@, i + 1) == tuples_below(sizes@, i as int) + prefixed(
                    all_tuples(sizes@.drop_first()),
                    (i + 1 - 1) as usize,
                ));
            }
            i = i + 1;
        }
        proof {
            assert(tuple_views(r@) == tuples_below(sizes@, sizes@[0] as int));
        }
        r
    }
}

/// The views of a list of card orderings.
pub open spec fn card_views(s: Seq<Vec<u8>>) -> Seq<Seq<u8>> {
    s.map_values(|x: Vec<u8>| x@)
}

/// The views of a list of operation sequences.
pub open spec fn ops_views(s: Seq<Ops>) -> Seq<Seq<Op>> {
    s.map_values(|o: Ops| o@)
}

/// Whether the ordering at `i` already occurred earlier in `s`.
pub open spec fn seen_earlier(s: Seq<Seq<u8>>, i: int) -> bool {
    exists|j: int| 0 <= j < i && s[j] == s[i]
}

/// The first `i` orderings of `s`, first occurrences only: an ordering
/// value-equal to any earlier one is suppressed, wherever it stands.
pub open spec fn distinct_upto(s: Seq<Seq<u8>>, i: int) -> Seq<Seq<u8>>
    decreases i,
{
    if i <= 0 {
        Seq::empty()
    } else if seen_earlier(s, i - 1) {
        distinct_upto(s, i - 1)
    } else {
        distinct_upto(s, i - 1).push(s[i - 1])
    }
}

/// The orderings of `s` deduplicated by value content: each distinct
/// value-ordering is kept exactly once, at its first occurrence.
pub open spec fn distinct_seqs(s: Seq<Seq<u8>>) -> Seq<Seq<u8>> {
    distinct_upto(s, s.len() as int)
}

/// The kept orderings are exactly the values occurring in the prefix.
pub proof fn lemma_distinct_upto_contains(s: Seq<Seq<u8>>, i: int)
    ensures
        forall|x: Seq<u8>|
            #[trigger] distinct_upto(s, i).contains(x) <==> exists|j: int|
                0 <= j < i && s[j] == x,
    decreases i,
{
    if i > 0 {
        lemma_distinct_upto_contains(s, i - 1);
        let d = distinct_upto(s, i);
        let dp = distinct_upto(s, i - 1);
        assert forall|x: Seq<u8>| #[trigger] d.contains(x) implies exists|j: int|
            0 <= j < i && s[j] == x by {
            if seen_earlier(s, i - 1) {
                assert(dp.contains(x));
            } else {
                let k = choose|k: int| 0 <= k < d.len() && d[k] == x;
                if k < dp.len() {
                    assert(dp.contains(x)) by {
                        assert(dp[k] == x);
                    }
                } else {
                    assert(s[i - 1] == x);
                }
            }
        }
        assert forall|x: Seq<u8>| (exists|j: int| 0 <= j < i && s[j] == x) implies #[trigger] d
            .contains(x) by {
            let j = choose|j: int| 0 <= j < i && s[j] == x;
            if j < i - 1 {
                assert(dp.contains(x));
                let k = choose|k: int| 0 <= k < dp.len() && dp[k] == x;
                assert(d[k] == x);
            } else {
                if seen_earlier(s, i - 1) {
                    assert(dp.contains(x));
                    let k = choose|k: int| 0 <= k < dp.len() && dp[k] == x;
                    assert(d[k] == x);
                } else {
                    assert(d[d.len() - 1] == x);
                }
            }
        }
    }
}

/// The kept orderings are pairwise distinct.
proof fn lemma_distinct_upto_distinct(s: Seq<Seq<u8>>, i: int)
    ensures
        forall|a: int, b: int|
            0 <= a < distinct_upto(s, i).len() && 0 <= b < distinct_upto(s, i).len() && a != b
                ==> #[trigger] distinct_upto(s, i)[a] != #[trigger] distinct_upto(s, i)[b],
    decreases i,
{
    if i > 0 {
        lemma_distinct_upto_distinct(s, i - 1);
        lemma_distinct_upto_contains(s, i - 1);
        let d = distinct_upto(s, i);
        let dp = distinct_upto(s, i - 1);
        assert forall|a: int, b: int|
            0 <= a < d.len() && 0 <= b < d.len() && a != b implies #[trigger] d[a]
            != #[trigger] d[b] by {
            if !seen_earlier(s, i - 1) {
                if a < dp.len() && b < dp.len() {
                    assert(d[a] == dp[a] && d[b] == dp[b]);
                } else if a < dp.len() {
                    assert(d[b] == s[i - 1] && d[a] == dp[a]);
                    if dp[a] == s[i - 1] {
                        assert(dp.contains(s[i - 1])) by {
                            assert(dp[a] == s[i - 1]);
                        }
                        assert(seen_earlier(s, i - 1));
                    }
                } else {
                    assert(d[a] == s[i - 1] && d[b] == dp[b]);
                    if dp[b] == s[i - 1] {
                        assert(dp.contains(s[i - 1])) by {
                            assert(dp[b] == s[i - 1]);
                        }
                        assert(seen_earlier(s, i - 1));
                    }
                }
            } else {
                assert(d[a] == dp[a] && d[b] == dp[b]);
            }
        }
    }
}

/// A list whose orderings all equal the first collapses to that one
/// ordering.
proof fn lemma_distinct_upto_constant(s: Seq<Seq<u8>>, i: int)
    requires
        1 <= i <= s.len(),
        forall|j: int| 0 <= j < s.len() ==> #[trigger] s[j] == s[0],
    ensures
        distinct_upto(s, i) == seq![s[0]],
    decreases i,
{
    if i == 1 {
        assert(!seen_earlier(s, 0));
        assert(distinct_upto(s, 0) == Seq::<Seq<u8>>::empty());
        assert(Seq::<Seq<u8>>::empty().push(s[0]) =~= seq![s[0]]);
    } else {
        lemma_distinct_upto_constant(s, i - 1);
        assert(s[i - 2] == s[i - 1]);
        assert(seen_earlier(s, i - 1));
    }
}

/// Compares two card orderings by value.
fn vec_u8_eq(a: &Vec<u8>, b: &Vec<u8>) -> (r: bool)
    ensures
        r == (a@ == b@),
{
    if a.len() != b.len() {
        return false;
    }
    let n = a.len();
    let mut i: usize = 0;
    while i < n
        invariant
            n == a@.len(),
            n == b@.len(),
            i <= n,
            forall|j: int| 0 <= j < i ==> a@[j] == b@[j],
        decreases n - i,
    {
        if a[i] != b[i] {
            return false;
        }
        i = i + 1;
    }
    proof {
        assert(a@ =~= b@);
    }
    true
}

/// Clones a card ordering.
fn clone_cards(v: &Vec<u8>) -> (r: Vec<u8>)
    ensures
        r@ == v@,
{
    let r = v.clone();
    proof {
        assert(r@ =~= v@);
    }
    r
}

/// Each ordering of `ts`, with the value `x` put in front.
pub open spec fn perm_prefixed(x: u8, ts: Seq<Seq<u8>>) -> Seq<Seq<u8>> {
    Seq::new(ts.len(), |j: int| seq![x] + ts[j])
}

/// The orderings of `cards` whose leading card is drawn from a position
/// below `k`, in lexicographic position order.
pub open spec fn perms_below(cards: Seq<u8>, k: int) -> Seq<Seq<u8>>
    decreases cards.len(), k,
{
    if cards.len() == 0 || k <= 0 || k > cards.len() {
        Seq::empty()
    } else {
        perms_below(cards, k - 1) + perm_prefixed(cards[k - 1], perms_of(cards.remove(k - 1)))
    }
}

/// Every ordering of `cards`, one per permutation of the positions, in
/// lexicographic position order; the empty hand has exactly the empty
/// ordering.
pub open spec fn perms_of(cards: Seq<u8>) -> Seq<Seq<u8>>
    decreases cards.len(), cards.len() + 1,
{
    if cards.len() == 0 {
        seq![Seq::<u8>::empty()]
    } else {
        perms_below(cards, cards.len() as int)
    }
}

/// Every hand has at least its own ordering; the very first emitted
/// ordering is the hand itself.
pub proof fn lemma_perms_of_first(cards: Seq<u8>)
    requires
        cards.len() >= 1,
    ensures
        perms_of(cards).len() >= 1,
        perms_of(cards)[0] == cards,
    decreases cards.len(),
{
    if cards.len() == 1 {
        assert(cards.remove(0) =~= Seq::<u8>::empty());
        assert(perms_of(cards.remove(0)) == seq![Seq::<u8>::empty()]);
    } else {
        lemma_perms_of_first(cards.remove(0));
    }
    lemma_perms_below_first(cards, cards.len() as int);
    assert(perms_of(cards.remove(0))[0] == cards.remove(0));
    assert(seq![cards[0]] + cards.remove(0) =~= cards);
}

proof fn lemma_perms_below_first(cards: Seq<u8>, k: int)
    requires
        cards.len() >= 1,
        1 <= k <= cards.len(),
    ensures
        perms_below(cards, k).len() >= 1,
        perms_below(cards, k)[0] == seq![cards[0]] + perms_of(cards.remove(0))[0],
        perms_of(cards.remove(0)).len() >= 1,
    decreases cards.len(), k,
{
    if cards.len() == 1 {
        assert(cards.remove(0) =~= Seq::<u8>::empty());
        assert(perms_of(cards.remove(0)) == seq![Seq::<u8>::empty()]);
    } else {
        lemma_perms_below_first(cards.remove(0), cards.remove(0).len() as int);
    }
    if k == 1 {
        assert(perms_below(cards, 0) == Seq::<Seq<u8>>::empty());
        let block = perm_prefixed(cards[0], perms_of(cards.remove(0)));
        assert(perms_below(cards, 1) =~= block);
        assert(block[0] == seq![cards[0]] + perms_of(cards.remove(0))[0]);
    } else {
        lemma_perms_below_first(cards, k - 1);
        assert(perms_below(cards, k)[0] == perms_below(cards, k - 1)[0]);
    }
}

/// Every emitted ordering holds exactly the cards of the hand.
pub proof fn lemma_perms_of_multiset(cards: Seq<u8>)
    ensures
        forall|i: int|
            0 <= i < perms_of(cards).len() ==> (#[trigger] perms_of(cards)[i]).to_multiset()
                == cards.to_multiset(),
    decreases cards.len(),
{
    broadcast use vstd::seq_lib::group_to_multiset_ensures;

    if cards.len() >= 1 {
        lemma_perms_below_multiset(cards, cards.len() as int);
        assert forall|i: int|
            0 <= i < perms_of(cards).len() implies (#[trigger] perms_of(cards)[i]).to_multiset()
            == cards.to_multiset() by {
            assert(perms_of(cards)[i] == perms_below(cards, cards.len() as int)[i]);
        }
    } else {
        assert forall|i: int|
            0 <= i < perms_of(cards).len() implies (#[trigger] perms_of(cards)[i]).to_multiset()
            == cards.to_multiset() by {
            assert(perms_of(cards)[i] == Seq::<u8>::empty());
            assert(Seq::<u8>::empty().to_multiset() =~= cards.to_multiset());
        }
    }
}

proof fn lemma_perms_below_multiset(cards: Seq<u8>, k: int)
    requires
        cards.len() >= 1,
        0 <= k <= cards.len(),
    ensures
        forall|i: int|
            0 <= i < perms_below(cards, k).len() ==> (#[trigger] perms_below(cards, k)[i]).to_multiset()
                == cards.to_multiset(),
    decreases cards.len(), k,
{
    broadcast use vstd::seq_lib::group_to_multiset_ensures;

    if k >= 1 {
        lemma_perms_below_multiset(cards, k - 1);
        let rest = cards.remove(k - 1);
        lemma_perms_of_multiset(rest);
        let left = perms_below(cards, k - 1);
        let block = perm_prefixed(cards[k - 1], perms_of(rest));
        assert forall|i: int|
            0 <= i < perms_below(cards, k).len() implies (#[trigger] perms_below(cards, k)[i]).to_multiset()
            == cards.to_multiset() by {
            if i >= left.len() {
                let q = perms_of(rest)[i - left.len()];
                assert(perms_below(cards, k)[i] == seq![cards[k - 1]] + q);
                assert(q.to_multiset() == rest.to_multiset());
                assert((seq![cards[k - 1]] + q).to_multiset() == q.to_multiset().insert(
                    cards[k - 1],
                )) by {
                    assert(seq![cards[k - 1]] + q =~= q.insert(0, cards[k - 1]));
                    vstd::seq_lib::to_multiset_insert(q, 0, cards[k - 1]);
                }
                assert(rest.to_multiset().insert(cards[k - 1]) == cards.to_multiset()) by {
                    cards.to_multiset_ensures();
                    assert(cards.remove(k - 1).to_multiset() == cards.to_multiset().remove(
                        cards[k - 1],
                    ));
                    assert(cards.to_multiset().contains(cards[k - 1])) by {
                        assert(cards.contains(cards[k - 1]));
                    }
                    assert(cards.to_multiset().remove(cards[k - 1]).insert(cards[k - 1])
                        =~= cards.to_multiset());
                }
            }
        }
    }
}

/// Relies on the `permutations` adaptor of `itertools` (with the group
/// size equal to the input length): it emits every ordering of the input
/// positions in lexicographic position order, which is exactly the list
/// `perms_of` defines; in particular at least one ordering comes out, the
/// first is the input itself, and every ordering holds exactly the input
/// values.
#[verifier::external_body]
fn raw_permutations(cards: &Vec<u8>) -> (r: Vec<Vec<u8>>)
    ensures
        card_views(r@) == perms_of(cards@),
{
    cards.iter().cloned().permutations(cards.len()).collect()
}

/// An ordering with the same values as an all-equal ordering is that
/// ordering itself.
proof fn lemma_multiset_equal_constant(t: Seq<u8>, s: Seq<u8>)
    requires
        t.to_multiset() == s.to_multiset(),
        forall|i: int, j: int| 0 <= i < s.len() && 0 <= j < s.len() ==> s[i] == s[j],
    ensures
        t == s,
{
    broadcast use vstd::seq_lib::group_to_multiset_ensures;

    t.to_multiset_ensures();
    s.to_multiset_ensures();
    assert(t.len() == s.len());
    assert forall|i: int| 0 <= i < t.len() implies t[i] == s[i] by {
        assert(t.contains(t[i]));
        assert(t.to_multiset().count(t[i]) > 0);
        assert(s.contains(t[i]));
    }
    assert(t =~= s);
}

/// A group of cards.
#[derive(Debug)]
pub struct Cards {
    /// The numbers; the list must not be empty.
    cards: Vec<u8>,
    /// Permitted operations.
    ops: Ops,
}

impl Clone for Cards {
    /// A clone holds the same cards and the same operator universe.
    fn clone(&self) -> (r: Self)
        ensures
            r.cards_view() == self.cards_view(),
            r.ops_view() == self.ops_view(),
    {
        Cards { cards: clone_cards(&self.cards), ops: self.ops.clone() }
    }
}

impl Cards {
    /// The card values, in hand order.
    pub closed spec fn cards_view(self) -> Seq<u8> {
        self.cards@
    }

    /// The operator universe the solver may draw from.
    pub closed spec fn ops_view(self) -> Seq<Op> {
        self.ops@
    }

    /// A well-formed hand holds at least one card.
    pub open spec fn wf(self) -> bool {
        self.cards_view().len() >= 1
    }

    /// A hand with the default operator universe.
    pub fn new(cards: Vec<u8>) -> (r: Self)
        requires
            cards@.len() >= 1,
        ensures
            r.cards_view() == cards@,
            r.ops_view() == default_universe(),
            r.wf(),
    {
        Cards { cards, ops: Ops::default() }
    }

    /// A hand with a custom set of operations.
    pub fn with_ops(cards: Vec<u8>, ops: Ops) -> (r: Self)
        requires
            cards@.len() >= 1,
        ensures
            r.cards_view() == cards@,
            r.ops_view() == ops@,
            r.wf(),
    {
        Cards { cards, ops }
    }

    /// Returns all permutations of the cards, with duplicates removed by
    /// value content: an ordering value-identical to any already-produced
    /// ordering is suppressed, wherever it stands in the emission.  A hand
    /// of all-equal values collapses to the single input ordering.
    pub fn permutations_dedup(&self) -> (r: Vec<Vec<u8>>)
        requires
            self.wf(),
        ensures
            card_views(r@) == distinct_seqs(perms_of(self.cards_view())),
            r@.len() >= 1,
            r@[0]@ == self.cards_view(),
            forall|i: int| 0 <= i < r@.len() ==> (#[trigger] r@[i]@).to_multiset()
                == self.cards_view().to_multiset(),
            forall|i: int, j: int|
                0 <= i < r@.len() && 0 <= j < r@.len() && i != j ==> (#[trigger] r@[i]@)
                    != (#[trigger] r@[j]@),
            (forall|i: int, j: int|
                0 <= i < self.cards_view().len() && 0 <= j < self.cards_view().len()
                    ==> self.cards_view()[i] == self.cards_view()[j]) ==> r@.len() == 1,
    {
        let raw = raw_permutations(&self.cards);
        let ghost pv = card_views(raw@);
        proof {
            lemma_perms_of_first(self.cards_view());
            lemma_perms_of_multiset(self.cards_view());
        }
        let mut r: Vec<Vec<u8>> = Vec::new();
        let mut i: usize = 0;
        while i < raw.len()
            invariant
                i <= raw@.len(),
                pv == card_views(raw@),
                card_views(raw@) == perms_of(self.cards_view()),
                pv.len() >= 1,
                pv[0] == self.cards_view(),
                card_views(r@) == distinct_upto(pv, i as int),
                i >= 1 ==> r@.len() >= 1 && r@[0]@ == self.cards_view(),
            decreases raw@.len() - i,
        {
            let mut seen = false;
            let mut k: usize = 0;
            while k < r.len()
                invariant
                    k <= r@.len(),
                    pv == card_views(raw@),
                    i < raw@.len(),
                    seen <==> exists|j: int| 0 <= j < k && (#[trigger] r@[j]@) == pv[i as int],
                decreases r@.len() - k,
            {
                if vec_u8_eq(&r[k], &raw[i]) {
                    seen = true;
                    proof {
                        assert(r@[k as int]@ == pv[i as int]);
                    }
                }
                k = k + 1;
            }
            proof {
                lemma_distinct_upto_contains(pv, i as int);
                if seen {
                    let j = choose|j: int| 0 <= j < r@.len() && r@[j]@ == pv[i as int];
                    assert(distinct_upto(pv, i as int).contains(pv[i as int])) by {
                        assert(card_views(r@)[j] == pv[i as int]);
                    }
                    assert(seen_earlier(pv, i as int));
                } else {
                    if seen_earlier(pv, i as int) {
                        assert(distinct_upto(pv, i as int).contains(pv[i as int]));
                        let ghost target = pv[i as int];
                        let k2 = choose|k2: int|
                            0 <= k2 < card_views(r@).len() && card_views(r@)[k2] == target;
                        assert(r@[k2]@ == pv[i as int]);
                        assert(false);
                    }
                }
            }
            if !seen {
                let ghost old_r = r@;
                r.push(clone_cards(&raw[i]));
                proof {
                    assert(card_views(r@) =~= card_views(old_r).push(pv[i as int]));
                    assert(card_views(r@) == distinct_upto(pv, i + 1));
                    if i == 0 {
                        assert(r@[0]@ == pv[0]);
                    }
                }
            } else {
                proof {
                    assert(distinct_upto(pv, i + 1) == distinct_upto(pv, i as int));
                }
            }
            i = i + 1;
        }
        proof {
            lemma_perms_of_multiset(self.cards_view());
            lemma_distinct_upto_contains(pv, pv.len() as int);
            assert(card_views(r@) == distinct_seqs(perms_of(self.cards_view())));
            assert(r@.len() >= 1);
            assert forall|k: int| 0 <= k < r@.len() implies (#[trigger] r@[k]@).to_multiset()
                == self.cards_view().to_multiset() by {
                assert(distinct_seqs(pv).contains(r@[k]@)) by {
                    assert(card_views(r@)[k] == r@[k]@);
                }
                let w = choose|w: int| 0 <= w < pv.len() && pv[w] == r@[k]@;
                assert(raw@[w]@.to_multiset() == self.cards_view().to_multiset());
            }
            assert forall|i2: int, j2: int|
                0 <= i2 < r@.len() && 0 <= j2 < r@.len() && i2 != j2 implies (#[trigger] r@[i2]@)
                != (#[trigger] r@[j2]@) by {
                lemma_distinct_upto_distinct(pv, pv.len() as int);
                assert(card_views(r@)[i2] == r@[i2]@ && card_views(r@)[j2] == r@[j2]@);
            }
            if forall|i2: int, j2: int|
                0 <= i2 < self.cards_view().len() && 0 <= j2 < self.cards_view().len()
                    ==> self.cards_view()[i2] == self.cards_view()[j2] {
                assert forall|k: int| 0 <= k < pv.len() implies pv[k]
                    == self.cards_view() by {
                    assert(pv[k] == perms_of(self.cards_view())[k]);
                    assert(pv[k].to_multiset() == self.cards_view().to_multiset());
                    lemma_multiset_equal_constant(pv[k], self.cards_view());
                }
                lemma_distinct_upto_constant(pv, pv.len() as int);
                assert(r@.len() == 1);
            }
        }
        r
    }
}

/// `m` dimensions, each of size `n`.
pub open spec fn uniform_sizes(n: usize, m: nat) -> Seq<usize> {
    Seq::new(m, |x: int| n)
}

/// The operator sequence an index tuple selects from the universe.
pub open spec fn op_seq_of_tuple(universe: Seq<Op>, t: Seq<usize>) -> Seq<Op> {
    t.map_values(|ix: usize| universe[ix as int])
}

/// Every sequence of `m` operators drawn from the universe, repetition
/// allowed, in lexicographic order of the drawn indices.
pub open spec fn all_op_seqs(universe: Seq<Op>, m: nat) -> Seq<Seq<Op>> {
    all_tuples(uniform_sizes(universe.len() as usize, m)).map_values(
        |t: Seq<usize>| op_seq_of_tuple(universe, t),
    )
}

/// Every generated operator sequence fills exactly `m` slots.
pub proof fn lemma_all_op_seqs_lens(universe: Seq<Op>, m: nat)
    ensures
        forall|k: int|
            0 <= k < all_op_seqs(universe, m).len() ==> (#[trigger] all_op_seqs(universe, m)[k]).len()
                == m,
{
    lemma_all_tuples_valid(uniform_sizes(universe.len() as usize, m));
    assert forall|k: int|
        0 <= k < all_op_seqs(universe, m).len() implies (#[trigger] all_op_seqs(universe, m)[k]).len()
        == m by {
        let tuples = all_tuples(uniform_sizes(universe.len() as usize, m));
        assert(valid_tuple(uniform_sizes(universe.len() as usize, m), tuples[k]));
        assert(all_op_seqs(universe, m)[k] == op_seq_of_tuple(universe, tuples[k]));
    }
}

/// The two dimensions of the permutation and operator-sequence pairing.
pub open spec fn pair_sizes(a: usize, b: usize) -> Seq<usize> {
    seq![a, b]
}

/// The pair an index tuple selects.
pub open spec fn pair_of(perms: Seq<Seq<u8>>, opseqs: Seq<Seq<Op>>, t: Seq<usize>) -> (
    Seq<u8>,
    Seq<Op>,
) {
    (perms[t[0] as int], opseqs[t[1] as int])
}

/// Every pairing of a permutation with an operator sequence, permutations
/// outermost, in lexicographic order.
pub open spec fn all_pairs(perms: Seq<Seq<u8>>, opseqs: Seq<Seq<Op>>) -> Seq<(Seq<u8>, Seq<Op>)> {
    all_tuples(pair_sizes(perms.len() as usize, opseqs.len() as usize)).map_values(
        |t: Seq<usize>| pair_of(perms, opseqs, t),
    )
}

/// The views of a list of permutation and operator-sequence pairs.
pub open spec fn pair_views(s: Seq<(Vec<u8>, Ops)>) -> Seq<(Seq<u8>, Seq<Op>)> {
    s.map_values(|p: (Vec<u8>, Ops)| (p.0@, p.1@))
}

impl Cards {
    /// Gets the Cartesian product of the operations: every assignment of
    /// one operator per combination slot, unfiltered.
    pub fn op_product(&self) -> (r: Vec<Ops>)
        requires
            self.wf(),
        ensures
            ops_views(r@) == all_op_seqs(self.ops_view(), (self.cards_view().len() - 1) as nat),
    {
        let ghost universe = self.ops_view();
        let m = self.cards.len() - 1;
        let ucount = self.ops.len();
        let mut sizes: Vec<usize> = Vec::new();
        let mut si: usize = 0;
        while si < m
            invariant
                si <= m,
                ucount == universe.len(),
                sizes@ == uniform_sizes(ucount, si as nat),
            decreases m - si,
        {
            sizes.push(ucount);
            proof {
                assert(sizes@ =~= uniform_sizes(ucount, (si + 1) as nat));
            }
            si = si + 1;
        }
        let tuples = index_tuples(sizes.as_slice());
        proof {
            lemma_all_tuples_valid(sizes@);
        }
        let mut r: Vec<Ops> = Vec::new();
        let mut ti: usize = 0;
        while ti < tuples.len()
            invariant
                ti <= tuples@.len(),
                ucount == universe.len(),
                universe == self.ops_view(),
                sizes@ == uniform_sizes(ucount, m as nat),
                tuple_views(tuples@) == all_tuples(sizes@),
                forall|k: int|
                    0 <= k < all_tuples(sizes@).len() ==> valid_tuple(
                        sizes@,
                        #[trigger] all_tuples(sizes@)[k],
                    ),
                r@.len() == ti,
                forall|k: int|
                    0 <= k < ti ==> (#[trigger] r@[k])@ == op_seq_of_tuple(
                        universe,
                        tuple_views(tuples@)[k],
                    ),
            decreases tuples@.len() - ti,
        {
            let t = &tuples[ti];
            let ghost tv = t@;
            proof {
                assert(tuple_views(tuples@)[ti as int] == tv);
                assert(valid_tuple(sizes@, tv));
            }
            let mut v: Vec<Op> = Vec::new();
            let mut j: usize = 0;
            while j < t.len()
                invariant
                    j <= tv.len(),
                    tv == t@,
                    ucount == universe.len(),
                    valid_tuple(sizes@, tv),
                    sizes@ == uniform_sizes(ucount, m as nat),
                    ucount == self.ops@.len(),
                    universe == self.ops_view(),
                    v@ == op_seq_of_tuple(universe, tv.take(j as int)),
                decreases tv.len() - j,
            {
                proof {
                    assert(tv[j as int] < sizes@[j as int]);
                }
                v.push(self.ops.index(t[j]));
                proof {
                    assert(v@ =~= op_seq_of_tuple(universe, tv.take(j + 1)));
                }
                j = j + 1;
            }
            proof {
                assert(tv.take(tv.len() as int) =~= tv);
            }
            r.push(Ops::with_ops(v));
            ti = ti + 1;
        }
        proof {
            assert(ops_views(r@) =~= all_op_seqs(universe, (self.cards_view().len() - 1) as nat));
        }
        r
    }

    /// Gets all possible operator assignments for each distinct permutation
    /// of the cards: every permutation paired with every operator sequence.
    pub fn cards_ops(&self) -> (r: Vec<(Vec<u8>, Ops)>)
        requires
            self.wf(),
        ensures
            pair_views(r@) == all_pairs(
                distinct_seqs(perms_of(self.cards_view())),
                all_op_seqs(self.ops_view(), (self.cards_view().len() - 1) as nat),
            ),
            forall|k: int|
                0 <= k < r@.len() ==> (#[trigger] r@[k].0@).to_multiset()
                    == self.cards_view().to_multiset(),
            forall|k: int|
                0 <= k < r@.len() ==> (#[trigger] r@[k].1@).len() == self.cards_view().len() - 1,
            self.cards_view().len() == 1 ==> pair_views(r@) == seq![
                (self.cards_view(), Seq::<Op>::empty()),
            ],
    {
        let ghost pspec = distinct_seqs(perms_of(self.cards_view()));
        let ghost ospec = all_op_seqs(self.ops_view(), (self.cards_view().len() - 1) as nat);
        let perms = self.permutations_dedup();
        let opseqs = self.op_product();
        let mut sizes: Vec<usize> = Vec::new();
        sizes.push(perms.len());
        sizes.push(opseqs.len());
        proof {
            assert(sizes@ =~= pair_sizes(perms@.len() as usize, opseqs@.len() as usize));
            assert(card_views(perms@).len() == perms@.len());
            assert(ops_views(opseqs@).len() == opseqs@.len());
            lemma_all_tuples_valid(sizes@);
            lemma_distinct_upto_contains(perms_of(self.cards_view()), perms_of(self.cards_view()).len() as int);
            lemma_all_op_seqs_lens(self.ops_view(), (self.cards_view().len() - 1) as nat);
        }
        let tuples = index_tuples(sizes.as_slice());
        let mut r: Vec<(Vec<u8>, Ops)> = Vec::new();
        let mut ti: usize = 0;
        while ti < tuples.len()
            invariant
                ti <= tuples@.len(),
                pspec == distinct_seqs(perms_of(self.cards_view())),
                ospec == all_op_seqs(self.ops_view(), (self.cards_view().len() - 1) as nat),
                card_views(perms@) == pspec,
                ops_views(opseqs@) == ospec,
                sizes@ == pair_sizes(perms@.len() as usize, opseqs@.len() as usize),
                perms@.len() == pspec.len(),
                opseqs@.len() == ospec.len(),
                tuple_views(tuples@) == all_tuples(sizes@),
                forall|k: int|
                    0 <= k < all_tuples(sizes@).len() ==> valid_tuple(
                        sizes@,
                        #[trigger] all_tuples(sizes@)[k],
                    ),
                forall|k: int|
                    0 <= k < perms@.len() ==> (#[trigger] perms@[k]@).to_multiset()
                        == self.cards_view().to_multiset(),
                forall|k: int|
                    0 <= k < ospec.len() ==> (#[trigger] ospec[k]).len() == self.cards_view().len()
                        - 1,
                r@.len() == ti,
                forall|k: int|
                    0 <= k < ti ==> pair_views(r@)[k] == pair_of(
                        pspec,
                        ospec,
                        tuple_views(tuples@)[k],
                    ),
                forall|k: int|
                    0 <= k < ti ==> (#[trigger] r@[k].0@).to_multiset()
                        == self.cards_view().to_multiset(),
                forall|k: int|
                    0 <= k < ti ==> (#[trigger] r@[k].1@).len() == self.cards_view().len() - 1,
            decreases tuples@.len() - ti,
        {
            let t = &tuples[ti];
            proof {
                assert(tuple_views(tuples@)[ti as int] == t@);
                assert(valid_tuple(sizes@, t@));
                assert(t@[0] < sizes@[0] && t@[1] < sizes@[1]);
            }
            let perm = clone_cards(&perms[t[0]]);
            let inner: Vec<Op> = clone_op_list(&opseqs[t[1]].0);
            let ghost old_r = r@;
            r.push((perm, Ops::with_ops(inner)));
            proof {
                assert(r@[ti as int].0@ == pspec[t@[0] as int]);
                assert(r@[ti as int].1@ == ospec[t@[1] as int]);
                assert forall|k: int| 0 <= k < ti + 1 implies pair_views(r@)[k] == pair_of(
                    pspec,
                    ospec,
                    tuple_views(tuples@)[k],
                ) by {
                    if k < ti {
                        assert(pair_views(r@)[k] == pair_views(old_r)[k]);
                        assert(pair_views(old_r)[k] == pair_of(pspec, ospec, tuple_views(tuples@)[k]));
                    } else {
                        assert(pair_views(r@)[k] == (r@[k].0@, r@[k].1@));
                        assert(tuple_views(tuples@)[k] == t@);
                    }
                }
                assert forall|k: int| 0 <= k < ti + 1 implies (#[trigger] r@[k].0@).to_multiset()
                    == self.cards_view().to_multiset() by {
                    if k == ti {
                        assert(r@[k].0@ == pspec[t@[0] as int]);
                        assert(pspec[t@[0] as int] == perms@[t@[0] as int]@);
                    }
                }
                assert forall|k: int| 0 <= k < ti + 1 implies (#[trigger] r@[k].1@).len()
                    == self.cards_view().len() - 1 by {
                    if k == ti {
                        assert(r@[k].1@ == ospec[t@[1] as int]);
                    }
                }
            }
            ti = ti + 1;
        }
        proof {
            assert(pair_views(r@) =~= all_pairs(pspec, ospec));
            assert forall|k: int|
                0 <= k < r@.len() implies (#[trigger] r@[k].0@).to_multiset()
                == self.cards_view().to_multiset() by {
                assert(r@[k].0@.to_multiset() == self.cards_view().to_multiset());
            }
            assert forall|k: int|
                0 <= k < r@.len() implies (#[trigger] r@[k].1@).len() == self.cards_view().len()
                - 1 by {
                assert(r@[k].1@.len() == self.cards_view().len() - 1);
            }
            if self.cards_view().len() == 1 {
                assert(pspec.len() == 1 && pspec[0] == self.cards_view());
                let u1 = uniform_sizes(self.ops_view().len() as usize, 0);
                assert(u1 =~= Seq::<usize>::empty());
                assert(all_tuples(Seq::<usize>::empty()) == seq![Seq::<usize>::empty()]);
                assert(ospec =~~= seq![Seq::<Op>::empty()]) by {
                    assert(ospec[0] == op_seq_of_tuple(self.ops_view(), Seq::<usize>::empty()));
                    assert(op_seq_of_tuple(self.ops_view(), Seq::<usize>::empty())
                        =~= Seq::<Op>::empty());
                }
                let s1 = seq![1usize];
                let s2 = pair_sizes(1, 1);
                assert(s2.drop_first() =~= s1);
                assert(s1.drop_first() =~= Seq::<usize>::empty());
                assert(s1[0] == 1 && s2[0] == 1);
                assert(all_tuples(s1) == tuples_below(s1, 1));
                assert(tuples_below(s1, 0) == Seq::<Seq<usize>>::empty());
                assert(tuples_below(s1, 1) == tuples_below(s1, 0) + prefixed(
                    all_tuples(s1.drop_first()),
                    0,
                ));
                assert(prefixed(seq![Seq::<usize>::empty()], 0) =~~= seq![seq![0usize]]);
                assert(all_tuples(s1) =~~= seq![seq![0usize]]);
                assert(all_tuples(s2) == tuples_below(s2, 1));
                assert(tuples_below(s2, 0) == Seq::<Seq<usize>>::empty());
                assert(tuples_below(s2, 1) == tuples_below(s2, 0) + prefixed(
                    all_tuples(s2.drop_first()),
                    0,
                ));
                assert(all_tuples(s2.drop_first()) == all_tuples(s1));
                assert(prefixed(seq![seq![0usize]], 0) =~~= seq![seq![0usize, 0usize]]);
                assert(all_tuples(s2) =~~= seq![seq![0usize, 0usize]]);
                assert(all_pairs(pspec, ospec) =~~= seq![(pspec[0], ospec[0])]) by {
                    assert(pair_sizes(pspec.len() as usize, ospec.len() as usize) == s2);
                    assert(all_pairs(pspec, ospec)[0] == pair_of(pspec, ospec, seq![
                        0usize,
                        0usize,
                    ]));
                }
                assert(pair_views(r@) =~~= seq![(self.cards_view(), Seq::<Op>::empty())]);
            }
        }
        r
    }
}

/// Clones a list of operations.
fn clone_op_list(v: &Vec<Op>) -> (r: Vec<Op>)
    ensures
        r@ == v@,
{
    let r = v.clone();
    proof {
        assert(r@ =~= v@);
    }
    r
}

/// The value every solution must reach.
pub const TARGET: i128 = 24;

/// A tree is a solution when its exact value is the target.
pub open spec fn is_solution(t: BoundOp) -> bool {
    t.eval_spec() matches Some(v) && v.is_int(TARGET as int)
}

/// Decides whether a well-formed rational denotes the target.
fn matches_target(v: Rat) -> (r: bool)
    requires
        v.wf(),
    ensures
        r == v.is_int(TARGET as int),
{
    match v.den.checked_mul(TARGET) {
        Some(p) => v.num == p,
        None => {
            proof {
                assert(TARGET * v.den > i128::MAX || TARGET * v.den < i128::MIN);
                assert(TARGET * v.den >= TARGET) by (nonlinear_arith)
                    requires
                        v.den >= 1,
                ;
            }
            false
        },
    }
}

/// The candidate `c` with the adjacent pair at `i` combined under `op`.
pub open spec fn combine_at(c: Seq<BoundOp>, i: int, op: Op) -> Seq<BoundOp> {
    c.take(i) + seq![
        BoundOp::BoundOp { op: op, l: Box::new(c[i]), r: Box::new(c[i + 1]) },
    ] + c.skip(i + 2)
}

/// Every candidate derived from `c` by combining one adjacent pair; the
/// operator consumed is the one indexed by the candidate width, so each
/// combination round draws a fixed slot of the sequence.
pub open spec fn children_of(c: Seq<BoundOp>, ops: Seq<Op>) -> Seq<Seq<BoundOp>> {
    Seq::new((c.len() - 1) as nat, |i: int| combine_at(c, i, ops[c.len() - 2]))
}

/// One breadth-first expansion round over a whole layer of candidates.
pub open spec fn expand_layer(layer: Seq<Seq<BoundOp>>, ops: Seq<Op>) -> Seq<Seq<BoundOp>>
    decreases layer.len(),
{
    if layer.len() == 0 {
        Seq::empty()
    } else {
        children_of(layer[0], ops) + expand_layer(layer.drop_first(), ops)
    }
}

proof fn lemma_expand_layer_push(layer: Seq<Seq<BoundOp>>, ops: Seq<Op>, c: Seq<BoundOp>)
    ensures
        expand_layer(layer.push(c), ops) == expand_layer(layer, ops) + children_of(c, ops),
    decreases layer.len(),
{
    if layer.len() == 0 {
        assert(layer.push(c)[0] == c);
        assert(layer.push(c).drop_first() =~= Seq::<Seq<BoundOp>>::empty());
        assert(expand_layer(Seq::<Seq<BoundOp>>::empty(), ops) == Seq::<Seq<BoundOp>>::empty());
        assert(expand_layer(layer.push(c), ops) =~= children_of(c, ops));
        assert(expand_layer(layer, ops) + children_of(c, ops) =~= children_of(c, ops));
    } else {
        assert(layer.push(c).drop_first() =~= layer.drop_first().push(c));
        lemma_expand_layer_push(layer.drop_first(), ops, c);
        assert(expand_layer(layer.push(c), ops) =~= expand_layer(layer, ops) + children_of(
            c,
            ops,
        ));
    }
}

/// The trees that remain once every candidate of a layer of width `width`
/// has collapsed to a single tree, in breadth-first emission order.
pub open spec fn emit_layers(layer: Seq<Seq<BoundOp>>, ops: Seq<Op>, width: nat) -> Seq<BoundOp>
    decreases width,
{
    if width <= 1 {
        layer.map_values(|c: Seq<BoundOp>| c[0])
    } else {
        emit_layers(expand_layer(layer, ops), ops, (width - 1) as nat)
    }
}

/// One leaf per card of the permutation.
pub open spec fn leaves_of(perm: Seq<u8>) -> Seq<BoundOp> {
    perm.map_values(|n: u8| BoundOp::Val(n))
}

/// Every full binary parenthesization of one permutation under one
/// operator sequence, in breadth-first emission order.
pub open spec fn emitted_trees(perm: Seq<u8>, ops: Seq<Op>) -> Seq<BoundOp> {
    emit_layers(seq![leaves_of(perm)], ops, perm.len())
}

/// The trees of the stream that are solutions, in stream order.
pub open spec fn solution_filter(ts: Seq<BoundOp>) -> Seq<BoundOp>
    decreases ts.len(),
{
    if ts.len() == 0 {
        Seq::empty()
    } else {
        (if is_solution(ts[0]) {
            seq![ts[0]]
        } else {
            Seq::empty()
        }) + solution_filter(ts.drop_first())
    }
}

proof fn lemma_solution_filter_push(ts: Seq<BoundOp>, x: BoundOp)
    ensures
        solution_filter(ts.push(x)) == solution_filter(ts) + (if is_solution(x) {
            seq![x]
        } else {
            Seq::<BoundOp>::empty()
        }),
    decreases ts.len(),
{
    let tail = if is_solution(x) {
        seq![x]
    } else {
        Seq::<BoundOp>::empty()
    };
    if ts.len() == 0 {
        assert(ts.push(x)[0] == x);
        assert(ts.push(x).drop_first() =~= Seq::<BoundOp>::empty());
        assert(solution_filter(Seq::<BoundOp>::empty()) == Seq::<BoundOp>::empty());
        assert(solution_filter(ts.push(x)) =~= tail);
        assert(solution_filter(ts) + tail =~= tail);
    } else {
        assert(ts.push(x).drop_first() =~= ts.drop_first().push(x));
        lemma_solution_filter_push(ts.drop_first(), x);
        assert(solution_filter(ts.push(x)) =~= solution_filter(ts) + tail);
    }
}

/// The solutions one permutation and operator-sequence pair contributes.
pub open spec fn pair_solutions(pr: (Seq<u8>, Seq<Op>)) -> Seq<BoundOp> {
    solution_filter(emitted_trees(pr.0, pr.1))
}

/// The concatenated solution streams of all pairs, in pair order.
pub open spec fn solutions_stream(pairs: Seq<(Seq<u8>, Seq<Op>)>) -> Seq<BoundOp>
    decreases pairs.len(),
{
    if pairs.len() == 0 {
        Seq::empty()
    } else {
        pair_solutions(pairs[0]) + solutions_stream(pairs.drop_first())
    }
}

proof fn lemma_solutions_stream_push(pairs: Seq<(Seq<u8>, Seq<Op>)>, pr: (Seq<u8>, Seq<Op>))
    ensures
        solutions_stream(pairs.push(pr)) == solutions_stream(pairs) + pair_solutions(pr),
    decreases pairs.len(),
{
    if pairs.len() == 0 {
        assert(pairs.push(pr)[0] == pr);
        assert(pairs.push(pr).drop_first() =~= Seq::<(Seq<u8>, Seq<Op>)>::empty());
        assert(solutions_stream(Seq::<(Seq<u8>, Seq<Op>)>::empty()) == Seq::<BoundOp>::empty());
        assert(solutions_stream(pairs.push(pr)) =~= pair_solutions(pr));
        assert(solutions_stream(pairs) + pair_solutions(pr) =~= pair_solutions(pr));
    } else {
        assert(pairs.push(pr).drop_first() =~= pairs.drop_first().push(pr));
        lemma_solutions_stream_push(pairs.drop_first(), pr);
        assert(solutions_stream(pairs.push(pr)) =~= solutions_stream(pairs) + pair_solutions(
            pr,
        ));
    }
}

/// Everything `solve` returns: the solutions of every pairing of a distinct
/// permutation with an operator sequence, in enumeration order, with
/// consecutive equivalent trees collapsed.
pub open spec fn solve_spec(cards: Seq<u8>, universe: Seq<Op>) -> Seq<BoundOp> {
    dedup_equiv(
        solutions_stream(
            all_pairs(distinct_seqs(perms_of(cards)), all_op_seqs(universe, (cards.len() - 1) as nat)),
        ),
    )
}

/// The views of a layer of candidates.
pub open spec fn cand_views(s: Seq<Vec<BoundOp>>) -> Seq<Seq<BoundOp>> {
    s.map_values(|c: Vec<BoundOp>| c@)
}

/// Builds the candidate that combines the adjacent pair of `c` at `i`
/// under `op`.
fn combine_pair(c: &Vec<BoundOp>, i: usize, op: Op) -> (r: Vec<BoundOp>)
    requires
        i + 1 < c@.len(),
    ensures
        r@ == combine_at(c@, i as int, op),
{
    let clen = c.len();
    let mut r: Vec<BoundOp> = Vec::new();
    let mut k: usize = 0;
    while k < i
        invariant
            k <= i,
            i + 1 < c@.len(),
            clen == c@.len(),
            r@ == c@.take(k as int),
        decreases i - k,
    {
        r.push(c[k].clone());
        proof {
            assert(r@ =~= c@.take(k + 1));
        }
        k = k + 1;
    }
    let left = c[i].clone();
    let right = c[i + 1].clone();
    r.push(BoundOp::BoundOp { op: op, l: Box::new(left), r: Box::new(right) });
    let mut k2: usize = i + 2;
    while k2 < clen
        invariant
            i + 2 <= k2 <= c@.len(),
            clen == c@.len(),
            r@ == c@.take(i as int) + seq![
                BoundOp::BoundOp { op: op, l: Box::new(c@[i as int]), r: Box::new(c@[i + 1]) },
            ] + c@.subrange(i + 2, k2 as int),
        decreases c@.len() - k2,
    {
        r.push(c[k2].clone());
        proof {
            assert(r@ =~= c@.take(i as int) + seq![
                BoundOp::BoundOp { op: op, l: Box::new(c@[i as int]), r: Box::new(c@[i + 1]) },
            ] + c@.subrange(i + 2, k2 + 1));
        }
        k2 = k2 + 1;
    }
    proof {
        assert(c@.subrange(i + 2, c@.len() as int) =~= c@.skip(i + 2));
        assert(r@ =~= combine_at(c@, i as int, op));
    }
    r
}

/// Produces every full parenthesization of one permutation under one
/// operator sequence, expanding a frontier of candidate sequences
/// breadth-first until each has collapsed to a single tree.
fn emit_trees(perm: &Vec<u8>, opseq: &Ops) -> (r: Vec<BoundOp>)
    requires
        perm@.len() >= 1,
        opseq@.len() == perm@.len() - 1,
    ensures
        r@ == emitted_trees(perm@, opseq@),
{
    let n = perm.len();
    let mut leaves: Vec<BoundOp> = Vec::new();
    let mut li: usize = 0;
    while li < n
        invariant
            li <= n,
            n == perm@.len(),
            leaves@ == leaves_of(perm@.take(li as int)),
        decreases n - li,
    {
        leaves.push(BoundOp::Val(perm[li]));
        proof {
            assert(leaves@ =~= leaves_of(perm@.take(li + 1)));
        }
        li = li + 1;
    }
    proof {
        assert(perm@.take(n as int) =~= perm@);
    }
    let mut layer: Vec<Vec<BoundOp>> = Vec::new();
    layer.push(leaves);
    proof {
        assert(cand_views(layer@) =~= seq![leaves_of(perm@)]);
    }
    let mut width: usize = n;
    while width > 1
        invariant
            1 <= width <= n,
            n == perm@.len(),
            opseq@.len() == n - 1,
            forall|k: int| 0 <= k < layer@.len() ==> (#[trigger] layer@[k]@).len() == width,
            emit_layers(cand_views(layer@), opseq@, width as nat) == emitted_trees(perm@, opseq@),
        decreases width,
    {
        let mut next: Vec<Vec<BoundOp>> = Vec::new();
        let mut ci: usize = 0;
        while ci < layer.len()
            invariant
                ci <= layer@.len(),
                2 <= width <= n,
                n == perm@.len(),
                opseq@.len() == n - 1,
                forall|k: int| 0 <= k < layer@.len() ==> (#[trigger] layer@[k]@).len() == width,
                cand_views(next@) == expand_layer(cand_views(layer@).take(ci as int), opseq@),
                forall|k: int| 0 <= k < next@.len() ==> (#[trigger] next@[k]@).len() == width - 1,
            decreases layer@.len() - ci,
        {
            let c = &layer[ci];
            let op = opseq.index(width - 2);
            let ghost cv = c@;
            let ghost next_before = cand_views(next@);
            let mut i: usize = 0;
            while i < width - 1
                invariant
                    i <= width - 1,
                    2 <= width <= n,
                    cv == c@,
                    cv.len() == width,
                    op == opseq@[width - 2],
                    opseq@.len() == n - 1,
                    n == perm@.len(),
                    next@.len() == next_before.len() + i,
                    forall|k: int|
                        0 <= k < next_before.len() ==> (#[trigger] next@[k]@) == next_before[k],
                    forall|j: int|
                        0 <= j < i ==> (#[trigger] next@[next_before.len() + j]@) == children_of(
                            cv,
                            opseq@,
                        )[j],
                    forall|k: int| 0 <= k < next@.len() ==> (#[trigger] next@[k]@).len() == width
                        - 1,
                decreases width - 1 - i,
            {
                let nc = combine_pair(c, i, op);
                proof {
                    assert(children_of(cv, opseq@)[i as int] == combine_at(
                        cv,
                        i as int,
                        opseq@[cv.len() - 2],
                    ));
                    assert(nc@.len() == cv.take(i as int).len() + 1 + cv.skip(i + 2).len());
                    assert(nc@.len() == width - 1);
                }
                next.push(nc);
                i = i + 1;
            }
            proof {
                assert forall|k: int|
                    0 <= k < next@.len() implies cand_views(next@)[k] == (next_before
                    + children_of(cv, opseq@))[k] by {
                    if k >= next_before.len() {
                        let j = k - next_before.len();
                        assert(next@[next_before.len() + j]@ == children_of(cv, opseq@)[j]);
                    }
                }
                assert(cand_views(next@) =~= next_before + children_of(cv, opseq@));
                lemma_expand_layer_push(cand_views(layer@).take(ci as int), opseq@, cv);
                assert(cand_views(layer@)[ci as int] == cv);
                assert(cand_views(layer@).take(ci as int).push(cv) =~= cand_views(layer@).take(
                    ci + 1,
                ));
                assert(cand_views(next@) == expand_layer(cand_views(layer@).take(ci + 1), opseq@));
            }
            ci = ci + 1;
        }
        proof {
            assert(cand_views(layer@).take(layer@.len() as int) =~= cand_views(layer@));
            assert(emit_layers(cand_views(next@), opseq@, (width - 1) as nat) == emitted_trees(
                perm@,
                opseq@,
            ));
        }
        layer = next;
        width = width - 1;
    }
    let mut out: Vec<BoundOp> = Vec::new();
    let mut oi: usize = 0;
    while oi < layer.len()
        invariant
            oi <= layer@.len(),
            forall|k: int| 0 <= k < layer@.len() ==> (#[trigger] layer@[k]@).len() == 1,
            emit_layers(cand_views(layer@), opseq@, 1) == emitted_trees(perm@, opseq@),
            out@.len() == oi,
            forall|j: int| 0 <= j < oi ==> (#[trigger] out@[j]) == layer@[j]@[0],
        decreases layer@.len() - oi,
    {
        let c = &layer[oi];
        out.push(c[0].clone());
        oi = oi + 1;
    }
    proof {
        assert(out@ =~= emit_layers(cand_views(layer@), opseq@, 1));
    }
    out
}

impl Cards {
    /// Finds all distinct solutions: every parenthesization of every
    /// distinct permutation under every operator sequence whose exact value
    /// is the target, in enumeration order, with consecutive equivalent
    /// trees collapsed.  A single card is its own solution exactly when it
    /// equals the target.
    pub fn solve(self) -> (r: Solutions)
        requires
            self.wf(),
        ensures
            r@ == solve_spec(self.cards_view(), self.ops_view()),
            self.cards_view().len() == 1 ==> r@ == (if is_solution(
                BoundOp::Val(self.cards_view()[0]),
            ) {
                seq![BoundOp::Val(self.cards_view()[0])]
            } else {
                Seq::<BoundOp>::empty()
            }),
    {
        broadcast use vstd::seq_lib::group_to_multiset_ensures;

        let ghost cards = self.cards_view();
        let ghost universe = self.ops_view();
        let pairs = self.cards_ops();
        let ghost pairsv = pair_views(pairs@);
        let mut sols: Vec<BoundOp> = Vec::new();
        proof {
            assert(pairsv.take(0) =~= Seq::<(Seq<u8>, Seq<Op>)>::empty());
        }
        let mut pi: usize = 0;
        while pi < pairs.len()
            invariant
                pi <= pairs@.len(),
                cards == self.cards_view(),
                cards.len() >= 1,
                universe == self.ops_view(),
                pairsv == pair_views(pairs@),
                pairsv == all_pairs(
                    distinct_seqs(perms_of(cards)),
                    all_op_seqs(universe, (cards.len() - 1) as nat),
                ),
                forall|k: int|
                    0 <= k < pairs@.len() ==> (#[trigger] pairs@[k].0@).to_multiset()
                        == cards.to_multiset(),
                forall|k: int|
                    0 <= k < pairs@.len() ==> (#[trigger] pairs@[k].1@).len() == cards.len() - 1,
                sols@ == solutions_stream(pairsv.take(pi as int)),
            decreases pairs@.len() - pi,
        {
            let perm = &pairs[pi].0;
            let opseq = &pairs[pi].1;
            proof {
                assert(perm@.to_multiset() == cards.to_multiset());
                perm@.to_multiset_ensures();
                cards.to_multiset_ensures();
                assert(perm@.len() == cards.len());
            }
            let trees = emit_trees(perm, opseq);
            let ghost ts = trees@;
            let ghost sols_before = sols@;
            let mut tj: usize = 0;
            proof {
                assert(ts.take(0) =~= Seq::<BoundOp>::empty());
                assert(sols@ =~= sols_before + solution_filter(ts.take(0)));
            }
            while tj < trees.len()
                invariant
                    tj <= trees@.len(),
                    ts == trees@,
                    sols@ == sols_before + solution_filter(ts.take(tj as int)),
                decreases trees@.len() - tj,
            {
                let t = &trees[tj];
                let keep = match t.eval() {
                    Some(v) => {
                        proof {
                            lemma_eval_wf(ts[tj as int]);
                        }
                        matches_target(v)
                    },
                    None => false,
                };
                proof {
                    assert(keep == is_solution(ts[tj as int]));
                    assert(ts.take(tj + 1) =~= ts.take(tj as int).push(ts[tj as int]));
                    lemma_solution_filter_push(ts.take(tj as int), ts[tj as int]);
                }
                if keep {
                    sols.push(t.clone());
                    proof {
                        assert(sols@ =~= sols_before + solution_filter(ts.take(tj + 1)));
                    }
                } else {
                    proof {
                        assert(solution_filter(ts.take(tj + 1)) =~= solution_filter(
                            ts.take(tj as int),
                        ));
                        assert(sols@ =~= sols_before + solution_filter(ts.take(tj + 1)));
                    }
                }
                tj = tj + 1;
            }
            proof {
                assert(ts.take(ts.len() as int) =~= ts);
                assert(pairsv[pi as int] == (perm@, opseq@));
                assert(pair_solutions(pairsv[pi as int]) == solution_filter(ts));
                lemma_solutions_stream_push(pairsv.take(pi as int), pairsv[pi as int]);
                assert(pairsv.take(pi as int).push(pairsv[pi as int]) =~= pairsv.take(pi + 1));
                assert(sols@ == solutions_stream(pairsv.take(pi + 1)));
            }
            pi = pi + 1;
        }
        proof {
            assert(pairsv.take(pairsv.len() as int) =~= pairsv);
            if cards.len() == 1 {
                let v = BoundOp::Val(cards[0]);
                assert(pairsv == seq![(cards, Seq::<Op>::empty())]);
                assert(pairsv[0] == (cards, Seq::<Op>::empty()));
                assert(pairsv.drop_first() =~= Seq::<(Seq<u8>, Seq<Op>)>::empty());
                assert(solutions_stream(Seq::<(Seq<u8>, Seq<Op>)>::empty())
                    == Seq::<BoundOp>::empty());
                assert(solutions_stream(pairsv) =~= pair_solutions((cards, Seq::<Op>::empty())));
                let lv = seq![leaves_of(cards)];
                assert(emitted_trees(cards, Seq::<Op>::empty()) == emit_layers(
                    lv,
                    Seq::<Op>::empty(),
                    1,
                ));
                assert(leaves_of(cards)[0] == v);
                assert(emit_layers(lv, Seq::<Op>::empty(), 1) =~= seq![v]);
                assert(seq![v].drop_first() =~= Seq::<BoundOp>::empty());
                assert(solution_filter(Seq::<BoundOp>::empty()) == Seq::<BoundOp>::empty());
                if is_solution(v) {
                    assert(solution_filter(seq![v]) =~= seq![v]);
                    assert(dedup_from(seq![v], 1, v) == Seq::<BoundOp>::empty());
                    assert(dedup_equiv(seq![v]) =~= seq![v]);
                } else {
                    assert(solution_filter(seq![v]) =~= Seq::<BoundOp>::empty());
                    assert(dedup_equiv(Seq::<BoundOp>::empty()) == Seq::<BoundOp>::empty());
                }
            }
        }
        let dd = dedup_solutions(sols);
        Solutions::new(dd)
    }
}

/// The odometer successor of an index tuple over `sizes`: the rightmost
/// coordinate that can still step forward does, everything to its right
/// resets to zero, and `None` means the tuple was the last one.
pub open spec fn bump(indices: Seq<usize>, sizes: Seq<usize>) -> Option<Seq<usize>>
    decreases indices.len(),
{
    if indices.len() == 0 {
        None
    } else {
        let last = indices.len() - 1;
        if indices[last] + 1 < sizes[last] {
            Some(indices.update(last, (indices[last] + 1) as usize))
        } else {
            match bump(indices.take(last), sizes.take(last)) {
                Some(pre) => Some(pre.push(0)),
                None => None,
            }
        }
    }
}

/// The tuple that keeps `indices` up to `p - 1`, steps position `p - 1`
/// forward, and resets everything from `p` on.
pub open spec fn stepped(indices: Seq<usize>, p: int) -> Seq<usize> {
    Seq::new(
        indices.len(),
        |j: int|
            if j < p - 1 {
                indices[j]
            } else if j == p - 1 {
                (indices[p - 1] + 1) as usize
            } else {
                0usize
            },
    )
}

/// Characterises `bump` by the rightmost position `p - 1` that can still
/// step forward.
proof fn lemma_bump_shape(indices: Seq<usize>, sizes: Seq<usize>, p: int)
    requires
        indices.len() == sizes.len(),
        forall|j: int| 0 <= j < indices.len() ==> indices[j] < sizes[j],
        0 <= p <= indices.len(),
        forall|j: int| p <= j < indices.len() ==> #[trigger] (indices[j] + 1) >= sizes[j],
        p > 0 ==> indices[p - 1] + 1 < sizes[p - 1],
    ensures
        p == 0 ==> bump(indices, sizes) is None,
        p > 0 ==> bump(indices, sizes) == Some(stepped(indices, p)),
    decreases indices.len(),
{
    if indices.len() > 0 {
        let last = indices.len() - 1;
        if p == indices.len() {
            assert(indices[last] + 1 < sizes[last]);
            assert(indices.update(last, (indices[last] + 1) as usize) =~= stepped(indices, p));
        } else {
            assert(indices[last] + 1 >= sizes[last]);
            let ihead = indices.take(last);
            let shead = sizes.take(last);
            lemma_bump_shape(ihead, shead, p);
            if p > 0 {
                assert(bump(ihead, shead) == Some(stepped(ihead, p)));
                assert(stepped(ihead, p).push(0) =~= stepped(indices, p));
            }
        }
    }
}

/// A reusable iterator over several independent finite dimensions: it
/// yields every index tuple over its sizes in lexicographic order, one
/// tuple per call of `next`, starting from the all-zero tuple.
pub struct CartesianProduct {
    /// The size of each dimension.
    pub sizes: Vec<usize>,
    /// The tuple the next call emits.
    pub indices: Vec<usize>,
    /// Whether the enumeration is finished.
    pub done: bool,
}

impl CartesianProduct {
    /// Each coordinate stays inside its dimension (or at zero, where a
    /// dimension is empty and nothing is ever emitted).
    pub open spec fn wf(self) -> bool {
        self.indices@.len() == self.sizes@.len() && forall|j: int|
            0 <= j < self.indices@.len() ==> self.indices@[j] == 0 || self.indices@[j]
                < self.sizes@[j]
    }

    /// Whether some dimension is empty, so the product holds no tuple.
    pub open spec fn zero_product(self) -> bool {
        exists|j: int| 0 <= j < self.sizes@.len() && self.sizes@[j] == 0
    }

    /// An enumerator over the given dimension sizes, positioned at the
    /// all-zero tuple.
    pub fn with_sizes(sizes: &[usize]) -> (r: Self)
        ensures
            r.sizes@ == sizes@,
            r.indices@.len() == sizes@.len(),
            forall|j: int| 0 <= j < sizes@.len() ==> r.indices@[j] == 0,
            r.done == false,
            r.wf(),
    {
        let n = sizes.len();
        let mut szs: Vec<usize> = Vec::new();
        let mut indices: Vec<usize> = Vec::new();
        let mut i: usize = 0;
        while i < n
            invariant
                i <= n,
                n == sizes@.len(),
                szs@ == sizes@.take(i as int),
                indices@.len() == i,
                forall|j: int| 0 <= j < i ==> indices@[j] == 0,
            decreases n - i,
        {
            szs.push(sizes[i]);
            indices.push(0);
            proof {
                assert(szs@ =~= sizes@.take(i + 1));
            }
            i = i + 1;
        }
        proof {
            assert(sizes@.take(n as int) =~= sizes@);
        }
        CartesianProduct { sizes: szs, indices, done: false }
    }

    /// Emits the current tuple and steps the odometer, or `None` once the
    /// tuples are exhausted (immediately so when a dimension is empty).
    pub fn next(&mut self) -> (r: Option<Vec<usize>>)
        requires
            old(self).wf(),
        ensures
            final(self).sizes@ == old(self).sizes@,
            final(self).wf(),
            (old(self).done || old(self).zero_product()) ==> r is None && *final(self) == *old(
                self,
            ),
            (!old(self).done && !old(self).zero_product()) ==> (r matches Some(v) && v@ == old(
                self,
            ).indices@ && (match bump(old(self).indices@, old(self).sizes@) {
                Some(ix) => final(self).indices@ == ix && final(self).done == false,
                None => final(self).done == true && (forall|j: int|
                    0 <= j < final(self).indices@.len() ==> final(self).indices@[j] == 0),
            })),
    {
        if self.done {
            return None;
        }
        let n = self.sizes.len();
        let mut z: usize = 0;
        while z < n
            invariant
                z <= n,
                n == self.sizes@.len(),
                *self == *old(self),
                self.wf(),
                forall|j: int| 0 <= j < z ==> self.sizes@[j] != 0,
            decreases n - z,
        {
            if self.sizes[z] == 0 {
                return None;
            }
            z = z + 1;
        }
        proof {
            assert(!self.zero_product());
            assert forall|j: int| 0 <= j < self.indices@.len() implies self.indices@[j]
                < self.sizes@[j] by {
                assert(self.sizes@[j] != 0);
            }
        }
        let res = clone_usize_vec(&self.indices);
        let ghost old_ix = self.indices@;
        let mut p: usize = n;
        let mut found = false;
        while !found && p > 0
            invariant
                p <= n,
                n == self.sizes@.len(),
                n == self.indices@.len(),
                *self == *old(self),
                old_ix == self.indices@,
                forall|j: int| 0 <= j < self.indices@.len() ==> self.indices@[j] < self.sizes@[j],
                forall|j: int| p <= j < n ==> #[trigger] (self.indices@[j] + 1) >= self.sizes@[j],
                found ==> p >= 1 && self.indices@[p - 1] + 1 < self.sizes@[p - 1],
            decreases (if found { 0int } else { 1int }), p,
        {
            if self.indices[p - 1] + 1 < self.sizes[p - 1] {
                found = true;
            } else {
                p = p - 1;
            }
        }
        proof {
            lemma_bump_shape(old_ix, self.sizes@, p as int);
        }
        if p == 0 {
            self.done = true;
            let mut q: usize = 0;
            while q < n
                invariant
                    q <= n,
                    n == self.sizes@.len(),
                    n == self.indices@.len(),
                    self.sizes@ == old(self).sizes@,
                    self.done == true,
                    forall|j: int| 0 <= j < q ==> self.indices@[j] == 0,
                    forall|j: int|
                        0 <= j < n ==> self.indices@[j] == 0 || self.indices@[j] < self.sizes@[j],
                decreases n - q,
            {
                self.indices.set(q, 0);
                q = q + 1;
            }
        } else {
            let stepped_val = self.indices[p - 1] + 1;
            self.indices.set(p - 1, stepped_val);
            let mut q: usize = p;
            while q < n
                invariant
                    p <= q <= n,
                    p >= 1,
                    n == self.sizes@.len(),
                    n == self.indices@.len(),
                    self.sizes@ == old(self).sizes@,
                    self.done == false,
                    old_ix.len() == n,
                    stepped_val == old_ix[p - 1] + 1,
                    stepped_val < self.sizes@[p - 1],
                    forall|j: int| 0 <= j < p - 1 ==> self.indices@[j] == old_ix[j],
                    self.indices@[p - 1] == stepped_val,
                    forall|j: int| p <= j < q ==> self.indices@[j] == 0,
                    forall|j: int| q <= j < n ==> self.indices@[j] == old_ix[j],
                    forall|j: int| 0 <= j < n ==> old_ix[j] < self.sizes@[j],
                decreases n - q,
            {
                self.indices.set(q, 0);
                q = q + 1;
            }
            proof {
                assert(self.indices@ =~= stepped(old_ix, p as int));
            }
        }
        Some(res)
    }
}

/// Clones an index tuple.
fn clone_usize_vec(v: &Vec<usize>) -> (r: Vec<usize>)
    ensures
        r@ == v@,
{
    let r = v.clone();
    proof {
        assert(r@ =~= v@);
    }
    r
}

/// Determinism: solving the same cards with the same operator universe
/// twice yields element-wise identical solution sets.
pub proof fn lemma_solve_deterministic(
    a: Seq<BoundOp>,
    b: Seq<BoundOp>,
    cards: Seq<u8>,
    universe: Seq<Op>,
)
    requires
        a == solve_spec(cards, universe),
        b == solve_spec(cards, universe),
    ensures
        a == b,
        seqs_equiv(a, b),
{
    assert forall|i: int| 0 <= i < a.len() implies a[i].equiv(b[i]) by {
        lemma_equiv_reflexive(a[i]);
    }
}

/// The leaves held by a whole candidate sequence.
pub open spec fn cand_leaves(c: Seq<BoundOp>) -> nat
    decreases c.len(),
{
    if c.len() == 0 {
        0
    } else {
        c[0].leaf_count() + cand_leaves(c.drop_first())
    }
}

proof fn lemma_cand_leaves_concat(a: Seq<BoundOp>, b: Seq<BoundOp>)
    ensures
        cand_leaves(a + b) == cand_leaves(a) + cand_leaves(b),
    decreases a.len(),
{
    if a.len() == 0 {
        assert(a + b =~= b);
    } else {
        assert((a + b).drop_first() =~= a.drop_first() + b);
        lemma_cand_leaves_concat(a.drop_first(), b);
    }
}

/// Combining one adjacent pair leaves the candidate's leaves untouched.
proof fn lemma_combine_at_leaves(c: Seq<BoundOp>, i: int, op: Op)
    requires
        0 <= i,
        i + 1 < c.len(),
    ensures
        cand_leaves(combine_at(c, i, op)) == cand_leaves(c),
        combine_at(c, i, op).len() == c.len() - 1,
{
    let node = BoundOp::BoundOp { op: op, l: Box::new(c[i]), r: Box::new(c[i + 1]) };
    assert(c =~= c.take(i) + (seq![c[i]] + seq![c[i + 1]]) + c.skip(i + 2));
    lemma_cand_leaves_concat(c.take(i) + (seq![c[i]] + seq![c[i + 1]]), c.skip(i + 2));
    lemma_cand_leaves_concat(c.take(i), seq![c[i]] + seq![c[i + 1]]);
    lemma_cand_leaves_concat(seq![c[i]], seq![c[i + 1]]);
    assert(cand_leaves(seq![c[i]]) == c[i].leaf_count()) by {
        assert(seq![c[i]].drop_first() =~= Seq::<BoundOp>::empty());
    }
    assert(cand_leaves(seq![c[i + 1]]) == c[i + 1].leaf_count()) by {
        assert(seq![c[i + 1]].drop_first() =~= Seq::<BoundOp>::empty());
    }
    assert(cand_leaves(seq![node]) == node.leaf_count()) by {
        assert(seq![node].drop_first() =~= Seq::<BoundOp>::empty());
    }
    lemma_cand_leaves_concat(c.take(i) + seq![node], c.skip(i + 2));
    lemma_cand_leaves_concat(c.take(i), seq![node]);
}

/// Every candidate an expansion round produces holds the same leaves, one
/// element fewer.
proof fn lemma_expand_layer_leaves(layer: Seq<Seq<BoundOp>>, ops: Seq<Op>, width: nat, n: nat)
    requires
        width >= 2,
        forall|k: int| 0 <= k < layer.len() ==> (#[trigger] layer[k]).len() == width,
        forall|k: int| 0 <= k < layer.len() ==> cand_leaves(#[trigger] layer[k]) == n,
    ensures
        forall|k: int|
            0 <= k < expand_layer(layer, ops).len() ==> (#[trigger] expand_layer(layer, ops)[k]).len()
                == width - 1,
        forall|k: int|
            0 <= k < expand_layer(layer, ops).len() ==> cand_leaves(
                #[trigger] expand_layer(layer, ops)[k],
            ) == n,
    decreases layer.len(),
{
    if layer.len() > 0 {
        let head = layer[0];
        let rest = layer.drop_first();
        assert(forall|k: int| 0 <= k < rest.len() ==> rest[k] == layer[k + 1]);
        lemma_expand_layer_leaves(rest, ops, width, n);
        assert forall|k: int|
            0 <= k < expand_layer(layer, ops).len() implies (#[trigger] expand_layer(layer, ops)[k]).len()
            == width - 1 && cand_leaves(expand_layer(layer, ops)[k]) == n by {
            let kids = children_of(head, ops);
            if k < kids.len() {
                assert(expand_layer(layer, ops)[k] == kids[k]);
                assert(kids[k] == combine_at(head, k, ops[head.len() - 2]));
                lemma_combine_at_leaves(head, k, ops[head.len() - 2]);
            } else {
                assert(expand_layer(layer, ops)[k] == expand_layer(rest, ops)[k - kids.len()]);
            }
        }
    }
}

/// Every tree a layer finally emits holds exactly the leaves its
/// candidates carried.
proof fn lemma_emit_layers_leaves(layer: Seq<Seq<BoundOp>>, ops: Seq<Op>, width: nat, n: nat)
    requires
        width >= 1,
        forall|k: int| 0 <= k < layer.len() ==> (#[trigger] layer[k]).len() == width,
        forall|k: int| 0 <= k < layer.len() ==> cand_leaves(#[trigger] layer[k]) == n,
    ensures
        forall|k: int|
            0 <= k < emit_layers(layer, ops, width).len() ==> (#[trigger] emit_layers(
                layer,
                ops,
                width,
            )[k]).leaf_count() == n,
    decreases width,
{
    if width <= 1 {
        assert forall|k: int|
            0 <= k < emit_layers(layer, ops, width).len() implies (#[trigger] emit_layers(
            layer,
            ops,
            width,
        )[k]).leaf_count() == n by {
            assert(emit_layers(layer, ops, width)[k] == layer[k][0]);
            assert(cand_leaves(layer[k]) == n);
            assert(layer[k].drop_first() =~= Seq::<BoundOp>::empty());
            assert(cand_leaves(Seq::<BoundOp>::empty()) == 0);
        }
    } else {
        lemma_expand_layer_leaves(layer, ops, width, n);
        lemma_emit_layers_leaves(expand_layer(layer, ops), ops, (width - 1) as nat, n);
        assert forall|k: int|
            0 <= k < emit_layers(layer, ops, width).len() implies (#[trigger] emit_layers(
            layer,
            ops,
            width,
        )[k]).leaf_count() == n by {
            assert(emit_layers(layer, ops, width)[k] == emit_layers(
                expand_layer(layer, ops),
                ops,
                (width - 1) as nat,
            )[k]);
        }
    }
}

/// Every emitted parenthesization uses each card of the permutation as a
/// leaf exactly once: it has as many leaves as there are cards, and one
/// internal node fewer.
pub proof fn lemma_emitted_trees_shape(perm: Seq<u8>, ops: Seq<Op>)
    requires
        perm.len() >= 1,
    ensures
        forall|k: int|
            0 <= k < emitted_trees(perm, ops).len() ==> (#[trigger] emitted_trees(perm, ops)[k]).leaf_count()
                == perm.len(),
        forall|k: int|
            0 <= k < emitted_trees(perm, ops).len() ==> (#[trigger] emitted_trees(perm, ops)[k]).node_count()
                + 1 == perm.len(),
{
    let lv = seq![leaves_of(perm)];
    assert(cand_leaves(leaves_of(perm)) == perm.len()) by {
        lemma_leaves_of_count(perm);
    }
    assert(forall|k: int| 0 <= k < lv.len() ==> (#[trigger] lv[k]).len() == perm.len());
    assert(forall|k: int| 0 <= k < lv.len() ==> cand_leaves(#[trigger] lv[k]) == perm.len());
    lemma_emit_layers_leaves(lv, ops, perm.len(), perm.len());
    assert forall|k: int|
        0 <= k < emitted_trees(perm, ops).len() implies (#[trigger] emitted_trees(perm, ops)[k]).node_count()
        + 1 == perm.len() by {
        lemma_node_count(emitted_trees(perm, ops)[k]);
    }
}

proof fn lemma_leaves_of_count(perm: Seq<u8>)
    ensures
        cand_leaves(leaves_of(perm)) == perm.len(),
    decreases perm.len(),
{
    if perm.len() > 0 {
        lemma_leaves_of_count(perm.drop_first());
        assert(leaves_of(perm).drop_first() =~= leaves_of(perm.drop_first()));
        assert(leaves_of(perm)[0] == BoundOp::Val(perm[0]));
    }
}

} // verus!
