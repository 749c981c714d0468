use crate::op::{lemma_apply_wf, Op};
use crate::rat::{rat_of_u8, Rat};
use vstd::prelude::*;

verus! {

/// A recursive data structure representing a bound operation: a fully
/// parenthesized arithmetic expression over concrete card values.
#[derive(Debug)]
pub enum BoundOp {
    Val(u8),
    BoundOp { op: Op, l: Box<BoundOp>, r: Box<BoundOp> },
}

impl Clone for BoundOp {
    /// A clone is the identical tree.
    fn clone(&self) -> (r: Self)
        ensures
            r == *self,
        decreases *self,
    {
        match self {
            BoundOp::Val(n) => BoundOp::Val(*n),
            BoundOp::BoundOp { op, l, r } => BoundOp::BoundOp {
                op: *op,
                l: Box::new((&**l).clone()),
                r: Box::new((&**r).clone()),
            },
        }
    }
}

impl BoundOp {
    /// The exact rational value of the expression, or `None` where the
    /// evaluation has no exact finite value (division by zero, a fractional
    /// exponent, or a value outside the representable range).
    pub open spec fn eval_spec(self) -> Option<Rat>
        decreases self,
    {
        match self {
            BoundOp::Val(n) => Some(rat_of_u8(n)),
            BoundOp::BoundOp { op, l, r } => match (l.eval_spec(), r.eval_spec()) {
                (Some(a), Some(b)) => op.apply_spec(a, b),
                _ => None,
            },
        }
    }

    /// Trees that differ only in the operand order of commutative operators
    /// are considered equivalent.
    pub open spec fn equiv(self, other: BoundOp) -> bool
        decreases self,
    {
        match (self, other) {
            (BoundOp::Val(a), BoundOp::Val(b)) => a == b,
            (
                BoundOp::BoundOp { op: aop, l: al, r: ar },
                BoundOp::BoundOp { op: bop, l: bl, r: br },
            ) => aop == bop && if aop.is_commutative() {
                (al.equiv(*bl) && ar.equiv(*br)) || (al.equiv(*br) && ar.equiv(*bl))
            } else {
                al.equiv(*bl) && ar.equiv(*br)
            },
            _ => false,
        }
    }

    /// Evaluates the expression bottom-up with exact rational arithmetic.
    pub fn eval(&self) -> (r: Option<Rat>)
        ensures
            r == self.eval_spec(),
        decreases *self,
    {
        match self {
            BoundOp::Val(n) => Some(Rat::from_u8(*n)),
            BoundOp::BoundOp { op, l, r } => match l.eval() {
                None => None,
                Some(a) => match r.eval() {
                    None => None,
                    Some(b) => {
                        proof {
                            lemma_eval_wf(**l);
                            lemma_eval_wf(**r);
                        }
                        (*op).apply(a, b)
                    },
                },
            },
        }
    }

    /// Decides the equivalence that `equiv` describes.
    pub fn tree_equiv(&self, other: &BoundOp) -> (r: bool)
        ensures
            r == self.equiv(*other),
        decreases *self,
    {
        match (self, other) {
            (BoundOp::Val(a), BoundOp::Val(b)) => *a == *b,
            (
                BoundOp::BoundOp { op: aop, l: al, r: ar },
                BoundOp::BoundOp { op: bop, l: bl, r: br },
            ) => {
                if *aop != *bop {
                    false
                } else if matches!(*aop, Op::Add) || matches!(*aop, Op::Mul) {
                    (al.tree_equiv(bl) && ar.tree_equiv(br)) || (al.tree_equiv(br)
                        && ar.tree_equiv(bl))
                } else {
                    al.tree_equiv(bl) && ar.tree_equiv(br)
                }
            },
            _ => false,
        }
    }
}

/// The decimal digit character for `d`.
pub open spec fn digit_char(d: nat) -> char {
    if d == 0 {
        '0'
    } else if d == 1 {
        '1'
    } else if d == 2 {
        '2'
    } else if d == 3 {
        '3'
    } else if d == 4 {
        '4'
    } else if d == 5 {
        '5'
    } else if d == 6 {
        '6'
    } else if d == 7 {
        '7'
    } else if d == 8 {
        '8'
    } else {
        '9'
    }
}

/// The decimal notation of `n`, most significant digit first.
pub open spec fn dec_chars(n: nat) -> Seq<char>
    decreases n,
{
    if n < 10 {
        seq![digit_char(n)]
    } else {
        dec_chars(n / 10).push(digit_char(n % 10))
    }
}

/// Returns the digit character for `d`.
fn digit_of(d: u8) -> (c: char)
    requires
        d < 10,
    ensures
        c == digit_char(d as nat),
{
    if d == 0 {
        '0'
    } else if d == 1 {
        '1'
    } else if d == 2 {
        '2'
    } else if d == 3 {
        '3'
    } else if d == 4 {
        '4'
    } else if d == 5 {
        '5'
    } else if d == 6 {
        '6'
    } else if d == 7 {
        '7'
    } else if d == 8 {
        '8'
    } else {
        '9'
    }
}

/// Appends the decimal notation of `n`.
fn push_dec_u8(out: &mut Vec<char>, n: u8)
    ensures
        final(out)@ == old(out)@ + dec_chars(n as nat),
    decreases n,
{
    if n < 10 {
        out.push(digit_of(n));
        proof {
            assert(out@ =~= old(out)@ + dec_chars(n as nat));
        }
    } else {
        push_dec_u8(out, n / 10);
        out.push(digit_of(n % 10));
        proof {
            assert(out@ =~= old(out)@ + dec_chars(n as nat));
        }
    }
}

/// Relies on `String`'s `FromIterator<char>` implementation: collecting
/// characters yields the string of exactly those characters, in order.
#[verifier::external_body]
fn chars_to_string(v: &Vec<char>) -> (s: String)
    ensures
        s@ == v@,
{
    v.iter().collect()
}

impl BoundOp {
    /// The fully parenthesized infix notation of the expression.
    pub open spec fn infix_spec(self) -> Seq<char>
        decreases self,
    {
        match self {
            BoundOp::Val(n) => dec_chars(n as nat),
            BoundOp::BoundOp { op, l, r } => seq!['('] + l.infix_spec() + seq![op.symbol_spec()]
                + r.infix_spec() + seq![')'],
        }
    }

    /// Appends the infix notation of the expression.
    fn push_infix(&self, out: &mut Vec<char>)
        ensures
            final(out)@ == old(out)@ + self.infix_spec(),
        decreases *self,
    {
        match self {
            BoundOp::Val(n) => push_dec_u8(out, *n),
            BoundOp::BoundOp { op, l, r } => {
                out.push('(');
                l.push_infix(out);
                out.push((*op).symbol());
                r.push_infix(out);
                out.push(')');
                proof {
                    assert(out@ =~= old(out)@ + self.infix_spec());
                }
            },
        }
    }

    /// Renders the expression in fully parenthesized infix notation.
    pub fn to_infix_notation(&self) -> (s: String)
        ensures
            s@ == self.infix_spec(),
    {
        let mut out: Vec<char> = Vec::new();
        self.push_infix(&mut out);
        proof {
            assert(out@ =~= self.infix_spec());
        }
        chars_to_string(&out)
    }
}

/// A well-formed evaluation result keeps a positive denominator.
pub proof fn lemma_eval_wf(t: BoundOp)
    ensures
        t.eval_spec() matches Some(c) ==> c.wf(),
    decreases t,
{
    match t {
        BoundOp::Val(_) => {},
        BoundOp::BoundOp { op, l, r } => {
            lemma_eval_wf(*l);
            lemma_eval_wf(*r);
            if l.eval_spec() is Some && r.eval_spec() is Some {
                lemma_apply_wf(op, l.eval_spec()->Some_0, r.eval_spec()->Some_0);
            }
        },
    }
}

/// Every tree is equivalent to itself.
pub proof fn lemma_equiv_reflexive(t: BoundOp)
    ensures
        t.equiv(t),
    decreases t,
{
    match t {
        BoundOp::Val(_) => {},
        BoundOp::BoundOp { op, l, r } => {
            lemma_equiv_reflexive(*l);
            lemma_equiv_reflexive(*r);
        },
    }
}

impl PartialEq for BoundOp {
    /// Commutative operations with swapped operands are considered equal.
    /// This is not a perfect use of `PartialEq`, but it matches how the
    /// solver collapses duplicate solutions.
    fn eq(&self, other: &BoundOp) -> (r: bool) {
        self.tree_equiv(other)
    }
}

impl vstd::std_specs::cmp::PartialEqSpecImpl for BoundOp {
    open spec fn obeys_eq_spec() -> bool {
        true
    }

    open spec fn eq_spec(&self, other: &BoundOp) -> bool {
        self.equiv(*other)
    }
}

/// Element-wise equivalence of two sequences of trees.
pub open spec fn seqs_equiv(a: Seq<BoundOp>, b: Seq<BoundOp>) -> bool {
    a.len() == b.len() && forall|i: int| 0 <= i < a.len() ==> a[i].equiv(b[i])
}

/// All solutions to a set of cards.
#[derive(Debug)]
pub struct Solutions(pub Vec<BoundOp>);

impl Clone for Solutions {
    /// A clone holds the identical trees.
    fn clone(&self) -> (r: Self)
        ensures
            r@ == self@,
    {
        let mut inner: Vec<BoundOp> = Vec::new();
        let mut i: usize = 0;
        while i < self.0.len()
            invariant
                i <= self@.len(),
                inner@ == self@.take(i as int),
            decreases self@.len() - i,
        {
            inner.push(self.0[i].clone());
            proof {
                assert(inner@ =~= self@.take(i + 1));
            }
            i = i + 1;
        }
        proof {
            assert(self@.take(self@.len() as int) =~= self@);
        }
        Solutions(inner)
    }
}

impl View for Solutions {
    type V = Seq<BoundOp>;

    open spec fn view(&self) -> Seq<BoundOp> {
        self.0@
    }
}

impl Solutions {
    /// Wraps a list of solution trees.
    pub fn new(solutions: Vec<BoundOp>) -> (r: Self)
        ensures
            r@ == solutions@,
    {
        Solutions(solutions)
    }

    /// The number of solutions held.
    pub fn len(&self) -> (n: usize)
        ensures
            n == self@.len(),
    {
        self.0.len()
    }
}

impl PartialEq for Solutions {
    /// Two solution sets are equal when they hold pairwise equivalent trees.
    fn eq(&self, other: &Solutions) -> (r: bool) {
        if self.0.len() != other.0.len() {
            return false;
        }
        let n = self.0.len();
        let mut i: usize = 0;
        while i < n
            invariant
                n == self@.len(),
                n == other@.len(),
                0 <= i <= n,
                forall|j: int| 0 <= j < i ==> self@[j].equiv(other@[j]),
            decreases n - i,
        {
            if !self.0[i].tree_equiv(&other.0[i]) {
                return false;
            }
            i = i + 1;
        }
        true
    }
}

impl vstd::std_specs::cmp::PartialEqSpecImpl for Solutions {
    open spec fn obeys_eq_spec() -> bool {
        true
    }

    open spec fn eq_spec(&self, other: &Solutions) -> bool {
        seqs_equiv(self@, other@)
    }
}

/// The part of the deduplicated stream contributed from position `i` on,
/// given the tree most recently kept.
pub open spec fn dedup_from(s: Seq<BoundOp>, i: int, last: BoundOp) -> Seq<BoundOp>
    decreases s.len() - i,
{
    if i < 0 || i >= s.len() {
        Seq::empty()
    } else if s[i].equiv(last) {
        dedup_from(s, i + 1, last)
    } else {
        seq![s[i]] + dedup_from(s, i + 1, s[i])
    }
}

/// Collapses runs of consecutive equivalent trees, keeping the first of
/// each run.  Equivalent trees separated by a non-equivalent one are both
/// kept: the pass looks only at adjacent entries of the stream.
pub open spec fn dedup_equiv(s: Seq<BoundOp>) -> Seq<BoundOp> {
    if s.len() == 0 {
        Seq::empty()
    } else {
        seq![s[0]] + dedup_from(s, 1, s[0])
    }
}

/// Removes consecutive equivalent trees from the stream, as `dedup_equiv`
/// describes.
pub fn dedup_solutions(v: Vec<BoundOp>) -> (r: Vec<BoundOp>)
    ensures
        r@ == dedup_equiv(v@),
{
    if v.len() == 0 {
        return Vec::new();
    }
    let mut r: Vec<BoundOp> = Vec::new();
    r.push(v[0].clone());
    proof {
        assert(r@ =~= seq![v@[0]]);
    }
    let mut i: usize = 1;
    while i < v.len()
        invariant
            1 <= i <= v@.len(),
            r@.len() >= 1,
            dedup_equiv(v@) == r@ + dedup_from(v@, i as int, r@.last()),
        decreases v@.len() - i,
    {
        let last_idx = r.len() - 1;
        if !v[i].tree_equiv(&r[last_idx]) {
            proof {
                let old_r = r@;
                assert(dedup_from(v@, i as int, old_r.last()) == seq![v@[i as int]] + dedup_from(
                    v@,
                    i + 1,
                    v@[i as int],
                ));
            }
            r.push(v[i].clone());
            proof {
                assert(r@ + dedup_from(v@, i + 1, r@.last()) =~= dedup_equiv(v@));
            }
        }
        i = i + 1;
    }
    proof {
        assert(dedup_from(v@, v@.len() as int, r@.last()) == Seq::<BoundOp>::empty());
        assert(r@ + Seq::<BoundOp>::empty() =~= r@);
    }
    r
}

/// Commutative equivalence: two trees that differ only by swapping the
/// operands of a top-level commutative operator (an addition or a
/// multiplication) are equivalent.
pub proof fn lemma_commutative_swap_equiv(op: Op, l: BoundOp, r: BoundOp)
    requires
        op.is_commutative(),
    ensures
        (BoundOp::BoundOp { op: op, l: Box::new(l), r: Box::new(r) }).equiv(
            BoundOp::BoundOp { op: op, l: Box::new(r), r: Box::new(l) },
        ),
{
    lemma_equiv_reflexive(l);
    lemma_equiv_reflexive(r);
}

/// The equivalence is symmetric.
pub proof fn lemma_equiv_symmetric(a: BoundOp, b: BoundOp)
    requires
        a.equiv(b),
    ensures
        b.equiv(a),
    decreases a,
{
    match (a, b) {
        (
            BoundOp::BoundOp { op: aop, l: al, r: ar },
            BoundOp::BoundOp { op: bop, l: bl, r: br },
        ) => {
            if aop.is_commutative() && al.equiv(*br) && ar.equiv(*bl) {
                lemma_equiv_symmetric(*al, *br);
                lemma_equiv_symmetric(*ar, *bl);
            } else {
                lemma_equiv_symmetric(*al, *bl);
                lemma_equiv_symmetric(*ar, *br);
            }
        },
        _ => {},
    }
}

/// The deduplicator treats two adjacent equivalent trees as one solution:
/// only the first of the two is kept.
pub proof fn lemma_dedup_drops_adjacent_equivalent(a: BoundOp, b: BoundOp)
    requires
        a.equiv(b),
    ensures
        dedup_equiv(seq![a, b]) == seq![a],
{
    lemma_equiv_symmetric(a, b);
    let s = seq![a, b];
    assert(s[1] == b);
    assert(dedup_from(s, 1, a) == dedup_from(s, 2, a));
    assert(dedup_from(s, 2, a) == Seq::<BoundOp>::empty());
    assert(seq![a] + Seq::<BoundOp>::empty() =~= seq![a]);
}

/// The equivalence is transitive.
pub proof fn lemma_equiv_transitive(a: BoundOp, b: BoundOp, c: BoundOp)
    requires
        a.equiv(b),
        b.equiv(c),
    ensures
        a.equiv(c),
    decreases a,
{
    match (a, b, c) {
        (
            BoundOp::BoundOp { op: aop, l: al, r: ar },
            BoundOp::BoundOp { op: bop, l: bl, r: br },
            BoundOp::BoundOp { op: cop, l: cl, r: cr },
        ) => {
            if aop.is_commutative() {
                if al.equiv(*bl) && ar.equiv(*br) {
                    if bl.equiv(*cl) && br.equiv(*cr) {
                        lemma_equiv_transitive(*al, *bl, *cl);
                        lemma_equiv_transitive(*ar, *br, *cr);
                    } else {
                        lemma_equiv_transitive(*al, *bl, *cr);
                        lemma_equiv_transitive(*ar, *br, *cl);
                    }
                } else {
                    if bl.equiv(*cl) && br.equiv(*cr) {
                        lemma_equiv_transitive(*al, *br, *cr);
                        lemma_equiv_transitive(*ar, *bl, *cl);
                    } else {
                        lemma_equiv_transitive(*al, *br, *cl);
                        lemma_equiv_transitive(*ar, *bl, *cr);
                    }
                }
            } else {
                lemma_equiv_transitive(*al, *bl, *cl);
                lemma_equiv_transitive(*ar, *br, *cr);
            }
        },
        _ => {},
    }
}

/// `a` keeps some of `b`'s entries, in their order.
pub open spec fn subsequence_of(a: Seq<BoundOp>, b: Seq<BoundOp>) -> bool
    decreases b.len(),
{
    if a.len() == 0 {
        true
    } else if b.len() == 0 {
        false
    } else {
        (a[0] == b[0] && subsequence_of(a.drop_first(), b.drop_first())) || subsequence_of(
            a,
            b.drop_first(),
        )
    }
}

/// The rest of the deduplicated stream, given the tree most recently kept.
spec fn dedup_after(s: Seq<BoundOp>, last: BoundOp) -> Seq<BoundOp>
    decreases s.len(),
{
    if s.len() == 0 {
        Seq::empty()
    } else if s[0].equiv(last) {
        dedup_after(s.drop_first(), last)
    } else {
        seq![s[0]] + dedup_after(s.drop_first(), s[0])
    }
}

proof fn lemma_dedup_from_is_after(s: Seq<BoundOp>, i: int, last: BoundOp)
    requires
        0 <= i <= s.len(),
    ensures
        dedup_from(s, i, last) == dedup_after(s.skip(i), last),
    decreases s.len() - i,
{
    if i < s.len() {
        assert(s.skip(i)[0] == s[i]);
        assert(s.skip(i).drop_first() =~= s.skip(i + 1));
        lemma_dedup_from_is_after(s, i + 1, last);
        lemma_dedup_from_is_after(s, i + 1, s[i]);
    } else {
        assert(s.skip(i) =~= Seq::<BoundOp>::empty());
    }
}

/// Changing the last-kept tree changes the count of the rest by at most
/// one, and not at all between equivalent lasts.
proof fn lemma_dedup_after_lasts(s: Seq<BoundOp>, l1: BoundOp, l2: BoundOp)
    ensures
        l1.equiv(l2) ==> dedup_after(s, l1).len() == dedup_after(s, l2).len(),
        dedup_after(s, l1).len() <= 1 + dedup_after(s, l2).len(),
    decreases s.len(),
{
    if s.len() > 0 {
        let x = s[0];
        let rest = s.drop_first();
        lemma_dedup_after_lasts(rest, l1, l2);
        lemma_dedup_after_lasts(rest, l1, x);
        lemma_dedup_after_lasts(rest, x, l2);
        lemma_dedup_after_lasts(rest, x, x);
        if l1.equiv(l2) {
            if x.equiv(l1) && !x.equiv(l2) {
                lemma_equiv_symmetric(x, l1);
                lemma_equiv_transitive(x, l1, l2);
                assert(false);
            }
            if x.equiv(l2) && !x.equiv(l1) {
                lemma_equiv_symmetric(l1, l2);
                lemma_equiv_transitive(x, l2, l1);
                assert(false);
            }
        }
        if x.equiv(l1) && !x.equiv(l2) {
            // The count with `l1` equals the count with `x` as last.
            lemma_equiv_symmetric(x, l1);
            lemma_dedup_after_lasts(rest, l1, x);
        }
    }
}

/// A thinner stream never keeps more, measured against equivalent lasts.
proof fn lemma_dedup_after_monotone(a: Seq<BoundOp>, b: Seq<BoundOp>, la: BoundOp, lb: BoundOp)
    requires
        subsequence_of(a, b),
        la.equiv(lb),
    ensures
        dedup_after(a, la).len() <= dedup_after(b, lb).len(),
    decreases b.len(),
{
    if a.len() > 0 {
        if a[0] == b[0] && subsequence_of(a.drop_first(), b.drop_first()) {
            if b[0].equiv(lb) {
                // Both streams skip their head.
                lemma_equiv_symmetric(la, lb);
                lemma_equiv_transitive(a[0], lb, la);
                lemma_dedup_after_monotone(a.drop_first(), b.drop_first(), la, lb);
            } else {
                if a[0].equiv(la) {
                    lemma_equiv_transitive(a[0], la, lb);
                    assert(false);
                }
                // Both streams keep their (equal) head.
                lemma_equiv_reflexive(a[0]);
                lemma_dedup_after_monotone(a.drop_first(), b.drop_first(), a[0], b[0]);
            }
        } else {
            if b[0].equiv(lb) {
                lemma_dedup_after_monotone(a, b.drop_first(), la, lb);
            } else {
                // `b` keeps its head; bound the thin stream against it.
                lemma_dedup_after_lasts(a, la, b[0]);
                lemma_equiv_reflexive(b[0]);
                lemma_dedup_after_monotone(a, b.drop_first(), b[0], b[0]);
            }
        }
    }
}

/// Restarting the deduplication at the head of a stream keeps at most one
/// more tree than continuing it from any last-kept tree.
proof fn lemma_dedup_head(s: Seq<BoundOp>, l: BoundOp)
    ensures
        dedup_equiv(s).len() <= 1 + dedup_after(s, l).len(),
{
    if s.len() > 0 {
        lemma_dedup_from_is_after(s, 1, s[0]);
        assert(s.skip(1) =~= s.drop_first());
        lemma_dedup_after_lasts(s.drop_first(), s[0], l);
        if s[0].equiv(l) {
            lemma_equiv_symmetric(s[0], l);
            lemma_dedup_after_lasts(s.drop_first(), l, s[0]);
        }
    }
}

/// Thinning the solution stream never increases the number of solutions
/// that survive the deduplication: every solution kept from the thinner
/// stream is matched by one kept from the fuller stream.
pub proof fn lemma_dedup_monotone(a: Seq<BoundOp>, b: Seq<BoundOp>)
    requires
        subsequence_of(a, b),
    ensures
        dedup_equiv(a).len() <= dedup_equiv(b).len(),
    decreases b.len(),
{
    if a.len() > 0 {
        if a[0] == b[0] && subsequence_of(a.drop_first(), b.drop_first()) {
            lemma_dedup_from_is_after(a, 1, a[0]);
            lemma_dedup_from_is_after(b, 1, b[0]);
            assert(a.skip(1) =~= a.drop_first());
            assert(b.skip(1) =~= b.drop_first());
            lemma_equiv_reflexive(a[0]);
            lemma_dedup_after_monotone(a.drop_first(), b.drop_first(), a[0], b[0]);
        } else {
            lemma_dedup_monotone(a, b.drop_first());
            // Dropping the head of `b` costs at most the head itself.
            lemma_dedup_from_is_after(b, 1, b[0]);
            assert(b.skip(1) =~= b.drop_first());
            lemma_dedup_head(b.drop_first(), b[0]);
        }
    }
}

impl BoundOp {
    /// The number of card values at the leaves.
    pub open spec fn leaf_count(self) -> nat
        decreases self,
    {
        match self {
            BoundOp::Val(_) => 1,
            BoundOp::BoundOp { op, l, r } => l.leaf_count() + r.leaf_count(),
        }
    }

    /// The number of internal nodes, one per operator application.
    pub open spec fn node_count(self) -> nat
        decreases self,
    {
        match self {
            BoundOp::Val(_) => 0,
            BoundOp::BoundOp { op, l, r } => 1 + l.node_count() + r.node_count(),
        }
    }
}

/// A tree always holds exactly one internal node fewer than it holds
/// leaves: it is a full binary tree.
pub proof fn lemma_node_count(t: BoundOp)
    ensures
        t.node_count() + 1 == t.leaf_count(),
    decreases t,
{
    match t {
        BoundOp::Val(_) => {},
        BoundOp::BoundOp { op, l, r } => {
            lemma_node_count(*l);
            lemma_node_count(*r);
        },
    }
}

} // verus!
