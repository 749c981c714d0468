use crate::rat::{
    lemma_rat_pow_wf, rat_add, rat_add_spec, rat_div, rat_div_spec, rat_mul, rat_mul_spec,
    rat_pow, rat_pow_spec, rat_sub, rat_sub_spec, Rat,
};
use vstd::prelude::*;

verus! {

/// The type of arithmetic operation.
#[derive(Debug, Clone, Copy, PartialEq, Eq, Structural)]
pub enum Op {
    Add,
    Sub,
    Mul,
    Div,
    Pow,
}

/// The operators an unrestricted game draws from, in their canonical order.
pub open spec fn default_universe() -> Seq<Op> {
    seq![Op::Add, Op::Sub, Op::Mul, Op::Div, Op::Pow]
}

impl Op {
    /// Exact rational meaning of the operator.
    pub open spec fn apply_spec(self, a: Rat, b: Rat) -> Option<Rat> {
        match self {
            Op::Add => rat_add_spec(a, b),
            Op::Sub => rat_sub_spec(a, b),
            Op::Mul => rat_mul_spec(a, b),
            Op::Div => rat_div_spec(a, b),
            Op::Pow => rat_pow_spec(a, b),
        }
    }

    /// Whether the operator is commutative, which the solution
    /// deduplication takes into account.
    pub open spec fn is_commutative(self) -> bool {
        self == Op::Add || self == Op::Mul
    }

    /// Applies the operator to two exact rational operands.
    pub fn apply(self, a: Rat, b: Rat) -> (r: Option<Rat>)
        requires
            a.wf(),
            b.wf(),
        ensures
            r == self.apply_spec(a, b),
    {
        match self {
            Op::Add => rat_add(a, b),
            Op::Sub => rat_sub(a, b),
            Op::Mul => rat_mul(a, b),
            Op::Div => rat_div(a, b),
            Op::Pow => rat_pow(a, b),
        }
    }

    /// The display symbol of the operator.
    pub open spec fn symbol_spec(self) -> char {
        match self {
            Op::Add => '+',
            Op::Sub => '-',
            Op::Mul => '×',
            Op::Div => '÷',
            Op::Pow => '^',
        }
    }

    /// Returns the display symbol of the operator.
    pub fn symbol(self) -> (c: char)
        ensures
            c == self.symbol_spec(),
    {
        match self {
            Op::Add => '+',
            Op::Sub => '-',
            Op::Mul => '×',
            Op::Div => '÷',
            Op::Pow => '^',
        }
    }
}

/// Applying an operator to well-formed rationals keeps the denominator
/// positive.
pub proof fn lemma_apply_wf(op: Op, a: Rat, b: Rat)
    requires
        a.wf(),
        b.wf(),
    ensures
        op.apply_spec(a, b) matches Some(c) ==> c.wf(),
{
    if op.apply_spec(a, b) is Some {
        match op {
            Op::Add | Op::Sub | Op::Mul => {
                assert(a.den * b.den >= 1) by (nonlinear_arith)
                    requires
                        a.den >= 1,
                        b.den >= 1,
                ;
            },
            Op::Div => {
                assert(a.den * b.num != 0) by (nonlinear_arith)
                    requires
                        a.den >= 1,
                        b.num != 0,
                ;
            },
            Op::Pow => {
                lemma_rat_pow_wf(a, b);
            },
        }
    }
}

/// A newtype collection of operations.
#[derive(Debug)]
pub struct Ops(pub Vec<Op>);

impl Clone for Ops {
    /// A clone holds the same operations.
    fn clone(&self) -> (r: Self)
        ensures
            r@ == self@,
    {
        let mut inner: Vec<Op> = Vec::new();
        let mut i: usize = 0;
        while i < self.0.len()
            invariant
                i <= self@.len(),
                inner@ == self@.take(i as int),
            decreases self@.len() - i,
        {
            inner.push(self.0[i]);
            proof {
                assert(inner@ =~= self@.take(i + 1));
            }
            i = i + 1;
        }
        proof {
            assert(self@.take(self@.len() as int) =~= self@);
        }
        Ops(inner)
    }
}

impl View for Ops {
    type V = Seq<Op>;

    open spec fn view(&self) -> Seq<Op> {
        self.0@
    }
}

impl Ops {
    /// Creates an empty collection with room for `size` operations.
    pub fn with_capacity(size: usize) -> (r: Self)
        ensures
            r@ == Seq::<Op>::empty(),
    {
        Ops(Vec::with_capacity(size))
    }

    /// Wraps a list of operations.
    pub fn with_ops(ops: Vec<Op>) -> (r: Self)
        ensures
            r@ == ops@,
    {
        Ops(ops)
    }

    /// Hands the underlying list back.
    pub fn into_inner(self) -> (r: Vec<Op>)
        ensures
            r@ == self@,
    {
        self.0
    }

    /// Appends one operation.
    pub fn push(&mut self, op: Op)
        ensures
            final(self)@ == old(self)@.push(op),
    {
        self.0.push(op)
    }

    /// The number of operations held.
    pub fn len(&self) -> (n: usize)
        ensures
            n == self@.len(),
    {
        self.0.len()
    }

    /// Reads the operation at `i`.
    pub fn index(&self, i: usize) -> (op: Op)
        requires
            i < self@.len(),
        ensures
            op == self@[i as int],
    {
        self.0[i]
    }
}

impl Default for Ops {
    /// The full operator universe.
    fn default() -> (r: Self)
        ensures
            r@ == default_universe(),
    {
        let r = Ops(vec![Op::Add, Op::Sub, Op::Mul, Op::Div, Op::Pow]);
        proof {
            assert(r@ =~= default_universe());
        }
        r
    }
}

impl PartialEq for Ops {
    /// Two collections are equal when they hold the same operations in the
    /// same order.
    fn eq(&self, other: &Ops) -> (r: bool) {
        if self.0.len() != other.0.len() {
            return false;
        }
        let n = self.0.len();
        let mut i: usize = 0;
        while i < n
            invariant
                n == self@.len(),
                n == other@.len(),
                0 <= i <= n,
                forall|j: int| 0 <= j < i ==> self@[j] == other@[j],
            decreases n - i,
        {
            if self.0[i] != other.0[i] {
                return false;
            }
            i = i + 1;
        }
        proof {
            assert(self@ =~= other@);
        }
        true
    }
}

impl vstd::std_specs::cmp::PartialEqSpecImpl for Ops {
    open spec fn obeys_eq_spec() -> bool {
        true
    }

    open spec fn eq_spec(&self, other: &Ops) -> bool {
        self@ == other@
    }
}

} // verus!
