use twentyfour::{dedup_solutions, BoundOp, Cards, CartesianProduct, Op, Ops, Rat, Solutions};

fn leaf(n: u8) -> BoundOp {
    BoundOp::Val(n)
}

fn node(op: Op, l: BoundOp, r: BoundOp) -> BoundOp {
    BoundOp::BoundOp { op, l: Box::new(l), r: Box::new(r) }
}

#[test]
fn test_single_card_hits_target() {
    let sols = Cards::new(vec![24]).solve();
    assert_eq!(sols.len(), 1);
    assert_eq!(sols, Solutions::new(vec![leaf(24)]));
}

#[test]
fn test_single_card_misses_target() {
    let sols = Cards::new(vec![5]).solve();
    assert_eq!(sols.len(), 0);
}

#[test]
fn test_equal_cards_collapse_to_one_permutation() {
    let cards = Cards::new(vec![7, 7, 7, 7]);
    assert_eq!(cards.permutations_dedup(), vec![vec![7, 7, 7, 7]]);
    // The operator-sequence space is untouched by the permutation dedup.
    assert_eq!(cards.op_product().len(), 125);
}

#[test]
fn test_commutative_swap_is_equal() {
    let a = node(Op::Add, leaf(1), leaf(2));
    let b = node(Op::Add, leaf(2), leaf(1));
    assert_eq!(a, b);
    let c = node(Op::Mul, node(Op::Sub, leaf(7), leaf(4)), leaf(8));
    let d = node(Op::Mul, leaf(8), node(Op::Sub, leaf(7), leaf(4)));
    assert_eq!(c, d);
    // Subtraction does not commute.
    let e = node(Op::Sub, leaf(1), leaf(2));
    let f = node(Op::Sub, leaf(2), leaf(1));
    assert_ne!(e, f);
}

#[test]
fn test_dedup_collapses_adjacent_only() {
    let a = node(Op::Add, leaf(1), leaf(2));
    let b = node(Op::Add, leaf(2), leaf(1));
    let c = node(Op::Mul, leaf(3), leaf(4));
    // Adjacent equivalent trees collapse to the first one.
    assert_eq!(dedup_solutions(vec![a.clone(), b.clone()]), vec![a.clone()]);
    // A non-equivalent tree in between keeps both.
    let kept = dedup_solutions(vec![a.clone(), c.clone(), b.clone()]);
    assert_eq!(kept.len(), 3);
}

#[test]
fn test_solve_is_deterministic() {
    let a = Cards::new(vec![1, 4, 7, 9]).solve();
    let b = Cards::new(vec![1, 4, 7, 9]).solve();
    assert_eq!(a, b);
}

#[test]
fn test_restricting_operators_never_adds_solutions() {
    let four_ops = vec![Op::Add, Op::Sub, Op::Mul, Op::Div];
    for cards in [vec![3, 3, 3, 3], vec![1, 4, 7, 9], vec![2, 3, 4, 6], vec![1, 1, 1, 1]] {
        let full = Cards::new(cards.clone()).solve().len();
        let restricted =
            Cards::with_ops(cards, Ops::with_ops(four_ops.clone())).solve().len();
        assert!(restricted <= full);
    }
}

#[test]
fn test_eval_exact_values() {
    // 3 × (3 × 3) − 3 = 24.
    let t = node(Op::Sub, node(Op::Mul, leaf(3), node(Op::Mul, leaf(3), leaf(3))), leaf(3));
    assert_eq!(t.eval(), Some(Rat { num: 24, den: 1 }));
    // 1 ÷ 3 stays an exact fraction.
    assert_eq!(node(Op::Div, leaf(1), leaf(3)).eval(), Some(Rat { num: 1, den: 3 }));
    // 2 ^ 10 = 1024.
    assert_eq!(node(Op::Pow, leaf(2), leaf(10)).eval(), Some(Rat { num: 1024, den: 1 }));
    // 2 ^ (4 ÷ 2) is an integer power in disguise.
    assert_eq!(
        node(Op::Pow, leaf(2), node(Op::Div, leaf(4), leaf(2))).eval(),
        Some(Rat { num: 4, den: 1 })
    );
    // x ^ 0 = 1.
    assert_eq!(node(Op::Pow, leaf(0), leaf(0)).eval(), Some(Rat { num: 1, den: 1 }));
}

#[test]
fn test_eval_undefined_values() {
    // Division by zero has no exact value.
    assert_eq!(node(Op::Div, leaf(1), leaf(0)).eval(), None);
    // A fractional exponent has no exact rational value.
    assert_eq!(node(Op::Pow, leaf(2), node(Op::Div, leaf(1), leaf(2))).eval(), None);
    // Zero to a negative power has no value.
    assert_eq!(
        node(Op::Pow, leaf(0), node(Op::Sub, leaf(0), leaf(1))).eval(),
        None
    );
}

#[test]
fn test_eval_fractional_powers() {
    // 4 ^ (1 ÷ 2) = 2.
    let t = node(Op::Pow, leaf(4), node(Op::Div, leaf(1), leaf(2)));
    assert_eq!(t.eval(), Some(Rat { num: 2, den: 1 }));
    // 9 ^ (3 ÷ 2) = 27.
    let u = node(Op::Pow, leaf(9), node(Op::Div, leaf(3), leaf(2)));
    assert_eq!(u.eval(), Some(Rat { num: 27, den: 1 }));
    // 8 ^ (2 ÷ 3) = 4.
    let v = node(Op::Pow, leaf(8), node(Op::Div, leaf(2), leaf(3)));
    assert_eq!(v.eval(), Some(Rat { num: 4, den: 1 }));
    // (27 ÷ 8) ^ (1 ÷ 3) = 3 ÷ 2.
    let w = node(
        Op::Pow,
        node(Op::Div, leaf(27), leaf(8)),
        node(Op::Div, leaf(1), leaf(3)),
    );
    assert_eq!(w.eval(), Some(Rat { num: 3, den: 2 }));
    // 4 ^ (−1 ÷ 2) = 1 ÷ 2.
    let x = node(
        Op::Pow,
        leaf(4),
        node(Op::Sub, leaf(0), node(Op::Div, leaf(1), leaf(2))),
    );
    assert_eq!(x.eval(), Some(Rat { num: 1, den: 2 }));
    // (0 − 8) ^ (1 ÷ 3) = −2: an odd root of a negative base is real.
    let y = node(
        Op::Pow,
        node(Op::Sub, leaf(0), leaf(8)),
        node(Op::Div, leaf(1), leaf(3)),
    );
    assert_eq!(y.eval(), Some(Rat { num: -2, den: 1 }));
    // (0 − 4) ^ (1 ÷ 2) is not real.
    let z = node(
        Op::Pow,
        node(Op::Sub, leaf(0), leaf(4)),
        node(Op::Div, leaf(1), leaf(2)),
    );
    assert_eq!(z.eval(), None);
}

#[test]
fn test_solve_with_fractional_power() {
    // 4 ^ (1 ÷ 2) × 12 = 24.
    let t = node(
        Op::Mul,
        node(Op::Pow, leaf(4), node(Op::Div, leaf(1), leaf(2))),
        leaf(12),
    );
    assert_eq!(t.eval(), Some(Rat { num: 24, den: 1 }));
    assert!(Cards::new(vec![4, 1, 2, 12]).solve().len() >= 1);
}

#[test]
fn test_permutations_value_dedup() {
    // [1,1,2] appears twice in position order; only its first occurrence
    // is kept, wherever the repeats stand.
    let cards = Cards::new(vec![1, 2, 1]);
    assert_eq!(
        cards.permutations_dedup(),
        vec![vec![1, 2, 1], vec![1, 1, 2], vec![2, 1, 1]]
    );
    // Two pairs of equal cards: 4!/(2!·2!) = 6 distinct orderings.
    let pairs = Cards::new(vec![3, 4, 3, 4]);
    assert_eq!(pairs.permutations_dedup().len(), 6);
}

#[test]
fn test_negative_base_integer_power() {
    // (1 − 3) ^ 3 = −8.
    let t = node(Op::Pow, node(Op::Sub, leaf(1), leaf(3)), leaf(3));
    assert_eq!(t.eval(), Some(Rat { num: -8, den: 1 }));
    // (1 − 2) ^ 9 = −1 for an odd exponent.
    let u = node(Op::Pow, node(Op::Sub, leaf(1), leaf(2)), leaf(9));
    assert_eq!(u.eval(), Some(Rat { num: -1, den: 1 }));
}

#[test]
fn test_infix_notation() {
    let t = node(Op::Mul, node(Op::Add, leaf(1), node(Op::Add, leaf(2), leaf(3))), leaf(4));
    assert_eq!(t.to_infix_notation(), "((1+(2+3))×4)".to_string());
    let u = node(Op::Div, leaf(12), node(Op::Pow, leaf(2), leaf(10)));
    assert_eq!(u.to_infix_notation(), "(12÷(2^10))".to_string());
    assert_eq!(leaf(255).to_infix_notation(), "255".to_string());
    assert_eq!(leaf(0).to_infix_notation(), "0".to_string());
}

#[test]
fn test_ops_collection() {
    let mut ops = Ops::with_capacity(2);
    assert_eq!(ops.len(), 0);
    ops.push(Op::Add);
    ops.push(Op::Pow);
    assert_eq!(ops.len(), 2);
    assert_eq!(ops.into_inner(), vec![Op::Add, Op::Pow]);
    let defaults = Ops::default();
    assert_eq!(defaults.into_inner(), vec![Op::Add, Op::Sub, Op::Mul, Op::Div, Op::Pow]);
}

#[test]
fn test_cartesian_product_order() {
    let mut cp = CartesianProduct::with_sizes(&[2, 3]);
    let mut seen: Vec<Vec<usize>> = Vec::new();
    while let Some(t) = cp.next() {
        seen.push(t);
    }
    assert_eq!(
        seen,
        vec![
            vec![0, 0],
            vec![0, 1],
            vec![0, 2],
            vec![1, 0],
            vec![1, 1],
            vec![1, 2],
        ]
    );
}

#[test]
fn test_cartesian_product_empty_dimension() {
    let mut cp = CartesianProduct::with_sizes(&[3, 0, 2]);
    assert_eq!(cp.next(), None);
}

#[test]
fn test_solutions_len() {
    let sols = Solutions::new(vec![leaf(1), leaf(2)]);
    assert_eq!(sols.len(), 2);
}

#[test]
fn test_two_cards() {
    // 4 × 6 = 24 and 6 × 4 = 24 are the only matches, they are adjacent in
    // the emission stream, and they are commutatively equivalent, so one
    // solution remains.
    let sols = Cards::new(vec![4, 6]).solve();
    assert_eq!(sols, Solutions::new(vec![node(Op::Mul, leaf(4), leaf(6))]));
}
