use twentyfour::{BoundOp, Cards, Op, Ops, Solutions};

#[test]
fn test_permutations_2() {
    let cards = Cards::new(vec![1, 2]);
    assert_eq!(cards.permutations_dedup(), vec![vec![1, 2], vec![2, 1]])
}

#[test]
fn test_permutations_2_dup() {
    let cards = Cards::new(vec![1, 1]);
    assert_eq!(cards.permutations_dedup(), vec![vec![1, 1]])
}

#[test]
fn test_permutations_3() {
    let cards = Cards::new(vec![1, 2, 3]);
    assert_eq!(
        cards.permutations_dedup(),
        vec![
            vec![1, 2, 3],
            vec![1, 3, 2],
            vec![2, 1, 3],
            vec![2, 3, 1],
            vec![3, 1, 2],
            vec![3, 2, 1]
        ]
    )
}

#[test]
fn test_cards_ops_2_dup() {
    let cards = Cards::new(vec![1, 1]);
    let card_ops = cards.cards_ops();
    assert_eq!(
        card_ops,
        vec![
            (vec![1, 1], Ops::with_ops(vec![Op::Add])),
            (vec![1, 1], Ops::with_ops(vec![Op::Sub])),
            (vec![1, 1], Ops::with_ops(vec![Op::Mul])),
            (vec![1, 1], Ops::with_ops(vec![Op::Div])),
            (vec![1, 1], Ops::with_ops(vec![Op::Pow])),
        ]
    )
}

#[test]
fn test_cards_ops() {
    let cards = Cards::new(vec![1, 2]);
    let card_ops = cards.cards_ops();
    assert_eq!(
        card_ops,
        vec![
            (vec![1, 2], Ops::with_ops(vec![Op::Add])),
            (vec![1, 2], Ops::with_ops(vec![Op::Sub])),
            (vec![1, 2], Ops::with_ops(vec![Op::Mul])),
            (vec![1, 2], Ops::with_ops(vec![Op::Div])),
            (vec![1, 2], Ops::with_ops(vec![Op::Pow])),
            (vec![2, 1], Ops::with_ops(vec![Op::Add])),
            (vec![2, 1], Ops::with_ops(vec![Op::Sub])),
            (vec![2, 1], Ops::with_ops(vec![Op::Mul])),
            (vec![2, 1], Ops::with_ops(vec![Op::Div])),
            (vec![2, 1], Ops::with_ops(vec![Op::Pow])),
        ]
    )
}

#[test]
fn test_solve_no_sol() {
    let cards = Cards::new(vec![1, 1, 1, 1]);
    assert_eq!(cards.solve(), Solutions::new(Vec::new()));
}

#[test]
fn test_solve_3s() {
    let cards = Cards::new(vec![3, 3, 3, 3]);

    let unique_sol = BoundOp::BoundOp {
        op: Op::Sub,
        l: Box::new(BoundOp::BoundOp {
            op: Op::Mul,
            l: Box::new(BoundOp::Val(3)),
            r: Box::new(BoundOp::BoundOp {
                op: Op::Mul,
                l: Box::new(BoundOp::Val(3)),
                r: Box::new(BoundOp::Val(3)),
            }),
        }),
        r: Box::new(BoundOp::Val(3)),
    };
    assert_eq!(cards.solve(), Solutions::new(vec![unique_sol]));
}

#[test]
fn test_solve_difficult() {
    let cards = Cards::new(vec![1, 4, 7, 9]);

    let sols = vec![
        BoundOp::BoundOp {
            op: Op::Mul,
            l: Box::new(BoundOp::BoundOp {
                op: Op::Sub,
                l: Box::new(BoundOp::Val(1)),
                r: Box::new(BoundOp::Val(9)),
            }),
            r: Box::new(BoundOp::BoundOp {
                op: Op::Sub,
                l: Box::new(BoundOp::Val(4)),
                r: Box::new(BoundOp::Val(7)),
            }),
        },
        BoundOp::BoundOp {
            op: Op::Mul,
            l: Box::new(BoundOp::Val(4)),
            r: Box::new(BoundOp::BoundOp {
                op: Op::Sub,
                l: Box::new(BoundOp::Val(7)),
                r: Box::new(BoundOp::BoundOp {
                    op: Op::Pow,
                    l: Box::new(BoundOp::Val(1)),
                    r: Box::new(BoundOp::Val(9)),
                }),
            }),
        },
        // negative version of solution 1
        BoundOp::BoundOp {
            op: Op::Mul,
            l: Box::new(BoundOp::BoundOp {
                op: Op::Sub,
                l: Box::new(BoundOp::Val(7)),
                r: Box::new(BoundOp::Val(4)),
            }),
            r: Box::new(BoundOp::BoundOp {
                op: Op::Sub,
                l: Box::new(BoundOp::Val(9)),
                r: Box::new(BoundOp::Val(1)),
            }),
        },
    ];
    assert_eq!(cards.solve(), Solutions::new(sols));
}

#[test]
fn test_permutations_3_dup() {
    let cards = Cards::new(vec![1, 1, 1]);
    assert_eq!(cards.permutations_dedup(), vec![vec![1, 1, 1]])
}

#[test]
fn test_op_product_2() {
    let cards = Cards::new(vec![1, 2]);
    assert_eq!(
        cards.op_product(),
        vec![
            Ops::with_ops(vec![Op::Add]),
            Ops::with_ops(vec![Op::Sub]),
            Ops::with_ops(vec![Op::Mul]),
            Ops::with_ops(vec![Op::Div]),
            Ops::with_ops(vec![Op::Pow]),
        ]
    )
}

#[test]
fn test_op_product_3() {
    let cards = Cards::new(vec![1, 2, 3]);
    assert_eq!(
        cards.op_product(),
        vec![
            Ops::with_ops(vec![Op::Add, Op::Add]),
            Ops::with_ops(vec![Op::Add, Op::Sub]),
            Ops::with_ops(vec![Op::Add, Op::Mul]),
            Ops::with_ops(vec![Op::Add, Op::Div]),
            Ops::with_ops(vec![Op::Add, Op::Pow]),
            Ops::with_ops(vec![Op::Sub, Op::Add]),
            Ops::with_ops(vec![Op::Sub, Op::Sub]),
            Ops::with_ops(vec![Op::Sub, Op::Mul]),
            Ops::with_ops(vec![Op::Sub, Op::Div]),
            Ops::with_ops(vec![Op::Sub, Op::Pow]),
            Ops::with_ops(vec![Op::Mul, Op::Add]),
            Ops::with_ops(vec![Op::Mul, Op::Sub]),
            Ops::with_ops(vec![Op::Mul, Op::Mul]),
            Ops::with_ops(vec![Op::Mul, Op::Div]),
            Ops::with_ops(vec![Op::Mul, Op::Pow]),
            Ops::with_ops(vec![Op::Div, Op::Add]),
            Ops::with_ops(vec![Op::Div, Op::Sub]),
            Ops::with_ops(vec![Op::Div, Op::Mul]),
            Ops::with_ops(vec![Op::Div, Op::Div]),
            Ops::with_ops(vec![Op::Div, Op::Pow]),
            Ops::with_ops(vec![Op::Pow, Op::Add]),
            Ops::with_ops(vec![Op::Pow, Op::Sub]),
            Ops::with_ops(vec![Op::Pow, Op::Mul]),
            Ops::with_ops(vec![Op::Pow, Op::Div]),
            Ops::with_ops(vec![Op::Pow, Op::Pow]),
        ]
    )
}

#[test]
fn test_op_product_4() {
    let cards = Cards::new(vec![1, 2, 3, 4]);
    assert_eq!(
        cards.op_product(),
        vec![
            Ops::with_ops(vec![Op::Add, Op::Add, Op::Add]),
            Ops::with_ops(vec![Op::Add, Op::Add, Op::Sub]),
            Ops::with_ops(vec![Op::Add, Op::Add, Op::Mul]),
            Ops::with_ops(vec![Op::Add, Op::Add, Op::Div]),
            Ops::with_ops(vec![Op::Add, Op::Add, Op::Pow]),
            Ops::with_ops(vec![Op::Add, Op::Sub, Op::Add]),
            Ops::with_ops(vec![Op::Add, Op::Sub, Op::Sub]),
            Ops::with_ops(vec![Op::Add, Op::Sub, Op::Mul]),
            Ops::with_ops(vec![Op::Add, Op::Sub, Op::Div]),
            Ops::with_ops(vec![Op::Add, Op::Sub, Op::Pow]),
            Ops::with_ops(vec![Op::Add, Op::Mul, Op::Add]),
            Ops::with_ops(vec![Op::Add, Op::Mul, Op::Sub]),
            Ops::with_ops(vec![Op::Add, Op::Mul, Op::Mul]),
            Ops::with_ops(vec![Op::Add, Op::Mul, Op::Div]),
            Ops::with_ops(vec![Op::Add, Op::Mul, Op::Pow]),
            Ops::with_ops(vec![Op::Add, Op::Div, Op::Add]),
            Ops::with_ops(vec![Op::Add, Op::Div, Op::Sub]),
            Ops::with_ops(vec![Op::Add, Op::Div, Op::Mul]),
            Ops::with_ops(vec![Op::Add, Op::Div, Op::Div]),
            Ops::with_ops(vec![Op::Add, Op::Div, Op::Pow]),
            Ops::with_ops(vec![Op::Add, Op::Pow, Op::Add]),
            Ops::with_ops(vec![Op::Add, Op::Pow, Op::Sub]),
            Ops::with_ops(vec![Op::Add, Op::Pow, Op::Mul]),
            Ops::with_ops(vec![Op::Add, Op::Pow, Op::Div]),
            Ops::with_ops(vec![Op::Add, Op::Pow, Op::Pow]),
            Ops::with_ops(vec![Op::Sub, Op::Add, Op::Add]),
            Ops::with_ops(vec![Op::Sub, Op::Add, Op::Sub]),
            Ops::with_ops(vec![Op::Sub, Op::Add, Op::Mul]),
            Ops::with_ops(vec![Op::Sub, Op::Add, Op::Div]),
            Ops::with_ops(vec![Op::Sub, Op::Add, Op::Pow]),
            Ops::with_ops(vec![Op::Sub, Op::Sub, Op::Add]),
            Ops::with_ops(vec![Op::Sub, Op::Sub, Op::Sub]),
            Ops::with_ops(vec![Op::Sub, Op::Sub, Op::Mul]),
            Ops::with_ops(vec![Op::Sub, Op::Sub, Op::Div]),
            Ops::with_ops(vec![Op::Sub, Op::Sub, Op::Pow]),
            Ops::with_ops(vec![Op::Sub, Op::Mul, Op::Add]),
            Ops::with_ops(vec![Op::Sub, Op::Mul, Op::Sub]),
            Ops::with_ops(vec![Op::Sub, Op::Mul, Op::Mul]),
            Ops::with_ops(vec![Op::Sub, Op::Mul, Op::Div]),
            Ops::with_ops(vec![Op::Sub, Op::Mul, Op::Pow]),
            Ops::with_ops(vec![Op::Sub, Op::Div, Op::Add]),
            Ops::with_ops(vec![Op::Sub, Op::Div, Op::Sub]),
            Ops::with_ops(vec![Op::Sub, Op::Div, Op::Mul]),
            Ops::with_ops(vec![Op::Sub, Op::Div, Op::Div]),
            Ops::with_ops(vec![Op::Sub, Op::Div, Op::Pow]),
            Ops::with_ops(vec![Op::Sub, Op::Pow, Op::Add]),
            Ops::with_ops(vec![Op::Sub, Op::Pow, Op::Sub]),
            Ops::with_ops(vec![Op::Sub, Op::Pow, Op::Mul]),
            Ops::with_ops(vec![Op::Sub, Op::Pow, Op::Div]),
            Ops::with_ops(vec![Op::Sub, Op::Pow, Op::Pow]),
            Ops::with_ops(vec![Op::Mul, Op::Add, Op::Add]),
            Ops::with_ops(vec![Op::Mul, Op::Add, Op::Sub]),
            Ops::with_ops(vec![Op::Mul, Op::Add, Op::Mul]),
            Ops::with_ops(vec![Op::Mul, Op::Add, Op::Div]),
            Ops::with_ops(vec![Op::Mul, Op::Add, Op::Pow]),
            Ops::with_ops(vec![Op::Mul, Op::Sub, Op::Add]),
            Ops::with_ops(vec![Op::Mul, Op::Sub, Op::Sub]),
            Ops::with_ops(vec![Op::Mul, Op::Sub, Op::Mul]),
            Ops::with_ops(vec![Op::Mul, Op::Sub, Op::Div]),
            Ops::with_ops(vec![Op::Mul, Op::Sub, Op::Pow]),
            Ops::with_ops(vec![Op::Mul, Op::Mul, Op::Add]),
            Ops::with_ops(vec![Op::Mul, Op::Mul, Op::Sub]),
            Ops::with_ops(vec![Op::Mul, Op::Mul, Op::Mul]),
            Ops::with_ops(vec![Op::Mul, Op::Mul, Op::Div]),
            Ops::with_ops(vec![Op::Mul, Op::Mul, Op::Pow]),
            Ops::with_ops(vec![Op::Mul, Op::Div, Op::Add]),
            Ops::with_ops(vec![Op::Mul, Op::Div, Op::Sub]),
            Ops::with_ops(vec![Op::Mul, Op::Div, Op::Mul]),
            Ops::with_ops(vec![Op::Mul, Op::Div, Op::Div]),
            Ops::with_ops(vec![Op::Mul, Op::Div, Op::Pow]),
            Ops::with_ops(vec![Op::Mul, Op::Pow, Op::Add]),
            Ops::with_ops(vec![Op::Mul, Op::Pow, Op::Sub]),
            Ops::with_ops(vec![Op::Mul, Op::Pow, Op::Mul]),
            Ops::with_ops(vec![Op::Mul, Op::Pow, Op::Div]),
            Ops::with_ops(vec![Op::Mul, Op::Pow, Op::Pow]),
            Ops::with_ops(vec![Op::Div, Op::Add, Op::Add]),
            Ops::with_ops(vec![Op::Div, Op::Add, Op::Sub]),
            Ops::with_ops(vec![Op::Div, Op::Add, Op::Mul]),
            Ops::with_ops(vec![Op::Div, Op::Add, Op::Div]),
            Ops::with_ops(vec![Op::Div, Op::Add, Op::Pow]),
            Ops::with_ops(vec![Op::Div, Op::Sub, Op::Add]),
            Ops::with_ops(vec![Op::Div, Op::Sub, Op::Sub]),
            Ops::with_ops(vec![Op::Div, Op::Sub, Op::Mul]),
            Ops::with_ops(vec![Op::Div, Op::Sub, Op::Div]),
            Ops::with_ops(vec![Op::Div, Op::Sub, Op::Pow]),
            Ops::with_ops(vec![Op::Div, Op::Mul, Op::Add]),
            Ops::with_ops(vec![Op::Div, Op::Mul, Op::Sub]),
            Ops::with_ops(vec![Op::Div, Op::Mul, Op::Mul]),
            Ops::with_ops(vec![Op::Div, Op::Mul, Op::Div]),
            Ops::with_ops(vec![Op::Div, Op::Mul, Op::Pow]),
            Ops::with_ops(vec![Op::Div, Op::Div, Op::Add]),
            Ops::with_ops(vec![Op::Div, Op::Div, Op::Sub]),
            Ops::with_ops(vec![Op::Div, Op::Div, Op::Mul]),
            Ops::with_ops(vec![Op::Div, Op::Div, Op::Div]),
            Ops::with_ops(vec![Op::Div, Op::Div, Op::Pow]),
            Ops::with_ops(vec![Op::Div, Op::Pow, Op::Add]),
            Ops::with_ops(vec![Op::Div, Op::Pow, Op::Sub]),
            Ops::with_ops(vec![Op::Div, Op::Pow, Op::Mul]),
            Ops::with_ops(vec![Op::Div, Op::Pow, Op::Div]),
            Ops::with_ops(vec![Op::Div, Op::Pow, Op::Pow]),
            Ops::with_ops(vec![Op::Pow, Op::Add, Op::Add]),
            Ops::with_ops(vec![Op::Pow, Op::Add, Op::Sub]),
            Ops::with_ops(vec![Op::Pow, Op::Add, Op::Mul]),
            Ops::with_ops(vec![Op::Pow, Op::Add, Op::Div]),
            Ops::with_ops(vec![Op::Pow, Op::Add, Op::Pow]),
            Ops::with_ops(vec![Op::Pow, Op::Sub, Op::Add]),
            Ops::with_ops(vec![Op::Pow, Op::Sub, Op::Sub]),
            Ops::with_ops(vec![Op::Pow, Op::Sub, Op::Mul]),
            Ops::with_ops(vec![Op::Pow, Op::Sub, Op::Div]),
            Ops::with_ops(vec![Op::Pow, Op::Sub, Op::Pow]),
            Ops::with_ops(vec![Op::Pow, Op::Mul, Op::Add]),
            Ops::with_ops(vec![Op::Pow, Op::Mul, Op::Sub]),
            Ops::with_ops(vec![Op::Pow, Op::Mul, Op::Mul]),
            Ops::with_ops(vec![Op::Pow, Op::Mul, Op::Div]),
            Ops::with_ops(vec![Op::Pow, Op::Mul, Op::Pow]),
            Ops::with_ops(vec![Op::Pow, Op::Div, Op::Add]),
            Ops::with_ops(vec![Op::Pow, Op::Div, Op::Sub]),
            Ops::with_ops(vec![Op::Pow, Op::Div, Op::Mul]),
            Ops::with_ops(vec![Op::Pow, Op::Div, Op::Div]),
            Ops::with_ops(vec![Op::Pow, Op::Div, Op::Pow]),
            Ops::with_ops(vec![Op::Pow, Op::Pow, Op::Add]),
            Ops::with_ops(vec![Op::Pow, Op::Pow, Op::Sub]),
            Ops::with_ops(vec![Op::Pow, Op::Pow, Op::Mul]),
            Ops::with_ops(vec![Op::Pow, Op::Pow, Op::Div]),
            Ops::with_ops(vec![Op::Pow, Op::Pow, Op::Pow]),
        ]
    )
}
