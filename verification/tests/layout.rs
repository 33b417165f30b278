use lambda_factory::lambda::LambdaBox;
use lambda_factory::mino::{LambdaMino, LambdaSqType};

fn con(s: &str) -> LambdaBox<String> {
    LambdaBox::new_const(s.to_string())
}

fn kinds(m: &LambdaMino<String>) -> (usize, usize, usize, usize) {
    let mut c = (0, 0, 0, 0);
    for (_, sq) in m.squares.iter() {
        match &sq.sq_type {
            LambdaSqType::MCon(_) => c.0 += 1,
            LambdaSqType::MApp => c.1 += 1,
            LambdaSqType::MLam => c.2 += 1,
            LambdaSqType::MLink(_, _) => c.3 += 1,
        }
    }
    c
}

#[test]
fn identity_layout() {
    let m = LambdaBox::<String>::i_factory().gen_mino();
    assert_eq!(m.squares.len(), 2);
    assert_eq!(kinds(&m), (0, 0, 1, 1));
    assert_eq!((m.width, m.height), (1, 1));
    assert_eq!((m.skew_width_l, m.skew_width_r, m.skew_height), (1, 1, 1));
    for (_, sq) in m.squares.iter() {
        match &sq.sq_type {
            LambdaSqType::MLam => {
                assert_eq!(sq.pos, (0, 0));
                assert_eq!(sq.target, (-1, 0));
            }
            LambdaSqType::MLink(_, p) => {
                assert_eq!(sq.pos, (1, 0));
                assert_eq!(sq.target, (0, 0));
                assert_eq!(*p, (0, 0));
            }
            _ => panic!("unexpected square"),
        }
    }
}

#[test]
fn constant_layout() {
    let m = con("x").gen_mino();
    assert_eq!(m.squares.len(), 1);
    assert_eq!((m.width, m.height), (1, 1));
    assert_eq!((m.skew_width_l, m.skew_width_r, m.skew_height), (1, 1, 2));
    let sq = &m.squares[0].1;
    assert_eq!(sq.pos, (0, 0));
    assert_eq!(sq.target, (-1, 0));
    assert_eq!(sq.sq_type.to_string(), "x");
}

#[test]
fn free_variable_has_no_square() {
    let m = LambdaBox::<String>::default().gen_mino();
    assert!(m.squares.is_empty());
    assert_eq!((m.width, m.height, m.skew_width_l, m.skew_width_r, m.skew_height), (0, 0, 0, 0, 0));
}

#[test]
fn application_stacks_argument_above() {
    let m = LambdaBox::i_factory().composition(con("x")).gen_mino();
    assert_eq!(m.squares.len(), 4);
    assert_eq!(kinds(&m), (1, 1, 1, 1));
    assert_eq!((m.width, m.height), (2, 2));
    assert_eq!((m.skew_width_l, m.skew_width_r, m.skew_height), (2, 2, 3));
    for (_, sq) in m.squares.iter() {
        match &sq.sq_type {
            LambdaSqType::MApp => {
                assert_eq!(sq.pos, (0, 0));
                assert_eq!(sq.target, (-1, 0));
            }
            LambdaSqType::MLam => {
                assert_eq!(sq.pos, (1, 0));
                assert_eq!(sq.target, (0, 0));
            }
            LambdaSqType::MLink(_, p) => {
                assert_eq!(sq.pos, (2, 0));
                assert_eq!(sq.target, (1, 0));
                assert_eq!(*p, (1, 0));
            }
            LambdaSqType::MCon(c) => {
                assert_eq!(c, "x");
                assert_eq!(sq.pos, (0, 1));
                assert_eq!(sq.target, (0, 0));
            }
        }
    }
}

#[test]
fn layout_keys_are_distinct_and_squares_fit() {
    for t in [
        LambdaBox::<String>::s_factory(),
        LambdaBox::<String>::y_factory(),
        LambdaBox::b_factory().composition(con("x")).composition(con("y")),
    ] {
        let n = t.expr_ref().node_count() as i32;
        let m = t.gen_mino();
        for i in 0..m.squares.len() {
            for j in (i + 1)..m.squares.len() {
                assert_ne!(m.squares[i].0.id(), m.squares[j].0.id());
            }
            let sq = &m.squares[i].1;
            assert!(0 <= sq.pos.0 && sq.pos.0 < n && 0 <= sq.pos.1 && sq.pos.1 < n);
        }
    }
}

#[test]
fn square_signs() {
    assert_eq!(LambdaSqType::<String>::MApp.to_string(), "@");
    assert_eq!(LambdaSqType::<String>::MLam.to_string(), "/");
    assert_eq!(LambdaSqType::<String>::MCon("ab".to_string()).to_string(), "ab");
}

#[test]
fn moving_a_layout() {
    let mut m = LambdaBox::<String>::i_factory().gen_mino();
    m.move_mino((2, 3), (5, 5));
    for (_, sq) in m.squares.iter() {
        match &sq.sq_type {
            LambdaSqType::MLam => {
                assert_eq!(sq.pos, (2, 3));
                assert_eq!(sq.target, (5, 5));
            }
            _ => {
                assert_eq!(sq.pos, (3, 3));
                assert_eq!(sq.target, (2, 3));
            }
        }
    }
}

#[test]
fn combining_two_constants() {
    let mut m = con("f").gen_mino();
    m.app_combine(con("g").gen_mino());
    assert_eq!(m.squares.len(), 2);
    assert_eq!((m.width, m.height), (2, 2));
    for (_, sq) in m.squares.iter() {
        match &sq.sq_type {
            LambdaSqType::MCon(c) if c == "f" => {
                assert_eq!(sq.pos, (1, 0));
                assert_eq!(sq.target, (0, 0));
            }
            LambdaSqType::MCon(_) => {
                assert_eq!(sq.pos, (0, 1));
                assert_eq!(sq.target, (0, 0));
            }
            _ => panic!("unexpected square"),
        }
    }
}

#[test]
fn empty_layout() {
    let m = LambdaMino::<String>::default();
    assert!(m.squares.is_empty());
    assert_eq!((m.width, m.height), (0, 0));
}
