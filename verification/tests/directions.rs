use lambda_factory::helper::Direct2D;

#[test]
fn reads_signs() {
    assert_eq!(Direct2D::from_str("^"), Direct2D::Up);
    assert_eq!(Direct2D::from_str("v"), Direct2D::Down);
    assert_eq!(Direct2D::from_str(">"), Direct2D::Right);
    assert_eq!(Direct2D::from_str("<"), Direct2D::Left);
    assert_eq!(Direct2D::from_str("anything"), Direct2D::Left);
    assert_eq!(Direct2D::from_str(""), Direct2D::Left);
    assert_eq!(Direct2D::from_str("^^"), Direct2D::Left);
}

#[test]
fn prints_signs() {
    assert_eq!(Direct2D::Up.to_string(), "^");
    assert_eq!(Direct2D::Down.to_string(), "v");
    assert_eq!(Direct2D::Left.to_string(), "<");
    assert_eq!(Direct2D::Right.to_string(), ">");
}

#[test]
fn sign_round_trip() {
    for d in [Direct2D::Up, Direct2D::Down, Direct2D::Left, Direct2D::Right] {
        assert_eq!(Direct2D::from_str(&d.to_string()), d);
    }
}

#[test]
fn vectors() {
    assert_eq!(Direct2D::Up.to_vector(), (0, 1));
    assert_eq!(Direct2D::Down.to_vector(), (0, -1));
    assert_eq!(Direct2D::Left.to_vector(), (-1, 0));
    assert_eq!(Direct2D::Right.to_vector(), (1, 0));
    assert_eq!(Direct2D::from_vector(0, 1), Direct2D::Up);
    assert_eq!(Direct2D::from_vector(0, -1), Direct2D::Down);
    assert_eq!(Direct2D::from_vector(-1, 0), Direct2D::Left);
    assert_eq!(Direct2D::from_vector(1, 0), Direct2D::Right);
    assert_eq!(Direct2D::from_vector(3, 3), Direct2D::Right);
}

#[test]
fn numbers_count_quarter_turns_counterclockwise() {
    assert_eq!(Direct2D::Right.to_number(), 0);
    assert_eq!(Direct2D::Up.to_number(), 1);
    assert_eq!(Direct2D::Left.to_number(), 2);
    assert_eq!(Direct2D::Down.to_number(), 3);
    assert_eq!(Direct2D::from_number(5), Direct2D::Up);
    assert_eq!(Direct2D::from_number(6), Direct2D::Left);
    assert_eq!(Direct2D::from_number(255), Direct2D::Down);
    assert_eq!(Direct2D::from_number(4), Direct2D::Right);
}

#[test]
fn opposite_is_half_turn() {
    assert_eq!(Direct2D::Up.opposite(), Direct2D::Down);
    assert_eq!(Direct2D::Down.opposite(), Direct2D::Up);
    assert_eq!(Direct2D::Left.opposite(), Direct2D::Right);
    assert_eq!(Direct2D::Right.opposite(), Direct2D::Left);
    for d in [Direct2D::Up, Direct2D::Down, Direct2D::Left, Direct2D::Right] {
        assert_eq!(d.opposite().opposite(), d);
        assert_eq!(d.rotation(Direct2D::Left), d.opposite());
    }
}

#[test]
fn rotation_adds_turns() {
    assert_eq!(Direct2D::Up.rotation(Direct2D::Up), Direct2D::Left);
    assert_eq!(Direct2D::Left.rotation(Direct2D::Up), Direct2D::Down);
    assert_eq!(Direct2D::Down.rotation(Direct2D::Up), Direct2D::Right);
    assert_eq!(Direct2D::Right.rotation(Direct2D::Down), Direct2D::Down);
    for d in [Direct2D::Up, Direct2D::Down, Direct2D::Left, Direct2D::Right] {
        assert_eq!(d.rotation(Direct2D::Right), d);
    }
}

#[test]
fn default_is_right() {
    assert_eq!(Direct2D::default(), Direct2D::Right);
}
