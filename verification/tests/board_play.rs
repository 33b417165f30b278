use lambda_factory::board::{Board, FactoryKind, LambdaObj, MouseEvent, TilePosition};
use lambda_factory::lambda::LambdaBox;

fn tile(x: i32, y: i32) -> TilePosition {
    TilePosition(x, y)
}

#[test]
fn new_board_has_the_factories_and_no_boxes() {
    let b = Board::load();
    assert!(b.objs().is_empty());
    assert!(b.grab().is_none());
    let f: Vec<(TilePosition, FactoryKind)> = b.factories().clone();
    assert_eq!(f.len(), 9);
    assert_eq!(f[0], (tile(0, 0), FactoryKind::S));
    assert_eq!(f[7], (tile(6, 2), FactoryKind::X));
    assert_eq!(f[8], (tile(-2, -2), FactoryKind::Trash));
}

#[test]
fn take_from_factory_and_put_down() {
    let mut b = Board::load();
    let out = b.update(MouseEvent::LeftPressed, tile(0, 0));
    assert_eq!(out.as_deref(), Some("|0|.|1|.|2|.0 2 (1 2)"));
    assert!(b.grab().is_some());
    assert_eq!(b.update(MouseEvent::LeftReleased, tile(1, 1)), None);
    assert!(b.grab().is_none());
    assert_eq!(b.objs().len(), 1);
    assert_eq!(b.objs()[0].0, tile(1, 1));
    assert_eq!(b.objs()[0].1.string().as_deref(), Some("|0|.|1|.|2|.0 2 (1 2)"));
}

#[test]
fn drop_onto_a_box_applies_it_and_right_click_reduces() {
    let mut b = Board::load();
    b.update(MouseEvent::LeftPressed, tile(0, 0));
    b.update(MouseEvent::LeftReleased, tile(1, 1));
    assert_eq!(b.update(MouseEvent::LeftPressed, tile(4, 0)).as_deref(), Some("|0|.0"));
    let out = b.update(MouseEvent::LeftReleased, tile(1, 1));
    assert_eq!(out.as_deref(), Some("(|0|.|1|.|2|.0 2 (1 2)) |0|.0"));
    assert_eq!(b.objs().len(), 1);
    let out = b.update(MouseEvent::RightReleased, tile(1, 1));
    assert_eq!(out.as_deref(), Some("|0|.|1|.(|2|.2) 1 (0 1)"));
    let out = b.update(MouseEvent::RightReleased, tile(1, 1));
    assert_eq!(out.as_deref(), Some("|0|.|1|.1 (0 1)"));
    assert_eq!(b.update(MouseEvent::RightReleased, tile(1, 1)), None);
    assert_eq!(b.update(MouseEvent::RightReleased, tile(1, 1)), None);
    assert_eq!(b.objs()[0].1.string().as_deref(), Some("|0|.|1|.1 (0 1)"));
}

#[test]
fn trash_bin_takes_boxes_away() {
    let mut b = Board::load();
    b.update(MouseEvent::LeftPressed, tile(2, 0));
    b.update(MouseEvent::LeftReleased, tile(3, 3));
    assert_eq!(b.objs().len(), 1);
    assert_eq!(b.update(MouseEvent::LeftPressed, tile(3, 3)), None);
    assert!(b.objs().is_empty());
    assert_eq!(b.update(MouseEvent::LeftReleased, tile(-2, -2)), None);
    assert!(b.objs().is_empty());
    assert!(b.grab().is_none());
}

#[test]
fn trash_bin_makes_nothing_and_empty_tiles_do_nothing() {
    let mut b = Board::load();
    assert_eq!(b.update(MouseEvent::LeftPressed, tile(-2, -2)), None);
    assert!(b.grab().is_none());
    assert_eq!(b.update(MouseEvent::LeftPressed, tile(9, 9)), None);
    assert!(b.grab().is_none());
    assert_eq!(b.update(MouseEvent::LeftReleased, tile(9, 9)), None);
    assert_eq!(b.update(MouseEvent::RightReleased, tile(9, 9)), None);
    assert!(b.objs().is_empty());
}

#[test]
fn pick_up_and_put_back() {
    let mut b = Board::load();
    b.update(MouseEvent::LeftPressed, tile(4, 0));
    b.update(MouseEvent::LeftReleased, tile(5, 5));
    b.update(MouseEvent::LeftPressed, tile(2, 0));
    b.update(MouseEvent::LeftReleased, tile(7, 7));
    assert_eq!(b.update(MouseEvent::LeftPressed, tile(5, 5)), None);
    assert_eq!(b.objs().len(), 1);
    assert_eq!(b.update(MouseEvent::LeftReleased, tile(5, 5)), None);
    assert_eq!(b.objs().len(), 2);
    assert_eq!(b.objs()[0].0, tile(7, 7));
    assert_eq!(b.objs()[0].1.string().as_deref(), Some("|0|.|1|.0"));
    assert_eq!(b.objs()[1].0, tile(5, 5));
    assert_eq!(b.objs()[1].1.string().as_deref(), Some("|0|.0"));
}

#[test]
fn x_factory_box_is_one_character() {
    let mut b = Board::load();
    let out = b.update(MouseEvent::LeftPressed, tile(6, 2)).unwrap();
    assert_eq!(out.chars().count(), 1);
    assert!(out.chars().all(|c| c.is_ascii_alphanumeric()));
}

#[test]
fn produce_by_kind() {
    assert!(FactoryKind::Trash.produce().is_none());
    assert_eq!(FactoryKind::K.produce().unwrap().string().as_deref(), Some("|0|.|1|.0"));
    assert_eq!(FactoryKind::W.produce().unwrap().string().as_deref(), Some("|0|.|1|.0 1 1"));
    assert_eq!(FactoryKind::B.produce().unwrap().mino().as_ref().unwrap().squares.len(), 8);
}

#[test]
fn box_compose_and_reduce() {
    let mut a = LambdaObj::new(LambdaBox::k_factory());
    let x = LambdaObj::new(LambdaBox::new_const("x".to_string()));
    assert!(a.compose(x));
    assert_eq!(a.string().as_deref(), Some("(|0|.|1|.0) x"));
    assert!(a.eval_onestep());
    assert_eq!(a.string().as_deref(), Some("|0|.x"));
    assert!(!a.eval_onestep());
    assert_eq!(a.string().as_deref(), Some("|0|.x"));
    // a box that may not be reduced stays so until it is composed again
    assert!(!a.eval_onestep());
    let y = LambdaObj::new(LambdaBox::new_const("y".to_string()));
    assert!(a.compose(y));
    assert!(a.eval_onestep());
    assert_eq!(a.string().as_deref(), Some("x"));
}
