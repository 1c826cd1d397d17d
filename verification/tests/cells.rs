use image2ascii::color::{rgb2df256, rgb2my256, Color};
use image2ascii::node::{Node, NodeQue};
use image2ascii::player::Player;

#[test]
fn my256_values() {
    assert_eq!(rgb2my256(255, 255, 255), 215);
    assert_eq!(rgb2my256(0, 0, 0), 0);
    assert_eq!(rgb2my256(43, 86, 0), 48);
    assert_eq!(rgb2my256(42, 42, 42), 0);
}

#[test]
fn df256_values() {
    assert_eq!(rgb2df256(255, 255, 255), 255);
    assert_eq!(rgb2df256(32, 64, 128), 42);
    assert_eq!(rgb2df256(31, 31, 63), 0);
}

#[test]
fn node_glyphs() {
    let glyphs: String = (0..16u8).map(|s| Node::new(Color::My256(0), s, (0, 0)).get_node_style()).collect();
    assert_eq!(glyphs, "..:;i7raZS08XMW@");
}

#[test]
fn node_eq_ignores_position() {
    let a = Node::new(Color::Rgb([1, 2, 3]), 4, (0, 0));
    let mut b = a;
    b.set_xy(7, 8);
    assert_eq!(b.get_pos(), (7, 8));
    assert!(a == b);
    assert!(a != Node::new(Color::Rgb([1, 2, 4]), 4, (0, 0)));
    assert!(a != Node::new(Color::Rgb([1, 2, 3]), 5, (0, 0)));
    assert!(Node::new(Color::My256(3), 1, (0, 0)) != Node::new(Color::Df256(3), 1, (0, 0)));
}

#[test]
fn node_queue_fifo() {
    let mut q = NodeQue::new();
    assert!(q.get_front().is_none());
    q.add_back(vec![Node::new(Color::My256(1), 1, (1, 1))]);
    q.add_back(vec![]);
    assert_eq!(q.len(), 2);
    assert_eq!(q.get_front().unwrap().len(), 1);
    assert_eq!(q.get_front().unwrap().len(), 0);
    assert!(q.get_front().is_none());
}

#[test]
fn player_too_small() {
    assert!(Player::new(24, 81, 10, 80, 24, NodeQue::new()).is_none());
    assert!(Player::new(24, 10, 25, 80, 24, NodeQue::new()).is_none());
    assert!(Player::new(24, 80, 24, 80, 24, NodeQue::new()).is_some());
}

#[test]
fn player_plays_frames() {
    let mut q = NodeQue::new();
    q.add_back(vec![Node::new(Color::Rgb([9, 9, 9]), 15, (1, 1)), Node::new(Color::My256(2), 3, (0, 2))]);
    let mut p = Player::new(5, 3, 2, 80, 24, q).unwrap();
    assert_eq!(p.get_fps(), 5);
    let frame = p.next_frame().unwrap();
    assert!(p.paint(&frame[0]));
    assert!(!p.paint(&frame[1]));
    assert!(p.next_frame().is_none());
}
