//! The Direction Pointer.

use piet_programming_language::dp::DP;


#[test]
fn dp_test01() {
    assert_eq!(DP::Right.turn_right(), DP::Down);
    assert_eq!(DP::Down.turn_right(), DP::Left);
    assert_eq!(DP::Left.turn_right(), DP::Up);
    assert_eq!(DP::Up.turn_right(), DP::Right);
}

#[test]
fn dp_test02() {
    assert_eq!(DP::Right.rotate_clockwise_by(0), DP::Right);

    assert_eq!(DP::Right.rotate_clockwise_by(1), DP::Down);
    assert_eq!(DP::Right.rotate_clockwise_by(2), DP::Left);
    assert_eq!(DP::Right.rotate_clockwise_by(3), DP::Up);
    assert_eq!(DP::Right.rotate_clockwise_by(4), DP::Right);
    assert_eq!(DP::Right.rotate_clockwise_by(5), DP::Down);
    assert_eq!(DP::Right.rotate_clockwise_by(6), DP::Left);
    assert_eq!(DP::Right.rotate_clockwise_by(7), DP::Up);
    assert_eq!(DP::Right.rotate_clockwise_by(8), DP::Right);

    assert_eq!(DP::Right.rotate_clockwise_by(-1), DP::Up);
    assert_eq!(DP::Right.rotate_clockwise_by(-2), DP::Left);
    assert_eq!(DP::Right.rotate_clockwise_by(-3), DP::Down);
    assert_eq!(DP::Right.rotate_clockwise_by(-4), DP::Right);
    assert_eq!(DP::Right.rotate_clockwise_by(-5), DP::Up);
    assert_eq!(DP::Right.rotate_clockwise_by(-6), DP::Left);
    assert_eq!(DP::Right.rotate_clockwise_by(-7), DP::Down);
    assert_eq!(DP::Right.rotate_clockwise_by(-8), DP::Right);
}

#[test]
fn dp_test03() {
    assert_eq!((0, 1), DP::Right.get_displacement());
    assert_eq!((1, 0), DP::Down.get_displacement());
    assert_eq!((0, -1), DP::Left.get_displacement());
    assert_eq!((-1, 0), DP::Up.get_displacement());
}
