//! The Codel Chooser.

use piet_programming_language::cc::CC;


#[test]
fn cc_test01() {
    assert_eq!(CC::Right, CC::Left.flip());
    assert_eq!(CC::Left, CC::Right.flip());
}
