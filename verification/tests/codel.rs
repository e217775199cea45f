//! The colour algebra of the palette.

use piet_programming_language::codel::Codel;


#[test]
fn codel_test01() {
    assert_eq!(0, Codel::get_hue_difference(&Codel::Red, &Codel::LightRed));
    assert_eq!(1, Codel::get_hue_difference(&Codel::Red, &Codel::Yellow));
    assert_eq!(4, Codel::get_hue_difference(&Codel::Blue, &Codel::Green));
}

#[test]
fn codel_test02() {
    assert_eq!(
        0,
        Codel::get_lightness_difference(&Codel::LightRed, &Codel::LightYellow)
    );
    assert_eq!(
        1,
        Codel::get_lightness_difference(&Codel::LightRed, &Codel::Yellow)
    );
    assert_eq!(
        2,
        Codel::get_lightness_difference(&Codel::Red, &Codel::LightGreen)
    );
}
