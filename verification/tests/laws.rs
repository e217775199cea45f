//! Concrete checks of the library's stated properties: the palette round
//! trip, the delta cycles, the floored modulus, and the roll inverse.

use piet_programming_language::arith::floor_mod;
use piet_programming_language::codel::Codel;
use piet_programming_language::command::Command;
use piet_programming_language::interpreter::Interpreter;

fn all_codels() -> Vec<Codel> {
    vec![
        Codel::LightRed,
        Codel::LightYellow,
        Codel::LightGreen,
        Codel::LightCyan,
        Codel::LightBlue,
        Codel::LightMagenta,
        Codel::Red,
        Codel::Yellow,
        Codel::Green,
        Codel::Cyan,
        Codel::Blue,
        Codel::Magenta,
        Codel::DarkRed,
        Codel::DarkYellow,
        Codel::DarkGreen,
        Codel::DarkCyan,
        Codel::DarkBlue,
        Codel::DarkMagenta,
        Codel::White,
        Codel::Black,
    ]
}

#[test]
fn palette_round_trip() {
    for c in all_codels() {
        assert_eq!(Codel::new(&c.rgb()), Some(c));
    }
}

#[test]
fn delta_cycle_sums() {
    let chromatic: Vec<Codel> = all_codels()
        .into_iter()
        .filter(|c| *c != Codel::White && *c != Codel::Black)
        .collect();
    for &a in &chromatic {
        for &b in &chromatic {
            let hd_ab = Codel::get_hue_difference(&a, &b);
            let hd_ba = Codel::get_hue_difference(&b, &a);
            let ld_ab = Codel::get_lightness_difference(&a, &b);
            assert!(hd_ab < 6);
            assert!(ld_ab < 3);
            assert!(hd_ab + hd_ba == 0 || hd_ab + hd_ba == 6);
        }
    }
}

#[test]
fn floored_modulus_signs() {
    assert_eq!(floor_mod(5, 3), 2);
    assert_eq!(floor_mod(-5, 3), 1);
    assert_eq!(floor_mod(5, -3), -1);
    assert_eq!(floor_mod(-5, -3), -2);
    assert_eq!(floor_mod(6, -3), 0);
    assert_eq!(floor_mod(isize::MIN, -1), 0);
    // the result always shares the divisor's sign or is zero
    for y in -20..=20isize {
        for x in [-7isize, -3, -1, 1, 2, 5] {
            let m = floor_mod(y, x);
            assert!(m == 0 || (m > 0) == (x > 0));
            assert!(m.abs() < x.abs());
        }
    }
}

#[test]
fn roll_then_unroll_restores_the_stack() {
    let command = Command::Roll;
    for k in [-9isize, -4, -1, 0, 1, 2, 3, 8, 1_000_000_007] {
        for depth in 0..=5isize {
            let base = vec![9, 8, 1, 2, 3, 4, 5];
            let mut ip = Interpreter::new();
            ip.stack = base.clone();
            ip.stack.push(depth);
            ip.stack.push(k);
            command.execute(&mut ip, 1);
            ip.stack.push(depth);
            ip.stack.push(-k);
            command.execute(&mut ip, 1);
            assert_eq!(ip.stack, base);
        }
    }
}
