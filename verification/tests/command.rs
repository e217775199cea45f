//! The command table, exercised command by command.

use piet_programming_language::cc::CC;
use piet_programming_language::command::Command;
use piet_programming_language::dp::DP;
use piet_programming_language::interpreter::Interpreter;



#[test]
fn test_push() {
    let command = Command::Push;
    let mut ip = Interpreter::new();
    ip.stack = vec![1, 2];
    command.execute(&mut ip, 3);
    assert_eq!(vec![1, 2, 3], ip.stack);
}

#[test]
fn test_pop() {
    let command = Command::Pop;

    let mut ip = Interpreter::new();
    command.execute(&mut ip, 1);
    assert!(ip.stack.is_empty());

    let mut ip = Interpreter::new();
    ip.stack = vec![1, 2];
    command.execute(&mut ip, 1);
    assert_eq!(ip.stack, vec![1]);
}

#[test]
fn test_add() {
    let command = Command::Add;

    let mut ip = Interpreter::new();
    command.execute(&mut ip, 1);
    assert!(ip.stack.is_empty());

    let mut ip = Interpreter::new();
    ip.stack = vec![1];
    command.execute(&mut ip, 1);
    assert_eq!(vec![1], ip.stack);

    let mut ip = Interpreter::new();
    ip.stack = vec![1, 2];
    command.execute(&mut ip, 1);
    assert_eq!(vec![3], ip.stack);
}

#[test]
fn test_subtract() {
    let command = Command::Subtract;

    let mut ip = Interpreter::new();
    command.execute(&mut ip, 1);
    assert!(ip.stack.is_empty());

    let mut ip = Interpreter::new();
    ip.stack = vec![1];
    command.execute(&mut ip, 1);
    assert_eq!(vec![1], ip.stack);

    let mut ip = Interpreter::new();
    ip.stack = vec![1, 2];
    command.execute(&mut ip, 1);
    assert_eq!(vec![-1], ip.stack);
}

#[test]
fn test_multiply() {
    let command = Command::Multiply;

    let mut ip = Interpreter::new();
    command.execute(&mut ip, 1);
    assert!(ip.stack.is_empty());

    let mut ip = Interpreter::new();
    ip.stack = vec![1];
    command.execute(&mut ip, 1);
    assert_eq!(vec![1], ip.stack);

    let mut ip = Interpreter::new();
    ip.stack = vec![2, 3];
    command.execute(&mut ip, 1);
    assert_eq!(vec![6], ip.stack);
}

#[test]
fn test_divide() {
    let command = Command::Divide;

    let mut ip = Interpreter::new();
    command.execute(&mut ip, 1);
    assert!(ip.stack.is_empty());

    let mut ip = Interpreter::new();
    ip.stack = vec![1];
    command.execute(&mut ip, 1);
    assert_eq!(vec![1], ip.stack);

    let mut ip = Interpreter::new();
    ip.stack = vec![7, 3];
    command.execute(&mut ip, 1);
    assert_eq!(vec![2], ip.stack);

    //zero-division
    let mut ip = Interpreter::new();
    ip.stack = vec![2, 7, 0];
    command.execute(&mut ip, 1);
    assert_eq!(vec![2, 7, 0], ip.stack);
}

#[test]
fn test_mod() {
    let command = Command::Mod;

    let mut ip = Interpreter::new();
    command.execute(&mut ip, 1);
    assert!(ip.stack.is_empty());

    let mut ip = Interpreter::new();
    ip.stack = vec![1];
    command.execute(&mut ip, 1);
    assert_eq!(vec![1], ip.stack);

    let mut ip = Interpreter::new();
    ip.stack = vec![5, 3];
    command.execute(&mut ip, 1);
    assert_eq!(vec![2], ip.stack);

    let mut ip = Interpreter::new();
    ip.stack = vec![2, 3];
    command.execute(&mut ip, 1);
    assert_eq!(vec![2], ip.stack);

    let mut ip = Interpreter::new();
    ip.stack = vec![-1, 3];
    command.execute(&mut ip, 1);
    assert_eq!(vec![2], ip.stack);

    let mut ip = Interpreter::new();
    ip.stack = vec![-5, 3];
    command.execute(&mut ip, 1);
    assert_eq!(vec![1], ip.stack);

    let mut ip = Interpreter::new();
    ip.stack = vec![-5, -3];
    command.execute(&mut ip, 1);
    assert_eq!(vec![-2], ip.stack);

    //zero-division
    let mut ip = Interpreter::new();
    ip.stack = vec![2, 7, 0];
    command.execute(&mut ip, 1);
    assert_eq!(vec![2, 7, 0], ip.stack);
}

#[test]
fn test_not() {
    let command = Command::Not;

    let mut ip = Interpreter::new();
    command.execute(&mut ip, 1);
    assert!(ip.stack.is_empty());

    let mut ip = Interpreter::new();
    ip.stack = vec![0];
    command.execute(&mut ip, 1);
    assert_eq!(vec![1], ip.stack);

    let mut ip = Interpreter::new();
    ip.stack = vec![1];
    command.execute(&mut ip, 1);
    assert_eq!(vec![0], ip.stack);

    let mut ip = Interpreter::new();
    ip.stack = vec![2];
    command.execute(&mut ip, 1);
    assert_eq!(vec![0], ip.stack);
}

#[test]
fn test_greater() {
    let command = Command::Greater;

    let mut ip = Interpreter::new();
    command.execute(&mut ip, 1);
    assert!(ip.stack.is_empty());

    let mut ip = Interpreter::new();
    ip.stack = vec![0];
    command.execute(&mut ip, 1);
    assert_eq!(vec![0], ip.stack);

    let mut ip = Interpreter::new();
    ip.stack = vec![1, 0];
    command.execute(&mut ip, 1);
    assert_eq!(vec![1], ip.stack);

    let mut ip = Interpreter::new();
    ip.stack = vec![1, 1];
    command.execute(&mut ip, 1);
    assert_eq!(vec![0], ip.stack);

    let mut ip = Interpreter::new();
    ip.stack = vec![1, 2];
    command.execute(&mut ip, 1);
    assert_eq!(vec![0], ip.stack);
}

#[test]
fn test_pointer() {
    let command = Command::Pointer;

    let mut ip = Interpreter::new();
    command.execute(&mut ip, 1);
    assert_eq!(DP::Right, ip.dp);

    let mut ip = Interpreter::new();
    ip.stack = vec![0];
    command.execute(&mut ip, 1);
    assert!(ip.stack.is_empty());
    assert_eq!(DP::Right, ip.dp);

    let mut ip = Interpreter::new();
    ip.stack = vec![2];
    command.execute(&mut ip, 1);
    assert!(ip.stack.is_empty());
    assert_eq!(DP::Left, ip.dp);

    let mut ip = Interpreter::new();
    ip.stack = vec![-1];
    command.execute(&mut ip, 1);
    assert!(ip.stack.is_empty());
    assert_eq!(DP::Up, ip.dp);
}

#[test]
fn test_switch() {
    let command = Command::Switch;

    let mut ip = Interpreter::new();
    command.execute(&mut ip, 1);
    assert_eq!(CC::Left, ip.cc);

    let mut ip = Interpreter::new();
    ip.stack = vec![0];
    command.execute(&mut ip, 1);
    assert!(ip.stack.is_empty());
    assert_eq!(CC::Left, ip.cc);

    let mut ip = Interpreter::new();
    ip.stack = vec![1];
    command.execute(&mut ip, 1);
    assert!(ip.stack.is_empty());
    assert_eq!(CC::Right, ip.cc);

    let mut ip = Interpreter::new();
    ip.stack = vec![2];
    command.execute(&mut ip, 1);
    assert!(ip.stack.is_empty());
    assert_eq!(CC::Left, ip.cc);

    let mut ip = Interpreter::new();
    ip.stack = vec![3];
    command.execute(&mut ip, 1);
    assert!(ip.stack.is_empty());
    assert_eq!(CC::Right, ip.cc);

    let mut ip = Interpreter::new();
    ip.stack = vec![-1];
    command.execute(&mut ip, 1);
    assert!(ip.stack.is_empty());
    assert_eq!(CC::Right, ip.cc);
}

#[test]
fn test_duplicate() {
    let command = Command::Duplicate;

    let mut ip = Interpreter::new();
    command.execute(&mut ip, 1);
    assert!(ip.stack.is_empty());

    let mut ip = Interpreter::new();
    ip.stack = vec![1];
    command.execute(&mut ip, 1);
    assert_eq!(vec![1, 1], ip.stack);
}

//cases in which nothing happens
#[test]
fn test_roll_01() {
    let command = Command::Roll;

    //negative depth
    let mut ip = Interpreter::new();
    ip.stack = vec![9, 8, 7, 1, 2, 3, 4, -2, 5];
    command.execute(&mut ip, 1);
    assert_eq!(vec![9, 8, 7, 1, 2, 3, 4, -2, 5], ip.stack);

    //zero depth
    let mut ip = Interpreter::new();
    ip.stack = vec![9, 8, 7, 1, 2, 3, 4, 0, 5];
    command.execute(&mut ip, 1);
    assert_eq!(vec![9, 8, 7, 1, 2, 3, 4], ip.stack);

    //one depth
    let mut ip = Interpreter::new();
    ip.stack = vec![9, 8, 7, 1, 2, 3, 4, 1, 5];
    command.execute(&mut ip, 1);
    assert_eq!(vec![9, 8, 7, 1, 2, 3, 4], ip.stack);

    //depth is too large
    let mut ip = Interpreter::new();
    ip.stack = vec![9, 8, 7, 1, 2, 3, 4, 8, 5];
    command.execute(&mut ip, 1);
    assert_eq!(vec![9, 8, 7, 1, 2, 3, 4, 8, 5], ip.stack);

    //zero number of rotations
    let mut ip = Interpreter::new();
    ip.stack = vec![9, 8, 7, 1, 2, 3, 4, 4, 0];
    command.execute(&mut ip, 1);
    assert_eq!(vec![9, 8, 7, 1, 2, 3, 4], ip.stack);
}

//positive number of rolls
#[test]
fn test_roll_02() {
    let command = Command::Roll;

    let mut ip = Interpreter::new();
    ip.stack = vec![9, 1, 2, 3, 4, 4, 1];
    command.execute(&mut ip, 1);
    assert_eq!(vec![9, 4, 1, 2, 3], ip.stack);

    let mut ip = Interpreter::new();
    ip.stack = vec![9, 1, 2, 3, 4, 4, 2];
    command.execute(&mut ip, 1);
    assert_eq!(vec![9, 3, 4, 1, 2], ip.stack);

    let mut ip = Interpreter::new();
    ip.stack = vec![9, 1, 2, 3, 4, 4, 3];
    command.execute(&mut ip, 1);
    assert_eq!(vec![9, 2, 3, 4, 1], ip.stack);

    let mut ip = Interpreter::new();
    ip.stack = vec![9, 1, 2, 3, 4, 4, 4];
    command.execute(&mut ip, 1);
    assert_eq!(vec![9, 1, 2, 3, 4], ip.stack);

    //expects the complexity is independent of `num_roll`
    let mut ip = Interpreter::new();
    ip.stack = vec![9, 1, 2, 3, 4, 4, 4 * 10isize.pow(8) + 1];
    command.execute(&mut ip, 1);
    assert_eq!(vec![9, 4, 1, 2, 3], ip.stack);
}

//negative number of rolls
#[test]
fn test_roll_03() {
    let command = Command::Roll;

    let mut ip = Interpreter::new();
    ip.stack = vec![9, 1, 2, 3, 4, 4, -1];
    command.execute(&mut ip, 1);
    assert_eq!(vec![9, 2, 3, 4, 1], ip.stack);

    let mut ip = Interpreter::new();
    ip.stack = vec![9, 1, 2, 3, 4, 4, -2];
    command.execute(&mut ip, 1);
    assert_eq!(vec![9, 3, 4, 1, 2], ip.stack);

    let mut ip = Interpreter::new();
    ip.stack = vec![9, 1, 2, 3, 4, 4, -3];
    command.execute(&mut ip, 1);
    assert_eq!(vec![9, 4, 1, 2, 3], ip.stack);

    let mut ip = Interpreter::new();
    ip.stack = vec![9, 1, 2, 3, 4, 4, -4];
    command.execute(&mut ip, 1);
    assert_eq!(vec![9, 1, 2, 3, 4], ip.stack);

    //expects the complexity is independent of `num_roll`
    let mut ip = Interpreter::new();
    ip.stack = vec![9, 1, 2, 3, 4, 4, -4 * 10isize.pow(8) - 1];
    command.execute(&mut ip, 1);
    assert_eq!(vec![9, 2, 3, 4, 1], ip.stack);
}

#[test]
fn test_read_number() {
    let command = Command::InNumber;
    let mut ip = Interpreter::new_with_stdin(" -100 abc 🍄🌷 100 ");

    command.execute(&mut ip, 1);
    assert_eq!(vec![-100], ip.stack);

    command.execute(&mut ip, 1);
    assert_eq!(vec![-100], ip.stack);

    command.execute(&mut ip, 1);
    assert_eq!(vec![-100], ip.stack);

    command.execute(&mut ip, 1);
    assert_eq!(vec![-100, 100], ip.stack);

    for _ in 0..2 {
        command.execute(&mut ip, 1);
        assert_eq!(vec![-100, 100], ip.stack);
        command.execute(&mut ip, 1);
        assert_eq!(vec![-100, 100], ip.stack);
    }
}

#[test]
fn test_read_char() {
    let command = Command::InChar;
    let mut ip = Interpreter::new_with_stdin(" -1 a 🌷🍄 a🍄 🍄a ");

    let f = |v: Vec<char>| -> Vec<isize> { v.into_iter().map(|c| c as isize).collect::<Vec<isize>>() };

    command.execute(&mut ip, 1);
    assert_eq!(f(vec!['-']), ip.stack);

    command.execute(&mut ip, 1);
    assert_eq!(f(vec!['-', '1']), ip.stack);

    command.execute(&mut ip, 1);
    assert_eq!(f(vec!['-', '1', 'a']), ip.stack);

    command.execute(&mut ip, 1);
    assert_eq!(f(vec!['-', '1', 'a', '🌷']), ip.stack);

    command.execute(&mut ip, 1);
    assert_eq!(f(vec!['-', '1', 'a', '🌷', '🍄']), ip.stack);

    command.execute(&mut ip, 1);
    assert_eq!(f(vec!['-', '1', 'a', '🌷', '🍄', 'a']), ip.stack);

    command.execute(&mut ip, 1);
    assert_eq!(f(vec!['-', '1', 'a', '🌷', '🍄', 'a', '🍄']), ip.stack);

    command.execute(&mut ip, 1);
    assert_eq!(
        f(vec!['-', '1', 'a', '🌷', '🍄', 'a', '🍄', '🍄']),
        ip.stack
    );

    command.execute(&mut ip, 1);
    assert_eq!(
        f(vec!['-', '1', 'a', '🌷', '🍄', 'a', '🍄', '🍄', 'a']),
        ip.stack
    );

    for _ in 0..2 {
        command.execute(&mut ip, 1);
        assert_eq!(
            f(vec!['-', '1', 'a', '🌷', '🍄', 'a', '🍄', '🍄', 'a']),
            ip.stack
        );
        command.execute(&mut ip, 1);
        assert_eq!(
            f(vec!['-', '1', 'a', '🌷', '🍄', 'a', '🍄', '🍄', 'a']),
            ip.stack
        );
    }
}

#[test]
fn test_write_number() {
    let command = Command::OutNumber;

    let mut ip = Interpreter::new_with_stdin("");
    command.execute(&mut ip, 1);
    assert!(ip.stack.is_empty());

    let mut ip = Interpreter::new_with_stdin("");
    ip.stack = vec![1];
    command.execute(&mut ip, 1);
    assert!(ip.stack.is_empty());
    assert_eq!("1\n".as_bytes(), &ip.output_buf);

    let mut ip = Interpreter::new_with_stdin("");
    ip.stack = vec![-1];
    command.execute(&mut ip, 1);
    assert!(ip.stack.is_empty());
    assert_eq!("-1\n".as_bytes(), &ip.output_buf);
}

#[test]
fn test_write_char() {
    let command = Command::OutChar;

    let mut ip = Interpreter::new();
    command.execute(&mut ip, 1);
    assert!(ip.stack.is_empty());

    let mut ip = Interpreter::new();
    ip.stack = vec![char::MAX as isize + 1, -1, 'a' as isize, '🍄' as isize];

    command.execute(&mut ip, 1);
    assert_eq!(vec![char::MAX as isize + 1, -1, 'a' as isize], ip.stack);
    assert_eq!("🍄".as_bytes(), &ip.output_buf);

    command.execute(&mut ip, 1);
    assert_eq!(vec![char::MAX as isize + 1, -1], ip.stack);
    assert_eq!("🍄a".as_bytes(), &ip.output_buf);

    command.execute(&mut ip, 1);
    assert_eq!(vec![char::MAX as isize + 1, -1], ip.stack);
    assert_eq!("🍄a".as_bytes(), &ip.output_buf);

    ip.stack.pop().unwrap();
    command.execute(&mut ip, 1);
    assert_eq!(vec![char::MAX as isize + 1], ip.stack);
    assert_eq!("🍄a".as_bytes(), &ip.output_buf);
}
