//! Exit corners of a colour block.

use piet_programming_language::block::Block;

//   ■   ■
// ■ ■ ■ ■ ■ ■
//   ■ ■ ■
// ■ ■ ■ ■ ■ ■
//   ■   ■
#[test]
fn block_test01() {
    let l = vec![
        (0, 1),
        (0, 3),
        (1, 0),
        (1, 1),
        (1, 2),
        (1, 3),
        (1, 4),
        (1, 5),
        (2, 1),
        (2, 2),
        (2, 3),
        (3, 0),
        (3, 1),
        (3, 2),
        (3, 3),
        (3, 4),
        (3, 5),
        (4, 1),
        (4, 3),
    ];
    let block = Block::new(&l);
    assert_eq!(block.size, 19);
    assert_eq!(block.right_left, (1, 5));
    assert_eq!(block.right_right, (3, 5));
    assert_eq!(block.down_left, (4, 3));
    assert_eq!(block.down_right, (4, 1));
    assert_eq!(block.left_left, (3, 0));
    assert_eq!(block.left_right, (1, 0));
    assert_eq!(block.up_left, (0, 1));
    assert_eq!(block.up_right, (0, 3));
}
