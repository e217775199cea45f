//! End-to-end runs of small Piet programs built as in-memory pixel grids.

use piet_programming_language::codel::Codel;
use piet_programming_language::image::Image;
use piet_programming_language::image::Pixel;
use piet_programming_language::image::PrepError;
use piet_programming_language::interpreter::Interpreter;
use piet_programming_language::run;
use piet_programming_language::RunStatus;

fn px(c: Codel) -> Pixel {
    c.rgb()
}

fn row_image(codels: &[Codel]) -> Vec<Vec<Pixel>> {
    vec![codels.iter().map(|c| px(*c)).collect()]
}

/// A single coloured codel cannot be left: eight failed attempts halt the
/// program cleanly with nothing written.
#[test]
fn single_codel_halts() {
    let pm = row_image(&[Codel::Red]);
    let img = Image::new(&pm, None, None).unwrap();
    let mut ip = Interpreter::new();
    let r = run(&img, &mut ip, None).unwrap();
    assert_eq!(r, RunStatus::Halted);
    assert!(ip.output_buf.is_empty());
    assert!(ip.stack.is_empty());
}

/// A single white codel loops through every direction without escaping; the
/// repeated position and direction stop the run.
#[test]
fn white_loop_is_detected() {
    let pm = row_image(&[Codel::White]);
    let img = Image::new(&pm, None, None).unwrap();
    let mut ip = Interpreter::new();
    let r = run(&img, &mut ip, None).unwrap();
    assert_eq!(r, RunStatus::Halted);
    assert!(ip.output_buf.is_empty());
}

/// A run that starts on a black codel fails before doing anything.
#[test]
fn black_start_fails() {
    let pm = row_image(&[Codel::Black, Codel::Red]);
    let img = Image::new(&pm, None, None).unwrap();
    let mut ip = Interpreter::new();
    let e = run(&img, &mut ip, None).unwrap_err();
    assert!(e.contains("the top-left codel shall not be black"));
    assert!(ip.output_buf.is_empty());
}

/// A 72-codel red block pushes its size, and the following transitions emit
/// it as the character "H".
#[test]
fn push_and_out_char() {
    let mut codels = vec![Codel::Red; 72];
    codels.push(Codel::DarkRed); // Red -> DarkRed: Push
    codels.push(Codel::Magenta); // DarkRed -> Magenta: OutChar
    let pm = row_image(&codels);
    let img = Image::new(&pm, None, None).unwrap();
    let mut ip = Interpreter::new();
    // two commands run: Push, then OutChar
    let r = run(&img, &mut ip, Some(2)).unwrap();
    assert_eq!(r, RunStatus::IterationCapReached);
    assert_eq!(ip.output_buf, b"H".to_vec());
}

/// Push, Duplicate, Add and OutChar compose: a 33-codel block doubled gives
/// the character "B".
#[test]
fn duplicate_add_out_char() {
    let mut codels = vec![Codel::Red; 33];
    codels.push(Codel::DarkRed); // Push 33
    codels.push(Codel::DarkBlue); // Duplicate
    codels.push(Codel::DarkMagenta); // Add
    codels.push(Codel::Blue); // OutChar
    let pm = row_image(&codels);
    let img = Image::new(&pm, None, None).unwrap();
    let mut ip = Interpreter::new();
    // four commands run: Push, Duplicate, Add, OutChar
    let r = run(&img, &mut ip, Some(4)).unwrap();
    assert_eq!(r, RunStatus::IterationCapReached);
    assert_eq!(ip.output_buf, b"B".to_vec());
}

/// A number read from the input comes back out in decimal with a newline.
#[test]
fn in_number_out_number() {
    let codels = vec![Codel::Red, Codel::LightBlue, Codel::Cyan];
    let pm = row_image(&codels);
    let img = Image::new(&pm, None, None).unwrap();
    let mut ip = Interpreter::new_with_stdin("42");
    let r = run(&img, &mut ip, Some(100)).unwrap();
    assert_eq!(r, RunStatus::IterationCapReached);
    assert_eq!(ip.output_buf, b"42\n".to_vec());
}

/// A slide across white executes no command: the program still pushes only
/// the size of the block it left before entering white.
#[test]
fn white_slide_executes_no_command() {
    let codels = vec![
        Codel::Red,
        Codel::White,
        Codel::White,
        Codel::Blue,
    ];
    let pm = row_image(&codels);
    let img = Image::new(&pm, None, None).unwrap();
    let mut ip = Interpreter::new();
    let r = run(&img, &mut ip, Some(50)).unwrap();
    assert_eq!(r, RunStatus::IterationCapReached);
    assert!(ip.output_buf.is_empty());
    assert!(ip.stack.is_empty());
}

/// The codel size is auto-detected as the largest workable one, and the
/// enlarged image shrinks to the same codel grid.
#[test]
fn codel_size_detection() {
    // a 2x2 codel pattern enlarged by 3 into a 6x6 pixel grid
    let pat = [
        [Codel::Red, Codel::Blue],
        [Codel::Green, Codel::Black],
    ];
    let mut pm: Vec<Vec<Pixel>> = Vec::new();
    for i in 0..6 {
        let mut row = Vec::new();
        for j in 0..6 {
            row.push(px(pat[i / 3][j / 3]));
        }
        pm.push(row);
    }
    let img = Image::new(&pm, None, None).unwrap();
    assert_eq!(*img.get_codel_at((0, 0)), Codel::Red);
    assert_eq!(*img.get_codel_at((0, 1)), Codel::Blue);
    assert_eq!(*img.get_codel_at((1, 0)), Codel::Green);
    assert_eq!(*img.get_codel_at((1, 1)), Codel::Black);
    assert_eq!(img.get_block_size_at((0, 0)), 1);

    // an explicit codel size of 1 keeps the full pixel grid
    let img1 = Image::new(&pm, Some(1), None).unwrap();
    assert_eq!(img1.get_block_size_at((0, 0)), 9);

    // a codel size that does not divide the image is rejected
    assert!(matches!(Image::new(&pm, Some(4), None), Err(PrepError::InvalidCodelSize)));
}

/// A colour outside the palette fails preparation at its coordinate, unless
/// a fallback colour was supplied.
#[test]
fn unknown_color_needs_a_fallback() {
    let pm = vec![vec![px(Codel::Red), Pixel { r: 1, g: 2, b: 3 }]];
    assert!(matches!(Image::new(&pm, None, None), Err(PrepError::InvalidColorAt(0, 1))));
    let img = Image::new(&pm, None, Some(Codel::White)).unwrap();
    assert_eq!(*img.get_codel_at((0, 1)), Codel::White);
    let img2 = Image::new(&pm, None, Some(Codel::Black)).unwrap();
    assert_eq!(*img2.get_codel_at((0, 1)), Codel::Black);
}

/// Every codel of a block reports the same block size: the index is total.
#[test]
fn block_index_covers_the_grid() {
    let pm = vec![
        vec![px(Codel::Red), px(Codel::Red), px(Codel::Blue)],
        vec![px(Codel::Green), px(Codel::Red), px(Codel::Blue)],
    ];
    let img = Image::new(&pm, None, None).unwrap();
    assert_eq!(img.get_block_size_at((0, 0)), 3);
    assert_eq!(img.get_block_size_at((0, 1)), 3);
    assert_eq!(img.get_block_size_at((1, 1)), 3);
    assert_eq!(img.get_block_size_at((1, 0)), 1);
    assert_eq!(img.get_block_size_at((0, 2)), 2);
    assert_eq!(img.get_block_size_at((1, 2)), 2);
}
