//! Core of an interpreter for the Piet programming language.
//!
//! A Piet program is a raster image. The library turns a grid of RGB pixels
//! into a grid of codels, partitions it into colour blocks with precomputed
//! exit corners, and drives a traversal state machine that executes one stack
//! command per inter-block colour transition. Reading the image file and the
//! process's standard streams is left to the embedding program: the library
//! works on in-memory pixel grids, an in-memory input buffer and an in-memory
//! output buffer.

pub mod arith;
pub mod args;
pub mod block;
pub mod cc;
pub mod codel;
pub mod command;
pub mod dp;
pub mod image;
pub mod interpreter;
pub mod stdin;

use vstd::prelude::*;

use crate::cc::CC;
use crate::codel::Codel;
use crate::command::lemma_execute_consumes_input;
use crate::command::lemma_execute_extends_output;
use crate::command::Command;
use crate::dp::DP;
use crate::image::get_flag;
use crate::image::make_bool_row;
use crate::image::rect_of;
use crate::image::set_flag;
use crate::image::Image;
use crate::interpreter::Interpreter;

verus! {

/// How a run came to an end.
#[derive(Clone, Copy, Debug, PartialEq, Eq, Structural)]
pub enum RunStatus {
    /// The program terminated on its own: eight failed exit attempts from a
    /// colour block, or a repeated position and direction while sliding
    /// across white.
    Halted,
    /// The caller's iteration cap was reached first.
    IterationCapReached,
}

/// The visited (position, direction) pairs of one slide across white.
pub struct SlideVisits {
    height: usize,
    width: usize,
    right: Vec<Vec<bool>>,
    down: Vec<Vec<bool>>,
    left: Vec<Vec<bool>>,
    up: Vec<Vec<bool>>,
}

impl SlideVisits {
    /// One flag grid per direction, each covering the codel grid.
    pub closed spec fn wf(self) -> bool {
        &&& rect_of(self.right@, self.height as int, self.width as int)
        &&& rect_of(self.down@, self.height as int, self.width as int)
        &&& rect_of(self.left@, self.height as int, self.width as int)
        &&& rect_of(self.up@, self.height as int, self.width as int)
    }

    pub closed spec fn height_spec(self) -> usize {
        self.height
    }

    pub closed spec fn width_spec(self) -> usize {
        self.width
    }

    /// The set of recorded (position, direction) pairs.
    pub closed spec fn seen_set(self) -> Set<((usize, usize), DP)> {
        Set::new(
            |pd: ((usize, usize), DP)|
                pd.0.0 < self.height && pd.0.1 < self.width && self.seen(pd.0, pd.1),
        )
    }

    /// Whether this position has been left in this direction during the
    /// current slide.
    pub closed spec fn seen(self, pos: (usize, usize), dp: DP) -> bool {
        match dp {
            DP::Right => self.right@[pos.0 as int]@[pos.1 as int],
            DP::Down => self.down@[pos.0 as int]@[pos.1 as int],
            DP::Left => self.left@[pos.0 as int]@[pos.1 as int],
            DP::Up => self.up@[pos.0 as int]@[pos.1 as int],
        }
    }

    /// A fresh, empty record for a slide over an `h` by `w` grid.
    pub fn new(h: usize, w: usize) -> (r: SlideVisits)
        ensures
            r.wf(),
            r.height_spec() == h,
            r.width_spec() == w,
            forall|pos: (usize, usize), dp: DP|
                pos.0 < h && pos.1 < w ==> !(#[trigger] r.seen(pos, dp)),
    {
        SlideVisits {
            height: h,
            width: w,
            right: make_bool_grid(h, w),
            down: make_bool_grid(h, w),
            left: make_bool_grid(h, w),
            up: make_bool_grid(h, w),
        }
    }

    /// Records that `pos` is being left in direction `dp`.
    fn record(&mut self, pos: (usize, usize), dp: DP)
        requires
            old(self).wf(),
            pos.0 < old(self).height_spec(),
            pos.1 < old(self).width_spec(),
        ensures
            final(self).wf(),
            final(self).height_spec() == old(self).height_spec(),
            final(self).width_spec() == old(self).width_spec(),
            forall|p: (usize, usize), d: DP|
                p.0 < old(self).height_spec() && p.1 < old(self).width_spec() ==> (
                #[trigger] final(self).seen(p, d) == (old(self).seen(p, d) || (p == pos && d
                    == dp))),
    {
        match dp {
            DP::Right => set_flag(&mut self.right, pos.0, pos.1),
            DP::Down => set_flag(&mut self.down, pos.0, pos.1),
            DP::Left => set_flag(&mut self.left, pos.0, pos.1),
            DP::Up => set_flag(&mut self.up, pos.0, pos.1),
        }
    }

    /// Whether `pos` has been left in direction `dp` before.
    fn check(&self, pos: (usize, usize), dp: DP) -> (r: bool)
        requires
            self.wf(),
            pos.0 < self.height_spec(),
            pos.1 < self.width_spec(),
        ensures
            r == self.seen(pos, dp),
    {
        match dp {
            DP::Right => get_flag(&self.right, pos.0, pos.1),
            DP::Down => get_flag(&self.down, pos.0, pos.1),
            DP::Left => get_flag(&self.left, pos.0, pos.1),
            DP::Up => get_flag(&self.up, pos.0, pos.1),
        }
    }
}

/// One movement of the white regime, as a specification value: the position
/// and registers after stepping straight, or, when the step leaves the grid
/// or hits black, after flipping the CC and turning the DP in place.
pub open spec fn slide_step(img: Image, cur: (usize, usize), dp: DP, cc: CC) -> (
    (usize, usize),
    DP,
    CC,
) {
    match img.step_in_dir(cur, dp) {
        None => (cur, dp.rotate_spec(1), cc.flip_spec()),
        Some(q) => {
            if img.codel_spec(q) == Codel::Black {
                (cur, dp.rotate_spec(1), cc.flip_spec())
            } else {
                (q, dp, cc)
            }
        },
    }
}

/// One iteration of the white regime: terminate on a repeated position and
/// direction, else record the pair and move as `slide_step` says. Returns
/// true when the repeat was found.
pub fn white_step(img: &Image, ip: &mut Interpreter, visits: &mut SlideVisits) -> (r: bool)
    requires
        img.wf(),
        old(ip).wf(),
        old(ip).cur.0 < img.height_spec(),
        old(ip).cur.1 < img.width_spec(),
        old(visits).wf(),
        old(visits).height_spec() == img.height_spec(),
        old(visits).width_spec() == img.width_spec(),
    ensures
        final(ip).wf(),
        final(visits).wf(),
        final(visits).height_spec() == old(visits).height_spec(),
        final(visits).width_spec() == old(visits).width_spec(),
        old(visits).seen(old(ip).cur, old(ip).dp) ==> r && *final(ip) == *old(ip)
            && *final(visits) == *old(visits),
        !old(visits).seen(old(ip).cur, old(ip).dp) ==> {
            &&& !r
            &&& (final(ip).cur, final(ip).dp, final(ip).cc) == slide_step(
                *img,
                old(ip).cur,
                old(ip).dp,
                old(ip).cc,
            )
            &&& final(ip).stack == old(ip).stack
            &&& final(ip).stdin == old(ip).stdin
            &&& final(ip).output_buf == old(ip).output_buf
            &&& forall|p: (usize, usize), d: DP|
                p.0 < img.height_spec() && p.1 < img.width_spec()
                    ==> (#[trigger] final(visits).seen(p, d) == (old(visits).seen(p, d) || (p
                    == old(ip).cur && d == old(ip).dp)))
        },
        final(ip).cur.0 < img.height_spec() && final(ip).cur.1 < img.width_spec(),
        img.codel_spec(final(ip).cur) != Codel::Black || img.codel_spec(old(ip).cur)
            == Codel::Black,
{
    if visits.check(ip.cur, ip.dp) {
        return true;
    }
    visits.record(ip.cur, ip.dp);
    let next_index = img.get_next_codel_index_in_dp_direction(ip.cur, &ip.dp);
    let blocked = match next_index {
        None => true,
        Some(ni) => img.get_codel_at(ni).is_black(),
    };
    if blocked {
        ip.cc = ip.cc.flip();
        ip.dp = ip.dp.turn_right();
        return false;
    }
    let ni = match next_index {
        Some(ni) => ni,
        None => {
            proof {
                assert(false);
            }
            ip.cur
        },
    };
    ip.cur = ni;
    false
}

/// The eight-attempt exit protocol of the colour regime, as a specification
/// value: from attempt `i` with the given registers, the registers after the
/// search and the coordinate entered, or nothing when all attempts fail.
/// A blocked attempt flips the CC on even attempts and turns the DP right on
/// odd ones.
pub open spec fn exit_search(img: Image, pos: (usize, usize), dp: DP, cc: CC, i: int) -> (
    DP,
    CC,
    Option<(usize, usize)>,
)
    decreases 8 - i,
{
    let target = img.step_in_dir(img.block_spec(pos).corner_spec(dp, cc), dp);
    let blocked = match target {
        None => true,
        Some(q) => img.codel_spec(q) == Codel::Black,
    };
    if !blocked {
        (dp, cc, target)
    } else {
        let dp2 = if i % 2 == 0 {
            dp
        } else {
            dp.rotate_spec(1)
        };
        let cc2 = if i % 2 == 0 {
            cc.flip_spec()
        } else {
            cc
        };
        if i >= 7 {
            (dp2, cc2, None)
        } else {
            exit_search(img, pos, dp2, cc2, i + 1)
        }
    }
}

/// One step of the colour regime: the exit search, and on success the move,
/// with the transition's command executed when the move enters a different
/// colour directly. Returns true when eight attempts failed and the program
/// terminates.
#[verifier::loop_isolation(false)]
pub fn colored_step(img: &Image, ip: &mut Interpreter) -> (r: bool)
    requires
        img.wf(),
        old(ip).wf(),
        old(ip).cur.0 < img.height_spec(),
        old(ip).cur.1 < img.width_spec(),
        img.codel_spec(old(ip).cur) != Codel::Black,
        img.codel_spec(old(ip).cur) != Codel::White,
    ensures
        final(ip).wf(),
        ({
            let search = exit_search(*img, old(ip).cur, old(ip).dp, old(ip).cc, 0);
            let moved = crate::interpreter::IpState { dp: search.0, cc: search.1, ..old(ip)@ };
            match search.2 {
                None => r && final(ip)@ == moved,
                Some(q) => {
                    let from = img.codel_spec(old(ip).cur);
                    let to = img.codel_spec(q);
                    &&& !r
                    &&& if to == Codel::White || to == from {
                        final(ip)@ == (crate::interpreter::IpState { cur: q, ..moved })
                    } else {
                        final(ip)@ == (crate::interpreter::IpState {
                            cur: q,
                            ..Command::of_transition(from, to).spec_execute(
                                moved,
                                img.block_spec(old(ip).cur).size as int,
                            )
                        })
                    }
                },
            }
        }),
        !r ==> final(ip).cur.0 < img.height_spec() && final(ip).cur.1 < img.width_spec()
            && img.codel_spec(final(ip).cur) != Codel::Black,
        r ==> final(ip).cur == old(ip).cur,
        old(ip)@.output.is_prefix_of(final(ip)@.output),
        final(ip)@.input.is_suffix_of(old(ip)@.input),
        old(ip)@.input_eof ==> final(ip)@.input_eof,
{
    proof {
        lemma_prefix_refl(old(ip)@.output);
        lemma_suffix_refl(old(ip)@.input);
    }
    let cur_codel = *img.get_codel_at(ip.cur);
    let mut i: usize = 0;
    loop
        invariant
            i < 8,
            ip.cur == old(ip).cur,
            ip.stack == old(ip).stack,
            ip.stdin == old(ip).stdin,
            ip.output_buf == old(ip).output_buf,
            exit_search(*img, old(ip).cur, old(ip).dp, old(ip).cc, 0) == exit_search(
                *img,
                old(ip).cur,
                ip.dp,
                ip.cc,
                i as int,
            ),
        decreases 8 - i,
    {
        let next_index = img.get_next_codel_index(ip.cur, &ip.dp, &ip.cc);
        let blocked = match next_index {
            None => true,
            Some(ni) => img.get_codel_at(ni).is_black(),
        };
        if blocked {
            if i % 2 == 0 {
                ip.cc = ip.cc.flip();
            } else {
                ip.dp = ip.dp.turn_right();
            }
            if i == 7 {
                // No way out of the current colour block.
                return true;
            }
            i = i + 1;
            continue ;
        }
        let ni = match next_index {
            Some(ni) => ni,
            None => {
                proof {
                    assert(false);
                }
                ip.cur
            },
        };
        let next_codel = *img.get_codel_at(ni);
        if next_codel.is_white() {
            // Entering white: the slide starts here, with no command.
            ip.cur = ni;
            return false;
        }
        if next_codel == cur_codel {
            // A move inside one colour block names no command; a well-built
            // block index never exits a block into its own colour.
            ip.cur = ni;
            return false;
        }
        let command = Command::new(&cur_codel, &next_codel);
        let block_size = img.get_block_size_at(ip.cur);
        let ghost pre = ip@;
        command.execute(ip, block_size);
        proof {
            lemma_execute_extends_output(command, pre, block_size as int);
            lemma_execute_consumes_input(command, pre, block_size as int);
        }
        ip.cur = ni;
        return false;
    }
}

/// What a whole run computes, one command or slide step per unit of budget:
/// at a coloured position, the exit search followed by the transition's
/// command; at a white position, the slide with its visited pairs. The run
/// ends with the remaining state and the reason: a failed exit search or a
/// repeated slide pair halts the program, an exhausted budget reports the
/// iteration cap.
pub open spec fn run_spec(img: Image, st: crate::interpreter::IpState, budget: nat) -> (
    crate::interpreter::IpState,
    RunStatus,
)
    decreases budget, 1int,
{
    if img.codel_spec(st.cur) == Codel::White {
        run_white_spec(img, st, Set::empty(), budget)
    } else if budget == 0 {
        (st, RunStatus::IterationCapReached)
    } else {
        let search = exit_search(img, st.cur, st.dp, st.cc, 0);
        let moved = crate::interpreter::IpState { dp: search.0, cc: search.1, ..st };
        match search.2 {
            None => (moved, RunStatus::Halted),
            Some(q) => {
                let from = img.codel_spec(st.cur);
                let to = img.codel_spec(q);
                let st2 = if to == Codel::White || to == from {
                    crate::interpreter::IpState { cur: q, ..moved }
                } else {
                    crate::interpreter::IpState {
                        cur: q,
                        ..Command::of_transition(from, to).spec_execute(
                            moved,
                            img.block_spec(st.cur).size as int,
                        )
                    }
                };
                run_spec(img, st2, (budget - 1) as nat)
            },
        }
    }
}

/// The white regime of `run_spec`: slide step by step, recording each
/// (position, direction) pair, until a pair repeats, the budget runs out, or
/// a coloured codel is entered and the colour regime resumes.
pub open spec fn run_white_spec(
    img: Image,
    st: crate::interpreter::IpState,
    seen: Set<((usize, usize), DP)>,
    budget: nat,
) -> (crate::interpreter::IpState, RunStatus)
    decreases budget, 0int,
{
    if budget == 0 {
        (st, RunStatus::IterationCapReached)
    } else if seen.contains((st.cur, st.dp)) {
        (st, RunStatus::Halted)
    } else {
        let stepped = slide_step(img, st.cur, st.dp, st.cc);
        let st2 = crate::interpreter::IpState {
            cur: stepped.0,
            dp: stepped.1,
            cc: stepped.2,
            ..st
        };
        let seen2 = seen.insert((st.cur, st.dp));
        if img.codel_spec(stepped.0) == Codel::White {
            run_white_spec(img, st2, seen2, (budget - 1) as nat)
        } else {
            run_spec(img, st2, (budget - 1) as nat)
        }
    }
}

/// Runs a Piet program on a prepared image until it terminates or the
/// iteration cap is hit. The interpreter's position must lie on the grid;
/// a run whose starting codel is black fails without touching the state.
/// A run that completes returns exactly the state and status that
/// `run_spec` computes from the starting state and the iteration budget.
/// Along the way the position stays on the grid and never rests on a black
/// codel, the output is only appended to, and the input is only consumed.
#[verifier::loop_isolation(false)]
pub fn run(img: &Image, ip: &mut Interpreter, max_iter: Option<usize>) -> (r: Result<
    RunStatus,
    String,
>)
    requires
        img.wf(),
        old(ip).wf(),
        old(ip).cur.0 < img.height_spec(),
        old(ip).cur.1 < img.width_spec(),
    ensures
        final(ip).wf(),
        (r is Err) <==> img.codel_spec(old(ip).cur) == Codel::Black,
        r matches Err(m) ==> m@ == "the top-left codel shall not be black"@ && *final(ip) == *old(
            ip,
        ),
        r is Ok ==> final(ip).cur.0 < img.height_spec() && final(ip).cur.1 < img.width_spec()
            && img.codel_spec(final(ip).cur) != Codel::Black,
        r matches Ok(status) ==> (final(ip)@, status) == run_spec(
            *img,
            old(ip)@,
            (match max_iter {
                Some(c) => c,
                None => usize::MAX,
            }) as nat,
        ),
        old(ip)@.output.is_prefix_of(final(ip)@.output),
        final(ip)@.input.is_suffix_of(old(ip)@.input),
        old(ip)@.input_eof ==> final(ip)@.input_eof,
{
    proof {
        lemma_prefix_refl(old(ip)@.output);
        lemma_suffix_refl(old(ip)@.input);
    }
    if img.get_codel_at(ip.cur).is_black() {
        return Err("the top-left codel shall not be black".to_owned());
    }
    let cap: usize = match max_iter {
        Some(c) => c,
        None => usize::MAX,
    };
    let mut num_iter: usize = 0;
    loop
        invariant
            img.wf(),
            ip.wf(),
            ip.cur.0 < img.height_spec(),
            ip.cur.1 < img.width_spec(),
            img.codel_spec(ip.cur) != Codel::Black,
            num_iter <= cap,
            max_iter is None ==> cap == usize::MAX,
            max_iter matches Some(c) ==> cap == c,
            old(ip)@.output.is_prefix_of(ip@.output),
            ip@.input.is_suffix_of(old(ip)@.input),
            old(ip)@.input_eof ==> ip@.input_eof,
            run_spec(*img, old(ip)@, cap as nat) == run_spec(
                *img,
                ip@,
                (cap - num_iter) as nat,
            ),
        decreases cap - num_iter,
    {
        let cur_codel = *img.get_codel_at(ip.cur);
        if !cur_codel.is_white() {
            // Colour regime: up to eight exit attempts, alternating a CC
            // flip and a DP turn when the way out is blocked.
            if num_iter == cap {
                proof {
                    assert(run_spec(*img, ip@, 0) == (ip@, RunStatus::IterationCapReached));
                }
                return Ok(RunStatus::IterationCapReached);
            }
            let ghost b = (cap - num_iter) as nat;
            num_iter = num_iter + 1;
            let ghost pre = ip@;
            let terminated = colored_step(img, ip);
            proof {
                lemma_prefix_trans(old(ip)@.output, pre.output, ip@.output);
                lemma_suffix_trans(ip@.input, pre.input, old(ip)@.input);
                let search = exit_search(*img, pre.cur, pre.dp, pre.cc, 0);
                let moved = crate::interpreter::IpState { dp: search.0, cc: search.1, ..pre };
                match search.2 {
                    None => {
                        assert(run_spec(*img, pre, b) == (moved, RunStatus::Halted));
                        assert(ip@ == moved);
                    },
                    Some(q) => {
                        assert(run_spec(*img, pre, b) == run_spec(*img, ip@, (b - 1) as nat));
                    },
                }
            }
            if terminated {
                return Ok(RunStatus::Halted);
            }
        } else {
            // White regime: slide straight, recording visited position and
            // direction pairs to detect a loop that cannot escape.
            let h = img.height();
            let w = img.width();
            let mut visits = SlideVisits::new(h, w);
            proof {
                assert(visits.seen_set() =~= Set::<((usize, usize), DP)>::empty());
                assert(run_spec(*img, ip@, (cap - num_iter) as nat) == run_white_spec(
                    *img,
                    ip@,
                    Set::empty(),
                    (cap - num_iter) as nat,
                ));
            }
            let ghost n0 = num_iter;
            loop
                invariant
                    num_iter >= n0,
                    img.wf(),
                    ip.wf(),
                    h == img.height_spec(),
                    w == img.width_spec(),
                    ip.cur.0 < img.height_spec(),
                    ip.cur.1 < img.width_spec(),
                    img.codel_spec(ip.cur) != Codel::Black,
                    visits.wf(),
                    visits.height_spec() == h,
                    visits.width_spec() == w,
                    num_iter <= cap,
                    old(ip)@.output.is_prefix_of(ip@.output),
                    ip@.input.is_suffix_of(old(ip)@.input),
                    old(ip)@.input_eof ==> ip@.input_eof,
                    run_spec(*img, old(ip)@, cap as nat) == run_white_spec(
                        *img,
                        ip@,
                        visits.seen_set(),
                        (cap - num_iter) as nat,
                    ),
                decreases cap - num_iter,
            {
                if num_iter == cap {
                    proof {
                        assert(run_white_spec(*img, ip@, visits.seen_set(), 0) == (
                        ip@,
                        RunStatus::IterationCapReached,
                        ));
                    }
                    return Ok(RunStatus::IterationCapReached);
                }
                let ghost b = (cap - num_iter) as nat;
                num_iter = num_iter + 1;
                let ghost pre = ip@;
                let ghost seen_pre = visits.seen_set();
                let looped = white_step(img, ip, &mut visits);
                if looped {
                    // The slide revisited a position and direction: the
                    // program cannot leave the white region.
                    proof {
                        assert(seen_pre.contains((pre.cur, pre.dp)));
                        assert(run_white_spec(*img, pre, seen_pre, b) == (
                        pre,
                        RunStatus::Halted,
                        ));
                    }
                    return Ok(RunStatus::Halted);
                }
                proof {
                    assert(!seen_pre.contains((pre.cur, pre.dp)));
                    let stepped = slide_step(*img, pre.cur, pre.dp, pre.cc);
                    assert(ip@ =~= (crate::interpreter::IpState {
                        cur: stepped.0,
                        dp: stepped.1,
                        cc: stepped.2,
                        ..pre
                    }));
                    assert(visits.seen_set() =~= seen_pre.insert((pre.cur, pre.dp)));
                }
                if !img.get_codel_at(ip.cur).is_white() {
                    // A slide across white ends on a coloured codel with no
                    // command executed.
                    break ;
                }
            }
        }
    }
}

/// A sequence is a prefix of itself.
proof fn lemma_prefix_refl(a: Seq<u8>)
    ensures
        a.is_prefix_of(a),
{
    assert(a.subrange(0, a.len() as int) =~= a);
}

/// A sequence is a suffix of itself.
proof fn lemma_suffix_refl(a: Seq<char>)
    ensures
        a.is_suffix_of(a),
{
    assert(a.subrange(0, a.len() as int) =~= a);
}

/// Prefixes compose.
proof fn lemma_prefix_trans(a: Seq<u8>, b: Seq<u8>, c: Seq<u8>)
    requires
        a.is_prefix_of(b),
        b.is_prefix_of(c),
    ensures
        a.is_prefix_of(c),
{
    assert(a =~= c.subrange(0, a.len() as int));
}

/// Suffixes compose.
proof fn lemma_suffix_trans(a: Seq<char>, b: Seq<char>, c: Seq<char>)
    requires
        a.is_suffix_of(b),
        b.is_suffix_of(c),
    ensures
        a.is_suffix_of(c),
{
    assert(a =~= c.subrange(c.len() - a.len(), c.len() as int));
}

/// An `h` by `w` grid of false flags.
fn make_bool_grid(h: usize, w: usize) -> (r: Vec<Vec<bool>>)
    ensures
        rect_of(r@, h as int, w as int),
        forall|a: int, b: int| 0 <= a < h && 0 <= b < w ==> !(#[trigger] r@[a]@[b]),
{
    let mut g: Vec<Vec<bool>> = Vec::new();
    let mut k: usize = 0;
    while k < h
        invariant
            k <= h,
            g@.len() == k,
            forall|a: int| 0 <= a < k ==> (#[trigger] g@[a])@.len() == w,
            forall|a: int, b: int| 0 <= a < k && 0 <= b < w ==> !(#[trigger] g@[a]@[b]),
        decreases h - k,
    {
        g.push(make_bool_row(w));
        k = k + 1;
    }
    g
}

} // verus!
