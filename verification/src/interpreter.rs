//! The interpreter state: position, stack, direction registers, and the two
//! in-memory I/O buffers.

use vstd::prelude::*;
use vstd::utf8::encode_utf8;

use crate::cc::CC;
use crate::dp::DP;
use crate::stdin::Stdin;

verus! {

/// Specification-level snapshot of the machine: the stack and registers as
/// mathematical values, the input characters not yet consumed with the
/// end-of-input flag, and the bytes written so far.
#[verifier::ext_equal]
pub ghost struct IpState {
    pub cur: (usize, usize),
    pub stack: Seq<isize>,
    pub dp: DP,
    pub cc: CC,
    pub input: Seq<char>,
    pub input_eof: bool,
    pub output: Seq<u8>,
}

/// The running interpreter. The position starts at the top-left codel, the
/// stack empty, the Direction Pointer right and the Codel Chooser left.
pub struct Interpreter {
    pub cur: (usize, usize),
    pub stack: Vec<isize>,
    pub dp: DP,
    pub cc: CC,
    pub stdin: Stdin,
    pub output_buf: Vec<u8>,
}

impl View for Interpreter {
    type V = IpState;

    open spec fn view(&self) -> IpState {
        IpState {
            cur: self.cur,
            stack: self.stack@,
            dp: self.dp,
            cc: self.cc,
            input: self.stdin.rem(),
            input_eof: self.stdin.eof(),
            output: self.output_buf@,
        }
    }
}

impl Interpreter {
    /// The input reader is in a usable state.
    pub open spec fn wf(self) -> bool {
        self.stdin.wf()
    }

    /// A fresh interpreter with no pending input.
    pub fn new() -> (r: Interpreter)
        ensures
            r.wf(),
            r@.cur == (0usize, 0usize),
            r@.stack == Seq::<isize>::empty(),
            r@.dp == DP::Right,
            r@.cc == CC::Left,
            r@.input == Seq::<char>::empty(),
            !r@.input_eof,
            r@.output == Seq::<u8>::empty(),
    {
        let r = Self::new_with_stdin("");
        proof {
            reveal_strlit("");
            assert(r@.input =~= Seq::<char>::empty());
        }
        r
    }

    /// A fresh interpreter reading its input from `s`.
    pub fn new_with_stdin(s: &str) -> (r: Interpreter)
        ensures
            r.wf(),
            r@.cur == (0usize, 0usize),
            r@.stack == Seq::<isize>::empty(),
            r@.dp == DP::Right,
            r@.cc == CC::Left,
            r@.input == s@,
            !r@.input_eof,
            r@.output == Seq::<u8>::empty(),
    {
        Interpreter {
            cur: (0, 0),
            stack: Vec::new(),
            dp: DP::Right,
            cc: CC::Left,
            stdin: Stdin::new_with_string(s),
            output_buf: Vec::new(),
        }
    }

    /// Appends the UTF-8 bytes of `s` to the output buffer.
    pub fn output(&mut self, s: &str)
        ensures
            final(self)@ == (IpState {
                output: old(self)@.output + encode_utf8(s@),
                ..old(self)@
            }),
            final(self).wf() == old(self).wf(),
    {
        let mut bytes = vstd::slice::slice_to_vec(s.as_bytes());
        self.output_buf.append(&mut bytes);
        proof {
            assert(self@ =~= (IpState { output: old(self)@.output + encode_utf8(s@), ..old(self)@ }));
        }
    }
}

} // verus!
