//! The command table: the seventeen stack operations and their selection
//! from an inter-block colour transition.
//!
//! An operation whose precondition fails (too few operands, division by
//! zero, a roll depth that is negative or larger than the stack, input that
//! is missing or malformed, an output value outside the Unicode scalar
//! range) leaves the whole state unchanged.

use vstd::prelude::*;
use vstd::utf8::encode_scalar;

use crate::arith::floor_mod;
use crate::arith::floor_mod_spec;
use crate::arith::lemma_floor_mod_pos;
use crate::arith::lemma_floor_mod_sign;
use crate::arith::trunc_div;
use crate::arith::trunc_div_spec;
use crate::codel::Codel;
use crate::interpreter::Interpreter;
use crate::interpreter::IpState;
use crate::stdin::char_from_u32;
use crate::stdin::push_utf8;
use crate::stdin::read_char_rest;
use crate::stdin::read_char_value;
use crate::stdin::read_integer_value;
use crate::stdin::read_word_rest;

verus! {

/// Piet Commands (Push, Mod, Roll, etc.)
#[derive(Clone, Copy, Debug, PartialEq, Eq, Structural)]
pub enum Command {
    Push,
    Pop,
    Add,
    Subtract,
    Multiply,
    Divide,
    Mod,
    Not,
    Greater,
    Pointer,
    Switch,
    Duplicate,
    Roll,
    InNumber,
    InChar,
    OutNumber,
    OutChar,
}

/// The decimal digits of `n`, most significant first, as ASCII bytes.
pub open spec fn dec_digits(n: int) -> Seq<u8>
    recommends
        n >= 0,
    decreases n,
{
    if n < 10 {
        seq![(48 + n) as u8]
    } else {
        dec_digits(n / 10).push((48 + n % 10) as u8)
    }
}

/// The decimal representation of `v` as ASCII bytes, with a leading minus
/// sign when `v` is negative.
pub open spec fn dec_bytes(v: int) -> Seq<u8> {
    if v < 0 {
        seq![45u8] + dec_digits(-v)
    } else {
        dec_digits(v)
    }
}

/// The stack after rotating its top `depth` values `nr` places: the value on
/// top is buried `nr mod depth` deep and the values above it move up.
pub open spec fn roll_seq(s: Seq<isize>, depth: int, nr: int) -> Seq<isize>
    recommends
        1 <= depth <= s.len(),
{
    let base = s.len() - depth;
    let r = nr % depth;
    Seq::new(s.len(), |m: int| if m < base {
        s[m]
    } else {
        s[base + (m - base + depth - r) % depth]
    })
}

impl Command {
    /// The command named by the hue and lightness distances between the two
    /// chromatic codels of a block transition.
    pub open spec fn of_transition(from: Codel, to: Codel) -> Command
        recommends
            from.is_chromatic(),
            to.is_chromatic(),
            from != to,
    {
        let h = Codel::hue_delta_spec(from, to);
        let l = Codel::lightness_delta_spec(from, to);
        if h == 0 {
            if l == 1 {
                Command::Push
            } else {
                Command::Pop
            }
        } else if h == 1 {
            if l == 0 {
                Command::Add
            } else if l == 1 {
                Command::Subtract
            } else {
                Command::Multiply
            }
        } else if h == 2 {
            if l == 0 {
                Command::Divide
            } else if l == 1 {
                Command::Mod
            } else {
                Command::Not
            }
        } else if h == 3 {
            if l == 0 {
                Command::Greater
            } else if l == 1 {
                Command::Pointer
            } else {
                Command::Switch
            }
        } else if h == 4 {
            if l == 0 {
                Command::Duplicate
            } else if l == 1 {
                Command::Roll
            } else {
                Command::InNumber
            }
        } else {
            if l == 0 {
                Command::InChar
            } else if l == 1 {
                Command::OutNumber
            } else {
                Command::OutChar
            }
        }
    }

    /// Creates the command for a transition between two colour blocks, from
    /// the codels before and after the move.
    pub fn new(from: &Codel, to: &Codel) -> (r: Command)
        requires
            from.is_chromatic(),
            to.is_chromatic(),
            *from != *to,
        ensures
            r == Command::of_transition(*from, *to),
    {
        proof {
            crate::codel::lemma_delta_ranges(*from, *to);
            lemma_transition_distinct(*from, *to);
        }
        let hd = Codel::get_hue_difference(from, to);
        let ld = Codel::get_lightness_difference(from, to);
        if hd == 0 {
            if ld == 1 {
                Command::Push
            } else {
                Command::Pop
            }
        } else if hd == 1 {
            if ld == 0 {
                Command::Add
            } else if ld == 1 {
                Command::Subtract
            } else {
                Command::Multiply
            }
        } else if hd == 2 {
            if ld == 0 {
                Command::Divide
            } else if ld == 1 {
                Command::Mod
            } else {
                Command::Not
            }
        } else if hd == 3 {
            if ld == 0 {
                Command::Greater
            } else if ld == 1 {
                Command::Pointer
            } else {
                Command::Switch
            }
        } else if hd == 4 {
            if ld == 0 {
                Command::Duplicate
            } else if ld == 1 {
                Command::Roll
            } else {
                Command::InNumber
            }
        } else {
            if ld == 0 {
                Command::InChar
            } else if ld == 1 {
                Command::OutNumber
            } else {
                Command::OutChar
            }
        }
    }

    /// What executing this command does to a machine state, given the size
    /// of the block being left.
    pub open spec fn spec_execute(self, st: IpState, block_size: int) -> IpState {
        let n = st.stack.len();
        match self {
            Command::Push => IpState { stack: st.stack.push(block_size as isize), ..st },
            Command::Pop => {
                if n == 0 {
                    st
                } else {
                    IpState { stack: st.stack.drop_last(), ..st }
                }
            },
            Command::Add => {
                if n < 2 {
                    st
                } else {
                    let x = st.stack[n - 1];
                    let y = st.stack[n - 2];
                    IpState {
                        stack: st.stack.take(n - 2).push(
                            vstd::wrapping::isize_specs::wrapping_add(x, y),
                        ),
                        ..st
                    }
                }
            },
            Command::Subtract => {
                if n < 2 {
                    st
                } else {
                    let x = st.stack[n - 1];
                    let y = st.stack[n - 2];
                    IpState {
                        stack: st.stack.take(n - 2).push(
                            vstd::wrapping::isize_specs::wrapping_sub(y, x),
                        ),
                        ..st
                    }
                }
            },
            Command::Multiply => {
                if n < 2 {
                    st
                } else {
                    let x = st.stack[n - 1];
                    let y = st.stack[n - 2];
                    IpState {
                        stack: st.stack.take(n - 2).push(
                            vstd::wrapping::isize_specs::wrapping_mul(x, y),
                        ),
                        ..st
                    }
                }
            },
            Command::Divide => {
                if n < 2 {
                    st
                } else {
                    let x = st.stack[n - 1];
                    let y = st.stack[n - 2];
                    if x == 0 || (y == isize::MIN && x == -1) {
                        st
                    } else {
                        IpState {
                            stack: st.stack.take(n - 2).push(
                                trunc_div_spec(y as int, x as int) as isize,
                            ),
                            ..st
                        }
                    }
                }
            },
            Command::Mod => {
                if n < 2 {
                    st
                } else {
                    let x = st.stack[n - 1];
                    let y = st.stack[n - 2];
                    if x == 0 {
                        st
                    } else {
                        IpState {
                            stack: st.stack.take(n - 2).push(
                                floor_mod_spec(y as int, x as int) as isize,
                            ),
                            ..st
                        }
                    }
                }
            },
            Command::Not => {
                if n == 0 {
                    st
                } else {
                    let x = st.stack[n - 1];
                    IpState {
                        stack: st.stack.drop_last().push(if x == 0 {
                            1
                        } else {
                            0
                        }),
                        ..st
                    }
                }
            },
            Command::Greater => {
                if n < 2 {
                    st
                } else {
                    let x = st.stack[n - 1];
                    let y = st.stack[n - 2];
                    IpState {
                        stack: st.stack.take(n - 2).push(if y > x {
                            1
                        } else {
                            0
                        }),
                        ..st
                    }
                }
            },
            Command::Pointer => {
                if n == 0 {
                    st
                } else {
                    let x = st.stack[n - 1];
                    IpState {
                        stack: st.stack.drop_last(),
                        dp: st.dp.rotate_spec(x as int),
                        ..st
                    }
                }
            },
            Command::Switch => {
                if n == 0 {
                    st
                } else {
                    let x = st.stack[n - 1];
                    IpState {
                        stack: st.stack.drop_last(),
                        cc: if (x as int) % 2 == 1 {
                            st.cc.flip_spec()
                        } else {
                            st.cc
                        },
                        ..st
                    }
                }
            },
            Command::Duplicate => {
                if n == 0 {
                    st
                } else {
                    IpState { stack: st.stack.push(st.stack[n - 1]), ..st }
                }
            },
            Command::Roll => {
                if n < 2 {
                    st
                } else {
                    let nr = st.stack[n - 1] as int;
                    let depth = st.stack[n - 2] as int;
                    if depth < 0 || depth > n - 2 {
                        st
                    } else {
                        let s2 = st.stack.take(n - 2);
                        if depth <= 1 || nr == 0 {
                            IpState { stack: s2, ..st }
                        } else {
                            IpState { stack: roll_seq(s2, depth, nr), ..st }
                        }
                    }
                }
            },
            Command::InNumber => {
                let v = read_integer_value(st.input, st.input_eof);
                let rest = read_word_rest(st.input, st.input_eof);
                IpState {
                    stack: match v {
                        Some(k) => st.stack.push(k),
                        None => st.stack,
                    },
                    input: rest.0,
                    input_eof: rest.1,
                    ..st
                }
            },
            Command::InChar => {
                let v = read_char_value(st.input, st.input_eof);
                let rest = read_char_rest(st.input, st.input_eof);
                IpState {
                    stack: match v {
                        Some(c) => st.stack.push((c as u32) as isize),
                        None => st.stack,
                    },
                    input: rest.0,
                    input_eof: rest.1,
                    ..st
                }
            },
            Command::OutNumber => {
                if n == 0 {
                    st
                } else {
                    let x = st.stack[n - 1];
                    IpState {
                        stack: st.stack.drop_last(),
                        output: st.output + dec_bytes(x as int) + seq![10u8],
                        ..st
                    }
                }
            },
            Command::OutChar => {
                if n == 0 {
                    st
                } else {
                    let x = st.stack[n - 1] as int;
                    if 0 <= x <= 0x10ffff && !(0xd800 <= x <= 0xdfff) {
                        IpState {
                            stack: st.stack.drop_last(),
                            output: st.output + encode_scalar(x as u32),
                            ..st
                        }
                    } else {
                        st
                    }
                }
            },
        }
    }

    /// Executes the command represented by `self`. `block_size` is the size
    /// of the block being left; only `Push` uses it.
    pub fn execute(&self, ip: &mut Interpreter, block_size: usize)
        requires
            old(ip).wf(),
            0 < block_size <= isize::MAX as usize,
        ensures
            final(ip).wf(),
            final(ip)@ == self.spec_execute(old(ip)@, block_size as int),
    {
        let ghost st = ip@;
        match self {
            Command::Push => {
                ip.stack.push(block_size as isize);
                proof {
                    assert(ip@ =~= self.spec_execute(st, block_size as int));
                }
            },
            Command::Pop => {
                if ip.stack.len() > 0 {
                    ip.stack.pop();
                }
                proof {
                    assert(ip@ =~= self.spec_execute(st, block_size as int));
                }
            },
            Command::Add => {
                let n = ip.stack.len();
                if n >= 2 {
                    let x = ip.stack[n - 1];
                    let y = ip.stack[n - 2];
                    ip.stack.truncate(n - 2);
                    ip.stack.push(x.wrapping_add(y));
                }
                proof {
                    assert(ip@ =~= self.spec_execute(st, block_size as int));
                }
            },
            Command::Subtract => {
                let n = ip.stack.len();
                if n >= 2 {
                    let x = ip.stack[n - 1];
                    let y = ip.stack[n - 2];
                    ip.stack.truncate(n - 2);
                    ip.stack.push(y.wrapping_sub(x));
                }
                proof {
                    assert(ip@ =~= self.spec_execute(st, block_size as int));
                }
            },
            Command::Multiply => {
                let n = ip.stack.len();
                if n >= 2 {
                    let x = ip.stack[n - 1];
                    let y = ip.stack[n - 2];
                    ip.stack.truncate(n - 2);
                    ip.stack.push(x.wrapping_mul(y));
                }
                proof {
                    assert(ip@ =~= self.spec_execute(st, block_size as int));
                }
            },
            Command::Divide => {
                let n = ip.stack.len();
                if n >= 2 {
                    let x = ip.stack[n - 1];
                    let y = ip.stack[n - 2];
                    if !(x == 0 || (y == isize::MIN && x == -1)) {
                        ip.stack.truncate(n - 2);
                        ip.stack.push(trunc_div(y, x));
                    }
                }
                proof {
                    assert(ip@ =~= self.spec_execute(st, block_size as int));
                }
            },
            Command::Mod => {
                let n = ip.stack.len();
                if n >= 2 {
                    let x = ip.stack[n - 1];
                    if x != 0 {
                        let y = ip.stack[n - 2];
                        ip.stack.truncate(n - 2);
                        ip.stack.push(floor_mod(y, x));
                    }
                }
                proof {
                    assert(ip@ =~= self.spec_execute(st, block_size as int));
                }
            },
            Command::Not => {
                let n = ip.stack.len();
                if n > 0 {
                    let x = ip.stack[n - 1];
                    ip.stack.truncate(n - 1);
                    ip.stack.push(if x == 0 {
                        1
                    } else {
                        0
                    });
                    proof {
                        assert(st.stack.drop_last() =~= st.stack.take(n - 1));
                    }
                }
                proof {
                    assert(ip@ =~= self.spec_execute(st, block_size as int));
                }
            },
            Command::Greater => {
                let n = ip.stack.len();
                if n >= 2 {
                    let x = ip.stack[n - 1];
                    let y = ip.stack[n - 2];
                    ip.stack.truncate(n - 2);
                    ip.stack.push(if y > x {
                        1
                    } else {
                        0
                    });
                }
                proof {
                    assert(ip@ =~= self.spec_execute(st, block_size as int));
                }
            },
            Command::Pointer => {
                let n = ip.stack.len();
                if n > 0 {
                    let x = ip.stack[n - 1];
                    ip.stack.truncate(n - 1);
                    ip.dp = ip.dp.rotate_clockwise_by(x);
                    proof {
                        assert(st.stack.drop_last() =~= st.stack.take(n - 1));
                    }
                }
                proof {
                    assert(ip@ =~= self.spec_execute(st, block_size as int));
                }
            },
            Command::Switch => {
                let n = ip.stack.len();
                if n > 0 {
                    let x = ip.stack[n - 1];
                    ip.stack.truncate(n - 1);
                    let m = floor_mod(x, 2);
                    proof {
                        lemma_floor_mod_pos(x as int, 2);
                        assert(st.stack.drop_last() =~= st.stack.take(n - 1));
                    }
                    if m == 1 {
                        ip.cc = ip.cc.flip();
                    }
                }
                proof {
                    assert(ip@ =~= self.spec_execute(st, block_size as int));
                }
            },
            Command::Duplicate => {
                let n = ip.stack.len();
                if n > 0 {
                    let x = ip.stack[n - 1];
                    ip.stack.push(x);
                }
                proof {
                    assert(ip@ =~= self.spec_execute(st, block_size as int));
                }
            },
            Command::Roll => {
                self.execute_roll(ip);
                proof {
                    assert(ip@ =~= self.spec_execute(st, block_size as int));
                }
            },
            Command::InNumber => {
                match ip.stdin.read_integer() {
                    Some(k) => ip.stack.push(k),
                    None => {},
                }
                proof {
                    assert(ip@ =~= self.spec_execute(st, block_size as int));
                }
            },
            Command::InChar => {
                match ip.stdin.read_char() {
                    Some(c) => {
                        proof {
                            vstd::utf8::char_is_scalar(c);
                        }
                        ip.stack.push((c as u32) as isize);
                    },
                    None => {},
                }
                proof {
                    assert(ip@ =~= self.spec_execute(st, block_size as int));
                }
            },
            Command::OutNumber => {
                let n = ip.stack.len();
                if n > 0 {
                    let x = ip.stack[n - 1];
                    ip.stack.truncate(n - 1);
                    push_dec(&mut ip.output_buf, x);
                    ip.output_buf.push(10);
                    proof {
                        assert(st.stack.drop_last() =~= st.stack.take(n - 1));
                        assert(ip.output_buf@ =~= st.output + dec_bytes(x as int) + seq![10u8]);
                    }
                }
                proof {
                    assert(ip@ =~= self.spec_execute(st, block_size as int));
                }
            },
            Command::OutChar => {
                let n = ip.stack.len();
                if n > 0 {
                    let x = ip.stack[n - 1];
                    if 0 <= x && x <= 0x10ffff && !(0xd800 <= x && x <= 0xdfff) {
                        ip.stack.truncate(n - 1);
                        let c = char_from_u32(x as u32);
                        push_utf8(&mut ip.output_buf, c);
                        proof {
                            assert(st.stack.drop_last() =~= st.stack.take(n - 1));
                        }
                    }
                }
                proof {
                    assert(ip@ =~= self.spec_execute(st, block_size as int));
                }
            },
        }
    }

    /// The Roll command: pops the number of rolls and the depth, then
    /// rotates the top `depth` values of what remains. The work done does
    /// not depend on the number of rolls.
    #[verifier::loop_isolation(false)]
    fn execute_roll(&self, ip: &mut Interpreter)
        requires
            old(ip).wf(),
            *self == Command::Roll,
        ensures
            final(ip).wf(),
            final(ip)@ == Command::Roll.spec_execute(old(ip)@, 1),
    {
        let ghost st = ip@;
        let n = ip.stack.len();
        if n < 2 {
            proof {
                assert(ip@ =~= Command::Roll.spec_execute(st, 1));
            }
            return;
        }
        let nr = ip.stack[n - 1];
        let depth = ip.stack[n - 2];
        if depth < 0 || (depth as usize) > n - 2 {
            proof {
                assert(ip@ =~= Command::Roll.spec_execute(st, 1));
            }
            return;
        }
        ip.stack.truncate(n - 2);
        let ghost s2 = st.stack.take(n - 2);
        if depth <= 1 || nr == 0 {
            proof {
                assert(ip@ =~= Command::Roll.spec_execute(st, 1));
            }
            return;
        }
        let d = depth as usize;
        let rr = floor_mod(nr, depth);
        proof {
            lemma_floor_mod_pos(nr as int, depth as int);
            lemma_floor_mod_sign(nr as int, depth as int);
        }
        let r = rr as usize;
        let base = ip.stack.len() - d;
        let mut section: Vec<isize> = Vec::new();
        let mut k: usize = 0;
        while k < d
            invariant
                k <= d,
                section@ =~= s2.subrange(base as int, base + k),
            decreases d - k,
        {
            section.push(ip.stack[base + k]);
            k = k + 1;
        }
        proof {
            assert(section@ =~= s2.skip(base as int));
        }
        ip.stack.truncate(base);
        let ghost target = roll_seq(s2, depth as int, nr as int);
        proof {
            assert(target.len() == s2.len());
            assert(forall|m: int| 0 <= m < base ==> target[m] == s2[m]);
            assert(ip.stack@ =~= target.take(base as int));
        }
        let mut q: usize = 0;
        while q < d
            invariant
                q <= d,
                ip.stack@ =~= target.take(base + q),
                ip.cur == old(ip).cur,
                ip.dp == old(ip).dp,
                ip.cc == old(ip).cc,
                ip.stdin == old(ip).stdin,
                ip.output_buf == old(ip).output_buf,
            decreases d - q,
        {
            let idx = (q + d - r) % d;
            proof {
                assert(target[base + q] == s2[base as int + ((q + d - r) as int) % (d as int)])
                    by {
                    assert((q as int - (r as int) + d) % (d as int) == ((q + d - r) as int) % (
                    d as int));
                };
                assert(section@[idx as int] == s2[base as int + idx as int]);
            }
            ip.stack.push(section[idx]);
            proof {
                assert(ip.stack@ =~= target.take(base + q + 1));
            }
            q = q + 1;
        }
        proof {
            assert(ip.stack@ =~= target);
            assert(Command::Roll.spec_execute(st, 1).stack == target);
            assert(ip@.cur == st.cur && ip@.dp == st.dp && ip@.cc == st.cc);
            assert(ip@.input == st.input && ip@.input_eof == st.input_eof);
            assert(ip@.output == st.output);
            assert(ip@ =~= Command::Roll.spec_execute(st, 1));
        }
    }
}

/// Two distinct chromatic codels differ in hue or in lightness, so a block
/// transition always names a command.
proof fn lemma_transition_distinct(a: Codel, b: Codel)
    requires
        a.is_chromatic(),
        b.is_chromatic(),
        a != b,
    ensures
        Codel::hue_delta_spec(a, b) != 0 || Codel::lightness_delta_spec(a, b) != 0,
{
    if Codel::hue_delta_spec(a, b) == 0 && Codel::lightness_delta_spec(a, b) == 0 {
        let dh = b.hue_spec() - a.hue_spec();
        assert(-5 <= dh <= 5);
        if dh > 0 {
            vstd::arithmetic::div_mod::lemma_small_mod(dh as nat, 6);
        } else if dh < 0 {
            vstd::arithmetic::div_mod::lemma_mod_multiples_vanish(1, dh, 6);
            vstd::arithmetic::div_mod::lemma_small_mod((dh + 6) as nat, 6);
        }
        assert(a.hue_spec() == b.hue_spec());
        let dl = b.lightness_spec() - a.lightness_spec();
        assert(-2 <= dl <= 2);
        if dl > 0 {
            vstd::arithmetic::div_mod::lemma_small_mod(dl as nat, 3);
        } else if dl < 0 {
            vstd::arithmetic::div_mod::lemma_mod_multiples_vanish(1, dl, 3);
            vstd::arithmetic::div_mod::lemma_small_mod((dl + 3) as nat, 3);
        }
        assert(a.lightness_spec() == b.lightness_spec());
        assert(a == b);
        assert(false);
    }
}

/// Appends the decimal digits of `m`, most significant first.
fn push_dec_digits(out: &mut Vec<u8>, m: usize)
    ensures
        final(out)@ == old(out)@ + dec_digits(m as int),
    decreases m,
{
    if m < 10 {
        out.push(48 + (m as u8));
        proof {
            assert(out@ =~= old(out)@ + dec_digits(m as int));
        }
    } else {
        proof {
            vstd::arithmetic::div_mod::lemma_div_decreases(m as int, 10);
            vstd::arithmetic::div_mod::lemma_div_pos_is_pos(m as int, 10);
            vstd::arithmetic::div_mod::lemma_mod_bound(m as int, 10);
        }
        push_dec_digits(out, m / 10);
        out.push(48 + ((m % 10) as u8));
        proof {
            assert(out@ =~= old(out)@ + dec_digits(m as int));
        }
    }
}

/// Appends the decimal representation of `v`, a minus sign first when `v`
/// is negative.
fn push_dec(out: &mut Vec<u8>, v: isize)
    ensures
        final(out)@ == old(out)@ + dec_bytes(v as int),
{
    if v >= 0 {
        push_dec_digits(out, v as usize);
    } else {
        out.push(45);
        let t = -(v + 1);
        let mag = (t as usize) + 1;
        proof {
            assert(mag as int == -(v as int));
        }
        push_dec_digits(out, mag);
        proof {
            assert(out@ =~= old(out)@ + dec_bytes(v as int));
        }
    }
}

/// Rolling by `k` and then by `-k` over the same depth restores the stack:
/// the two rotations cancel. `depth` must lie between 0 and the stack size,
/// as it does whenever the Roll command accepts it.
pub proof fn lemma_roll_inverse(s: Seq<isize>, depth: int, k: int)
    requires
        0 <= depth <= s.len(),
    ensures
        roll_data(roll_data(s, depth, k), depth, -k) == s,
{
    if depth <= 1 || k == 0 {
        assert(roll_data(roll_data(s, depth, k), depth, -k) =~= s);
    } else {
        let t = roll_seq(s, depth, k);
        assert(t.len() == s.len());
        let u = roll_seq(t, depth, -k);
        assert(u.len() == s.len());
        let base = s.len() - depth;
        let r1 = k % depth;
        let r2 = (-k) % depth;
        vstd::arithmetic::div_mod::lemma_mod_bound(k, depth);
        vstd::arithmetic::div_mod::lemma_mod_bound(-k, depth);
        assert(r1 + r2 == 0 || r1 + r2 == depth) by {
            vstd::arithmetic::div_mod::lemma_fundamental_div_mod(k, depth);
            vstd::arithmetic::div_mod::lemma_fundamental_div_mod(-k, depth);
            let q1 = k / depth;
            let q2 = (-k) / depth;
            assert(r1 + r2 == -(q1 + q2) * depth) by (nonlinear_arith)
                requires
                    k == depth * q1 + r1,
                    -k == depth * q2 + r2,
            ;
            let w = -(q1 + q2);
            assert(0 <= w * depth < 2 * depth);
            assert(w == 0 || w == 1) by (nonlinear_arith)
                requires
                    0 <= w * depth < 2 * depth,
                    depth > 1,
            ;
            assert(w * depth == 0 || w * depth == depth) by (nonlinear_arith)
                requires
                    w == 0 || w == 1,
            ;
        };
        assert forall|m: int| 0 <= m < s.len() implies u[m] == s[m] by {
            if m >= base {
                let p = m - base;
                let p1 = (p + depth - r2) % depth;
                assert(u[m] == t[base + p1]);
                assert(0 <= p1 < depth) by {
                    vstd::arithmetic::div_mod::lemma_mod_bound(p + depth - r2, depth);
                };
                assert(t[base + p1] == s[base + (p1 + depth - r1) % depth]);
                assert((p1 + depth - r1) % depth == p) by {
                    // p1 differs from p - r2 by a multiple of depth, so the
                    // two offsets add back to p modulo depth.
                    vstd::arithmetic::div_mod::lemma_fundamental_div_mod(p + depth - r2, depth);
                    let qq = (p + depth - r2) / depth;
                    let e = p1 + depth - r1;
                    if r1 + r2 == 0 {
                        assert(p1 + depth - r1 == depth * (2 - qq) + p) by (nonlinear_arith)
                            requires
                                p + depth - r2 == depth * qq + p1,
                                r1 + r2 == 0,
                        ;
                        vstd::arithmetic::div_mod::lemma_mod_multiples_vanish(2 - qq, p, depth);
                        assert(e % depth == p % depth);
                    } else {
                        assert(p1 + depth - r1 == depth * (1 - qq) + p) by (nonlinear_arith)
                            requires
                                p + depth - r2 == depth * qq + p1,
                                r1 + r2 == depth,
                        ;
                        vstd::arithmetic::div_mod::lemma_mod_multiples_vanish(1 - qq, p, depth);
                        assert(e % depth == p % depth);
                    }
                    vstd::arithmetic::div_mod::lemma_small_mod(p as nat, depth as nat);
                };
            }
        }
        assert(u =~= s);
    }
}

/// The effect of an accepted Roll on the data stack below the two control
/// values: the identity at depth 0 or 1 or zero rolls, a rotation otherwise.
pub open spec fn roll_data(s: Seq<isize>, depth: int, nr: int) -> Seq<isize>
    recommends
        0 <= depth <= s.len(),
{
    if depth <= 1 || nr == 0 {
        s
    } else {
        roll_seq(s, depth, nr)
    }
}

/// A sequence is a prefix of itself extended by anything.
proof fn lemma_prefix_concat<T>(a: Seq<T>, b: Seq<T>)
    ensures
        a.is_prefix_of(a + b),
{
    assert((a + b).subrange(0, a.len() as int) =~= a);
}

/// Executing any command only appends to the output.
pub proof fn lemma_execute_extends_output(cmd: Command, st: IpState, block_size: int)
    ensures
        st.output.is_prefix_of(cmd.spec_execute(st, block_size).output),
{
    let out = cmd.spec_execute(st, block_size).output;
    match cmd {
        Command::OutNumber => {
            if st.stack.len() > 0 {
                let x = st.stack[st.stack.len() - 1];
                assert(st.output + dec_bytes(x as int) + seq![10u8] =~= st.output + (dec_bytes(
                    x as int,
                ) + seq![10u8]));
                lemma_prefix_concat(st.output, dec_bytes(x as int) + seq![10u8]);
            }
        },
        Command::OutChar => {
            if st.stack.len() > 0 {
                let x = st.stack[st.stack.len() - 1] as int;
                if 0 <= x <= 0x10ffff && !(0xd800 <= x <= 0xdfff) {
                    lemma_prefix_concat(st.output, encode_scalar(x as u32));
                }
            }
        },
        _ => {
            assert(out == st.output);
            assert(st.output.subrange(0, st.output.len() as int) =~= st.output);
        },
    }
}

/// Executing any command only consumes input: what remains afterwards is a
/// suffix of what was there, and a reached end of input stays reached.
pub proof fn lemma_execute_consumes_input(cmd: Command, st: IpState, block_size: int)
    ensures
        cmd.spec_execute(st, block_size).input.is_suffix_of(st.input),
        st.input_eof ==> cmd.spec_execute(st, block_size).input_eof,
{
    let inp = cmd.spec_execute(st, block_size).input;
    match cmd {
        Command::InNumber => {
            crate::stdin::lemma_read_word_rest_suffix(st.input, st.input_eof);
        },
        Command::InChar => {
            crate::stdin::lemma_read_char_rest_suffix(st.input, st.input_eof);
        },
        _ => {
            assert(inp == st.input);
            assert(st.input.subrange(
                st.input.len() - st.input.len(),
                st.input.len() as int,
            ) =~= st.input);
        },
    }
}

} // verus!
