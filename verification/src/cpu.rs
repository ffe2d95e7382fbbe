//! The execution engine: direction pointer, codel chooser, opcode decoding
//! and the stack machine driven by color transitions between blocks.

use vstd::prelude::*;

verus! {

use crate::blocks::Block;
use crate::blocks::Blocks;
use crate::blocks::Coord;
use crate::blocks::Hue;
use crate::blocks::Lightness;
use crate::blocks::Type;
use crate::conn::lemma_coords_len_le_area;
use crate::machine::MachineV;
use crate::machine::attempt_spec;
use crate::machine::axis_val;
use crate::machine::cc_pref;
use crate::machine::chosen_of;
use crate::machine::exec_op_spec;
use crate::machine::far_pref;
use crate::machine::is_chosen;
use crate::machine::lemma_chosen_unique;
use crate::machine::moved;
use crate::machine::on_far_edge;
use crate::machine::perp_val;
use crate::machine::retry_spec;
use crate::machine::retry_update;
use crate::machine::rolled;
use crate::numfmt::parse_i32;
use vstd::string::StringExecFns;

/// A direction of the pointer, or a side for the codel chooser (which only
/// ever takes `Left` or `Right`). Rotating by +1 turns clockwise.
#[derive(Clone, Copy, Debug, PartialEq, Eq, Structural)]
pub enum Direction {
    Right,
    Down,
    Left,
    Up,
}

/// The clockwise position of a direction: Right, Down, Left, Up in order.
pub open spec fn dir_index(d: Direction) -> int {
    match d {
        Direction::Right => 0,
        Direction::Down => 1,
        Direction::Left => 2,
        Direction::Up => 3,
    }
}

/// The direction at a clockwise position in `0..4`.
pub open spec fn dir_from_index(i: int) -> Direction {
    if i == 0 {
        Direction::Right
    } else if i == 1 {
        Direction::Down
    } else if i == 2 {
        Direction::Left
    } else {
        Direction::Up
    }
}

/// `d` rotated clockwise `times` quarter turns; a negative count rotates
/// counter-clockwise.
pub open spec fn rotated(d: Direction, times: int) -> Direction {
    dir_from_index((dir_index(d) + times) % 4)
}

/// The codel chooser's other side; toggling an odd number of times flips
/// it, an even number leaves it.
pub open spec fn toggled(c: Direction, times: int) -> Direction {
    if times % 2 == 0 {
        c
    } else if c == Direction::Left {
        Direction::Right
    } else {
        Direction::Left
    }
}

/// Rotates the direction pointer clockwise by `times` quarter turns
/// (negative counts rotate the other way).
pub fn rotate_direction(d: Direction, times: i32) -> (r: Direction)
    ensures
        r == rotated(d, times as int),
{
    let idx: i32 = match d {
        Direction::Right => 0,
        Direction::Down => 1,
        Direction::Left => 2,
        Direction::Up => 3,
    };
    let m: i32 = times.checked_rem_euclid(4).unwrap();
    let k: i32 = (idx + m) % 4;
    proof {
        assert(m == times as int % 4);
        vstd::arithmetic::div_mod::lemma_add_mod_noop_right(idx as int, times as int, 4);
        assert((idx + times as int % 4) % 4 == (idx + times as int) % 4);
    }
    if k == 0 {
        Direction::Right
    } else if k == 1 {
        Direction::Down
    } else if k == 2 {
        Direction::Left
    } else {
        Direction::Up
    }
}

/// Toggles the codel chooser `times` times: odd flips the side, even keeps
/// it, whatever the sign of `times`.
pub fn switch_codel(c: Direction, times: i32) -> (r: Direction)
    ensures
        r == toggled(c, times as int),
{
    let m: i32 = times.checked_rem_euclid(2).unwrap();
    proof {
        assert(m == times as int % 2);
    }
    if m == 0 {
        c
    } else if c == Direction::Left {
        Direction::Right
    } else {
        Direction::Left
    }
}

/// The operation selected by one color transition.
#[derive(Clone, Copy, Debug, PartialEq, Eq, Structural)]
pub enum OpCode {
    NOP,
    PUSH,
    POP,
    ADD,
    SUB,
    MUL,
    DIV,
    MOD,
    NOT,
    GT,
    PTR,
    SWTCH,
    DUP,
    ROLL,
    INPN,
    INPC,
    OUTN,
    OUTC,
}

/// A recoverable execution-time error: it aborts only the current opcode's
/// effect and is recorded as the step's last error.
#[derive(Clone, Copy, Debug, PartialEq, Eq, Structural)]
pub enum ExecError {
    StackUnderflow,
    DivideByZero,
    InputParseError,
    InvalidRoll,
}

/// The cyclic position of a hue.
pub open spec fn hue_index(h: Hue) -> int {
    match h {
        Hue::Red => 0,
        Hue::Yellow => 1,
        Hue::Green => 2,
        Hue::Cyan => 3,
        Hue::Blue => 4,
        Hue::Magenta => 5,
    }
}

/// The cyclic position of a lightness level.
pub open spec fn light_index(l: Lightness) -> int {
    match l {
        Lightness::Light => 0,
        Lightness::Normal => 1,
        Lightness::Dark => 2,
    }
}

/// The cyclic hue change of a transition, in `0..6`.
pub open spec fn hue_delta(h0: Hue, h1: Hue) -> int {
    (hue_index(h1) - hue_index(h0) + 6) % 6
}

/// The cyclic lightness change of a transition, in `0..3`.
pub open spec fn light_delta(l0: Lightness, l1: Lightness) -> int {
    (light_index(l1) - light_index(l0) + 3) % 3
}

/// The fixed opcode table, indexed by hue change and lightness change.
pub open spec fn opcode_of(hd: int, ld: int) -> OpCode {
    if hd == 0 {
        if ld == 0 { OpCode::NOP } else if ld == 1 { OpCode::PUSH } else { OpCode::POP }
    } else if hd == 1 {
        if ld == 0 { OpCode::ADD } else if ld == 1 { OpCode::SUB } else { OpCode::MUL }
    } else if hd == 2 {
        if ld == 0 { OpCode::DIV } else if ld == 1 { OpCode::MOD } else { OpCode::NOT }
    } else if hd == 3 {
        if ld == 0 { OpCode::GT } else if ld == 1 { OpCode::PTR } else { OpCode::SWTCH }
    } else if hd == 4 {
        if ld == 0 { OpCode::DUP } else if ld == 1 { OpCode::ROLL } else { OpCode::INPN }
    } else {
        if ld == 0 { OpCode::INPC } else if ld == 1 { OpCode::OUTN } else { OpCode::OUTC }
    }
}

impl OpCode {
    /// Decodes the opcode selected by moving from the first color to the
    /// second.
    pub fn typeof_exec(light0: Lightness, hue0: Hue, light1: Lightness, hue1: Hue) -> (r: OpCode)
        ensures
            r == opcode_of(hue_delta(hue0, hue1), light_delta(light0, light1)),
    {
        let h0: i32 = match hue0 {
            Hue::Red => 0,
            Hue::Yellow => 1,
            Hue::Green => 2,
            Hue::Cyan => 3,
            Hue::Blue => 4,
            Hue::Magenta => 5,
        };
        let h1: i32 = match hue1 {
            Hue::Red => 0,
            Hue::Yellow => 1,
            Hue::Green => 2,
            Hue::Cyan => 3,
            Hue::Blue => 4,
            Hue::Magenta => 5,
        };
        let l0: i32 = match light0 {
            Lightness::Light => 0,
            Lightness::Normal => 1,
            Lightness::Dark => 2,
        };
        let l1: i32 = match light1 {
            Lightness::Light => 0,
            Lightness::Normal => 1,
            Lightness::Dark => 2,
        };
        let hd: i32 = (h1 - h0 + 6) % 6;
        let ld: i32 = (l1 - l0 + 3) % 3;
        if hd == 0 {
            if ld == 0 { OpCode::NOP } else if ld == 1 { OpCode::PUSH } else { OpCode::POP }
        } else if hd == 1 {
            if ld == 0 { OpCode::ADD } else if ld == 1 { OpCode::SUB } else { OpCode::MUL }
        } else if hd == 2 {
            if ld == 0 { OpCode::DIV } else if ld == 1 { OpCode::MOD } else { OpCode::NOT }
        } else if hd == 3 {
            if ld == 0 { OpCode::GT } else if ld == 1 { OpCode::PTR } else { OpCode::SWTCH }
        } else if hd == 4 {
            if ld == 0 { OpCode::DUP } else if ld == 1 { OpCode::ROLL } else { OpCode::INPN }
        } else {
            if ld == 0 { OpCode::INPC } else if ld == 1 { OpCode::OUTN } else { OpCode::OUTC }
        }
    }
}

/// Opcode totality: every pair of chromatic colors yields deltas inside the
/// fixed 6-by-3 table, so all 18 transition classes decode to an opcode.
pub proof fn lemma_opcode_totality(l0: Lightness, h0: Hue, l1: Lightness, h1: Hue)
    ensures
        0 <= hue_delta(h0, h1) < 6,
        0 <= light_delta(l0, l1) < 3,
{
}

/// The machine: the segmented program, the mutable execution state, and the
/// scripted input the INPN and INPC operations read from.
pub struct CPU {
    pub code: Blocks,
    pub stack: Vec<i32>,
    pub dp: Direction,
    pub cc: Direction,
    pub pc: Coord,
    pub error: Option<ExecError>,
    pub output: Option<String>,
    pub last_cmd: Option<OpCode>,
    pub input: Vec<Vec<u8>>,
    pub input_pos: usize,
}

impl CPU {
    /// The specification-level view of the mutable machine state.
    pub open spec fn machine(self) -> MachineV {
        MachineV {
            stack: self.stack@,
            dp: self.dp,
            cc: self.cc,
            pc: self.pc,
            error: self.error,
            output: match self.output {
                Some(s) => Some(s@),
                None => None,
            },
            last_cmd: self.last_cmd,
            input: self.input.deep_view(),
            input_pos: self.input_pos as int,
        }
    }

    /// The machine's invariant: the program is a well-formed segmentation,
    /// the program counter is a sampled coordinate (so it always resolves
    /// to a block), and the input position is inside the script.
    pub open spec fn wf(self) -> bool {
        &&& self.code.wf()
        &&& self.code.grid_has(self.pc)
        &&& self.input_pos <= self.input@.len()
    }

    /// Builds the machine over a segmented program and a scripted input:
    /// pointer Right, chooser Left, program counter at the origin, empty
    /// stack, no error, output or last command yet.
    pub fn from_config(code: Blocks, input: Vec<Vec<u8>>) -> (r: CPU)
        requires
            code.wf(),
            code.grid_has((0i32, 0i32)),
        ensures
            r.code == code,
            r.machine() == (MachineV {
                stack: Seq::<i32>::empty(),
                dp: Direction::Right,
                cc: Direction::Left,
                pc: (0i32, 0i32),
                error: None,
                output: None,
                last_cmd: None,
                input: input.deep_view(),
                input_pos: 0,
            }),
            r.wf(),
    {
        let r = CPU {
            code,
            stack: Vec::new(),
            dp: Direction::Right,
            cc: Direction::Left,
            pc: (0, 0),
            error: None,
            output: None,
            last_cmd: None,
            input,
            input_pos: 0,
        };
        proof {
            assert(r.machine() =~~= MachineV {
                stack: Seq::<i32>::empty(),
                dp: Direction::Right,
                cc: Direction::Left,
                pc: (0i32, 0i32),
                error: None,
                output: None,
                last_cmd: None,
                input: r.input.deep_view(),
                input_pos: 0,
            });
        }
        r
    }

    /// Applies one opcode's stack semantics to the machine state. The
    /// program, counter position and block structure are untouched; the
    /// effect on stack, pointer, chooser, error, output, last command and
    /// input position is exactly `exec_op_spec`.
    #[verifier::rlimit(100)]
    fn execute(&mut self, count: i32, op: OpCode)
        requires
            old(self).input_pos <= old(self).input@.len(),
        ensures
            final(self).machine() == exec_op_spec(old(self).machine(), op, count),
            final(self).code == old(self).code,
            final(self).input_pos <= final(self).input@.len(),
    {
        self.last_cmd = Some(op);
        let l = self.stack.len();
        match op {
            OpCode::NOP => {
                proof {
                    assert(self.machine() =~~= exec_op_spec(old(self).machine(), op, count));
                }
            },
            OpCode::PUSH => {
                self.stack.push(count);
                proof {
                    assert(self.machine() =~~= exec_op_spec(old(self).machine(), op, count));
                }
            },
            OpCode::POP => {
                if l < 1 {
                    self.error = Some(ExecError::StackUnderflow);
                } else {
                    let _ = self.stack.pop();
                }
                proof {
                    assert(self.machine() =~~= exec_op_spec(old(self).machine(), op, count));
                }
            },
            OpCode::ADD => {
                if l < 2 {
                    self.error = Some(ExecError::StackUnderflow);
                } else {
                    let v1 = self.stack.pop().unwrap();
                    let v2 = self.stack.pop().unwrap();
                    self.stack.push(v1.wrapping_add(v2));
                }
                proof {
                    assert(self.machine() =~~= exec_op_spec(old(self).machine(), op, count));
                }
            },
            OpCode::SUB => {
                if l < 2 {
                    self.error = Some(ExecError::StackUnderflow);
                } else {
                    let v1 = self.stack.pop().unwrap();
                    let v2 = self.stack.pop().unwrap();
                    self.stack.push(v2.wrapping_sub(v1));
                }
                proof {
                    assert(self.machine() =~~= exec_op_spec(old(self).machine(), op, count));
                }
            },
            OpCode::MUL => {
                if l < 2 {
                    self.error = Some(ExecError::StackUnderflow);
                } else {
                    let v1 = self.stack.pop().unwrap();
                    let v2 = self.stack.pop().unwrap();
                    self.stack.push(v1.wrapping_mul(v2));
                }
                proof {
                    assert(self.machine() =~~= exec_op_spec(old(self).machine(), op, count));
                }
            },
            OpCode::DIV => {
                if l < 2 {
                    self.error = Some(ExecError::StackUnderflow);
                } else {
                    let v1 = self.stack.pop().unwrap();
                    let v2 = self.stack.pop().unwrap();
                    if v1 == 0 {
                        self.stack.push(v2);
                        self.stack.push(v1);
                        self.error = Some(ExecError::DivideByZero);
                        proof {
                            assert(self.stack@ =~= old(self).stack@);
                        }
                    } else {
                        match v2.checked_div(v1) {
                            Some(q) => {
                                self.stack.push(q);
                            },
                            None => {
                                // overflow of the most negative value by -1
                                self.stack.push(i32::MIN);
                            },
                        }
                    }
                }
                proof {
                    assert(self.machine() =~~= exec_op_spec(old(self).machine(), op, count));
                }
            },
            OpCode::MOD => {
                if l < 2 {
                    self.error = Some(ExecError::StackUnderflow);
                } else {
                    let v1 = self.stack.pop().unwrap();
                    let v2 = self.stack.pop().unwrap();
                    if v1 == 0 {
                        self.stack.push(v2);
                        self.stack.push(v1);
                        self.error = Some(ExecError::DivideByZero);
                        proof {
                            assert(self.stack@ =~= old(self).stack@);
                        }
                    } else {
                        match v2.checked_rem(v1) {
                            Some(q) => {
                                self.stack.push(q);
                            },
                            None => {
                                // remainder of the most negative value by -1
                                self.stack.push(0);
                            },
                        }
                    }
                }
                proof {
                    assert(self.machine() =~~= exec_op_spec(old(self).machine(), op, count));
                }
            },
            OpCode::NOT => {
                if l < 1 {
                    self.error = Some(ExecError::StackUnderflow);
                } else {
                    let v = self.stack.pop().unwrap();
                    self.stack.push(if v == 0 { 1 } else { 0 });
                }
                proof {
                    assert(self.machine() =~~= exec_op_spec(old(self).machine(), op, count));
                }
            },
            OpCode::GT => {
                if l < 2 {
                    self.error = Some(ExecError::StackUnderflow);
                } else {
                    let v1 = self.stack.pop().unwrap();
                    let v2 = self.stack.pop().unwrap();
                    self.stack.push(if v2 > v1 { 1 } else { 0 });
                }
                proof {
                    assert(self.machine() =~~= exec_op_spec(old(self).machine(), op, count));
                }
            },
            OpCode::PTR => {
                if l < 1 {
                    self.error = Some(ExecError::StackUnderflow);
                } else {
                    let v = self.stack.pop().unwrap();
                    self.dp = rotate_direction(self.dp, v);
                }
                proof {
                    assert(self.machine() =~~= exec_op_spec(old(self).machine(), op, count));
                }
            },
            OpCode::SWTCH => {
                if l < 1 {
                    self.error = Some(ExecError::StackUnderflow);
                } else {
                    let v = self.stack.pop().unwrap();
                    self.cc = switch_codel(self.cc, v);
                }
                proof {
                    assert(self.machine() =~~= exec_op_spec(old(self).machine(), op, count));
                }
            },
            OpCode::DUP => {
                if l < 1 {
                    self.error = Some(ExecError::StackUnderflow);
                } else {
                    let v = self.stack.pop().unwrap();
                    self.stack.push(v);
                    self.stack.push(v);
                    proof {
                        assert(self.stack@ =~= old(self).stack@.push(v));
                    }
                }
                proof {
                    assert(self.machine() =~~= exec_op_spec(old(self).machine(), op, count));
                }
            },
            OpCode::ROLL => {
                self.exec_roll();
                proof {
                    assert(self.machine() =~~= exec_op_spec(old(self).machine(), op, count));
                }
            },
            OpCode::INPN => {
                if self.input_pos < self.input.len() {
                    let parsed = parse_i32(&self.input[self.input_pos]);
                    proof {
                        assert(self.input.deep_view()[self.input_pos as int]
                            =~= self.input@[self.input_pos as int]@);
                    }
                    self.input_pos += 1;
                    match parsed {
                        Some(v) => {
                            self.stack.push(v);
                        },
                        None => {
                            self.error = Some(ExecError::InputParseError);
                        },
                    }
                } else {
                    self.error = Some(ExecError::InputParseError);
                }
                proof {
                    assert(self.machine() =~~= exec_op_spec(old(self).machine(), op, count));
                }
            },
            OpCode::INPC => {
                if self.input_pos < self.input.len() {
                    let line = &self.input[self.input_pos];
                    let first = if line.len() > 0 {
                        Some(line[0])
                    } else {
                        None
                    };
                    proof {
                        assert(self.input.deep_view()[self.input_pos as int]
                            =~= self.input@[self.input_pos as int]@);
                    }
                    self.input_pos += 1;
                    match first {
                        Some(b) => {
                            self.stack.push(b as i32);
                        },
                        None => {
                            self.error = Some(ExecError::InputParseError);
                        },
                    }
                } else {
                    self.error = Some(ExecError::InputParseError);
                }
                proof {
                    assert(self.machine() =~~= exec_op_spec(old(self).machine(), op, count));
                }
            },
            OpCode::OUTN => {
                if l < 1 {
                    self.error = Some(ExecError::StackUnderflow);
                } else {
                    let v = self.stack.pop().unwrap();
                    self.output = Some(crate::numfmt::i32_to_string(v));
                }
                proof {
                    assert(self.machine() =~~= exec_op_spec(old(self).machine(), op, count));
                }
            },
            OpCode::OUTC => {
                if l < 1 {
                    self.error = Some(ExecError::StackUnderflow);
                } else {
                    let v = self.stack.pop().unwrap();
                    let b: u8 = v as u8;
                    let mut out = String::new();
                    out.push(b as char);
                    self.output = Some(out);
                    proof {
                        assert(self.output->Some_0@ =~= seq![(v as u8) as char]);
                    }
                }
                proof {
                    assert(self.machine() =~~= exec_op_spec(old(self).machine(), op, count));
                }
            },
        }
    }

    /// Executes the transition between two blocks' color types once the
    /// move itself has succeeded: a chromatic pair decodes and runs an
    /// opcode; a white endpoint (or a non-chromatic current block) moves
    /// without one. Returns whether the move executes — false exactly when
    /// the next block is black, in which case nothing changes.
    fn execute_blk(&mut self, curr: Type, next: Type, count: i32) -> (r: bool)
        requires
            old(self).input_pos <= old(self).input@.len(),
        ensures
            r == !(next matches Type::Black),
            final(self).code == old(self).code,
            final(self).input_pos <= final(self).input@.len(),
            final(self).machine() == (match (curr, next) {
                (Type::Color(l0, h0), Type::Color(l1, h1)) => exec_op_spec(
                    old(self).machine(),
                    opcode_of(hue_delta(h0, h1), light_delta(l0, l1)),
                    count,
                ),
                _ => old(self).machine(),
            }),
    {
        match next {
            Type::Black => false,
            Type::Color(l1, h1) => {
                if let Type::Color(l0, h0) = curr {
                    let op = OpCode::typeof_exec(l0, h0, l1, h1);
                    self.execute(count, op);
                }
                true
            },
            Type::White => true,
        }
    }

    /// The ROLL operation: pops a roll count and a depth, and cyclically
    /// rotates the top `depth` values by the count toward the top. A
    /// negative count, a negative depth, or a depth larger than the
    /// remaining stack is invalid: the stack is restored and an error
    /// recorded.
    fn exec_roll(&mut self)
        ensures
            final(self).machine() == (MachineV {
                last_cmd: old(self).machine().last_cmd,
                ..exec_op_spec(old(self).machine(), OpCode::ROLL, 0)
            }),
            final(self).last_cmd == old(self).last_cmd,
            final(self).code == old(self).code,
            final(self).input_pos == old(self).input_pos,
            final(self).input == old(self).input,
    {
        let l = self.stack.len();
        if l < 2 {
            self.error = Some(ExecError::StackUnderflow);
            proof {
                assert(self.machine() =~~= MachineV {
                    last_cmd: old(self).machine().last_cmd,
                    ..exec_op_spec(old(self).machine(), OpCode::ROLL, 0)
                });
            }
            return;
        }
        let r_ = self.stack.pop().unwrap();
        let n_ = self.stack.pop().unwrap();
        if r_ < 0 || n_ < 0 || self.stack.len() < (n_ as usize) {
            self.stack.push(n_);
            self.stack.push(r_);
            self.error = Some(ExecError::InvalidRoll);
            proof {
                assert(self.stack@ =~= old(self).stack@);
                assert(self.machine() =~~= MachineV {
                    last_cmd: old(self).machine().last_cmd,
                    ..exec_op_spec(old(self).machine(), OpCode::ROLL, 0)
                });
            }
            return;
        }
        if n_ == 0 {
            proof {
                assert(self.machine() =~~= MachineV {
                    last_cmd: old(self).machine().last_cmd,
                    ..exec_op_spec(old(self).machine(), OpCode::ROLL, 0)
                });
            }
            return;
        }
        let n_us = n_ as usize;
        let k = r_ % n_;
        let k_us = k as usize;
        let start = self.stack.len() - n_us;
        let ghost rest = self.stack@;
        proof {
            assert(rest =~= old(self).stack@.take(old(self).stack@.len() - 2));
        }
        let ghost below = rest.take(rest.len() - n_us as int);
        let ghost top = rest.skip(rest.len() - n_us as int);
        let mut sub: Vec<i32> = Vec::new();
        let mut idx = start;
        #[verifier::loop_isolation(false)]
        while idx < self.stack.len()
            invariant
                start <= idx <= self.stack@.len(),
                self.stack@ == rest,
                sub@ == rest.subrange(start as int, idx as int),
                self.code == old(self).code,
                self.dp == old(self).dp,
                self.cc == old(self).cc,
                self.pc == old(self).pc,
                self.error == old(self).error,
                self.output == old(self).output,
                self.last_cmd == old(self).last_cmd,
                self.input == old(self).input,
                self.input_pos == old(self).input_pos,

            decreases self.stack@.len() - idx,
        {
            let v = self.stack[idx];
            sub.push(v);
            proof {
                assert(sub@ =~= rest.subrange(start as int, idx + 1));
            }
            idx += 1;
        }
        proof {
            assert(sub@ =~= top);
        }
        self.stack.truncate(start);
        proof {
            assert(self.stack@ =~= below);
        }
        let mut i2: usize = 0;
        #[verifier::loop_isolation(false)]
        while i2 < n_us
            invariant
                0 <= i2 <= n_us,
                sub@ == top,
                self.stack@ == below + rolled(top, k as int).take(i2 as int),
                self.code == old(self).code,
                self.dp == old(self).dp,
                self.cc == old(self).cc,
                self.pc == old(self).pc,
                self.error == old(self).error,
                self.output == old(self).output,
                self.last_cmd == old(self).last_cmd,
                self.input == old(self).input,
                self.input_pos == old(self).input_pos,

            decreases n_us - i2,
        {
            let j = if i2 < k_us {
                n_us - k_us + i2
            } else {
                i2 - k_us
            };
            proof {
                assert(rolled(top, k as int)[i2 as int] == top[j as int]);
            }
            self.stack.push(sub[j]);
            proof {
                assert(self.stack@ =~= below + rolled(top, k as int).take(i2 + 1));
            }
            i2 += 1;
        }
        proof {
            assert(rolled(top, k as int).take(n_us as int) =~= rolled(top, k as int));
            assert(k as int == (r_ as int) % (n_ as int));
            assert(self.machine() =~~= MachineV {
                last_cmd: old(self).machine().last_cmd,
                ..exec_op_spec(old(self).machine(), OpCode::ROLL, 0)
            });
        }
    }
}

impl CPU {
    /// Collects the current block's far edge: the coordinates with the
    /// extreme value along the direction pointer's axis.
    fn get_edges(&self, blk: &Block) -> (edges: Vec<Coord>)
        requires
            blk.coords@.len() >= 1,
        ensures
            forall|c: Coord| #[trigger] edges@.contains(c) <==> on_far_edge(blk.coords@, self.dp, c),
            edges@.len() >= 1,
    {
        let first = blk.coords[0];
        let mut best: i32 = match self.dp {
            Direction::Right | Direction::Left => first.0,
            Direction::Down | Direction::Up => first.1,
        };
        let mut i: usize = 1;
        #[verifier::loop_isolation(false)]
        while i < blk.coords.len()
            invariant
                1 <= i <= blk.coords@.len(),
                exists|n: int| 0 <= n < i && axis_val(self.dp, #[trigger] blk.coords@[n]) == best,
                forall|n: int| 0 <= n < i
                    ==> far_pref(self.dp, best as int, axis_val(self.dp, #[trigger] blk.coords@[n])),
            decreases blk.coords@.len() - i,
        {
            let c = blk.coords[i];
            let v: i32 = match self.dp {
                Direction::Right | Direction::Left => c.0,
                Direction::Down | Direction::Up => c.1,
            };
            let farther = match self.dp {
                Direction::Right | Direction::Down => v > best,
                Direction::Left | Direction::Up => v < best,
            };
            if farther {
                best = v;
            }
            i += 1;
        }
        let mut edges: Vec<Coord> = Vec::new();
        let mut j: usize = 0;
        #[verifier::loop_isolation(false)]
        while j < blk.coords.len()
            invariant
                0 <= j <= blk.coords@.len(),
                forall|c: Coord| #[trigger] edges@.contains(c)
                    <==> (blk.coords@.take(j as int).contains(c) && axis_val(self.dp, c) == best),
            decreases blk.coords@.len() - j,
        {
            let c = blk.coords[j];
            let v: i32 = match self.dp {
                Direction::Right | Direction::Left => c.0,
                Direction::Down | Direction::Up => c.1,
            };
            let ghost pre = edges@;
            if v == best {
                edges.push(c);
            }
            proof {
                assert(blk.coords@.take(j as int).push(blk.coords@[j as int])
                    =~= blk.coords@.take(j + 1));
                assert forall|c2: Coord| #[trigger] edges@.contains(c2)
                    implies (blk.coords@.take(j + 1).contains(c2)
                        && axis_val(self.dp, c2) == best) by {
                    if v == best && c2 == c {
                        assert(blk.coords@.take(j + 1)[j as int] == c);
                    } else {
                        assert(pre.contains(c2));
                    }
                }
                assert forall|c2: Coord|
                    blk.coords@.take(j + 1).contains(c2) && axis_val(self.dp, c2) == best
                    implies #[trigger] edges@.contains(c2) by {
                    let n = choose|n: int| 0 <= n < j + 1 && #[trigger] blk.coords@.take(j + 1)[n] == c2;
                    if n < j {
                        assert(blk.coords@.take(j as int)[n] == c2);
                        assert(pre.contains(c2));
                        if v == best {
                            assert(edges@ == pre.push(c));
                            assert(pre.len() < edges@.len());
                            let n2 = choose|n2: int| 0 <= n2 < pre.len() && #[trigger] pre[n2] == c2;
                            assert(edges@[n2] == c2);
                        }
                    } else {
                        assert(c2 == c);
                        assert(edges@[edges@.len() - 1] == c);
                    }
                }
            }
            j += 1;
        }
        proof {
            assert(blk.coords@.take(blk.coords@.len() as int) =~= blk.coords@);
            assert forall|c: Coord| #[trigger] edges@.contains(c)
                implies on_far_edge(blk.coords@, self.dp, c) by {
                assert(blk.coords@.contains(c) && axis_val(self.dp, c) == best);
            }
            assert forall|c: Coord| on_far_edge(blk.coords@, self.dp, c)
                implies #[trigger] edges@.contains(c) by {
                let n = choose|n: int|
                    0 <= n < blk.coords@.len() && axis_val(self.dp, blk.coords@[n]) == best;
                assert(blk.coords@.contains(blk.coords@[n]));
                assert(far_pref(self.dp, axis_val(self.dp, c), best as int));
                let nc = choose|nc: int| 0 <= nc < blk.coords@.len() && #[trigger] blk.coords@[nc] == c;
                assert(far_pref(self.dp, best as int, axis_val(self.dp, blk.coords@[nc])));
                assert(axis_val(self.dp, c) == best);
            }
            let n = choose|n: int|
                0 <= n < blk.coords@.len()
                    && axis_val(self.dp, #[trigger] blk.coords@[n]) == best;
            let cb = blk.coords@[n];
            assert(blk.coords@.contains(cb));
            assert(on_far_edge(blk.coords@, self.dp, cb));
            assert(edges@.contains(cb));
            let ne = choose|ne: int| 0 <= ne < edges@.len() && #[trigger] edges@[ne] == cb;
            assert(edges@.len() >= 1);
        }
        edges
    }

    /// Picks the exit coordinate from the far edge by the codel chooser's
    /// tie-break on the perpendicular axis.
    fn choose_coord(&self, edges: Vec<Coord>) -> (c: Coord)
        requires
            edges@.len() >= 1,
        ensures
            edges@.contains(c),
            forall|o: Coord| edges@.contains(o)
                ==> cc_pref(self.dp, self.cc, perp_val(self.dp, c), perp_val(self.dp, o)),
    {
        let mut bestc = edges[0];
        let mut i: usize = 1;
        proof {
            assert(edges@.contains(edges@[0]));
        }
        #[verifier::loop_isolation(false)]
        while i < edges.len()
            invariant
                1 <= i <= edges@.len(),
                edges@.contains(bestc),
                forall|n: int| 0 <= n < i
                    ==> cc_pref(
                        self.dp,
                        self.cc,
                        perp_val(self.dp, bestc),
                        perp_val(self.dp, #[trigger] edges@[n]),
                    ),
            decreases edges@.len() - i,
        {
            let c = edges[i];
            let pv: i32 = match self.dp {
                Direction::Right | Direction::Left => c.1,
                Direction::Down | Direction::Up => c.0,
            };
            let pb: i32 = match self.dp {
                Direction::Right | Direction::Left => bestc.1,
                Direction::Down | Direction::Up => bestc.0,
            };
            let better = match self.dp {
                Direction::Up | Direction::Right => if self.cc == Direction::Left {
                    pv < pb
                } else {
                    pv > pb
                },
                Direction::Down | Direction::Left => if self.cc == Direction::Left {
                    pv > pb
                } else {
                    pv < pb
                },
            };
            if better {
                bestc = c;
                proof {
                    assert(edges@.contains(edges@[i as int]));
                }
            }
            i += 1;
        }
        proof {
            assert forall|o: Coord| edges@.contains(o)
                implies cc_pref(self.dp, self.cc, perp_val(self.dp, bestc), perp_val(self.dp, o)) by {
                let n = choose|n: int| 0 <= n < edges@.len() && #[trigger] edges@[n] == o;
                assert(cc_pref(self.dp, self.cc, perp_val(self.dp, bestc),
                    perp_val(self.dp, edges@[n])));
            }
        }
        bestc
    }

    /// One attempt to move between blocks; `false` is a failed attempt that
    /// leaves the machine state untouched, exactly as `attempt_spec` says.
    #[verifier::rlimit(100)]
    #[verifier::spinoff_prover]
    fn step(&mut self) -> (r: bool)
        requires
            old(self).wf(),
        ensures
            final(self).wf(),
            final(self).code == old(self).code,
            match attempt_spec(old(self).code, old(self).machine()) {
                Some(m2) => r == true && final(self).machine() == m2,
                None => r == false && final(self).machine() == old(self).machine(),
            },
    {
        proof {
            assert(self.code.grid_has(self.pc));
        }
        let blk = match self.code.find_block_from_index(&self.pc) {
            Some(b) => b,
            None => {
                proof {
                    assert(false);
                }
                return false;
            },
        };
        let ghost blkg = *blk;
        let ghost bi = self.code.idx_of(self.pc);
        let ghost d = self.dp;
        let ghost cc = self.cc;
        let blk_t = blk.t;
        let count_us = blk.coords.len();
        proof {
            assert(self.code.block_ok(bi));
            assert forall|n: int| 0 <= n < blkg.coords@.len()
                implies 0 <= (#[trigger] blkg.coords@[n]).0 < self.code.width as int
                    && 0 <= blkg.coords@[n].1 < self.code.height as int by {
                assert(blkg.coords@.contains(blkg.coords@[n]));
                assert(blkg.has(blkg.coords@[n]));
                assert(self.code.grid_has(blkg.coords@[n]));
            }
            lemma_coords_len_le_area(
                blkg.coords@,
                self.code.width as int,
                self.code.height as int,
            );
        }
        let edges = self.get_edges(blk);
        let ghost edg = edges@;
        let ch = self.choose_coord(edges);
        proof {
            // the picked coordinate satisfies the choice rule
            assert(edg.contains(ch));
            assert(on_far_edge(blkg.coords@, d, ch));
            assert forall|o: Coord|
                blkg.coords@.contains(o) && axis_val(d, o) == axis_val(d, ch)
                implies cc_pref(d, cc, perp_val(d, ch), perp_val(d, o)) by {
                assert(far_pref(d, axis_val(d, ch), axis_val(d, o)));
                assert forall|o2: Coord| blkg.coords@.contains(o2)
                    implies far_pref(d, axis_val(d, o), axis_val(d, o2)) by {
                    assert(far_pref(d, axis_val(d, ch), axis_val(d, o2)));
                }
                assert(on_far_edge(blkg.coords@, d, o));
                assert(edg.contains(o));
            }
            assert(is_chosen(blkg.coords@, d, cc, ch));
            let chs = chosen_of(blkg.coords@, d, cc);
            assert(is_chosen(blkg.coords@, d, cc, chs));
            lemma_chosen_unique(blkg.coords@, d, cc, ch, chs);
            // grid bounds of the picked coordinate
            assert(blkg.has(ch));
            assert(self.code.grid_has(ch));
        }
        let cs = self.code.codel_size;
        let new_coord: Coord = match self.dp {
            Direction::Right => (ch.0 + cs, ch.1),
            Direction::Down => (ch.0, ch.1 + cs),
            Direction::Left => (ch.0 - cs, ch.1),
            Direction::Up => (ch.0, ch.1 - cs),
        };
        proof {
            assert(new_coord == moved(ch, d, cs as int));
        }
        let nb_t = match self.code.find_block_from_index(&new_coord) {
            Some(nb) => {
                proof {
                    assert(self.code.block_ok(self.code.idx_of(new_coord)));
                }
                nb.t
            },
            None => {
                proof {
                    assert(attempt_spec(self.code, self.machine()) is None);
                }
                return false;
            },
        };
        if let Type::Black = nb_t {
            proof {
                assert(attempt_spec(self.code, self.machine()) is None);
            }
            return false;
        }
        if new_coord.0 == self.pc.0 && new_coord.1 == self.pc.1 {
            proof {
                assert(new_coord == self.pc);
                assert(attempt_spec(self.code, self.machine()) is None);
            }
            return false;
        }
        proof {
            assert(new_coord != self.pc);
        }
        self.error = None;
        self.output = None;
        self.last_cmd = None;
        self.pc = new_coord;
        proof {
            assert(self.machine() =~~= MachineV {
                pc: new_coord,
                error: None,
                output: None,
                last_cmd: None,
                ..old(self).machine()
            });
            assert(self.code.grid_has(self.pc));
        }
        let executed = self.execute_blk(blk_t, nb_t, count_us as i32);
        proof {
            assert(executed);
            assert(attempt_spec(old(self).code, old(self).machine()) == Some(self.machine()));
        }
        true
    }

    /// Attempts to advance the program by one executed transition under the
    /// 8-attempt retry rule: each failed attempt toggles the chooser and
    /// every second failure also rotates the pointer clockwise; any success
    /// stops the round and reports that execution can continue; eight
    /// consecutive failures terminate the program. The whole round is the
    /// mathematical function `retry_spec` of the prior state, so equal
    /// states always step equally.
    pub fn try_step(&mut self) -> (r: bool)
        requires
            old(self).wf(),
        ensures
            final(self).wf(),
            final(self).code == old(self).code,
            final(self).machine() == retry_spec(old(self).code, old(self).machine(), 0).0,
            r == retry_spec(old(self).code, old(self).machine(), 0).1,
    {
        let ghost code0 = self.code;
        let ghost m0 = self.machine();
        let mut i: usize = 0;
        #[verifier::loop_isolation(false)]
        while i < 8
            invariant
                0 <= i <= 8,
                self.wf(),
                self.code == code0,
                retry_spec(code0, m0, 0) == retry_spec(code0, self.machine(), i as int),
            decreases 8 - i,
        {
            let ghost mp = self.machine();
            let stepped = self.step();
            if stepped {
                proof {
                    assert(retry_spec(code0, mp, i as int) == (self.machine(), true));
                }
                return true;
            }
            self.cc = switch_codel(self.cc, 1);
            if i % 2 == 1 {
                self.dp = rotate_direction(self.dp, 1);
            }
            proof {
                assert(self.machine() =~~= retry_update(mp, i as int));
                assert(retry_spec(code0, mp, i as int)
                    == retry_spec(code0, retry_update(mp, i as int), i + 1));
            }
            i += 1;
        }
        proof {
            assert(retry_spec(code0, self.machine(), 8) == (self.machine(), false));
        }
        false
    }

    /// The diagnostic summary text: block count, codel size, and the total
    /// number of sampled codels.
    pub open spec fn info_text(self) -> Seq<char> {
        "Total number of blocks: "@ + crate::numfmt::dec_str_of(self.code.blocks@.len() as int)
            + "\nCodel size: "@ + crate::numfmt::dec_str_of(self.code.codel_size as int)
            + "\n# of codels: "@ + crate::numfmt::dec_str_of(self.code.codel_count())
            + "\n"@
    }

    /// Renders the diagnostic summary. Reads the machine without changing
    /// it.
    pub fn get_info(&self) -> (r: String)
        requires
            self.code.dims_ok(),
        ensures
            r@ == self.info_text(),
    {
        let mut out = String::new();
        out.append("Total number of blocks: ");
        crate::numfmt::push_digits(&mut out, self.code.blocks.len() as u64);
        out.append("\nCodel size: ");
        crate::numfmt::push_digits(&mut out, self.code.codel_size as u64);
        out.append("\n# of codels: ");
        crate::numfmt::push_digits(&mut out, self.code.count_codels() as u64);
        out.append("\n");
        proof {
            assert(out@ =~= self.info_text());
        }
        out
    }
}

} // verus!
