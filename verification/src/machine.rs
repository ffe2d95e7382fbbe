//! The mathematical model of the execution engine.
//!
//! `MachineV` is the specification-level state of the machine: the stack as
//! a sequence, the direction pointer and codel chooser, the program counter,
//! the last error and output, and the scripted input with a read position.
//! The functions here define one attempt, one opcode's stack semantics, and
//! the 8-attempt retry round as mathematical functions of that state, so
//! the engine's contracts pin every step down completely: the same state
//! always steps to the same state.

use vstd::prelude::*;

verus! {

use crate::blocks::Blocks;
use crate::blocks::Coord;
use crate::blocks::Type;
use crate::cpu::Direction;
use crate::cpu::ExecError;
use crate::cpu::OpCode;
use crate::cpu::hue_delta;
use crate::cpu::light_delta;
use crate::cpu::opcode_of;
use crate::cpu::dir_index;
use crate::cpu::rotated;
use crate::cpu::toggled;
use crate::numfmt::dec_str_of;
use crate::numfmt::parse_i32_spec;

/// The specification-level machine state.
#[verifier::ext_equal]
pub struct MachineV {
    pub stack: Seq<i32>,
    pub dp: Direction,
    pub cc: Direction,
    pub pc: Coord,
    pub error: Option<ExecError>,
    pub output: Option<Seq<char>>,
    pub last_cmd: Option<OpCode>,
    pub input: Seq<Seq<u8>>,
    pub input_pos: int,
}

/// The top `r` entries moved below the remaining `len - r`: one clockwise
/// roll of the whole sequence by `r` places toward the front.
pub open spec fn rolled(s: Seq<i32>, r: int) -> Seq<i32> {
    s.skip(s.len() - r) + s.take(s.len() - r)
}

/// Roll round trip: rolling by `r` and then by the remaining `len - r`
/// preserves the length and restores the original order — rolling by `r`
/// and by `-r` (taken modulo the depth) cancel.
pub proof fn lemma_roll_self_inverse(s: Seq<i32>, r: int)
    requires
        0 <= r <= s.len(),
    ensures
        rolled(s, r).len() == s.len(),
        rolled(rolled(s, r), s.len() - r) == s,
{
    let t = rolled(s, r);
    assert(rolled(t, s.len() - r) =~= s);
}

/// `m` with this opcode recorded and a recoverable error set; the rest of
/// the state is untouched.
pub open spec fn op_failed(m: MachineV, e: ExecError) -> MachineV {
    MachineV { error: Some(e), ..m }
}

/// The stack semantics of one opcode, executed from a state whose error and
/// output have been cleared for the step. `count` is the current block's
/// codel count, which PUSH pushes. An opcode that needs more values than
/// the stack holds fails atomically with `StackUnderflow`; DIV and MOD of
/// zero fail with `DivideByZero` and restore both operands; ROLL with a
/// negative roll count or an invalid depth fails with `InvalidRoll`; INPN
/// and INPC fail with `InputParseError` on unparseable or missing input.
/// Arithmetic wraps around the stack cell range.
pub open spec fn exec_op_spec(m0: MachineV, op: OpCode, count: i32) -> MachineV {
    let m = MachineV { last_cmd: Some(op), ..m0 };
    let s = m0.stack;
    let l = s.len() as int;
    match op {
        OpCode::NOP => m,
        OpCode::PUSH => MachineV { stack: s.push(count), ..m },
        OpCode::POP => if l < 1 {
            op_failed(m, ExecError::StackUnderflow)
        } else {
            MachineV { stack: s.take(l - 1), ..m }
        },
        OpCode::ADD => if l < 2 {
            op_failed(m, ExecError::StackUnderflow)
        } else {
            MachineV {
                stack: s.take(l - 2).push(
                    vstd::wrapping::i32_specs::wrapping_add(s[l - 1], s[l - 2]),
                ),
                ..m
            }
        },
        OpCode::SUB => if l < 2 {
            op_failed(m, ExecError::StackUnderflow)
        } else {
            MachineV {
                stack: s.take(l - 2).push(
                    vstd::wrapping::i32_specs::wrapping_sub(s[l - 2], s[l - 1]),
                ),
                ..m
            }
        },
        OpCode::MUL => if l < 2 {
            op_failed(m, ExecError::StackUnderflow)
        } else {
            MachineV {
                stack: s.take(l - 2).push(
                    vstd::wrapping::i32_specs::wrapping_mul(s[l - 1], s[l - 2]),
                ),
                ..m
            }
        },
        OpCode::DIV => if l < 2 {
            op_failed(m, ExecError::StackUnderflow)
        } else if s[l - 1] == 0 {
            op_failed(m, ExecError::DivideByZero)
        } else {
            // truncating division; the one overflowing quotient wraps
            match s[l - 2].checked_div(s[l - 1]) {
                Some(q) => MachineV { stack: s.take(l - 2).push(q), ..m },
                None => MachineV { stack: s.take(l - 2).push(i32::MIN), ..m },
            }
        },
        OpCode::MOD => if l < 2 {
            op_failed(m, ExecError::StackUnderflow)
        } else if s[l - 1] == 0 {
            op_failed(m, ExecError::DivideByZero)
        } else {
            // remainder with the dividend's sign; the overflowing case is 0
            match s[l - 2].checked_rem(s[l - 1]) {
                Some(q) => MachineV { stack: s.take(l - 2).push(q), ..m },
                None => MachineV { stack: s.take(l - 2).push(0), ..m },
            }
        },
        OpCode::NOT => if l < 1 {
            op_failed(m, ExecError::StackUnderflow)
        } else {
            MachineV {
                stack: s.take(l - 1).push(if s[l - 1] == 0 { 1 } else { 0 }),
                ..m
            }
        },
        OpCode::GT => if l < 2 {
            op_failed(m, ExecError::StackUnderflow)
        } else {
            MachineV {
                stack: s.take(l - 2).push(if s[l - 2] > s[l - 1] { 1 } else { 0 }),
                ..m
            }
        },
        OpCode::PTR => if l < 1 {
            op_failed(m, ExecError::StackUnderflow)
        } else {
            MachineV { stack: s.take(l - 1), dp: rotated(m0.dp, s[l - 1] as int), ..m }
        },
        OpCode::SWTCH => if l < 1 {
            op_failed(m, ExecError::StackUnderflow)
        } else {
            MachineV { stack: s.take(l - 1), cc: toggled(m0.cc, s[l - 1] as int), ..m }
        },
        OpCode::DUP => if l < 1 {
            op_failed(m, ExecError::StackUnderflow)
        } else {
            MachineV { stack: s.push(s[l - 1]), ..m }
        },
        OpCode::ROLL => if l < 2 {
            op_failed(m, ExecError::StackUnderflow)
        } else {
            let r = s[l - 1] as int;
            let n = s[l - 2] as int;
            let rest = s.take(l - 2);
            if r < 0 || n < 0 || rest.len() < n {
                op_failed(m, ExecError::InvalidRoll)
            } else if n == 0 {
                MachineV { stack: rest, ..m }
            } else {
                let below = rest.take(rest.len() - n);
                let top = rest.skip(rest.len() - n);
                MachineV { stack: below + rolled(top, r % n), ..m }
            }
        },
        OpCode::INPN => if m0.input_pos < m0.input.len() {
            let line = m0.input[m0.input_pos];
            match parse_i32_spec(line) {
                Some(v) => MachineV { stack: s.push(v), input_pos: m0.input_pos + 1, ..m },
                None => MachineV {
                    error: Some(ExecError::InputParseError),
                    input_pos: m0.input_pos + 1,
                    ..m
                },
            }
        } else {
            op_failed(m, ExecError::InputParseError)
        },
        OpCode::INPC => if m0.input_pos < m0.input.len() {
            let line = m0.input[m0.input_pos];
            if line.len() > 0 {
                MachineV {
                    stack: s.push(line[0] as i32),
                    input_pos: m0.input_pos + 1,
                    ..m
                }
            } else {
                MachineV {
                    error: Some(ExecError::InputParseError),
                    input_pos: m0.input_pos + 1,
                    ..m
                }
            }
        } else {
            op_failed(m, ExecError::InputParseError)
        },
        OpCode::OUTN => if l < 1 {
            op_failed(m, ExecError::StackUnderflow)
        } else {
            MachineV {
                stack: s.take(l - 1),
                output: Some(dec_str_of(s[l - 1] as int)),
                ..m
            }
        },
        OpCode::OUTC => if l < 1 {
            op_failed(m, ExecError::StackUnderflow)
        } else {
            MachineV {
                stack: s.take(l - 1),
                output: Some(seq![(s[l - 1] as u8) as char]),
                ..m
            }
        },
    }
}

/// The coordinate value along the direction pointer's axis.
pub open spec fn axis_val(d: Direction, c: Coord) -> int {
    match d {
        Direction::Right | Direction::Left => c.0 as int,
        Direction::Down | Direction::Up => c.1 as int,
    }
}

/// Whether axis value `a` is at least as far along `d` as `b`.
pub open spec fn far_pref(d: Direction, a: int, b: int) -> bool {
    match d {
        Direction::Right | Direction::Down => a >= b,
        Direction::Left | Direction::Up => a <= b,
    }
}

/// The coordinate value on the axis perpendicular to the direction pointer.
pub open spec fn perp_val(d: Direction, c: Coord) -> int {
    match d {
        Direction::Right | Direction::Left => c.1 as int,
        Direction::Down | Direction::Up => c.0 as int,
    }
}

/// The codel chooser's tie-break: whether perpendicular value `a` is
/// preferred over (or ties) `b`, for the given pointer direction and
/// chooser side.
pub open spec fn cc_pref(d: Direction, cc: Direction, a: int, b: int) -> bool {
    match d {
        Direction::Up | Direction::Right => if cc == Direction::Left {
            a <= b
        } else {
            a >= b
        },
        Direction::Down | Direction::Left => if cc == Direction::Left {
            a >= b
        } else {
            a <= b
        },
    }
}

/// `c` lies on the block's far edge: it is a member with the extreme
/// coordinate along the pointer's axis.
pub open spec fn on_far_edge(s: Seq<Coord>, d: Direction, c: Coord) -> bool {
    s.contains(c) && forall|o: Coord| s.contains(o) ==> far_pref(d, axis_val(d, c), axis_val(d, o))
}

/// `c` is the coordinate the machine exits from: on the far edge, and
/// preferred by the chooser among all far-edge coordinates.
pub open spec fn is_chosen(s: Seq<Coord>, d: Direction, cc: Direction, c: Coord) -> bool {
    on_far_edge(s, d, c) && forall|o: Coord|
        s.contains(o) && axis_val(d, o) == axis_val(d, c)
        ==> cc_pref(d, cc, perp_val(d, c), perp_val(d, o))
}

/// The exit coordinate of a block (well defined whenever one exists, and
/// unique by `lemma_chosen_unique`).
pub open spec fn chosen_of(s: Seq<Coord>, d: Direction, cc: Direction) -> Coord {
    choose|c: Coord| is_chosen(s, d, cc, c)
}

/// At most one coordinate satisfies the choice rule: the far edge pins one
/// axis and the tie-break pins the other.
pub proof fn lemma_chosen_unique(s: Seq<Coord>, d: Direction, cc: Direction, c1: Coord, c2: Coord)
    requires
        is_chosen(s, d, cc, c1),
        is_chosen(s, d, cc, c2),
    ensures
        c1 == c2,
{
    assert(far_pref(d, axis_val(d, c1), axis_val(d, c2)));
    assert(far_pref(d, axis_val(d, c2), axis_val(d, c1)));
    assert(axis_val(d, c1) == axis_val(d, c2));
    assert(cc_pref(d, cc, perp_val(d, c1), perp_val(d, c2)));
    assert(cc_pref(d, cc, perp_val(d, c2), perp_val(d, c1)));
    assert(perp_val(d, c1) == perp_val(d, c2));
}

/// One codel-size step from `c` in direction `d`.
pub open spec fn moved(c: Coord, d: Direction, cs: int) -> Coord {
    match d {
        Direction::Right => ((c.0 + cs) as i32, c.1),
        Direction::Down => (c.0, (c.1 + cs) as i32),
        Direction::Left => ((c.0 - cs) as i32, c.1),
        Direction::Up => (c.0, (c.1 - cs) as i32),
    }
}

/// One attempt of the machine: find the current block's chosen exit
/// coordinate, move one codel size along the pointer, and act on what is
/// there. `None` is a failed attempt and changes nothing. A successful
/// attempt clears the error, output and last command, advances the program
/// counter, and — when both blocks are chromatic — applies the decoded
/// opcode; a white or non-chromatic endpoint moves without an operation.
/// A candidate equal to the current coordinate fails the attempt.
pub open spec fn attempt_spec(code: Blocks, m: MachineV) -> Option<MachineV> {
    let blk = code.block_of(m.pc);
    let chosen = chosen_of(blk.coords@, m.dp, m.cc);
    let cand = moved(chosen, m.dp, code.codel_size as int);
    if !code.has_block(cand) {
        None
    } else if code.block_of(cand).t == Type::Black {
        None
    } else if cand == m.pc {
        None
    } else {
        let m2 = MachineV {
            pc: cand,
            error: None,
            output: None,
            last_cmd: None,
            ..m
        };
        match (blk.t, code.block_of(cand).t) {
            (Type::Color(l0, h0), Type::Color(l1, h1)) => Some(
                exec_op_spec(
                    m2,
                    opcode_of(hue_delta(h0, h1), light_delta(l0, l1)),
                    blk.coords@.len() as i32,
                ),
            ),
            _ => Some(m2),
        }
    }
}

/// The state change of one failed attempt: toggle the chooser, and rotate
/// the pointer clockwise on every second failure.
pub open spec fn retry_update(m: MachineV, i: int) -> MachineV {
    let m1 = MachineV { cc: toggled(m.cc, 1), ..m };
    if i % 2 == 1 {
        MachineV { dp: rotated(m1.dp, 1), ..m1 }
    } else {
        m1
    }
}

/// The retry round from attempt number `i`: attempts run until one
/// succeeds; each failure toggles the chooser and every second failure also
/// rotates the pointer; after the eighth consecutive failure — all four
/// pointer directions with both chooser sides — the program has terminated
/// and the round reports false.
pub open spec fn retry_spec(code: Blocks, m: MachineV, i: int) -> (MachineV, bool)
    decreases 8 - i,
{
    if i < 0 || i >= 8 {
        (m, false)
    } else {
        match attempt_spec(code, m) {
            Some(m2) => (m2, true),
            None => retry_spec(code, retry_update(m, i), i + 1),
        }
    }
}


/// The machine before attempt number `i` of a round whose earlier attempts
/// all failed: the chooser has toggled once per failure, and the pointer has
/// rotated a quarter turn on every second one.
pub open spec fn after_failures(m: MachineV, i: int) -> MachineV {
    MachineV { dp: rotated(m.dp, i / 2), cc: toggled(m.cc, i), ..m }
}

/// One more failure moves the machine from the state after `i` failures to
/// the state after `i + 1`.
proof fn lemma_retry_update_chain(m: MachineV, i: int)
    requires
        0 <= i,
        m.cc == Direction::Left || m.cc == Direction::Right,
    ensures
        retry_update(after_failures(m, i), i) == after_failures(m, i + 1),
{
    let a = after_failures(m, i);
    assert(toggled(toggled(m.cc, i), 1) == toggled(m.cc, i + 1));
    if i % 2 == 1 {
        assert((i + 1) / 2 == i / 2 + 1);
        assert(rotated(rotated(m.dp, i / 2), 1) == rotated(m.dp, i / 2 + 1)) by {
            vstd::arithmetic::div_mod::lemma_add_mod_noop(
                dir_index(m.dp) + i / 2, 1, 4);
            assert(dir_index(rotated(m.dp, i / 2)) == (dir_index(m.dp) + i / 2) % 4);
        }
        assert(retry_update(a, i) =~~= after_failures(m, i + 1));
    } else {
        assert((i + 1) / 2 == i / 2);
        assert(retry_update(a, i) =~~= after_failures(m, i + 1));
    }
}

/// Unrolls a failing round one attempt: if the round starting before
/// attempt `i` reports halt, that attempt itself failed and the round
/// continues from the next failure state.
proof fn lemma_halt_unroll(code: Blocks, m: MachineV, i: int)
    requires
        0 <= i < 8,
        m.cc == Direction::Left || m.cc == Direction::Right,
        !retry_spec(code, after_failures(m, i), i).1,
    ensures
        attempt_spec(code, after_failures(m, i)) is None,
        retry_spec(code, after_failures(m, i), i)
            == retry_spec(code, after_failures(m, i + 1), i + 1),
{
    lemma_retry_update_chain(m, i);
}

/// A failing round reaches the state after `k` failures with the same
/// outcome it started with.
proof fn lemma_halt_prefix(code: Blocks, m: MachineV, k: int)
    requires
        0 <= k <= 8,
        m.cc == Direction::Left || m.cc == Direction::Right,
        !retry_spec(code, m, 0).1,
    ensures
        retry_spec(code, m, 0) == retry_spec(code, after_failures(m, k), k),
        !retry_spec(code, after_failures(m, k), k).1,
    decreases k,
{
    if k == 0 {
        assert(after_failures(m, 0) =~~= m);
    } else {
        lemma_halt_prefix(code, m, k - 1);
        lemma_halt_unroll(code, m, k - 1);
    }
}

/// Retry exhaustion: a round that reports termination has attempted every
/// one of the eight pointer-and-chooser combinations — the four directions,
/// each with both chooser sides — and every attempt failed; the machine is
/// left exactly as the round found it.
pub proof fn lemma_halt_covers_all_combinations(code: Blocks, m: MachineV)
    requires
        m.cc == Direction::Left || m.cc == Direction::Right,
        !retry_spec(code, m, 0).1,
    ensures
        retry_spec(code, m, 0).0 == m,
        forall|k: int| 0 <= k < 8
            ==> attempt_spec(code, #[trigger] after_failures(m, k)) is None,
{
    assert forall|k: int| 0 <= k < 8
        implies attempt_spec(code, #[trigger] after_failures(m, k)) is None by {
        lemma_halt_prefix(code, m, k);
        lemma_halt_unroll(code, m, k);
    }
    lemma_halt_prefix(code, m, 8);
    assert(retry_spec(code, after_failures(m, 8), 8) == (after_failures(m, 8), false));
    assert(rotated(m.dp, 4) == m.dp) by {
        assert((dir_index(m.dp) + 4) % 4 == dir_index(m.dp));
    }
    assert(toggled(m.cc, 8) == m.cc);
    assert(after_failures(m, 8) =~~= m);
}

/// Determinism: one retry round is a mathematical function of the program
/// and the machine state — the stack, pointers, program counter and the
/// scripted input with its read position. Two machines over the same image,
/// codel size and script that have reached the same state produce the same
/// next state, the same output, and the same continue-or-halt answer.
pub proof fn lemma_round_deterministic(code: Blocks, m1: MachineV, m2: MachineV, i: int)
    requires
        m1 == m2,
    ensures
        retry_spec(code, m1, i) == retry_spec(code, m2, i),
{
}

} // verus!
