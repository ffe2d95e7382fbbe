//! The interpreter: a machine together with the name of the program it
//! runs. The surrounding program drives it by calling `try_step` on the
//! machine until it reports termination, printing each step's output and
//! error as they appear.

use vstd::prelude::*;

verus! {

use crate::blocks::Blocks;
use crate::cmdconfig::CmdConfig;
use crate::cpu::CPU;
use crate::cpu::Direction;
use crate::machine::MachineV;

/// A machine paired with its program's name.
pub struct Interpreter {
    pub cpu: CPU,
    pub filename: String,
}

impl Interpreter {
    /// Builds an interpreter over a segmented program and a scripted input,
    /// keeping the configured source name for diagnostics.
    pub fn from_config(cfg: &CmdConfig, code: Blocks, input: Vec<Vec<u8>>) -> (r: Interpreter)
        requires
            code.wf(),
            code.grid_has((0i32, 0i32)),
        ensures
            r.filename == cfg.src,
            r.cpu.code == code,
            r.cpu.wf(),
            r.cpu.machine() == (MachineV {
                stack: Seq::<i32>::empty(),
                dp: Direction::Right,
                cc: Direction::Left,
                pc: (0i32, 0i32),
                error: None,
                output: None,
                last_cmd: None,
                input: input.deep_view(),
                input_pos: 0,
            }),
    {
        Interpreter { cpu: CPU::from_config(code, input), filename: cfg.src.clone() }
    }
}

} // verus!
