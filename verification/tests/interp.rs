use piet_core::blocks::Blocks;
use piet_core::cmdconfig::CmdConfig;
use piet_core::cpu::Direction;
use piet_core::interpreter::Interpreter;

const NR: (u8, u8, u8) = (0xff, 0x00, 0x00);
const W: (u8, u8, u8) = (0xff, 0xff, 0xff);

#[test]
fn interpreter_wraps_a_fresh_machine() {
    let code = Blocks::from_grid(2, 1, 1, &vec![NR, W]).unwrap();
    let cfg = CmdConfig { src: "prog.png".to_string(), size: 1, verbose: false };
    let mut interp = Interpreter::from_config(&cfg, code, vec![]);
    assert_eq!(interp.filename, "prog.png");
    assert_eq!(interp.cpu.dp, Direction::Right);
    assert_eq!(interp.cpu.cc, Direction::Left);
    assert_eq!(interp.cpu.pc, (0, 0));
    assert!(interp.cpu.stack.is_empty());
    assert!(interp.cpu.try_step());
    assert_eq!(interp.cpu.pc, (1, 0));
}
