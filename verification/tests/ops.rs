use piet_core::blocks::{Blocks, Hue, Lightness};
use piet_core::cpu::{Direction, ExecError, OpCode, CPU};

const LR: (u8, u8, u8) = (0xff, 0xc0, 0xc0); // light red
const NR: (u8, u8, u8) = (0xff, 0x00, 0x00); // normal red
const NY: (u8, u8, u8) = (0xff, 0xff, 0x00); // normal yellow
const DY: (u8, u8, u8) = (0xc0, 0xc0, 0x00); // dark yellow
const LY: (u8, u8, u8) = (0xff, 0xff, 0xc0); // light yellow
const NG: (u8, u8, u8) = (0x00, 0xff, 0x00); // normal green
const DG: (u8, u8, u8) = (0x00, 0xc0, 0x00); // dark green
const LG: (u8, u8, u8) = (0xc0, 0xff, 0xc0); // light green
const NC: (u8, u8, u8) = (0x00, 0xff, 0xff); // normal cyan
const DC: (u8, u8, u8) = (0x00, 0xc0, 0xc0); // dark cyan
const LC: (u8, u8, u8) = (0xc0, 0xff, 0xff); // light cyan
const NB: (u8, u8, u8) = (0x00, 0x00, 0xff); // normal blue
const NM: (u8, u8, u8) = (0xff, 0x00, 0xff); // normal magenta

fn machine_with(next: (u8, u8, u8), stack: Vec<i32>, input: Vec<Vec<u8>>) -> CPU {
    let code = Blocks::from_grid(2, 1, 1, &vec![NR, next]).unwrap();
    let mut cpu = CPU::from_config(code, input);
    cpu.stack = stack;
    cpu
}

#[test]
fn add_sums_the_top_two() {
    let mut cpu = machine_with(NY, vec![3, 4], vec![]);
    assert!(cpu.try_step());
    assert_eq!(cpu.stack, vec![7]);
    assert_eq!(cpu.last_cmd, Some(OpCode::ADD));
}

#[test]
fn add_wraps_on_overflow() {
    let mut cpu = machine_with(NY, vec![i32::MAX, 1], vec![]);
    assert!(cpu.try_step());
    assert_eq!(cpu.stack, vec![i32::MIN]);
}

#[test]
fn sub_takes_the_top_from_the_second() {
    let mut cpu = machine_with(DY, vec![10, 3], vec![]);
    assert!(cpu.try_step());
    assert_eq!(cpu.stack, vec![7]);
    assert_eq!(cpu.last_cmd, Some(OpCode::SUB));
}

#[test]
fn mul_multiplies_the_top_two() {
    let mut cpu = machine_with(LY, vec![3, 4], vec![]);
    assert!(cpu.try_step());
    assert_eq!(cpu.stack, vec![12]);
    assert_eq!(cpu.last_cmd, Some(OpCode::MUL));
}

#[test]
fn div_truncates_toward_zero() {
    let mut cpu = machine_with(NG, vec![7, 2], vec![]);
    assert!(cpu.try_step());
    assert_eq!(cpu.stack, vec![3]);
    let mut cpu = machine_with(NG, vec![-7, 2], vec![]);
    assert!(cpu.try_step());
    assert_eq!(cpu.stack, vec![-3]);
}

#[test]
fn div_of_most_negative_by_minus_one_wraps() {
    let mut cpu = machine_with(NG, vec![i32::MIN, -1], vec![]);
    assert!(cpu.try_step());
    assert_eq!(cpu.stack, vec![i32::MIN]);
    assert!(cpu.error.is_none());
}

#[test]
fn mod_keeps_the_dividend_sign() {
    let mut cpu = machine_with(DG, vec![7, 2], vec![]);
    assert!(cpu.try_step());
    assert_eq!(cpu.stack, vec![1]);
    assert_eq!(cpu.last_cmd, Some(OpCode::MOD));
    let mut cpu = machine_with(DG, vec![-7, 2], vec![]);
    assert!(cpu.try_step());
    assert_eq!(cpu.stack, vec![-1]);
}

#[test]
fn mod_by_zero_restores_the_operands() {
    let mut cpu = machine_with(DG, vec![5, 0], vec![]);
    assert!(cpu.try_step());
    assert_eq!(cpu.error, Some(ExecError::DivideByZero));
    assert_eq!(cpu.stack, vec![5, 0]);
}

#[test]
fn not_tests_for_zero() {
    let mut cpu = machine_with(LG, vec![0], vec![]);
    assert!(cpu.try_step());
    assert_eq!(cpu.stack, vec![1]);
    let mut cpu = machine_with(LG, vec![5], vec![]);
    assert!(cpu.try_step());
    assert_eq!(cpu.stack, vec![0]);
}

#[test]
fn gt_compares_the_second_against_the_top() {
    let mut cpu = machine_with(NC, vec![5, 3], vec![]);
    assert!(cpu.try_step());
    assert_eq!(cpu.stack, vec![1]);
    let mut cpu = machine_with(NC, vec![3, 5], vec![]);
    assert!(cpu.try_step());
    assert_eq!(cpu.stack, vec![0]);
}

#[test]
fn ptr_rotates_the_pointer_by_the_popped_value() {
    let mut cpu = machine_with(DC, vec![1], vec![]);
    assert!(cpu.try_step());
    assert_eq!(cpu.dp, Direction::Down);
    assert!(cpu.stack.is_empty());
    // a negative count rotates counter-clockwise
    let mut cpu = machine_with(DC, vec![-1], vec![]);
    assert!(cpu.try_step());
    assert_eq!(cpu.dp, Direction::Up);
}

#[test]
fn swtch_toggles_the_chooser_by_parity() {
    let mut cpu = machine_with(LC, vec![3], vec![]);
    assert!(cpu.try_step());
    assert_eq!(cpu.cc, Direction::Right);
    let mut cpu = machine_with(LC, vec![-2], vec![]);
    assert!(cpu.try_step());
    assert_eq!(cpu.cc, Direction::Left);
}

#[test]
fn dup_pushes_the_top_twice() {
    let mut cpu = machine_with(NB, vec![5], vec![]);
    assert!(cpu.try_step());
    assert_eq!(cpu.stack, vec![5, 5]);
    assert_eq!(cpu.last_cmd, Some(OpCode::DUP));
}

#[test]
fn pop_discards_the_top() {
    let mut cpu = machine_with(LR, vec![5, 6], vec![]);
    assert!(cpu.try_step());
    assert_eq!(cpu.stack, vec![5]);
    assert_eq!(cpu.last_cmd, Some(OpCode::POP));
}

#[test]
fn inpc_pushes_the_first_byte() {
    let mut cpu = machine_with(NM, vec![], vec![b"A".to_vec()]);
    assert!(cpu.try_step());
    assert_eq!(cpu.stack, vec![65]);
    assert_eq!(cpu.last_cmd, Some(OpCode::INPC));
}

#[test]
fn inpc_reports_an_empty_line() {
    let mut cpu = machine_with(NM, vec![], vec![b"".to_vec()]);
    assert!(cpu.try_step());
    assert_eq!(cpu.error, Some(ExecError::InputParseError));
}

#[test]
fn opcode_table_covers_all_eighteen_transitions() {
    let hues = [Hue::Red, Hue::Yellow, Hue::Green, Hue::Cyan, Hue::Blue, Hue::Magenta];
    let lights = [Lightness::Light, Lightness::Normal, Lightness::Dark];
    let table = [
        [OpCode::NOP, OpCode::PUSH, OpCode::POP],
        [OpCode::ADD, OpCode::SUB, OpCode::MUL],
        [OpCode::DIV, OpCode::MOD, OpCode::NOT],
        [OpCode::GT, OpCode::PTR, OpCode::SWTCH],
        [OpCode::DUP, OpCode::ROLL, OpCode::INPN],
        [OpCode::INPC, OpCode::OUTN, OpCode::OUTC],
    ];
    for hd in 0..6 {
        for ld in 0..3 {
            let got = OpCode::typeof_exec(Lightness::Light, Hue::Red, lights[ld], hues[hd]);
            assert_eq!(got, table[hd][ld]);
        }
    }
}
