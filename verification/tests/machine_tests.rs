use ternary_tools::machine::{
    code_to_i16, i16_to_code, Fault, Machine, Op, RegionType, UnknownOpcode,
};

fn machine_with(program: &[(i16, i16)]) -> Machine {
    let mut m = Machine::default();
    for &(addr, word) in program {
        m.write_word(RegionType::Ram, addr, word).unwrap();
    }
    m
}

#[test]
fn a_new_machine_is_all_zero() {
    let m = Machine::default();
    assert_eq!((m.pc, m.a, m.b, m.sar, m.srr, m.paused), (0, 0, 0, 0, 0, false));
    assert_eq!(m.ram.len(), 729);
    assert_eq!(m.sto.len(), 729);
    assert!(m.ram.iter().all(|&w| w == 0));
    assert!(m.sto.iter().all(|&w| w == 0));
}

#[test]
fn machine_words_write_as_two_letter_codes() {
    assert_eq!(i16_to_code(0), "..");
    assert_eq!(i16_to_code(364), "mm");
    assert_eq!(i16_to_code(-364), "nn");
    assert_eq!(i16_to_code(365), "ann");
    assert_eq!(code_to_i16("mm"), Ok(364));
    assert_eq!(code_to_i16("365"), Err("Value out of word range: 365".to_string()));
    assert_eq!(code_to_i16("mmm"), Err("Value out of word range: 9841".to_string()));
}

#[test]
fn every_machine_word_survives_a_code_round_trip() {
    for v in -364i16..=364 {
        let code = i16_to_code(v);
        assert_eq!(code.len(), 2);
        assert_eq!(code_to_i16(&code), Ok(v));
    }
}

#[test]
fn opcodes_select_instructions() {
    assert_eq!(Op::from_i16(0), Op::Nop);
    assert_eq!(Op::from_i16(3), Op::Cla);
    assert_eq!(Op::from_i16(8), Op::Hlt);
    assert_eq!(Op::from_i16(28), Op::Lra);
    assert_eq!(Op::from_i16(26), Op::Sra);
    assert_eq!(Op::from_i16(37), Op::Lsa);
    assert_eq!(Op::from_i16(35), Op::Ssa);
    assert_eq!(Op::from_i16(40), Op::Lpa);
    assert_eq!(Op::from_i16(38), Op::Spa);
    assert_eq!(Op::from_i16(36), Op::Lia);
    assert_eq!(Op::from_i16(364), Op::Mul);
    assert_eq!(Op::from_i16(352), Op::Add);
    assert_eq!(Op::from_i16(343), Op::Sub);
    assert_eq!(Op::from_i16(283), Op::Jmp);
    assert_eq!(Op::from_i16(257), Op::Jnz);
    assert_eq!(Op::from_i16(262), Op::Jms);
    assert_eq!(Op::from_i16(-238), Op::Rte);
    assert_eq!(Op::from_i16(-252), Op::Rtr);
    assert_eq!(Op::from_i16(1), Op::Unknown);
}

#[test]
fn memory_reads_back_what_was_written() {
    let mut m = Machine::default();
    assert_eq!(m.write_word(RegionType::Ram, 5, 77), Ok(()));
    assert_eq!(m.read_word(RegionType::Ram, 5), Ok(77));
    assert_eq!(m.read_word(RegionType::Sto, 5), Ok(0));
    assert_eq!(m.read_word(RegionType::Ram, 4), Ok(0));
    assert_eq!(m.write_word(RegionType::Sto, -364, -3), Ok(()));
    assert_eq!(m.read_word(RegionType::Sto, -364), Ok(-3));
    assert_eq!(m.sto[0], -3);
    assert_eq!(m.ram[5 + 364], 77);
}

#[test]
fn addresses_outside_the_words_are_refused() {
    let mut m = Machine::default();
    assert_eq!(m.read_word(RegionType::Ram, 365), Err("Address 365 out of range!".to_string()));
    assert_eq!(m.read_word(RegionType::Sto, -365), Err("Address -365 out of range!".to_string()));
    assert_eq!(m.write_word(RegionType::Ram, 400, 1), Err("Address 400 out of range!".to_string()));
    assert!(m.ram.iter().all(|&w| w == 0));
}

#[test]
fn the_counter_moves_away_from_zero() {
    let mut m = machine_with(&[(0, 11), (-1, 22)]);
    assert_eq!(m.advance_pc(), Ok(11));
    assert_eq!(m.pc, 1);
    m.pc = -1;
    assert_eq!(m.advance_pc(), Ok(22));
    assert_eq!(m.pc, -2);
    m.pc = 364;
    assert_eq!(m.advance_pc(), Err("PC is out of bounds: 365".to_string()));
    assert_eq!(m.pc, 365);
    assert_eq!(m.advance_pc(), Err("Address 365 out of range!".to_string()));
    m.pc = -364;
    assert_eq!(m.advance_pc(), Err("PC is out of bounds: -365".to_string()));
}

#[test]
fn hlt_pauses() {
    let mut m = machine_with(&[(0, 8)]);
    assert!(m.step().unwrap().is_none());
    assert!(m.paused);
    assert_eq!(m.pc, 1);
}

#[test]
fn lia_and_arithmetic() {
    // LIA 5; ADD [10]; SUB [11]; MUL [12]
    let mut m = machine_with(&[
        (0, 36),
        (1, 5),
        (2, 352),
        (3, 10),
        (4, 343),
        (5, 11),
        (6, 364),
        (7, 12),
        (10, 360),
        (11, 2),
        (12, 3),
    ]);
    m.step().unwrap();
    assert_eq!(m.a, 5);
    m.step().unwrap();
    assert_eq!((m.a, m.b), ((5 + 360) % 364, 360));
    m.step().unwrap();
    assert_eq!((m.a, m.b), (-1, 2));
    m.step().unwrap();
    assert_eq!((m.a, m.b), (-3, 3));
    assert_eq!(m.pc, 8);
}

#[test]
fn multiplying_past_sixteen_bits_overflows() {
    let mut m = machine_with(&[(0, 364), (1, 10), (10, 364)]);
    m.a = 364;
    assert!(matches!(m.step(), Err(Fault::Overflow)));
}

#[test]
fn loads_stores_and_jumps() {
    // SRA 20; LRA 20 after CLA; JNZ 9; LPA; SPA; JMS; RTE; RTR
    let mut m = machine_with(&[(0, 26), (1, 20), (2, 3), (3, 28), (4, 20), (5, 257), (6, 9)]);
    m.a = 7;
    m.step().unwrap();
    assert_eq!(m.read_word(RegionType::Ram, 20), Ok(7));
    m.step().unwrap();
    assert_eq!((m.a, m.b, m.srr), (0, 0, 0));
    m.step().unwrap();
    assert_eq!(m.a, 7);
    m.step().unwrap();
    assert_eq!(m.pc, 9);
}

#[test]
fn jms_follows_the_sign_of_a() {
    let mut m = machine_with(&[(0, 262), (1, 30)]);
    m.a = -2;
    m.step().unwrap();
    assert_eq!(m.pc, -30);
    let mut m = machine_with(&[(0, 262), (1, 30)]);
    m.step().unwrap();
    assert_eq!(m.pc, 2);
}

#[test]
fn rte_and_rtr_return() {
    let mut m = machine_with(&[(0, -238), (1, 40), (40, -252)]);
    m.step().unwrap();
    assert_eq!((m.pc, m.srr), (40, 2));
    m.step().unwrap();
    assert_eq!(m.pc, 2);
}

#[test]
fn storage_is_read_through_sar() {
    let mut m = machine_with(&[(0, 37), (1, 38), (2, 40)]);
    m.write_word(RegionType::Sto, 363, 9).unwrap();
    m.sar = 363;
    m.step().unwrap();
    assert_eq!((m.a, m.sar), (9, 0));
    m.a = 4;
    m.step().unwrap();
    assert_eq!(m.sar, 4);
    m.a = 0;
    m.step().unwrap();
    assert_eq!(m.a, 4);
}

#[test]
fn an_unknown_opcode_pauses_and_is_reported() {
    let mut m = machine_with(&[(0, 1)]);
    assert_eq!(m.step().unwrap(), Some(UnknownOpcode { at: 0, opcode: 1 }));
    assert!(m.paused);
}

#[test]
fn run_stops_at_a_pause_or_the_limit() {
    let mut m = machine_with(&[(3, 8)]);
    assert!(m.run(2).unwrap().is_none());
    assert_eq!(m.pc, 2);
    assert!(!m.paused);
    assert!(m.run(100).unwrap().is_none());
    assert!(m.paused);
    assert_eq!(m.pc, 4);
    assert!(m.run(100).unwrap().is_none());
    assert_eq!(m.pc, 4);
}

#[test]
fn run_reports_the_first_error() {
    let mut m = machine_with(&[(0, 283), (1, 364)]);
    let r = m.run(10);
    match r {
        Err(Fault::Error(msg)) => assert_eq!(msg, "PC is out of bounds: 365"),
        other => panic!("unexpected {:?}", other),
    }
    assert_eq!(m.pc, 365);
}

#[test]
fn streams_write_two_letters_to_a_word() {
    let mut m = Machine::default();
    assert_eq!(m.write_stream(RegionType::Ram, 0, "abz"), Ok(()));
    assert_eq!(m.read_word(RegionType::Ram, 0), Ok(29));
    assert_eq!(m.read_word(RegionType::Ram, 1), Ok(-27));
    assert_eq!(m.read_word(RegionType::Ram, 2), Ok(0));
}

#[test]
fn streams_refuse_other_symbols() {
    let mut m = Machine::default();
    assert_eq!(m.write_stream(RegionType::Sto, 0, "ab1c"), Err("Invalid symbol '1'".to_string()));
    assert!(m.sto.iter().all(|&w| w == 0));
}

#[test]
fn streams_stop_at_the_end_of_the_region() {
    let mut m = Machine::default();
    assert_eq!(
        m.write_stream(RegionType::Ram, 364, "mmmm"),
        Err("Address 365 out of range!".to_string())
    );
    assert_eq!(m.read_word(RegionType::Ram, 364), Ok(364));
}

#[test]
fn dumps_show_rows_of_codes() {
    let mut m = Machine::default();
    m.write_word(RegionType::Ram, 1, 14).unwrap();
    let (lines, r) = m.dump_region(RegionType::Ram, 0, 2);
    assert_eq!(r, Ok(()));
    assert_eq!(lines, vec!["..: .. an ..".to_string()]);
    let (lines, r) = m.dump_region(RegionType::Ram, -364, 364);
    assert_eq!(r, Ok(()));
    assert_eq!(lines.len(), 27);
    assert!(lines[0].starts_with("nn: .. .."));
}

#[test]
fn dumps_stop_at_an_address_outside_the_region() {
    let m = Machine::default();
    let (lines, r) = m.dump_region(RegionType::Sto, 330, 400);
    assert_eq!(lines.len(), 1);
    assert_eq!(r, Err("Address 365 out of range!".to_string()));
}

#[test]
fn the_state_report_shows_registers() {
    let mut m = Machine::default();
    m.pc = 14;
    m.a = -1;
    assert_eq!(
        m.state_report(false),
        vec![
            "PC: 14 (an)".to_string(),
            "A: -1 (.z)".to_string(),
            "B: 0 (..)".to_string(),
            "SAR: 0 (..)".to_string(),
            "Paused: false".to_string(),
        ]
    );
    let all = m.state_report(true);
    assert_eq!(all.len(), 5 + 2 + 27 + 2 + 27);
    assert_eq!(all[5], "");
    assert_eq!(all[6], "RAM:");
    assert_eq!(all[34], "");
    assert_eq!(all[35], "STO:");
}

#[test]
fn running_in_stretches_is_running_once() {
    let program = [(0, 36), (1, 7), (2, 352), (3, 2), (4, 283), (5, 2)];
    let mut once = machine_with(&program);
    once.run(9).unwrap();
    let mut twice = machine_with(&program);
    twice.run(4).unwrap();
    twice.run(5).unwrap();
    assert_eq!((once.pc, once.a, once.b), (twice.pc, twice.a, twice.b));
    assert_eq!(once.ram, twice.ram);
}
