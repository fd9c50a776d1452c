use ternary_tools::machine::{Fault, Machine, RegionType};

fn error_text(r: Result<(), Fault>) -> String {
    match r {
        Err(Fault::Error(m)) => m,
        other => panic!("expected an error, got {:?}", other),
    }
}

#[test]
fn a_saved_state_starts_with_its_registers() {
    let mut m = Machine::default();
    m.pc = 14;
    m.a = -1;
    m.paused = true;
    let text = m.save_state();
    let lines: Vec<&str> = text.lines().collect();
    assert_eq!(&lines[..7], &["TSIM1", "pc an", "a .z", "b ..", "paused true", "RAM", ".."]);
    assert_eq!(lines.len(), 6 + 729 + 1 + 729);
    assert_eq!(lines[735], "STO");
    assert!(text.ends_with("..\n"));
}

#[test]
fn saving_and_loading_restores_the_machine() {
    let mut m = Machine::default();
    m.pc = -5;
    m.a = 364;
    m.b = -364;
    m.sar = 3;
    m.paused = true;
    m.write_word(RegionType::Ram, -364, 17).unwrap();
    m.write_word(RegionType::Ram, 364, -200).unwrap();
    m.write_word(RegionType::Sto, 0, 99).unwrap();
    let text = m.save_state();
    let mut back = Machine::default();
    back.sar = 8;
    assert!(back.load_state(&text).is_ok());
    assert_eq!((back.pc, back.a, back.b, back.paused), (-5, 364, -364, true));
    assert_eq!(back.sar, 8);
    assert_eq!(back.ram, m.ram);
    assert_eq!(back.sto, m.sto);
}

#[test]
fn loading_ignores_blank_lines_and_case() {
    let mut m = Machine::default();
    let text = "\n  TSIM1  \r\n\nPC c\nA 12\nPaused TRUE\n";
    assert!(m.load_state(text).is_ok());
    assert_eq!((m.pc, m.a, m.paused), (3, 12, true));
}

#[test]
fn loading_reports_its_errors() {
    let mut m = Machine::default();
    assert_eq!(error_text(m.load_state("")), "Empty file");
    assert_eq!(error_text(m.load_state("  \n\n")), "Empty file");
    assert_eq!(
        error_text(m.load_state("TSIM2\n")),
        "Unrecognised state file header (expected TSIM1)"
    );
    assert_eq!(error_text(m.load_state("TSIM1\nzz 1\n")), "Unknown state key: zz");
    assert_eq!(error_text(m.load_state("TSIM1\npc\n")), "Missing value for pc");
    assert_eq!(error_text(m.load_state("TSIM1\npc 9999\n")), "Value out of word range: 9999");
    assert_eq!(
        error_text(m.load_state("TSIM1\nRAM\n..\n")),
        "Unexpected end of file while reading RAM"
    );
    assert_eq!(
        error_text(m.load_state("TSIM1\nsto\n")),
        "Unexpected end of file while reading STO"
    );
}

#[test]
fn loading_keeps_what_came_before_an_error() {
    let mut m = Machine::default();
    assert!(m.load_state("TSIM1\na b\nRAM\nc\nd\n").is_err());
    assert_eq!(m.a, 2);
    assert_eq!(m.ram[0], 3);
    assert_eq!(m.ram[1], 4);
}

#[test]
fn loading_an_overflowing_code_stops() {
    let mut m = Machine::default();
    assert!(matches!(m.load_state("TSIM1\npc mmmm\n"), Err(Fault::Overflow)));
}
