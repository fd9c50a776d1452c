use ternary_tools::command::{finish_write, handle_command, Request};
use ternary_tools::machine::{Fault, Machine, RegionType};

fn error_of(r: &Result<(), Fault>) -> String {
    match r {
        Err(Fault::Error(m)) => m.clone(),
        other => panic!("expected an error, got {:?}", other),
    }
}

#[test]
fn blank_input_does_nothing() {
    let mut m = Machine::default();
    let r = handle_command(&mut m, "   ");
    assert!(r.lines.is_empty());
    assert!(matches!(r.request, Request::Done));
    assert!(r.result.is_ok());
}

#[test]
fn q_quits_in_any_case() {
    let mut m = Machine::default();
    assert!(matches!(handle_command(&mut m, "q").request, Request::Quit));
    assert!(matches!(handle_command(&mut m, "  Q ").request, Request::Quit));
}

#[test]
fn state_shows_registers_and_regions() {
    let mut m = Machine::default();
    assert_eq!(handle_command(&mut m, "state").lines.len(), 5);
    assert_eq!(handle_command(&mut m, "STATE All").lines.len(), 63);
    let r = handle_command(&mut m, "state x");
    assert_eq!(error_of(&r.result), "Usage: state [all]");
}

#[test]
fn test_shows_a_code_in_decimal() {
    let mut m = Machine::default();
    assert_eq!(handle_command(&mut m, "test mm").lines, vec!["364".to_string()]);
    assert_eq!(handle_command(&mut m, "test -5").lines, vec!["-5".to_string()]);
    let r = handle_command(&mut m, "test 400");
    assert_eq!(error_of(&r.result), "Value out of word range: 400");
    assert!(matches!(handle_command(&mut m, "test").result, Err(Fault::MissingArgument)));
    assert!(matches!(handle_command(&mut m, "test mmmm").result, Err(Fault::Overflow)));
}

#[test]
fn registers_are_set_by_code() {
    let mut m = Machine::default();
    m.paused = true;
    assert!(handle_command(&mut m, "pc b").result.is_ok());
    assert_eq!(m.pc, 2);
    assert!(!m.paused);
    assert!(handle_command(&mut m, "a 5").result.is_ok());
    assert!(handle_command(&mut m, "B z").result.is_ok());
    assert!(handle_command(&mut m, "sar .c").result.is_ok());
    assert_eq!((m.a, m.b, m.sar), (5, -1, 3));
    assert_eq!(error_of(&handle_command(&mut m, "sar").result), "Usage: sar <value>");
    assert_eq!(error_of(&handle_command(&mut m, "a 1 2").result), "Usage: a <value>");
    assert_eq!(error_of(&handle_command(&mut m, "pc q1").result), "Invalid number: q1");
}

#[test]
fn step_runs_one_instruction_and_shows_the_state() {
    let mut m = Machine::default();
    m.write_word(RegionType::Ram, 0, 8).unwrap();
    m.paused = true;
    let r = handle_command(&mut m, "step");
    assert!(r.result.is_ok());
    assert!(m.paused);
    assert_eq!(r.lines[0], "PC: 1 (.a)");
    let r = handle_command(&mut m, "'");
    assert_eq!(r.lines[0], "PC: 2 (.b)");
}

#[test]
fn step_reports_an_unknown_opcode() {
    let mut m = Machine::default();
    m.write_word(RegionType::Ram, 0, 2).unwrap();
    let r = handle_command(&mut m, "step");
    let u = r.unknown.unwrap();
    assert_eq!((u.at, u.opcode), (0, 2));
    assert_eq!(r.lines.len(), 5);
}

#[test]
fn run_with_and_without_a_limit() {
    let mut m = Machine::default();
    m.paused = true;
    let r = handle_command(&mut m, "run");
    assert!(matches!(r.request, Request::RunUntilPaused));
    assert!(!m.paused);
    let r = handle_command(&mut m, "run 3");
    assert!(r.result.is_ok());
    assert_eq!(m.pc, 3);
    assert_eq!(r.lines.len(), 5);
    m.paused = true;
    let r = handle_command(&mut m, "run x");
    assert_eq!(error_of(&r.result), "Invalid number: x");
    assert!(!m.paused);
    assert_eq!(error_of(&handle_command(&mut m, "run 1 2").result), "Usage: run [steps]");
}

#[test]
fn dump_shows_a_region() {
    let mut m = Machine::default();
    m.write_word(RegionType::Sto, 2, 1).unwrap();
    assert_eq!(handle_command(&mut m, "dump ram").lines.len(), 27);
    assert_eq!(handle_command(&mut m, "dump STO b").lines, vec![".b: .a".to_string()]);
    assert_eq!(handle_command(&mut m, "dump sto c a").lines, vec![".a: .. .a ..".to_string()]);
    assert_eq!(handle_command(&mut m, "dump sto a c").lines, vec![".a: .. .a ..".to_string()]);
    assert_eq!(
        error_of(&handle_command(&mut m, "dump").result),
        "Usage: dump <ram|sto> [start end]"
    );
    assert_eq!(error_of(&handle_command(&mut m, "dump disk").result), "Error: expected RAM or STO");
    assert_eq!(
        error_of(&handle_command(&mut m, "dump ram a b c").result),
        "Usage: dump <ram|sto> [start end]"
    );
}

#[test]
fn write_asks_for_data_then_writes_it() {
    let mut m = Machine::default();
    let r = handle_command(&mut m, "write sto a");
    match r.request {
        Request::ReadWriteData { region, addr } => {
            assert_eq!(region, RegionType::Sto);
            assert_eq!(addr, 1);
            let done = finish_write(&mut m, region, addr, "  ab \n");
            assert!(done.result.is_ok());
            assert_eq!(m.read_word(RegionType::Sto, 1), Ok(29));
        },
        _ => panic!("expected a request for data"),
    }
    let done = finish_write(&mut m, RegionType::Ram, 0, " \n");
    assert_eq!(done.lines, vec!["Cancelled.".to_string()]);
    let done = finish_write(&mut m, RegionType::Ram, 0, "a!");
    assert_eq!(error_of(&done.result), "Invalid symbol '!'");
    assert_eq!(
        error_of(&handle_command(&mut m, "write ram").result),
        "Usage: write <ram|sto> <addr>"
    );
}

#[test]
fn load_and_save_name_a_file() {
    let mut m = Machine::default();
    match handle_command(&mut m, "load state.txt").request {
        Request::Load(p) => assert_eq!(p, "state.txt"),
        _ => panic!("expected a load request"),
    }
    match handle_command(&mut m, "SAVE out").request {
        Request::Save(p) => assert_eq!(p, "out"),
        _ => panic!("expected a save request"),
    }
    assert_eq!(error_of(&handle_command(&mut m, "load").result), "Usage: load <file>");
    assert_eq!(error_of(&handle_command(&mut m, "save a b").result), "Usage: save <file>");
}

#[test]
fn unknown_commands_are_named() {
    let mut m = Machine::default();
    let lines = handle_command(&mut m, "Foo 1").lines;
    assert_eq!(lines.len(), 2);
    assert_eq!(lines[0], "Unknown command: foo");
    assert_eq!(handle_command(&mut m, "ÄB").lines[0], "Unknown command: äb");
}
