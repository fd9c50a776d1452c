use ternary_tools::assembler::{lay_out_codewords, parse_reference, AsmError, Assembler};

/// The line of an image that holds `addr`.
fn at(image: &str, addr: i32) -> String {
    image.split('\n').nth((addr + 9841) as usize).unwrap().to_string()
}

fn assemble(source: &str) -> Result<String, AsmError> {
    Assembler::new().assemble(source).map(|a| a.image)
}

#[test]
fn an_image_has_a_line_per_address() {
    let image = assemble("").unwrap();
    assert_eq!(image.split('\n').count(), 19683);
    assert!(image.split('\n').all(|l| l == "..."));
}

#[test]
fn words_are_emitted_from_address_one() {
    let image = assemble("HLT CLA\nLIA ; a comment MUL\n").unwrap();
    assert_eq!(at(&image, 0), "...");
    assert_eq!(at(&image, 1), "HLT");
    assert_eq!(at(&image, 2), "CLA");
    assert_eq!(at(&image, 3), "LIA");
    assert_eq!(at(&image, 4), "...");
}

#[test]
fn literals_and_relative_addresses() {
    let image = assemble("#abc .+5 .-1").unwrap();
    assert_eq!(at(&image, 1), "abc");
    assert_eq!(at(&image, 2), "..g");
    assert_eq!(at(&image, 3), "..b");
}

#[test]
fn references_are_filled_in_by_label() {
    let assembly = Assembler::new().assemble(">start JMP start end+1 >end").unwrap();
    let image = assembly.image;
    assert_eq!(at(&image, 1), "JMP");
    assert_eq!(at(&image, 2), "..a");
    assert_eq!(at(&image, 3), "..e");
    let mut labels = assembly.labels;
    labels.sort();
    assert_eq!(labels, vec![("end".to_string(), 4), ("start".to_string(), 1)]);
}

#[test]
fn colon_labels_switch_sides() {
    let image = assemble("HLT HLT :neg LIA").unwrap();
    assert_eq!(at(&image, -1), "LIA");
    assert_eq!(at(&image, 1), "HLT");
}

#[test]
fn question_and_bang_labels_move_the_counter() {
    let image = assemble("HLT ?far CLA ?far NOP").unwrap();
    assert_eq!(at(&image, 2), "NOP");
    let image = assemble("HLT !back CLA").unwrap();
    assert_eq!(at(&image, 2), "CLA");
}

#[test]
fn assembling_reports_errors() {
    assert!(matches!(assemble("JMP nowhere"), Err(AsmError::Error(m)) if m == "Unknown label nowhere"));
    assert!(matches!(assemble("?x ?y HLT\n!z"), Ok(_)));
    assert!(matches!(assemble("x+y"), Err(AsmError::Error(m)) if m == "bad offset"));
    assert!(matches!(assemble("."), Err(AsmError::Abort)));
    assert!(matches!(assemble(".+x"), Err(AsmError::Abort)));
}

#[test]
fn references_split_at_their_sign() {
    assert_eq!(parse_reference("abc+3").ok(), Some(("abc".to_string(), 3)));
    assert_eq!(parse_reference("abc-3").ok(), Some(("abc".to_string(), -3)));
    assert_eq!(parse_reference("abc").ok(), Some(("abc".to_string(), 0)));
    assert_eq!(parse_reference("a-b+2").ok(), Some(("a-b".to_string(), 2)));
    assert!(matches!(parse_reference("abc+"), Err(AsmError::Error(m)) if m == "bad offset"));
    assert!(matches!(parse_reference("a--2147483648"), Err(AsmError::Abort)));
}

#[test]
fn code_words_are_laid_out_on_both_sides() {
    let image = lay_out_codewords("aaa\nbbb\nccc\n");
    assert_eq!(image.split('\n').count(), 19683);
    assert_eq!(at(&image, 0), "hlt");
    assert_eq!(at(&image, 1), "mmm");
    assert_eq!(at(&image, 2), "aaa");
    assert_eq!(at(&image, 3), "ccc");
    assert_eq!(at(&image, -1), "..d");
    assert_eq!(at(&image, -2), "bbb");
    assert_eq!(at(&image, -3), "...");
    assert_eq!(at(&image, -4), "mmm");
    assert_eq!(at(&image, -5), "...");
}

#[test]
fn redefined_labels_keep_their_last_address() {
    let assembly = Assembler::new().assemble(">x HLT >x HLT x").unwrap();
    assert_eq!(assembly.labels, vec![("x".to_string(), 2)]);
    assert_eq!(at(&assembly.image, 3), "..b");
}
