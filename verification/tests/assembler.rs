use microasm::compiler::compile;
use microasm::errors::CompilerError;

fn lines(src: &[&str]) -> Vec<Vec<u8>> {
    src.iter().map(|s| s.as_bytes().to_vec()).collect()
}

#[test]
fn minimal_program() {
    let out = compile(&lines(&["dbt; fin;"]), false).unwrap();
    assert_eq!(out.bytes, vec![0x00, 0x06, 0x01, 0x00, 0xFF, 0x00]);
    assert!(out.warnings.is_empty());
}

#[test]
fn optimize_discards_leading_dead_code() {
    let out = compile(&lines(&["att 5; dbt; fin;"]), true).unwrap();
    assert_eq!(out.bytes, vec![0x00, 0x06, 0x01, 0x00, 0xFF, 0x00]);
    assert!(out.warnings.is_empty());
}

#[test]
fn no_optimize_keeps_leading_dead_code() {
    let out = compile(&lines(&["att 5; dbt; fin;"]), false).unwrap();
    assert_eq!(out.bytes, vec![0x00, 0x08, 0x02, 0x05, 0x01, 0x00, 0xFF, 0x00]);
}

#[test]
fn missing_semicolon_names_line_and_text() {
    match compile(&lines(&["dbt"]), false) {
        Err(CompilerError::LackSemiColon(line, text)) => {
            assert_eq!(line, 1);
            assert_eq!(text, b"dbt".to_vec());
        }
        other => panic!("expected LackSemiColon, got {:?}", other),
    }
    match compile(&lines(&["dbt;", "fin"]), false) {
        Err(CompilerError::LackSemiColon(line, text)) => {
            assert_eq!(line, 2);
            assert_eq!(text, b"fin".to_vec());
        }
        other => panic!("expected LackSemiColon, got {:?}", other),
    }
}

#[test]
fn close_without_open_fails_at_the_statement() {
    match compile(&lines(&["fbc;"]), false) {
        Err(CompilerError::NoLoop(line)) => assert_eq!(line, 1),
        other => panic!("expected NoLoop, got {:?}", other),
    }
}

#[test]
fn bare_loop_marker_lacks_its_operand() {
    match compile(&lines(&["dbc; fbc; dbc; fin;"]), false) {
        Err(CompilerError::MissingOperand(line, m)) => {
            assert_eq!(line, 1);
            assert_eq!(m, b"dbc".to_vec());
        }
        other => panic!("expected MissingOperand, got {:?}", other),
    }
}

#[test]
fn never_started_is_reported_before_open_loop() {
    match compile(&lines(&["dbc 1; fbc; dbc 2; fin;"]), false) {
        Err(CompilerError::MissingStart) => {}
        other => panic!("expected MissingStart, got {:?}", other),
    }
}

#[test]
fn loop_never_closed() {
    match compile(&lines(&["dbt; dbc 1; fin;"]), false) {
        Err(CompilerError::MissingLoopEnd) => {}
        other => panic!("expected MissingLoopEnd, got {:?}", other),
    }
}

#[test]
fn nested_loop_rejected() {
    match compile(&lines(&["dbt; dbc 1; dbc 2;"]), false) {
        Err(CompilerError::MultipleLoop(line)) => assert_eq!(line, 1),
        other => panic!("expected MultipleLoop, got {:?}", other),
    }
}

#[test]
fn program_never_ended() {
    match compile(&lines(&["dbt;"]), false) {
        Err(CompilerError::MissingEnd) => {}
        other => panic!("expected MissingEnd, got {:?}", other),
    }
}

#[test]
fn program_never_started() {
    match compile(&lines(&["mar;"]), false) {
        Err(CompilerError::MissingStart) => {}
        other => panic!("expected MissingStart, got {:?}", other),
    }
}

#[test]
fn empty_input_never_starts() {
    match compile(&lines(&[]), false) {
        Err(CompilerError::MissingStart) => {}
        other => panic!("expected MissingStart, got {:?}", other),
    }
}

#[test]
fn uniform_upper_case_accepted() {
    let out = compile(&lines(&["DBT; FIN;"]), false).unwrap();
    assert_eq!(out.bytes, vec![0x00, 0x06, 0x01, 0x00, 0xFF, 0x00]);
}

#[test]
fn mixed_case_rejected() {
    match compile(&lines(&["Dbt; fin;"]), false) {
        Err(CompilerError::CaseError(line, m)) => {
            assert_eq!(line, 1);
            assert_eq!(m, b"Dbt".to_vec());
        }
        other => panic!("expected CaseError, got {:?}", other),
    }
}

#[test]
fn unknown_mnemonic_carries_the_statement() {
    match compile(&lines(&["dbt; xyz; fin;"]), false) {
        Err(CompilerError::UnknownInstruction(line, text)) => {
            assert_eq!(line, 1);
            assert_eq!(text, b"xyz".to_vec());
        }
        other => panic!("expected UnknownInstruction, got {:?}", other),
    }
}

#[test]
fn operand_out_of_range() {
    match compile(&lines(&["dbt; att 300; fin;"]), false) {
        Err(CompilerError::InvalidOperand(line, m, a)) => {
            assert_eq!(line, 1);
            assert_eq!(m, b"att".to_vec());
            assert_eq!(a, b"300".to_vec());
        }
        other => panic!("expected InvalidOperand, got {:?}", other),
    }
}

#[test]
fn operand_not_a_number() {
    match compile(&lines(&["dbt; att abc; fin;"]), false) {
        Err(CompilerError::InvalidOperand(_, _, a)) => assert_eq!(a, b"abc".to_vec()),
        other => panic!("expected InvalidOperand, got {:?}", other),
    }
}

#[test]
fn everything_after_the_first_space_is_the_operand() {
    match compile(&lines(&["dbt; att 1 2; fin;"]), false) {
        Err(CompilerError::InvalidOperand(_, _, a)) => assert_eq!(a, b"1 2".to_vec()),
        other => panic!("expected InvalidOperand, got {:?}", other),
    }
}

#[test]
fn required_operand_missing() {
    match compile(&lines(&["dbt; att; fin;"]), false) {
        Err(CompilerError::MissingOperand(line, m)) => {
            assert_eq!(line, 1);
            assert_eq!(m, b"att".to_vec());
        }
        other => panic!("expected MissingOperand, got {:?}", other),
    }
}

#[test]
fn superfluous_operand_warns_and_emits_zero() {
    let out = compile(&lines(&["dbt; mar 5; fin;"]), false).unwrap();
    assert_eq!(out.bytes, vec![0x00, 0x08, 0x01, 0x00, 0x60, 0x00, 0xFF, 0x00]);
    assert_eq!(out.warnings.len(), 1);
    assert_eq!(out.warnings[0].line, 1);
    assert_eq!(out.warnings[0].mnemonic, b"mar".to_vec());
}

#[test]
fn comments_are_stripped() {
    let out = compile(&lines(&["# header", "dbt; // go", "fin; % done"]), false).unwrap();
    assert_eq!(out.bytes, vec![0x00, 0x06, 0x01, 0x00, 0xFF, 0x00]);
}

#[test]
fn whitespace_is_normalized() {
    let out = compile(&lines(&["  dbt  ;\tatt \t 5 ;  fin ;  "]), false).unwrap();
    assert_eq!(out.bytes, vec![0x00, 0x08, 0x01, 0x00, 0x02, 0x05, 0xFF, 0x00]);
}

#[test]
fn optimize_stops_reading_after_the_end() {
    let src = ["dbt; fin;", "not even a statement"];
    let out = compile(&lines(&src), true).unwrap();
    assert_eq!(out.bytes, vec![0x00, 0x06, 0x01, 0x00, 0xFF, 0x00]);
    match compile(&lines(&src), false) {
        Err(CompilerError::LackSemiColon(line, _)) => assert_eq!(line, 2),
        other => panic!("expected LackSemiColon, got {:?}", other),
    }
}

#[test]
fn redundant_restart_kept_without_optimize() {
    let out = compile(&lines(&["dbt; dbt; fin;"]), false).unwrap();
    assert_eq!(out.bytes, vec![0x00, 0x08, 0x01, 0x00, 0x01, 0x00, 0xFF, 0x00]);
}

#[test]
fn redundant_restart_dropped_under_optimize() {
    let out = compile(&lines(&["dbt; dbt; fin;"]), true).unwrap();
    assert_eq!(out.bytes, vec![0x00, 0x06, 0x01, 0x00, 0xFF, 0x00]);
}

#[test]
fn trailing_dead_code_on_the_same_line() {
    let out = compile(&lines(&["dbt; fin; att 9;"]), true).unwrap();
    assert_eq!(out.bytes, vec![0x00, 0x06, 0x01, 0x00, 0xFF, 0x00]);
    let kept = compile(&lines(&["dbt; fin; att 9;"]), false).unwrap();
    assert_eq!(kept.bytes, vec![0x00, 0x08, 0x01, 0x00, 0xFF, 0x00, 0x02, 0x09]);
}

#[test]
fn whole_table_encodes() {
    let src = [
        "dbt;", "att 1;", "dal 2;", "det;", "sgo 3;", "sar;", "mar;", "mav 4;", "mre 5;", "trd;",
        "trg;", "dbc 6;", "fbc;", "fin;",
    ];
    let out = compile(&lines(&src), false).unwrap();
    assert_eq!(
        out.bytes,
        vec![
            0x00, 0x1E, 0x01, 0x00, 0x02, 0x01, 0x44, 0x02, 0x45, 0x00, 0x48, 0x03, 0x09, 0x00,
            0x60, 0x00, 0x62, 0x04, 0x63, 0x05, 0x64, 0x00, 0x65, 0x00, 0xC0, 0x06, 0xC1, 0x00,
            0xFF, 0x00
        ]
    );
}

#[test]
fn largest_container_fits_the_header() {
    let mut src: Vec<Vec<u8>> = Vec::new();
    src.push(b"dbt;".to_vec());
    for _ in 0..32764 {
        src.push(b"mar;".to_vec());
    }
    src.push(b"fin;".to_vec());
    let out = compile(&src, false).unwrap();
    assert_eq!(out.bytes.len(), 65534);
    assert_eq!(out.bytes[0], 0xFF);
    assert_eq!(out.bytes[1], 0xFE);
}

#[test]
fn container_too_long_for_the_header() {
    let mut src: Vec<Vec<u8>> = Vec::new();
    src.push(b"dbt;".to_vec());
    for _ in 0..32766 {
        src.push(b"mar;".to_vec());
    }
    src.push(b"fin;".to_vec());
    match compile(&src, false) {
        Err(CompilerError::Overflow) => {}
        other => panic!("expected Overflow, got {:?}", other),
    }
}
