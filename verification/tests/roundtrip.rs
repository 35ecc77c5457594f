use microasm::compiler::compile;
use microasm::decompiler::decompile;

fn lines(src: &[&str]) -> Vec<Vec<u8>> {
    src.iter().map(|s| s.as_bytes().to_vec()).collect()
}

fn split_lines(text: &[u8]) -> Vec<Vec<u8>> {
    let mut out: Vec<Vec<u8>> = Vec::new();
    let mut cur: Vec<u8> = Vec::new();
    for &b in text {
        if b == b'\n' {
            out.push(cur);
            cur = Vec::new();
        } else {
            cur.push(b);
        }
    }
    out.push(cur);
    out
}

#[test]
fn assemble_disassemble_assemble() {
    let src = ["dbt;", "att 42;", "dbc 3;", "mav 7;", "fbc;", "fin;"];
    let first = compile(&lines(&src), false).unwrap();
    let text = decompile(&first.bytes).unwrap();
    assert_eq!(text, b"dbt;\natt 42;\ndbc 3;\nmav 7;\nfbc;\nfin;\n".to_vec());
    let second = compile(&split_lines(&text), false).unwrap();
    assert_eq!(second.bytes, first.bytes);
    assert!(second.warnings.is_empty());
}

#[test]
fn round_trip_normalizes_case_comments_and_spacing() {
    let src = ["DBT; % start", "MAR   9;", "fin;"];
    let first = compile(&lines(&src), false).unwrap();
    let text = decompile(&first.bytes).unwrap();
    assert_eq!(text, b"dbt;\nmar;\nfin;\n".to_vec());
    let second = compile(&split_lines(&text), false).unwrap();
    assert_eq!(second.bytes, first.bytes);
    assert!(second.warnings.is_empty());
}

#[test]
fn round_trip_over_the_whole_table() {
    let src = [
        "dbt;", "att 0;", "dal 255;", "det;", "sgo 16;", "sar;", "mar;", "mav 100;", "mre 99;",
        "trd;", "trg;", "dbc 1;", "fbc;", "fin;",
    ];
    let first = compile(&lines(&src), false).unwrap();
    let text = decompile(&first.bytes).unwrap();
    let second = compile(&split_lines(&text), false).unwrap();
    assert_eq!(second.bytes, first.bytes);
    assert!(second.warnings.is_empty());
}
