use microasm::decompiler::decompile;
use microasm::errors::DecompilerError;
use microasm::table::{instruction_data, instruction_name};

#[test]
fn minimal_container_decodes() {
    let text = decompile(&vec![0x00, 0x06, 0x01, 0x00, 0xFF, 0x00]).unwrap();
    assert_eq!(text, b"dbt;\nfin;\n".to_vec());
}

#[test]
fn empty_container_rejected() {
    assert_eq!(decompile(&vec![]), Err(DecompilerError::FileFormat));
}

#[test]
fn odd_length_rejected() {
    assert_eq!(decompile(&vec![0x00, 0x03, 0x01]), Err(DecompilerError::FileFormat));
}

#[test]
fn declared_length_must_match() {
    assert_eq!(
        decompile(&vec![0x00, 0x08, 0x01, 0x00, 0xFF, 0x00]),
        Err(DecompilerError::FileFormat)
    );
    assert_eq!(
        decompile(&vec![0x06, 0x00, 0x01, 0x00, 0xFF, 0x00]),
        Err(DecompilerError::FileFormat)
    );
}

#[test]
fn header_only_container_is_empty_text() {
    assert_eq!(decompile(&vec![0x00, 0x02]), Ok(Vec::new()));
}

#[test]
fn header_only_container_with_wrong_length() {
    assert_eq!(decompile(&vec![0x00, 0x01]), Err(DecompilerError::FileFormat));
}

#[test]
fn unknown_opcode_is_named() {
    assert_eq!(
        decompile(&vec![0x00, 0x04, 0x55, 0x00]),
        Err(DecompilerError::UnknownInstruction(0x55))
    );
}

#[test]
fn alias_opcode_decodes_as_mar() {
    let text = decompile(&vec![0x00, 0x06, 0x61, 0x07, 0xFF, 0x00]).unwrap();
    assert_eq!(text, b"mar;\nfin;\n".to_vec());
}

#[test]
fn operands_are_rendered_in_decimal() {
    let text = decompile(&vec![0x00, 0x08, 0x02, 0xFF, 0xC0, 0x00, 0xFF, 0x00]).unwrap();
    assert_eq!(text, b"att 255;\ndbc 0;\nfin;\n".to_vec());
}

#[test]
fn table_lookups_agree() {
    let table: [(&[u8], u8, bool); 14] = [
        (b"dbt", 0x01, false),
        (b"att", 0x02, true),
        (b"dal", 0x44, true),
        (b"det", 0x45, false),
        (b"sgo", 0x48, true),
        (b"sar", 0x09, false),
        (b"mar", 0x60, false),
        (b"mav", 0x62, true),
        (b"mre", 0x63, true),
        (b"trd", 0x64, false),
        (b"trg", 0x65, false),
        (b"dbc", 0xC0, true),
        (b"fbc", 0xC1, false),
        (b"fin", 0xFF, false),
    ];
    for (name, opcode, needs) in table {
        assert_eq!(instruction_data(name), Some((opcode, needs)));
        let (back, back_needs) = instruction_name(opcode).unwrap();
        assert_eq!(back, name.to_vec());
        assert_eq!(back_needs, needs);
    }
}

#[test]
fn lookups_reject_strangers() {
    assert_eq!(instruction_data(b"nop"), None);
    assert_eq!(instruction_data(b"dbtt"), None);
    assert_eq!(instruction_name(0x03), None);
}

#[test]
fn alias_lookup() {
    let (name, needs) = instruction_name(0x61).unwrap();
    assert_eq!(name, b"mar".to_vec());
    assert!(!needs);
}
