//! Tests of the translator: the mnemonic grammar, the byte encodings,
//! and the line-by-line assembly of source text.

use stackvm::assembler::assemble;
use stackvm::op::{Op, TranslateError};

#[test]
fn assemble_demo_scenario() {
    let bytecode = assemble("PUSH 5\nPRINT_TOP\nPUSH 10\nADD\nPRINT").unwrap();
    assert_eq!(bytecode, vec![0x01, 0x05, 0x06, 0x01, 0x0A, 0x02, 0x05]);
}

#[test]
fn assemble_empty_source() {
    assert_eq!(assemble(""), Ok(vec![]));
}

#[test]
fn assemble_blank_only_source() {
    assert_eq!(assemble("\n \t \n\r\n   \n"), Ok(vec![]));
}

#[test]
fn assemble_skips_blank_lines_between_instructions() {
    let bytecode = assemble("PUSH 1\n\n  \nPUSH 2").unwrap();
    assert_eq!(bytecode, vec![0x01, 0x01, 0x01, 0x02]);
}

#[test]
fn assemble_tolerates_extra_whitespace() {
    let bytecode = assemble("  PUSH \t 7 \r").unwrap();
    assert_eq!(bytecode, vec![0x01, 0x07]);
}

#[test]
fn assemble_crlf_line_endings() {
    let bytecode = assemble("PUSH 5\r\nPRINT\r\n").unwrap();
    assert_eq!(bytecode, vec![0x01, 0x05, 0x05]);
}

#[test]
fn assemble_every_mnemonic() {
    let source = "PUSH 0\nADD\nSUB\nMUL\nPRINT\nPRINT_TOP\nDUP\nSWAP\nDROP";
    let bytecode = assemble(source).unwrap();
    assert_eq!(
        bytecode,
        vec![0x01, 0x00, 0x02, 0x03, 0x04, 0x05, 0x06, 0x07, 0x08, 0x09]
    );
}

#[test]
fn push_missing_operand_is_arity_mismatch() {
    assert_eq!(assemble("PUSH"), Err(TranslateError::ArityMismatch));
}

#[test]
fn known_mnemonic_with_extra_token_is_arity_mismatch() {
    assert_eq!(assemble("ADD 1"), Err(TranslateError::ArityMismatch));
    assert_eq!(assemble("PUSH 1 2"), Err(TranslateError::ArityMismatch));
}

#[test]
fn unknown_mnemonic_is_rejected() {
    assert_eq!(assemble("NOP"), Err(TranslateError::UnknownMnemonic));
    assert_eq!(assemble("push 5"), Err(TranslateError::UnknownMnemonic));
    assert_eq!(assemble("JUNK 1 2 3"), Err(TranslateError::UnknownMnemonic));
}

#[test]
fn operand_out_of_range_is_bad_operand() {
    assert_eq!(assemble("PUSH 256"), Err(TranslateError::BadOperand));
    assert_eq!(assemble("PUSH 1000"), Err(TranslateError::BadOperand));
}

#[test]
fn operand_not_a_number_is_bad_operand() {
    assert_eq!(assemble("PUSH abc"), Err(TranslateError::BadOperand));
    assert_eq!(assemble("PUSH -1"), Err(TranslateError::BadOperand));
    assert_eq!(assemble("PUSH +"), Err(TranslateError::BadOperand));
    assert_eq!(assemble("PUSH 1x"), Err(TranslateError::BadOperand));
}

#[test]
fn operand_boundaries() {
    assert_eq!(assemble("PUSH 0"), Ok(vec![0x01, 0x00]));
    assert_eq!(assemble("PUSH 255"), Ok(vec![0x01, 0xFF]));
}

#[test]
fn operand_leading_zeros_and_plus() {
    assert_eq!(assemble("PUSH 007"), Ok(vec![0x01, 0x07]));
    assert_eq!(assemble("PUSH +5"), Ok(vec![0x01, 0x05]));
}

#[test]
fn unicode_whitespace_is_blank() {
    assert_eq!(assemble("\u{0C}"), Ok(vec![]));
    assert_eq!(assemble("\u{0B}\u{85}\u{A0}\u{2003}\u{3000}\n \t"), Ok(vec![]));
}

#[test]
fn unicode_whitespace_separates_tokens() {
    assert_eq!(assemble("PUSH\u{A0}5"), Ok(vec![0x01, 0x05]));
    assert_eq!(assemble("\u{2028}PUSH\u{0C}7\u{205F}"), Ok(vec![0x01, 0x07]));
}

#[test]
fn whitespace_set_matches_std() {
    // U+3000 is the last character with the White_Space property, so this
    // range decides the whole set.  A newline splits the line instead.
    for u in 0..=0x3001u32 {
        let c = match char::from_u32(u) {
            Some(c) => c,
            None => continue,
        };
        let source = format!("PUSH{c}5");
        let result = assemble(&source);
        if c == '\n' {
            assert_eq!(result, Err(TranslateError::ArityMismatch), "U+{u:04X}");
        } else if c.is_whitespace() {
            assert_eq!(result, Ok(vec![0x01, 0x05]), "U+{u:04X}");
        } else {
            assert_eq!(result, Err(TranslateError::UnknownMnemonic), "U+{u:04X}");
        }
    }
}

#[test]
fn first_malformed_line_stops_translation() {
    assert_eq!(
        assemble("PUSH 1\nBAD\nPUSH 2"),
        Err(TranslateError::UnknownMnemonic)
    );
}

#[test]
fn from_parts_matches_grammar() {
    assert_eq!(Op::from_parts(&["PUSH", "5"]), Ok(Op::Push(5)));
    assert_eq!(Op::from_parts(&["ADD"]), Ok(Op::Add));
    assert_eq!(Op::from_parts(&["SUB"]), Ok(Op::Sub));
    assert_eq!(Op::from_parts(&["MUL"]), Ok(Op::Mul));
    assert_eq!(Op::from_parts(&["PRINT"]), Ok(Op::Print));
    assert_eq!(Op::from_parts(&["PRINT_TOP"]), Ok(Op::PrintTop));
    assert_eq!(Op::from_parts(&["DUP"]), Ok(Op::Dup));
    assert_eq!(Op::from_parts(&["SWAP"]), Ok(Op::Swap));
    assert_eq!(Op::from_parts(&["DROP"]), Ok(Op::Drop));
    assert_eq!(Op::from_parts(&[]), Err(TranslateError::UnknownMnemonic));
}

#[test]
fn opcode_table_is_fixed() {
    assert_eq!(Op::Push(9).opcode(), 0x01);
    assert_eq!(Op::Add.opcode(), 0x02);
    assert_eq!(Op::Sub.opcode(), 0x03);
    assert_eq!(Op::Mul.opcode(), 0x04);
    assert_eq!(Op::Print.opcode(), 0x05);
    assert_eq!(Op::PrintTop.opcode(), 0x06);
    assert_eq!(Op::Dup.opcode(), 0x07);
    assert_eq!(Op::Swap.opcode(), 0x08);
    assert_eq!(Op::Drop.opcode(), 0x09);
}

#[test]
fn encode_decode_round_trip() {
    let ops = [
        Op::Push(0),
        Op::Push(255),
        Op::Add,
        Op::Sub,
        Op::Mul,
        Op::Print,
        Op::PrintTop,
        Op::Dup,
        Op::Swap,
        Op::Drop,
    ];
    for op in ops {
        let bytes = op.to_bytecode();
        assert_eq!(Op::decode(&bytes), Some(op));
    }
}

#[test]
fn parse_encode_decode_round_trip() {
    let op = Op::from_parts(&["PUSH", "42"]).unwrap();
    let bytes = op.to_bytecode();
    assert_eq!(bytes, vec![0x01, 42]);
    assert_eq!(Op::decode(&bytes), Some(op));
}

#[test]
fn decode_rejects_junk() {
    assert_eq!(Op::decode(&[]), None);
    assert_eq!(Op::decode(&[0x00]), None);
    assert_eq!(Op::decode(&[0x0A]), None);
    assert_eq!(Op::decode(&[0x01]), None);
    assert_eq!(Op::decode(&[0x02, 0x02]), None);
}
