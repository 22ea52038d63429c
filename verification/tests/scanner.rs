use evm_coverage::opcode::{classify, OpcodeKind};
use evm_coverage::{process_bytecode, scan, HexError, IterableMapping};

fn marked(marks: &IterableMapping<usize, bool>, len: usize) -> Vec<usize> {
    let mut offsets = Vec::new();
    for offset in 0..len + 40 {
        if marks.at(offset) == Some(&true) {
            offsets.push(offset);
        }
    }
    offsets
}

#[test]
fn no_push1() {
    let test_string = "010002040a";
    let test_result = process_bytecode(String::from(test_string)).unwrap();
    assert_eq!(test_result.total, 5);
    for i in 0..5 {
        assert_eq!(test_result.at(i), Some(&true));
    }
}

#[test]
fn plain_code_marks_every_offset() {
    let code = [0x00, 0x0b, 0x10, 0x1a, 0x20, 0x30, 0x45, 0x5b, 0x80, 0x9f, 0xa4, 0xf4, 0xff];
    let marks = scan(&code);
    assert_eq!(marks.total, code.len());
    assert_eq!(marked(&marks, code.len()), (0..code.len()).collect::<Vec<usize>>());
}

#[test]
fn push1_hides_its_operand() {
    let marks = scan(&[0x60, 0xff]);
    assert_eq!(marks.total, 1);
    assert_eq!(marks.at(0), Some(&true));
    assert_eq!(marks.at(1), None);
}

#[test]
fn truncated_push32_is_marked_once() {
    for trailing in 0..32 {
        let mut code = vec![0x7f];
        code.extend_from_slice(&vec![0x01; trailing]);
        let marks = scan(&code);
        assert_eq!(marks.total, 1);
        assert_eq!(marked(&marks, code.len()), vec![0]);
        assert!(marks.map.keys().all(|offset| *offset < code.len()));
    }
}

#[test]
fn every_push_steps_over_its_operand() {
    for width in 1..=32usize {
        let opcode = 0x5f + width as u8;
        // The operand is complete and an ADD follows it.
        let mut code = vec![opcode];
        code.extend_from_slice(&vec![0x60; width]);
        code.push(0x01);
        let marks = scan(&code);
        assert_eq!(marks.total, 2);
        assert_eq!(marked(&marks, code.len()), vec![0, width + 1]);
        // The operand lacks its last byte.
        let marks = scan(&code[..width]);
        assert_eq!(marks.total, 1);
        assert_eq!(marked(&marks, width), vec![0]);
    }
}

#[test]
fn push32_alone_is_marked() {
    let marks = scan(&[0x7f]);
    assert_eq!(marks.total, 1);
    assert_eq!(marked(&marks, 1), vec![0]);
}

#[test]
fn complete_push32_is_followed_by_the_next_instruction() {
    let mut code = vec![0x7f];
    code.extend_from_slice(&[0x60; 32]);
    code.push(0x01);
    code.push(0x02);
    let marks = scan(&code);
    assert_eq!(marks.total, 3);
    assert_eq!(marked(&marks, code.len()), vec![0, 33, 34]);
}

#[test]
fn operand_bytes_that_look_like_opcodes_are_data() {
    // PUSH2 0x60 0x01, ADD, PUSH1 0x7f, STOP
    let marks = scan(&[0x61, 0x60, 0x01, 0x01, 0x60, 0x7f, 0x00]);
    assert_eq!(marks.total, 4);
    assert_eq!(marked(&marks, 7), vec![0, 3, 4, 6]);
    assert_eq!(marks.at(1), None);
    assert_eq!(marks.at(2), None);
    assert_eq!(marks.at(5), None);
}

#[test]
fn unknown_bytes_are_passed_over_one_at_a_time() {
    // 0x0c and 0xef are assigned to no instruction; 0x60 after them is a push.
    let marks = scan(&[0x0c, 0x01, 0xef, 0x60, 0x00, 0x21, 0x02]);
    assert_eq!(marks.total, 3);
    assert_eq!(marked(&marks, 7), vec![1, 3, 6]);
}

#[test]
fn empty_code_has_no_instruction() {
    let marks = scan(&[]);
    assert_eq!(marks.total, 0);
    assert_eq!(marks.at(0), None);
    assert!(marks.map.is_empty());
}

#[test]
fn total_counts_the_keys() {
    let code = [0x60, 0x00, 0x60, 0x00, 0x01, 0xfe, 0x0f];
    let marks = scan(&code);
    assert_eq!(marks.total, marks.map.len());
    assert_eq!(marks.total, 4);
    assert!(marks.map.values().all(|mark| *mark));
    assert!(marks.map.keys().all(|offset| *offset < code.len()));
}

#[test]
fn classify_follows_the_opcode_table() {
    let plain: [(u8, u8); 11] = [
        (0x00, 0x0b),
        (0x10, 0x1a),
        (0x20, 0x20),
        (0x30, 0x3e),
        (0x40, 0x45),
        (0x50, 0x5b),
        (0x80, 0x8f),
        (0x90, 0x9f),
        (0xa0, 0xa4),
        (0xf0, 0xf4),
        (0xfd, 0xff),
    ];
    for op in 0..=255u8 {
        let kind = classify(op);
        if (0x60..=0x7f).contains(&op) {
            assert_eq!(kind, OpcodeKind::Push(op - 0x5f));
        } else if plain.iter().any(|(low, high)| *low <= op && op <= *high) {
            assert_eq!(kind, OpcodeKind::Plain);
        } else {
            assert_eq!(kind, OpcodeKind::Unknown);
        }
    }
    assert_eq!(classify(0x60), OpcodeKind::Push(1));
    assert_eq!(classify(0x7f), OpcodeKind::Push(32));
    assert_eq!(classify(0x0c), OpcodeKind::Unknown);
    assert_eq!(classify(0x5c), OpcodeKind::Unknown);
    assert_eq!(classify(0xa5), OpcodeKind::Unknown);
    assert_eq!(classify(0xfc), OpcodeKind::Unknown);
}

#[test]
fn hexadecimal_text_scans_like_its_bytes() {
    let text = "  6160010160 7F00\n";
    assert!(matches!(
        process_bytecode(String::from(text)),
        Err(HexError::InvalidDigit(' '))
    ));
    let marks = process_bytecode(String::from("  61600101607F00\n")).unwrap();
    let same = scan(&[0x61, 0x60, 0x01, 0x01, 0x60, 0x7f, 0x00]);
    assert_eq!(marks.total, same.total);
    assert_eq!(marked(&marks, 7), marked(&same, 7));
}

#[test]
fn hexadecimal_text_is_refused_with_the_reason() {
    assert!(matches!(process_bytecode(String::from("010")), Err(HexError::OddLength)));
    assert!(matches!(process_bytecode(String::from("0g")), Err(HexError::InvalidDigit('g'))));
    assert!(matches!(process_bytecode(String::from("")), Ok(_)));
}
