use evm_coverage::process_pc;

fn parsed(text: &str) -> Vec<i32> {
    process_pc(String::from(text)).unwrap()
}

fn refused(text: &str) -> String {
    match process_pc(String::from(text)) {
        Ok(pcs) => panic!("accepted as {:?}", pcs),
        Err(error) => error.token,
    }
}

#[test]
fn in_order1() {
    let test_string = "PC: 0\nPC: 1\nPC: 2\nPC: 3\nPC: 4";
    let test_result = process_pc(String::from(test_string)).unwrap();
    assert_eq!(test_result.len(), 5);
    for i in 0..5 {
        assert_eq!(test_result[i], i as i32);
    }
}

#[test]
fn text_without_delimiter_is_one_token() {
    assert_eq!(refused("not a number"), "not a number");
    assert_eq!(parsed("17"), vec![17]);
    assert_eq!(parsed("  17\n"), vec![17]);
}

#[test]
fn empty_text_is_an_empty_trace() {
    assert_eq!(parsed(""), Vec::<i32>::new());
    assert_eq!(parsed(" \n\t "), Vec::<i32>::new());
    assert_eq!(parsed("PC: "), Vec::<i32>::new());
    assert_eq!(parsed("PC: PC: \nPC: "), Vec::<i32>::new());
}

#[test]
fn order_and_duplicates_are_kept() {
    assert_eq!(parsed("PC: 0\nPC: 0\nPC: 1"), vec![0, 0, 1]);
    assert_eq!(parsed("PC: 9\nPC: 3\nPC: 9\nPC: 3\nPC: 0"), vec![9, 3, 9, 3, 0]);
}

#[test]
fn entries_need_no_line_break() {
    assert_eq!(parsed("PC: 1PC: 2PC: 3"), vec![1, 2, 3]);
    assert_eq!(parsed("PC: 1 PC: 2\t\tPC: 3 "), vec![1, 2, 3]);
    assert_eq!(parsed("\r\nPC: 10\r\nPC: 11\r\n"), vec![10, 11]);
}

#[test]
fn unicode_white_space_is_trimmed() {
    assert_eq!(parsed("PC: \u{a0}5\u{2003}\nPC: \u{3000}6\u{85}"), vec![5, 6]);
    assert_eq!(refused("PC: \u{200b}5"), "\u{200b}5");
}

#[test]
fn text_before_the_first_delimiter_is_a_token() {
    assert_eq!(parsed("12\nPC: 13"), vec![12, 13]);
    assert_eq!(refused("trace follows\nPC: 13"), "trace follows");
    assert_eq!(refused("PC:1\nPC: 2"), "PC:1");
}

#[test]
fn signs_are_read() {
    assert_eq!(parsed("PC: -5\nPC: +7\nPC: -0\nPC: +0"), vec![-5, 7, 0, 0]);
    assert_eq!(refused("PC: -"), "-");
    assert_eq!(refused("PC: +"), "+");
    assert_eq!(refused("PC: --5"), "--5");
    assert_eq!(refused("PC: +-5"), "+-5");
    assert_eq!(refused("PC: 5-"), "5-");
    assert_eq!(refused("PC: - 5"), "- 5");
}

#[test]
fn leading_zeros_are_read() {
    assert_eq!(parsed("PC: 007\nPC: 0000000000000000000000000000012"), vec![7, 12]);
    assert_eq!(parsed("PC: -0000000000000002147483648"), vec![i32::MIN]);
}

#[test]
fn bounds_of_i32_are_exact() {
    assert_eq!(parsed("PC: 2147483647\nPC: -2147483648"), vec![i32::MAX, i32::MIN]);
    assert_eq!(refused("PC: 2147483648"), "2147483648");
    assert_eq!(refused("PC: -2147483649"), "-2147483649");
    assert_eq!(refused("PC: 99999999999999999999999999999999"), "99999999999999999999999999999999");
    assert_eq!(refused("PC: 21474836470"), "21474836470");
}

#[test]
fn other_notations_are_refused() {
    assert_eq!(refused("PC: 0x10"), "0x10");
    assert_eq!(refused("PC: 1.5"), "1.5");
    assert_eq!(refused("PC: 1e3"), "1e3");
    assert_eq!(refused("PC: 1 2"), "1 2");
    assert_eq!(refused("PC: twelve"), "twelve");
    assert_eq!(refused("PC: \u{663}"), "\u{663}");
}

#[test]
fn first_bad_token_is_reported() {
    assert_eq!(refused("PC: 1\nPC: x\nPC: y"), "x");
    assert_eq!(refused("PC: 1\nPC: 2\nPC: 3z\nPC: 4"), "3z");
}

#[test]
fn delimiter_is_matched_exactly() {
    assert_eq!(refused("pc: 1"), "pc: 1");
    assert_eq!(refused("PC:  1 PC:2"), "1 PC:2");
    assert_eq!(parsed("PC:  1"), vec![1]);
    assert_eq!(refused("PPC: 4"), "P");
    assert_eq!(refused("PC: 4 PC"), "4 PC");
}

#[test]
fn parsing_agrees_with_the_standard_library() {
    let tokens = [
        "0", "1", "-1", "+1", "007", "-", "+", "", "2147483647", "2147483648", "-2147483648",
        "-2147483649", "4294967296", "12a", "a12", "1_000", " 5", "５",
    ];
    for token in tokens {
        let text = format!("PC: {}", token);
        let trimmed = token.trim();
        match process_pc(text) {
            Ok(pcs) => {
                if trimmed.is_empty() {
                    assert!(pcs.is_empty());
                } else {
                    assert_eq!(pcs, vec![trimmed.parse::<i32>().unwrap()]);
                }
            },
            Err(error) => {
                assert_eq!(error.token, trimmed);
                assert!(trimmed.parse::<i32>().is_err());
            },
        }
    }
}

#[test]
fn splitting_agrees_with_the_standard_library() {
    let texts = [
        "PC: 0\nPC: 1\nPC: 2",
        "PC: PC: 7",
        "3PC: 4PC: ",
        "\u{2028}PC: 8\u{2029}PC: 9\u{205f}",
        "PC: 1\u{1680}\u{202f}PC: -2",
    ];
    for text in texts {
        let expected: Vec<i32> = text
            .split("PC: ")
            .map(|piece| piece.trim())
            .filter(|token| !token.is_empty())
            .map(|token| token.parse::<i32>().unwrap())
            .collect();
        assert_eq!(parsed(text), expected);
    }
}
