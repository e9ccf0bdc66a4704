use larql::arith::alu::{BigInt, Expr, Op};
use larql::arith::extract::{find_expression, parse_rewrite, rewrite_prompt};

fn parse(text: &str) -> Option<String> {
    find_expression(text).map(|e| format!("{} -> {}", e.to_string(), e.eval().to_string()))
}

#[test]
fn explicit_forms_parse_exactly() {
    assert_eq!(parse("12 + 7 ="), Some("12 + 7 -> 19".into()));
    assert_eq!(
        parse("What is 123456 + 654321?"),
        Some("123456 + 654321 -> 777777".into())
    );
    assert_eq!(parse("12345 * 6789"), Some("12345 * 6789 -> 83810205".into()));
    assert_eq!(parse("12×34"), Some("12 * 34 -> 408".into()));
    assert_eq!(parse("3 x 4"), Some("3 * 4 -> 12".into()));
    assert_eq!(parse("100000 - 1 ="), Some("100000 - 1 -> 99999".into()));
    assert_eq!(parse("47−5"), Some("47 - 5 -> 42".into()));
}

#[test]
fn two_op_chains_parse() {
    assert_eq!(
        parse("999 + 111 - 222 ="),
        Some("999 + 111 - 222 -> 888".into())
    );
    assert_eq!(parse("2 + 3 * 4"), Some("2 + 3 * 4 -> 14".into()));
}

#[test]
fn thousands_separators_absorb_into_one_operand() {
    assert_eq!(
        parse("1,234,567 + 1"),
        Some("1234567 + 1 -> 1234568".into())
    );
    assert_eq!(parse("1_000 + 24"), Some("1000 + 24 -> 1024".into()));
}

#[test]
fn expression_stops_at_equals_never_reads_the_sum() {
    let e = find_expression("12 + 7 = 19").expect("expr");
    assert_eq!(e.to_string(), "12 + 7");
}

#[test]
fn distractors_do_not_parse() {
    for text in [
        "My phone number is 4415550172.",
        "The meeting is on 2026-06-11.",
        "Trains depart at 18:45 from platform 3.",
        "Order 66 was executed in 19 BBY.",
        "What is the capital of France?",
        "Account 123456789012345678901234567890 is active.",
        "It takes 5-10 days to ship.",
        "The score was 3/4.",
        "version 1.2.3 released",
    ] {
        assert!(
            find_expression(text).is_none(),
            "false parse on distractor: {text:?}"
        );
    }
}

#[test]
fn hyphen_needs_whitespace_both_sides() {
    assert!(find_expression("100-1").is_none());
    assert!(find_expression("100- 1").is_none());
    assert!(find_expression("100 -1").is_none());
    assert!(find_expression("100 - 1").is_some());
}

#[test]
fn x_must_be_standalone() {
    assert!(find_expression("3x4").is_none(), "3x4 could be a label");
    assert!(find_expression("matrix 3 x 4").is_some());
}

#[test]
fn longest_chain_wins() {
    let e = find_expression("page 7 + 1, then 10 + 20 + 30").expect("expr");
    assert_eq!(e.to_string(), "10 + 20 + 30");
}

#[test]
fn rewrite_prompt_embeds_question_and_two_shots() {
    let p = rewrite_prompt("If a box holds 12 eggs, how many in 4 boxes?");
    assert!(p.contains("7 + 5"));
    assert!(p.contains("240 * 3"));
    assert!(p.ends_with("E:"));
    assert!(p.contains("how many in 4 boxes?"));
}

#[test]
fn parse_rewrite_reads_first_line_only() {
    let e = parse_rewrite(" 240 * 3\nQ: another question\nE: 1 + 1").expect("expr");
    assert_eq!(e.to_string(), "240 * 3");
}

#[test]
fn parse_rewrite_discards_a_volunteered_sum() {
    let e = parse_rewrite(" 7 + 5 = 12").expect("expr");
    assert_eq!(e.to_string(), "7 + 5");
}

#[test]
fn parse_rewrite_misses_on_garbage() {
    assert!(parse_rewrite("I cannot rewrite that.").is_none());
    assert!(parse_rewrite("").is_none());
}

#[test]
fn rewrite_prompt_is_exact() {
    let expected = "Rewrite each question as a bare arithmetic expression. Do not solve it.\n\
                    Q: If you have 7 apples and pick 5 more, how many apples do you have?\n\
                    E: 7 + 5\n\
                    Q: A crate holds 240 bottles. How many bottles are in 3 crates?\n\
                    E: 240 * 3\n\
                    Q: How much is it?\n\
                    E:";
    assert_eq!(rewrite_prompt("How much is it?"), expected);
}

#[test]
fn first_of_equally_long_chains_wins() {
    assert_eq!(parse("1 + 2, 3 + 4"), Some("1 + 2 -> 3".into()));
}

#[test]
fn other_tokens_break_a_chain() {
    assert!(find_expression("7 apples + 5").is_none());
    assert!(find_expression("7 + + 5").is_none());
    assert!(find_expression("+ 5").is_none());
    assert!(find_expression("5 +").is_none());
}

#[test]
fn separators_need_a_digit_behind_them() {
    assert_eq!(parse("1, + 2 + 3"), Some("2 + 3 -> 5".into()));
    assert_eq!(parse("1_2_ 3 + 4"), Some("3 + 4 -> 7".into()));
}

#[test]
fn multiplication_binds_more_tightly() {
    assert_eq!(parse("2 * 3 + 4 * 5"), Some("2 * 3 + 4 * 5 -> 26".into()));
    assert_eq!(parse("1 - 2 * 3 - 4"), Some("1 - 2 * 3 - 4 -> -9".into()));
    assert_eq!(parse("9 - 3 - 2"), Some("9 - 3 - 2 -> 4".into()));
}

#[test]
fn numbers_of_any_size_are_exact() {
    assert_eq!(
        parse("123456789012345678901234567890 * 987654321098765432109876543210"),
        Some(
            "123456789012345678901234567890 * 987654321098765432109876543210 -> \
             121932631137021795226185032733622923332237463801111263526900"
                .into()
        )
    );
    assert_eq!(
        parse("99999999999999999999 + 1"),
        Some("99999999999999999999 + 1 -> 100000000000000000000".into())
    );
    assert_eq!(
        parse("1 - 100000000000000000000"),
        Some("1 - 100000000000000000000 -> -99999999999999999999".into())
    );
    assert_eq!(parse("000 * 12"), Some("0 * 12 -> 0".into()));
    assert_eq!(parse("5 - 5"), Some("5 - 5 -> 0".into()));
}

#[test]
fn bigint_parse_takes_digits_only() {
    assert!(BigInt::parse(&[]).is_none());
    assert!(BigInt::parse(&['1', 'a']).is_none());
    assert!(BigInt::parse(&['-', '1']).is_none());
    assert_eq!(BigInt::parse(&['0', '0', '7']).unwrap().to_string(), "7");
}

#[test]
fn expression_built_by_hand() {
    let n = |s: &str| BigInt::parse(&s.chars().collect::<Vec<char>>()).unwrap();
    let e = Expr {
        operands: vec![n("10"), n("3"), n("4")],
        ops: vec![Op::Sub, Op::Mul],
    };
    assert_eq!(e.to_string(), "10 - 3 * 4");
    assert_eq!(e.eval().to_string(), "-2");
}

#[test]
fn nothing_after_an_equals_sign_is_read() {
    for sum in ["", " 12", " 1 + 1 + 1", "\n9 * 9 * 9", " 3\r\n"] {
        let e = parse_rewrite(&format!("7 + 5 ={sum}")).expect("expr");
        assert_eq!(e.to_string(), "7 + 5");
    }
    let e = parse_rewrite("7 + 5 \u{ff1d} 1 + 1 + 1").expect("expr");
    assert_eq!(e.to_string(), "7 + 5");
    assert!(parse_rewrite("= 1 + 1").is_none());
    // The sign makes no difference to what stands before it.
    let bare = parse_rewrite("7 + 5").expect("expr");
    assert_eq!(bare.to_string(), "7 + 5");
}

#[test]
fn leading_blank_lines_are_skipped() {
    let e = parse_rewrite("\n\r\n  2 * 8\r\n9 + 9 + 9").expect("expr");
    assert_eq!(e.to_string(), "2 * 8");
    assert!(parse_rewrite("none here\n2 * 8").is_none());
}

#[test]
fn text_without_operators_never_parses() {
    assert!(find_expression("1 2 3 / 4 . 5 , 6 = 7 (8) [9]").is_none());
}

#[test]
fn written_expressions_read_back() {
    for text in ["12 + 7", "1 - 2 * 3 - 4", "0 * 99999999999999999999 + 5"] {
        let e = find_expression(text).expect("expr");
        assert_eq!(e.to_string(), text);
        let again = parse_rewrite(&e.to_string()).expect("expr");
        assert_eq!(again.to_string(), text);
        assert_eq!(again.eval().to_string(), e.eval().to_string());
    }
}
