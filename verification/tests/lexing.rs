use bfi::{lexer, Error, OPERATION};

fn lex(text: &str) -> Result<Vec<OPERATION>, Error> {
    lexer(&String::from(text))
}

#[test]
fn empty_text_gives_empty_program() {
    assert_eq!(lex(""), Ok(vec![]));
}

#[test]
fn each_command_becomes_one_operation() {
    assert_eq!(
        lex("+-><.,"),
        Ok(vec![
            OPERATION::Add,
            OPERATION::Subtract,
            OPERATION::PointerRight,
            OPERATION::PointerLeft,
            OPERATION::Output,
            OPERATION::Input,
        ])
    );
}

#[test]
fn other_characters_are_comments() {
    assert_eq!(lex("add one: + (done)\n"), Ok(vec![OPERATION::Add]));
    assert_eq!(lex("no commands here"), Ok(vec![]));
    assert_eq!(
        lex("ä>ö<ü"),
        Ok(vec![OPERATION::PointerRight, OPERATION::PointerLeft])
    );
}

#[test]
fn empty_loop_jumps_hold_each_other() {
    assert_eq!(
        lex("[]"),
        Ok(vec![OPERATION::JumpIfZero(1), OPERATION::JumpIfNonZero(0)])
    );
}

#[test]
fn clear_loop() {
    assert_eq!(
        lex("+[-]"),
        Ok(vec![
            OPERATION::Add,
            OPERATION::JumpIfZero(3),
            OPERATION::Subtract,
            OPERATION::JumpIfNonZero(1),
        ])
    );
}

#[test]
fn nested_loops() {
    assert_eq!(
        lex("[[]]"),
        Ok(vec![
            OPERATION::JumpIfZero(3),
            OPERATION::JumpIfZero(2),
            OPERATION::JumpIfNonZero(1),
            OPERATION::JumpIfNonZero(0),
        ])
    );
}

#[test]
fn loops_in_a_row() {
    assert_eq!(
        lex("[][+]"),
        Ok(vec![
            OPERATION::JumpIfZero(1),
            OPERATION::JumpIfNonZero(0),
            OPERATION::JumpIfZero(4),
            OPERATION::Add,
            OPERATION::JumpIfNonZero(2),
        ])
    );
}

#[test]
fn addresses_count_commands_not_characters() {
    assert_eq!(
        lex("a [ b - c ] d"),
        Ok(vec![
            OPERATION::JumpIfZero(2),
            OPERATION::Subtract,
            OPERATION::JumpIfNonZero(0),
        ])
    );
}

#[test]
fn unclosed_loop_keeps_address_zero() {
    assert_eq!(lex("["), Ok(vec![OPERATION::JumpIfZero(0)]));
    assert_eq!(
        lex("+["),
        Ok(vec![OPERATION::Add, OPERATION::JumpIfZero(0)])
    );
    assert_eq!(
        lex("[[]"),
        Ok(vec![
            OPERATION::JumpIfZero(0),
            OPERATION::JumpIfZero(2),
            OPERATION::JumpIfNonZero(1),
        ])
    );
    assert_eq!(
        lex("+[[-]"),
        Ok(vec![
            OPERATION::Add,
            OPERATION::JumpIfZero(0),
            OPERATION::JumpIfZero(4),
            OPERATION::Subtract,
            OPERATION::JumpIfNonZero(2),
        ])
    );
}

#[test]
fn stray_close_is_reported_at_position_one() {
    assert_eq!(lex("]"), Err(Error::UnmatchedClosingBracket(1)));
}

#[test]
fn stray_close_position_counts_every_character() {
    assert_eq!(lex("ab]"), Err(Error::UnmatchedClosingBracket(3)));
    assert_eq!(lex("+-]"), Err(Error::UnmatchedClosingBracket(3)));
    assert_eq!(lex("\n\n ]"), Err(Error::UnmatchedClosingBracket(4)));
}

#[test]
fn stray_close_position_counts_characters_not_bytes() {
    assert_eq!(lex("é]"), Err(Error::UnmatchedClosingBracket(2)));
    assert_eq!(lex("日本語]"), Err(Error::UnmatchedClosingBracket(4)));
}

#[test]
fn stray_close_after_closed_loops() {
    assert_eq!(lex("[]]"), Err(Error::UnmatchedClosingBracket(3)));
    assert_eq!(lex("[[]]]"), Err(Error::UnmatchedClosingBracket(5)));
    assert_eq!(lex("[+]-]"), Err(Error::UnmatchedClosingBracket(5)));
}

#[test]
fn first_stray_close_is_the_one_reported() {
    assert_eq!(lex("]]"), Err(Error::UnmatchedClosingBracket(1)));
    assert_eq!(lex("+]+]"), Err(Error::UnmatchedClosingBracket(2)));
}

#[test]
fn stray_close_fails_whatever_follows() {
    assert_eq!(lex("]["), Err(Error::UnmatchedClosingBracket(1)));
    assert_eq!(lex("]+++[-]"), Err(Error::UnmatchedClosingBracket(1)));
}

#[test]
fn lexing_twice_gives_the_same_program() {
    let text = "++[>+[-]<-]>.,[,.]";
    let first = lex(text);
    let second = lex(text);
    assert!(first.is_ok());
    assert_eq!(first, second);
}

#[test]
fn lexing_twice_gives_the_same_error() {
    let text = "+[-]]+";
    assert_eq!(lex(text), Err(Error::UnmatchedClosingBracket(5)));
    assert_eq!(lex(text), lex(text));
}

#[test]
fn jumps_of_a_balanced_text_hold_each_other() {
    let ops = lex("+[>[-]<[[+]>]+]-[]").unwrap();
    let mut loops = 0;
    for (a, op) in ops.iter().enumerate() {
        match *op {
            OPERATION::JumpIfZero(t) => {
                assert!(a < t && t < ops.len());
                assert_eq!(ops[t], OPERATION::JumpIfNonZero(a));
                loops += 1;
            }
            OPERATION::JumpIfNonZero(t) => {
                assert!(t < a);
                assert_eq!(ops[t], OPERATION::JumpIfZero(a));
            }
            _ => {}
        }
    }
    assert_eq!(loops, 5);
}

#[test]
fn jumps_stay_inside_the_program() {
    for text in ["[", "[[", "+[[-]", "[]", "[[][]]", "[>[<]"] {
        let ops = lex(text).unwrap();
        for op in ops.iter() {
            match *op {
                OPERATION::JumpIfZero(t) => assert!(t < ops.len()),
                OPERATION::JumpIfNonZero(t) => assert!(t < ops.len()),
                _ => {}
            }
        }
    }
}

#[test]
fn long_text() {
    let mut text = String::new();
    for _ in 0..10000 {
        text.push_str("[+]");
    }
    let ops = lexer(&text).unwrap();
    assert_eq!(ops.len(), 30000);
    assert_eq!(ops[29997], OPERATION::JumpIfZero(29999));
    assert_eq!(ops[29999], OPERATION::JumpIfNonZero(29997));
}

#[test]
fn deep_nesting() {
    let mut text = String::new();
    for _ in 0..500 {
        text.push('[');
    }
    for _ in 0..500 {
        text.push(']');
    }
    let ops = lexer(&text).unwrap();
    for a in 0..500 {
        assert_eq!(ops[a], OPERATION::JumpIfZero(999 - a));
        assert_eq!(ops[999 - a], OPERATION::JumpIfNonZero(a));
    }
}
