use collaborative_editor::client::{
    after_failed_attempt, calculate_retry_delay, is_white_space_char, parse_user_input, Edit,
    RetryDecision, MAX_RETRIES,
};
use collaborative_editor::input::InputError;
use std::time::Duration;

#[test]
fn test_parse_user_input_insert_success() {
    let input = "5,hello";
    let expected = Edit {
        position: 5,
        insert: Some("hello".to_string()),
        delete: None,
    };
    let result = parse_user_input(input).unwrap();
    assert_eq!(result, expected);
}

#[test]
fn test_parse_user_input_delete_success() {
    let input = "3,delete2";
    let expected = Edit {
        position: 3,
        insert: None,
        delete: Some(2),
    };
    let result = parse_user_input(input).unwrap();
    assert_eq!(result, expected);
}

#[test]
fn test_parse_user_input_invalid_format() {
    let input = "invalid input";
    let result = parse_user_input(input);
    assert!(result.is_err());
    assert_eq!(
        result.err().unwrap(),
        "Invalid input format. Use 'position,insert' or 'position,delete'"
    );
}

#[test]
fn test_parse_user_input_invalid_position() {
    let input = "abc,hello";
    let result = parse_user_input(input);
    assert!(result.is_err());
    assert_eq!(
        result.err().unwrap(),
        "Invalid position. Please enter a number."
    );
}

#[test]
fn test_parse_user_input_invalid_delete_count() {
    let input = "5,deleteabc";
    let result = parse_user_input(input);
    assert!(result.is_err());
    assert_eq!(
        result.err().unwrap(),
        "Invalid delete count. Please enter a number."
    );
}

#[test]
fn test_calculate_retry_delay() {
    assert_eq!(calculate_retry_delay(1), Duration::from_secs(2));
    assert_eq!(calculate_retry_delay(2), Duration::from_secs(4));
    assert_eq!(calculate_retry_delay(3), Duration::from_secs(8));
}

#[test]
fn test_parse_user_input_empty_insert() {
    let input = "5,";
    let expected = Edit {
        position: 5,
        insert: Some("".to_string()),
        delete: None,
    };
    let result = parse_user_input(input).unwrap();
    assert_eq!(result, expected);
}

#[test]
fn test_parse_user_input_negative_position() {
    let input = "-1,hello";
    let result = parse_user_input(input);
    assert!(result.is_err());
    assert_eq!(
        result.err().unwrap(),
        "Invalid position. Please enter a number."
    );
}

#[test]
fn test_parse_user_input_zero_delete() {
    let input = "5,delete0";
    let expected = Edit {
        position: 5,
        insert: None,
        delete: Some(0),
    };
    let result = parse_user_input(input).unwrap();
    assert_eq!(result, expected);
}

#[test]
fn test_parse_user_input_invalid_delete_syntax() {
    let input = "5,delete";
    let result = parse_user_input(input);
    assert!(result.is_err());
    assert_eq!(
        result.err().unwrap(),
        "Invalid delete count. Please enter a number."
    );
}

const FORMAT: &str = "Invalid input format. Use 'position,insert' or 'position,delete'";
const POSITION: &str = "Invalid position. Please enter a number.";
const DELETE_COUNT: &str = "Invalid delete count. Please enter a number.";

fn insert(position: usize, text: &str) -> Result<Edit, String> {
    Ok(Edit { position, insert: Some(text.to_string()), delete: None })
}

fn delete(position: usize, count: usize) -> Result<Edit, String> {
    Ok(Edit { position, insert: None, delete: Some(count) })
}

fn failure(message: &str) -> Result<Edit, String> {
    Err(message.to_string())
}

/// The same grammar, written with the standard library's own trimming,
/// splitting and number parsing.
fn with_std(input: &str) -> Result<Edit, String> {
    let parts: Vec<&str> = input.trim().split(',').collect();
    if parts.len() != 2 {
        return failure(FORMAT);
    }
    let position: usize = match parts[0].parse() {
        Ok(position) => position,
        Err(_) => return failure(POSITION),
    };
    if parts[1].starts_with("delete") {
        match parts[1][6..].trim().parse() {
            Ok(count) => delete(position, count),
            Err(_) => failure(DELETE_COUNT),
        }
    } else {
        insert(position, parts[1])
    }
}

#[test]
fn messages_of_the_three_mistakes() {
    assert_eq!(InputError::Format.message(), FORMAT);
    assert_eq!(InputError::Position.message(), POSITION);
    assert_eq!(InputError::DeleteCount.message(), DELETE_COUNT);
}

#[test]
fn white_space_round_the_line_is_dropped() {
    assert_eq!(parse_user_input("  5,hello \n"), insert(5, "hello"));
    assert_eq!(parse_user_input("\t7,delete3\r\n"), delete(7, 3));
    assert_eq!(parse_user_input("\u{3000}1,x\u{a0}\u{2003}"), insert(1, "x"));
}

#[test]
fn white_space_inside_the_line_is_kept_or_refused() {
    assert_eq!(parse_user_input("5, hello"), insert(5, " hello"));
    assert_eq!(parse_user_input("5,hello world"), insert(5, "hello world"));
    assert_eq!(parse_user_input("5 ,hello"), failure(POSITION));
    assert_eq!(parse_user_input("5, delete2"), insert(5, " delete2"));
}

#[test]
fn delete_count_is_trimmed() {
    assert_eq!(parse_user_input("5,delete 2"), delete(5, 2));
    assert_eq!(parse_user_input("5,delete\t12"), delete(5, 12));
    assert_eq!(parse_user_input("5,delete 1 2"), failure(DELETE_COUNT));
    assert_eq!(parse_user_input("5,delete   "), failure(DELETE_COUNT));
}

#[test]
fn whatever_begins_with_the_word_is_a_delete() {
    assert_eq!(parse_user_input("5,deleted"), failure(DELETE_COUNT));
    assert_eq!(parse_user_input("5,delete-1"), failure(DELETE_COUNT));
    assert_eq!(parse_user_input("5,delet"), insert(5, "delet"));
    assert_eq!(parse_user_input("5,Delete2"), insert(5, "Delete2"));
    assert_eq!(parse_user_input("5,xdelete2"), insert(5, "xdelete2"));
}

#[test]
fn numbers_may_begin_with_a_plus_sign_and_with_zeros() {
    assert_eq!(parse_user_input("+5,x"), insert(5, "x"));
    assert_eq!(parse_user_input("007,x"), insert(7, "x"));
    assert_eq!(parse_user_input("+0,delete+2"), delete(0, 2));
    assert_eq!(parse_user_input("+,x"), failure(POSITION));
    assert_eq!(parse_user_input("++5,x"), failure(POSITION));
    assert_eq!(parse_user_input(",x"), failure(POSITION));
    assert_eq!(parse_user_input("5.0,x"), failure(POSITION));
    assert_eq!(parse_user_input("٣,x"), failure(POSITION));
    assert_eq!(parse_user_input("0x10,x"), failure(POSITION));
}

#[test]
fn numbers_must_fit_the_machine_word() {
    let largest = usize::MAX.to_string();
    assert_eq!(parse_user_input(&format!("{},x", largest)), insert(usize::MAX, "x"));
    assert_eq!(
        parse_user_input(&format!("1,delete{}", largest)),
        delete(1, usize::MAX)
    );
    let mut beyond = largest.clone();
    let last = beyond.pop().unwrap();
    beyond.push(((last as u8) + 1) as char);
    assert_eq!(parse_user_input(&format!("{},x", beyond)), failure(POSITION));
    assert_eq!(parse_user_input(&format!("{}0,x", largest)), failure(POSITION));
    assert_eq!(
        parse_user_input(&format!("1,delete{}", beyond)),
        failure(DELETE_COUNT)
    );
    assert_eq!(
        parse_user_input("99999999999999999999999999999999999999999,x"),
        failure(POSITION)
    );
}

#[test]
fn line_must_hold_exactly_one_comma() {
    assert_eq!(parse_user_input(""), failure(FORMAT));
    assert_eq!(parse_user_input("   "), failure(FORMAT));
    assert_eq!(parse_user_input("5"), failure(FORMAT));
    assert_eq!(parse_user_input("5,a,b"), failure(FORMAT));
    assert_eq!(parse_user_input("abc,,"), failure(FORMAT));
    assert_eq!(parse_user_input(","), failure(POSITION));
}

#[test]
fn format_is_judged_before_position_and_position_before_count() {
    assert_eq!(parse_user_input("abc,delete,x"), failure(FORMAT));
    assert_eq!(parse_user_input("abc,deletex"), failure(POSITION));
    assert_eq!(parse_user_input("1,deletex"), failure(DELETE_COUNT));
}

#[test]
fn typed_text_may_hold_wide_characters() {
    assert_eq!(parse_user_input("2,héllo €😀"), insert(2, "héllo €😀"));
    assert_eq!(parse_user_input(" 2,é "), insert(2, "é"));
    assert_eq!(parse_user_input("é,x"), failure(POSITION));
}

#[test]
fn white_space_is_what_the_standard_library_calls_white_space() {
    for code in 0..=0x10ffffu32 {
        if let Some(c) = char::from_u32(code) {
            assert_eq!(is_white_space_char(c), c.is_whitespace(), "U+{:04X}", code);
        }
    }
}

#[test]
fn parser_agrees_with_the_standard_library_on_many_lines() {
    let pieces = [
        "", " ", "\t", "\u{a0}", ",", "+", "-", "0", "5", "12", "007", "x", "delete", "delete ",
        "del", "é", "18446744073709551615", "18446744073709551616", "4294967296", "\n",
    ];
    let mut lines = 0;
    for a in pieces.iter() {
        for b in pieces.iter() {
            for c in pieces.iter() {
                for d in pieces.iter() {
                    let line = format!("{}{}{}{}", a, b, c, d);
                    assert_eq!(parse_user_input(&line), with_std(&line), "{:?}", line);
                    lines += 1;
                }
            }
        }
    }
    assert_eq!(lines, 160000);
}

#[test]
fn delay_doubles_from_one_retry_to_the_next() {
    assert_eq!(calculate_retry_delay(0), Duration::from_secs(1));
    let mut seconds: u64 = 1;
    for retry in 0..64u32 {
        assert_eq!(calculate_retry_delay(retry), Duration::from_secs(seconds));
        assert_eq!(calculate_retry_delay(retry), Duration::from_secs(2u64.pow(retry)));
        seconds = seconds.wrapping_mul(2);
    }
    assert_eq!(calculate_retry_delay(63), Duration::from_secs(9223372036854775808));
}

#[test]
fn five_retries_are_made_and_then_no_more() {
    assert_eq!(MAX_RETRIES, 5);
    let waits = [2u64, 4, 8, 16, 32];
    for made in 0..5u32 {
        assert_eq!(
            after_failed_attempt(made),
            RetryDecision::Retry {
                attempt: made + 1,
                delay: Duration::from_secs(waits[made as usize]),
            }
        );
    }
    assert_eq!(after_failed_attempt(5), RetryDecision::GiveUp);
    assert_eq!(after_failed_attempt(6), RetryDecision::GiveUp);
    assert_eq!(after_failed_attempt(u32::MAX), RetryDecision::GiveUp);
}
