use formally::combinators::{or, sep_by_while_counting, skip, skip_blanks, ParseError};

fn digit(input: &Vec<char>, at: usize) -> Result<(u32, usize), usize> {
    match input.get(at).and_then(|c| c.to_digit(10)) {
        Some(d) => Ok((d, at + 1)),
        None => Err(at),
    }
}

fn comma(input: &Vec<char>, at: usize) -> Result<((), usize), usize> {
    if input.get(at) == Some(&',') {
        Ok(((), at + 1))
    } else {
        Err(at)
    }
}

/// Two digits make a number; a digit followed by anything else is an error past the start.
fn pair(input: &Vec<char>, at: usize) -> Result<(u32, usize), usize> {
    let (a, next) = digit(input, at)?;
    match digit(input, next) {
        Ok((b, end)) => Ok((a * 10 + b, end)),
        Err(_) => Err(next),
    }
}

fn chars_of(s: &str) -> Vec<char> {
    s.chars().collect()
}

fn any(_: &u32) -> bool {
    true
}

#[test]
fn separated_elements() {
    let input = chars_of("1,2,3");
    let r = sep_by_while_counting(&input, 0, &digit, &comma, &any, 0, usize::MAX);
    assert_eq!(r, Ok((vec![1, 2, 3], 5)));
}

#[test]
fn trailing_separator_is_not_consumed() {
    let input = chars_of("1,2,x");
    let r = sep_by_while_counting(&input, 0, &digit, &comma, &any, 0, usize::MAX);
    assert_eq!(r, Ok((vec![1, 2], 3)));
}

#[test]
fn stops_at_max() {
    let input = chars_of("1,2,3");
    let r = sep_by_while_counting(&input, 0, &digit, &comma, &any, 0, 2);
    assert_eq!(r, Ok((vec![1, 2], 3)));
    let none = sep_by_while_counting(&input, 0, &digit, &comma, &any, 0, 0);
    assert_eq!(none, Ok((vec![], 0)));
}

#[test]
fn stops_where_the_condition_fails() {
    let input = chars_of("1,2,7,3");
    let small = |d: &u32| *d < 5;
    let r = sep_by_while_counting(&input, 0, &digit, &comma, &small, 0, usize::MAX);
    assert_eq!(r, Ok((vec![1, 2], 3)));
}

#[test]
fn too_few_elements() {
    let input = chars_of("1,x");
    let r = sep_by_while_counting(&input, 0, &digit, &comma, &any, 2, 5);
    assert_eq!(r, Err(ParseError::NotEnough { min: 2, found: 1 }));
    let empty = chars_of("");
    let r = sep_by_while_counting(&empty, 0, &digit, &comma, &any, 1, 5);
    assert_eq!(r, Err(ParseError::NotEnough { min: 1, found: 0 }));
}

#[test]
fn element_errors_are_passed_on() {
    let input = chars_of("12,3x");
    let r = sep_by_while_counting(&input, 0, &pair, &comma, &any, 0, usize::MAX);
    assert_eq!(r, Err(ParseError::Failed { at: 4 }));
    let fine = chars_of("12,34");
    let r = sep_by_while_counting(&fine, 0, &pair, &comma, &any, 0, usize::MAX);
    assert_eq!(r, Ok((vec![12, 34], 5)));
}

#[test]
fn separator_errors_are_passed_on() {
    let arrow = |input: &Vec<char>, at: usize| -> Result<((), usize), usize> {
        if input.get(at) != Some(&'-') {
            Err(at)
        } else if input.get(at + 1) == Some(&'>') {
            Ok(((), at + 2))
        } else {
            Err(at + 1)
        }
    };
    let input = chars_of("1->2-3");
    let r = sep_by_while_counting(&input, 0, &digit, &arrow, &any, 0, usize::MAX);
    assert_eq!(r, Err(ParseError::Failed { at: 5 }));
    let fine = chars_of("1->2->3");
    let r = sep_by_while_counting(&fine, 0, &digit, &arrow, &any, 0, usize::MAX);
    assert_eq!(r, Ok((vec![1, 2, 3], 7)));
}

#[test]
fn starts_at_the_given_position() {
    let input = chars_of("ab7,8");
    let r = sep_by_while_counting(&input, 2, &digit, &comma, &any, 1, usize::MAX);
    assert_eq!(r, Ok((vec![7, 8], 5)));
}

#[test]
fn skip_repeated_matches() {
    let space = |input: &Vec<char>, at: usize| -> Result<((), usize), usize> {
        if input.get(at) == Some(&' ') {
            Ok(((), at + 1))
        } else {
            Err(at)
        }
    };
    assert_eq!(skip(&chars_of("   x"), 0, &space), Ok(3));
    assert_eq!(skip(&chars_of("x"), 0, &space), Ok(0));
    assert_eq!(skip(&chars_of("a  "), 1, &space), Ok(3));
    assert_eq!(skip(&chars_of("1234"), 0, &pair), Ok(4));
    assert_eq!(skip(&chars_of("12345"), 0, &pair), Err(ParseError::Failed { at: 5 }));
}

#[test]
fn blanks_are_skipped_around_separators() {
    let input = chars_of("1, 2 ,3");
    let r = sep_by_while_counting(&input, 0, &digit, &comma, &any, 0, usize::MAX);
    assert_eq!(r, Ok((vec![1, 2, 3], 7)));
    let tabs = chars_of("\t1\n,\r2");
    let r = sep_by_while_counting(&tabs, 0, &digit, &comma, &any, 0, usize::MAX);
    assert_eq!(r, Ok((vec![1, 2], 6)));
}

#[test]
fn skipped_blanks_turn_rejections_into_errors() {
    let trailing = chars_of("1,2 x");
    let r = sep_by_while_counting(&trailing, 0, &digit, &comma, &any, 0, usize::MAX);
    assert_eq!(r, Err(ParseError::Failed { at: 4 }));
    let leading = chars_of(" x");
    let r = sep_by_while_counting(&leading, 0, &digit, &comma, &any, 0, usize::MAX);
    assert_eq!(r, Err(ParseError::Failed { at: 1 }));
}

#[test]
fn more_needed_than_allowed() {
    let input = chars_of("1,2,3");
    let r = sep_by_while_counting(&input, 0, &digit, &comma, &any, 3, 2);
    assert_eq!(r, Err(ParseError::NotEnough { min: 3, found: 2 }));
}

#[test]
fn blanks_end() {
    assert_eq!(skip_blanks(&chars_of("  \t\nx"), 0), 4);
    assert_eq!(skip_blanks(&chars_of("x "), 0), 0);
    assert_eq!(skip_blanks(&chars_of("x  "), 1), 3);
    assert_eq!(skip_blanks(&chars_of(""), 0), 0);
}

#[test]
fn alternatives() {
    let letter = |input: &Vec<char>, at: usize| -> Result<(u32, usize), usize> {
        match input.get(at) {
            Some(c) if c.is_ascii_lowercase() => Ok((100 + (*c as u32 - 'a' as u32), at + 1)),
            _ => Err(at),
        }
    };
    assert_eq!(or(&chars_of("7"), 0, &digit, &letter), Ok((7, 1)));
    assert_eq!(or(&chars_of("b"), 0, &digit, &letter), Ok((101, 1)));
    assert_eq!(or(&chars_of("?"), 0, &digit, &letter), Err(0));
    assert_eq!(or(&chars_of("1x"), 0, &pair, &letter), Err(1));
    assert_eq!(or(&chars_of("a1x"), 1, &letter, &pair), Err(2));
}
