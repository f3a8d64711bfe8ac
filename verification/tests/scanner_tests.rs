use chomplex::magic_number::MagicNumber;
use chomplex::scanner::Scanner;

#[test]
fn consume_till_consumes_the_stopping_character() {
    let mut scanner = Scanner::new("40 + 2");
    let first = scanner.consume_till(|c: char| !c.is_digit(10));
    assert_eq!(first.value, "40");
    assert_eq!((first.start_index, first.end_index), (0, 2));
    let second = scanner.consume_till(|c: char| c.is_whitespace());
    assert_eq!(second.value, "+");
    assert_eq!((second.start_index, second.end_index), (3, 4));
    assert!(!scanner.is_eof);
}

#[test]
fn consume_till_runs_to_the_end() {
    let mut scanner = Scanner::new("abc");
    let all = scanner.consume_till(|_: char| false);
    assert_eq!(all.value, "abc");
    assert_eq!((all.start_index, all.end_index), (0, 3));
    assert!(scanner.is_eof);
}

#[test]
fn consume_till_can_consume_nothing_but_the_stop() {
    let mut scanner = Scanner::new("x");
    let r = scanner.consume_till(|c: char| c == 'x');
    assert_eq!(r.value, "");
    assert_eq!((r.start_index, r.end_index), (0, 0));
    assert_eq!(scanner.pos, 1);
    assert!(!scanner.is_eof);
}

#[test]
fn scanner_next_steps_and_hits_the_end() {
    let mut scanner = Scanner::new("a");
    assert_eq!(scanner.next(), Some((0, 'a')));
    assert_eq!(scanner.next(), None);
    assert!(scanner.is_eof);
}

#[test]
fn magic_numbers_add() {
    let one = MagicNumber { value: 40 };
    let two = MagicNumber { value: 2 };
    let result = one + two;
    assert_eq!(result.value, 42);
    let three: Option<MagicNumber> = None;
    let option_result = result + three;
    assert_eq!(option_result.value, 42);
    let four = option_result + Some(MagicNumber { value: 8 });
    assert_eq!(four.value, 50);
}
