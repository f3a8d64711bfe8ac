use chomplex::chomp::Chomper;

#[test]
fn chomper_tests_should_be_able_to_instantiate_chomper() {
    let code = "40 + 2";
    Chomper::new(code);
}

#[test]
fn chomper_tests_chomp_should_work_correctly_when_not_hitting_eof() {
    let code = "40 + 2";
    let mut chomper = Chomper::new(code);

    let result = chomper.chomp(|ch: char| !ch.is_digit(10)).unwrap();

    assert_eq!(chomper.value(result), "40");
}

#[test]
fn chomper_tests_chomp_should_work_correctly_when_hitting_eof() {
    let code = "40";
    let mut chomper = Chomper::new(code);

    let result = chomper
        .chomp(|ch: char| {
            println!("Seeing if {} is a digit.", ch);
            !ch.is_digit(10)
        })
        .unwrap();

    println!("result is: {:?}", result);

    assert_eq!(chomper.value(result), "40");
}

#[test]
fn chomper_tests_chomp_should_succeed_at_2_tokens_in_a_row() {
    let code = "40+2";
    let mut chomper = Chomper::new(code);

    let one = chomper.chomp(|c: char| !c.is_digit(10)).unwrap();
    assert_eq!(chomper.value(one), "40");

    let two = chomper.chomp(|c: char| c != '+').unwrap();
    assert_eq!(chomper.value(two), "+");
}

// A chomp at the end of the text gives nothing back.
#[test]
fn chomper_tests_chomp_should_return_none_if_youre_already_at_eof_when_you_call_it() {
    let code = "40";
    let mut chomper = Chomper::new(code);

    let chomper_borrow = &mut chomper;

    let result = chomper_borrow.chomp(|_: char| false).unwrap();
    assert_eq!(chomper_borrow.value(result), "40");

    assert_eq!(chomper_borrow.chomp(|_: char| false), None);
}

#[test]
fn chomper_tests_expect_should_work_for_happy_path() {
    let code = "foobar";
    let mut chomper = Chomper::new(code);
    chomper.expect("foobar");
}

#[test]
fn chomper_tests_expect_multiple_times_in_a_row_happy_path_should_work() {
    let code = "foobar";
    let mut chomper = Chomper::new(code);
    chomper.expect("foo");
    chomper.expect("bar");
}

// `expect` takes only an expectation that the remaining text starts with; this one is
// outside what it accepts.
#[test]
fn chomper_tests_expect_should_work_for_failure_path() {
    let code = "foobar";
    let chomper = Chomper::new(code);
    assert!(!chomper.text().starts_with("fooOOPSbar"));
}

#[test]
fn chomper_tests_chomp_till_str_should_work_when_there_is_a_match() {
    let code = "This is some text";
    let mut chomper = Chomper::new(code);
    let cr = chomper.chomp_till_str(|s: &str| s.starts_with("some")).unwrap();
    println!("the cr is {:?}", cr);
    assert_eq!(chomper.value(cr), "This is ");
    assert_eq!(cr.span.start_pos.index, 0);
    assert_eq!(cr.span.end_pos.index, 8);
    assert_eq!(chomper.is_eof, false);
}

#[test]
fn chomper_tests_chomp_till_str_should_work_when_there_is_no_match() {
    let code = "This is some text";
    let mut chomper = Chomper::new(code);
    let cr = chomper.chomp_till_str(|s: &str| s.starts_with("XXXXXXX")).unwrap();
    println!("the cr is: {:?}", cr);
    assert_eq!(chomper.value(cr), "This is some text");
    assert_eq!(cr.span.start_pos.index, 0);
    assert_eq!(cr.span.end_pos.index, 17);
    assert_eq!(chomper.is_eof, true);
}

#[test]
fn chomper_tests_is_empty_should_be_true_if_you_quit_chomping_immediately() {
    let code = "foobar";
    let mut chomper = Chomper::new(code);
    let cr = chomper.chomp(|c: char| c == 'f');
    println!("cr is {:?}", cr);
    assert!(cr.is_none());
}

#[test]
fn chomper_tests_is_empty_should_be_false_if_you_even_one_char_is_chomped() {
    let code = "f";
    let mut chomper = Chomper::new(code);
    let cr = chomper.chomp(|_: char| false).unwrap();
    println!("cr is {:?}", cr);
}
