use bulls_and_cows::secret::GenerateError;
use bulls_and_cows::session::{Reply, Session};
use bulls_and_cows::validate::ValidationError;

fn game() -> Session {
    match Session::new(vec![1, 2, 3, 4]) {
        Ok(session) => session,
        Err(e) => panic!("the secret was refused: {:?}", e),
    }
}

#[test]
fn session_starts_at_the_first_move() {
    let session = game();
    assert_eq!(session.moves(), 1);
    assert!(!session.is_won());
    assert_eq!(session.num_digits(), 4);
    assert_eq!(session.secret(), &vec![1u8, 2, 3, 4]);
}

#[test]
fn secret_must_be_distinct_decimal_digits() {
    assert!(matches!(Session::new(vec![1, 1, 2, 3]), Err(ValidationError::NonUniqueDigits)));
    assert!(matches!(Session::new(vec![1, 12, 2, 3]), Err(ValidationError::MalformedNumber)));
    assert!(matches!(Session::new(vec![]), Ok(_)));
}

#[test]
fn winning_guess_reports_the_move_count_unchanged() {
    let mut session = game();
    assert_eq!(session.guess(Some(1234)), Reply::Won { moves: 1 });
    assert!(session.is_won());
    assert_eq!(session.moves(), 1);
}

#[test]
fn scored_guess_counts_as_a_move() {
    let mut session = game();
    assert_eq!(
        session.guess(Some(4321)),
        Reply::Scored { digits: vec![4, 3, 2, 1], bulls: 0, cows: 4 }
    );
    assert_eq!(session.moves(), 2);
    assert_eq!(
        session.guess(Some(1325)),
        Reply::Scored { digits: vec![1, 3, 2, 5], bulls: 1, cows: 2 }
    );
    assert_eq!(session.moves(), 3);
    assert!(!session.is_won());
}

#[test]
fn refused_entries_do_not_count() {
    let mut session = game();
    assert_eq!(session.guess(None), Reply::NotANumber);
    assert_eq!(session.moves(), 1);
    assert_eq!(session.guess(Some(12345)), Reply::MalformedNumber);
    assert_eq!(session.moves(), 1);
    assert_eq!(session.guess(Some(1123)), Reply::NonUniqueDigits);
    assert_eq!(session.moves(), 1);
    assert_eq!(session.guess(Some(12)), Reply::NonUniqueDigits);
    assert_eq!(session.moves(), 1);
    assert!(!session.is_won());
}

#[test]
fn win_reports_the_scored_guesses_and_itself() {
    let mut session = game();
    assert_eq!(
        session.enter("5678\n"),
        Reply::Scored { digits: vec![5, 6, 7, 8], bulls: 0, cows: 0 }
    );
    assert_eq!(session.enter("hello\n"), Reply::NotANumber);
    assert_eq!(
        session.enter("1243\n"),
        Reply::Scored { digits: vec![1, 2, 4, 3], bulls: 2, cows: 2 }
    );
    assert_eq!(session.enter("12345\n"), Reply::MalformedNumber);
    assert_eq!(session.enter("1233\n"), Reply::NonUniqueDigits);
    assert_eq!(
        session.enter("0123\n"),
        Reply::Scored { digits: vec![0, 1, 2, 3], bulls: 0, cows: 3 }
    );
    assert_eq!(session.moves(), 4);
    assert_eq!(session.enter(" 1234 \n"), Reply::Won { moves: 4 });
    assert!(session.is_won());
    assert_eq!(session.moves(), 4);
}

#[test]
fn leading_zero_is_a_digit_of_the_guess() {
    let mut session = match Session::new(vec![0, 1, 2, 3]) {
        Ok(session) => session,
        Err(e) => panic!("the secret was refused: {:?}", e),
    };
    assert_eq!(session.enter("123"), Reply::Won { moves: 1 });
}

#[test]
fn entry_too_large_for_a_number_is_no_number() {
    let mut session = game();
    assert_eq!(session.enter("70000"), Reply::NotANumber);
    assert_eq!(session.enter(""), Reply::NotANumber);
    assert_eq!(session.moves(), 1);
}

#[test]
fn started_session_has_a_fresh_secret() {
    for n in 0usize..10 {
        let session = match Session::start(n) {
            Ok(session) => session,
            Err(e) => panic!("no session for {} digits: {:?}", n, e),
        };
        assert_eq!(session.num_digits(), n);
        assert_eq!(session.secret().len(), n);
        assert_eq!(session.moves(), 1);
        assert!(!session.is_won());
    }
}

#[test]
fn session_of_ten_digits_is_refused() {
    assert!(matches!(Session::start(10), Err(GenerateError::InvalidArgument)));
    assert!(matches!(Session::start(25), Err(GenerateError::InvalidArgument)));
}

#[test]
fn started_session_is_won_by_its_secret() {
    let mut session = match Session::start(4) {
        Ok(session) => session,
        Err(e) => panic!("no session: {:?}", e),
    };
    let mut number: u16 = 0;
    for d in session.secret().iter() {
        number = number * 10 + *d as u16;
    }
    assert_eq!(session.guess(Some(number)), Reply::Won { moves: 1 });
}
