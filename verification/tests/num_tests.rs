use grove_compiler::num::Num;
use grove_compiler::token::Token;

fn ratio(n: i64, d: i64) -> Num {
    Num::ratio(n, d).unwrap()
}

#[test]
fn num_lowest_terms() {
    assert_eq!(ratio(2, 4), ratio(1, 2));
    let half = ratio(1, -2);
    assert_eq!(half.numer(), -1);
    assert_eq!(half.denom(), 2);
    assert_eq!(ratio(-6, -3), Num::from_int(2));
    assert!(Num::ratio(1, 0).is_none());
}

#[test]
fn num_arithmetic() {
    let third = ratio(1, 3);
    let sixth = ratio(1, 6);
    assert_eq!(third.add(&sixth), Some(ratio(1, 2)));
    assert_eq!(third.sub(&sixth), Some(sixth));
    assert_eq!(third.mul(&sixth), Some(ratio(1, 18)));
    assert_eq!(third.div(&sixth), Some(Num::from_int(2)));
    assert_eq!(third.div(&Num::from_int(0)), None);
    assert_eq!(third.neg(), ratio(-1, 3));
}

#[test]
fn num_overflow_is_none() {
    let big = ratio(i64::MAX, 1);
    assert_eq!(big.add(&Num::from_int(1)), None);
    assert_eq!(big.mul(&Num::from_int(2)), None);
    assert_eq!(big.sub(&Num::from_int(1)), Some(ratio(i64::MAX - 1, 1)));
}

#[test]
fn num_comparisons() {
    assert!(ratio(1, 3).less_than(&ratio(1, 2)));
    assert!(!ratio(1, 2).less_than(&ratio(1, 3)));
    assert!(ratio(-1, 2).less_than(&Num::from_int(0)));
    assert!(ratio(2, 4).same_value(&ratio(1, 2)));
    assert!(ratio(1, 2).equals(&ratio(1, 2)));
    assert!(Num::from_int(0).is_zero());
    assert!(Num::from_int(7).is_int(7));
    assert!(!ratio(7, 2).is_int(3));
}

#[test]
fn token_names_and_identity() {
    assert_eq!(Token::Eof.name(), "eof");
    assert_eq!(Token::Number(Num::from_int(1)).name(), "number");
    assert_eq!(Token::Ident("a".into()).name(), "identifier");
    assert_eq!(Token::Le.name(), "<=");
    assert_eq!(Token::Return.name(), "return");
    assert!(Token::Ident("a".into()).same_as(&Token::Ident("a".into())));
    assert!(!Token::Ident("a".into()).same_as(&Token::Ident("b".into())));
    assert!(!Token::Number(Num::from_int(1)).same_as(&Token::Number(Num::from_int(2))));
    assert!(Token::Plus.same_as(&Token::Plus));
    assert!(!Token::Plus.same_as(&Token::Minus));
    assert_eq!(Token::Ident("z".into()).clone(), Token::Ident("z".into()));
}
