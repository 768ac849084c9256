use tapl::syntax::FileInfo;
use tapl::syntax::Term;

fn fi() -> FileInfo {
    FileInfo::default()
}

fn b(t: Term) -> Box<Term> {
    Box::new(t)
}

#[test]
fn test_into_int() {
    let x = Term::from_int(10, fi());

    assert_eq!(x.into_int().unwrap(), 10);

    let x = Term::from_int(10, fi());

    assert_eq!(Term::Predecessor(fi(), b(x)).into_int().unwrap(), 9);

    let x = Term::from_int(0, fi());

    assert_eq!(Term::Predecessor(fi(), b(x)).into_int().unwrap(), 0);
}

#[test]
fn numeral_round_trip() {
    for n in [0, 1, 2, 17, 100] {
        assert_eq!(Term::from_int(n, fi()).into_int(), Some(n));
    }
}

#[test]
fn predecessor_saturates_at_zero() {
    let below = Term::Predecessor(fi(), b(Term::Predecessor(fi(), b(Term::Zero(fi())))));
    assert_eq!(below.into_int(), Some(0));
}

#[test]
fn into_int_rejects_non_numerals() {
    assert_eq!(Term::True(fi()).into_int(), None);
    assert_eq!(Term::Successor(fi(), b(Term::True(fi()))).into_int(), None);
    assert_eq!(Term::Predecessor(fi(), b(Term::False(fi()))).into_int(), None);
}

#[test]
fn from_int_builds_nested_successors() {
    assert_eq!(Term::from_int(0, fi()), Term::Zero(fi()));
    assert_eq!(
        Term::from_int(2, fi()),
        Term::Successor(fi(), b(Term::Successor(fi(), b(Term::Zero(fi())))))
    );
}
