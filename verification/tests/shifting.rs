use tapl::shift::Shift;
use tapl::shift::Substitute;
use tapl::syntax::FileInfo;
use tapl::syntax::Term;
use tapl::syntax::Var;

fn fi() -> FileInfo {
    FileInfo::default()
}

fn b(t: Term) -> Box<Term> {
    Box::new(t)
}

#[test]
fn lib_shift() {
    let term = Term::Var(fi(), Var::new("x", 0, 0));
    assert_eq!(term.shift(2), Term::Var(fi(), Var::new("x", 2, 2)));

    // A bound variable keeps its index; the expected context length
    // still moves.
    let term = Term::Abstraction(fi(), "x".to_string(), b(Term::Var(fi(), Var::new("x", 0, 0))));
    assert_eq!(
        term.shift(2),
        Term::Abstraction(fi(), "x".to_string(), b(Term::Var(fi(), Var::new("x", 0, 2))))
    );

    let term = Term::Abstraction(fi(), "y".to_string(), b(Term::Var(fi(), Var::new("y", 1, 0))));
    assert_eq!(
        term.shift(2),
        Term::Abstraction(fi(), "y".to_string(), b(Term::Var(fi(), Var::new("y", 3, 2))))
    );
}

#[test]
fn substitute() {
    // Substituting for -1 under one binder replaces the bound variable:
    // the payload arrives shifted to depth one.
    let term = Term::Abstraction(fi(), "x".to_string(), b(Term::Var(fi(), Var::new("x", 0, 1))));

    assert_eq!(
        term.substitute(-1, &Term::Var(fi(), Var::new("y", 7, 1))),
        Term::Abstraction(fi(), "x".to_string(), b(Term::Var(fi(), Var::new("y", 8, 2))))
    );

    let term = Term::Abstraction(fi(), "x".to_string(), b(Term::Var(fi(), Var::new("x", 0, 1))));

    assert_eq!(term.substitute(10, &Term::Var(fi(), Var::new("y", 7, 1))), term);
}

#[test]
fn shift_composes() {
    // shift(shift(t, d1), d2) == shift(t, d1 + d2) for d1 >= 0.
    let term = Term::Application(
        fi(),
        b(Term::Var(fi(), Var::new("a", 0, 0))),
        b(Term::Abstraction(fi(), "x".to_string(), b(Term::Var(fi(), Var::new("a", 1, 1))))),
    );

    assert_eq!(term.shift(2).shift(3), term.shift(5));
}

#[test]
fn shift_by_zero_is_identity() {
    let term = Term::Let(
        fi(),
        "x".to_string(),
        b(Term::from_int(2, fi())),
        b(Term::Var(fi(), Var::new("x", 0, 1))),
    );

    assert_eq!(term.shift(0), term);
}

#[test]
fn substitute_into_closed_term() {
    // A closed term is untouched by substitution for any j >= 0.
    let closed = Term::Abstraction(
        fi(),
        "x".to_string(),
        b(Term::Application(
            fi(),
            b(Term::Var(fi(), Var::new("x", 0, 1))),
            b(Term::Abstraction(fi(), "y".to_string(), b(Term::Var(fi(), Var::new("x", 1, 2))))),
        )),
    );
    let payload = Term::from_int(7, fi());

    assert_eq!(closed.substitute(0, &payload), closed);
    assert_eq!(closed.substitute(3, &payload), closed);
}

#[test]
fn substitute_top_closes_binder() {
    // substitute_top on λ-body `x y` with payload `z` (a free variable)
    // replaces x and renumbers y down past the removed binder.
    let body = Term::Application(
        fi(),
        b(Term::Var(fi(), Var::new("x", 0, 1))),
        b(Term::Var(fi(), Var::new("y", 1, 1))),
    );
    let payload = Term::Var(fi(), Var::new("z", 4, 0));

    assert_eq!(
        body.substitute_top(&payload),
        Term::Application(
            fi(),
            b(Term::Var(fi(), Var::new("z", 4, 0))),
            b(Term::Var(fi(), Var::new("y", 0, 0))),
        )
    );
}

#[test]
fn shift_walks_record_fields() {
    let record = Term::Record(
        fi(),
        vec![
            ("a".to_string(), b(Term::Var(fi(), Var::new("u", 0, 0)))),
            ("b".to_string(), b(Term::Var(fi(), Var::new("v", 3, 0)))),
        ],
    );

    assert_eq!(
        record.shift(1),
        Term::Record(
            fi(),
            vec![
                ("a".to_string(), b(Term::Var(fi(), Var::new("u", 1, 1)))),
                ("b".to_string(), b(Term::Var(fi(), Var::new("v", 4, 1)))),
            ],
        )
    );
}

#[test]
fn shift_lets_bound_term_stay_outer() {
    // Only the body of a let lives under the binder: the bound sub-term
    // is shifted at the outer cutoff.
    let term = Term::Let(
        fi(),
        "x".to_string(),
        b(Term::Var(fi(), Var::new("a", 0, 0))),
        b(Term::Var(fi(), Var::new("a", 1, 1))),
    );

    assert_eq!(
        term.shift_n(5, 0),
        Term::Let(
            fi(),
            "x".to_string(),
            b(Term::Var(fi(), Var::new("a", 5, 5))),
            b(Term::Var(fi(), Var::new("a", 6, 6))),
        )
    );
}
