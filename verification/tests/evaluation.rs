use tapl::context::Context;
use tapl::evaluate::eval;
use tapl::evaluate::eval_inner;
use tapl::evaluate::evaluate_top;
use tapl::evaluate::is_value;
use tapl::evaluate::EvalError;
use tapl::syntax::FileInfo;
use tapl::syntax::Term;
use tapl::syntax::Var;

fn fi() -> FileInfo {
    FileInfo::default()
}

fn b(t: Term) -> Box<Term> {
    Box::new(t)
}

#[test]
fn eval_step_if_term_true() {
    let ctx = Context::default();
    let if_term = Term::If(fi(), b(Term::True(fi())), b(Term::True(fi())), b(Term::False(fi())));

    assert_eq!(eval_inner(&ctx, &if_term), Some(Term::True(fi())));
}

#[test]
fn eval_step_if_term_if() {
    let ctx = Context::default();
    let inner_if = Term::If(fi(), b(Term::False(fi())), b(Term::True(fi())), b(Term::False(fi())));
    let if_if_term = Term::If(fi(), b(inner_if), b(Term::False(fi())), b(Term::True(fi())));

    assert_eq!(
        eval_inner(&ctx, &if_if_term),
        Some(Term::If(fi(), b(Term::False(fi())), b(Term::False(fi())), b(Term::True(fi()))))
    );
}

#[test]
fn eval_true() {
    let ctx = Context::default();
    let t = Term::True(fi());

    assert_eq!(eval(&ctx, &t), Ok(Term::True(fi())));
}

#[test]
fn eval_if_true() {
    let ctx = Context::default();
    let if_true = Term::If(fi(), b(Term::True(fi())), b(Term::False(fi())), b(Term::True(fi())));

    assert_eq!(eval(&ctx, &if_true), Ok(Term::False(fi())));
}

#[test]
fn eval_if_false() {
    let ctx = Context::default();
    let if_false = Term::If(fi(), b(Term::False(fi())), b(Term::True(fi())), b(Term::False(fi())));

    assert_eq!(eval(&ctx, &if_false), Ok(Term::False(fi())));
}

#[test]
fn eval_nested_if() {
    let ctx = Context::default();
    let root_if = Term::If(fi(), b(Term::True(fi())), b(Term::False(fi())), b(Term::True(fi())));
    let n1_if = Term::If(fi(), b(root_if), b(Term::True(fi())), b(Term::False(fi())));
    let n2_if = Term::If(fi(), b(n1_if), b(Term::True(fi())), b(Term::False(fi())));

    assert_eq!(eval(&ctx, &n2_if), Ok(Term::False(fi())));
}

#[test]
fn eval_succ() {
    let ctx = Context::default();
    let succ = Term::Successor(fi(), b(Term::Zero(fi())));

    assert_eq!(eval(&ctx, &succ), Ok(Term::Successor(fi(), b(Term::Zero(fi())))));
}

#[test]
fn eval_pred_zero() {
    let ctx = Context::default();
    let pred_zero = Term::Predecessor(fi(), b(Term::Zero(fi())));

    assert_eq!(eval(&ctx, &pred_zero), Ok(Term::Zero(fi())));
}

#[test]
fn eval_pred_succ_nv() {
    let ctx = Context::default();
    let term = Term::Predecessor(fi(), b(Term::Successor(fi(), b(Term::Zero(fi())))));

    assert_eq!(eval(&ctx, &term), Ok(Term::Zero(fi())));
}

#[test]
fn eval_step_pred() {
    let ctx = Context::default();
    let pred_term = Term::Predecessor(fi(), b(Term::Predecessor(fi(), b(Term::Zero(fi())))));

    assert_eq!(eval_inner(&ctx, &pred_term), Some(Term::Predecessor(fi(), b(Term::Zero(fi())))));
}

#[test]
fn eval_is_zero_zero() {
    let ctx = Context::default();
    let is_zero_zero = Term::IsZero(fi(), b(Term::Zero(fi())));

    assert_eq!(eval(&ctx, &is_zero_zero), Ok(Term::True(fi())));
}

#[test]
fn eval_is_zero_succ() {
    let ctx = Context::default();
    let is_zero_succ = Term::IsZero(fi(), b(Term::Successor(fi(), b(Term::Zero(fi())))));

    assert_eq!(eval(&ctx, &is_zero_succ), Ok(Term::False(fi())));
}

#[test]
fn eval_is_zero() {
    let ctx = Context::default();
    let is_zero = Term::IsZero(
        fi(),
        b(Term::Predecessor(fi(), b(Term::Successor(fi(), b(Term::Zero(fi())))))),
    );
    let is_not_zero = Term::IsZero(
        fi(),
        b(Term::Successor(fi(), b(Term::Successor(fi(), b(Term::Zero(fi())))))),
    );

    assert_eq!(eval(&ctx, &is_zero), Ok(Term::True(fi())));
    assert_eq!(eval(&ctx, &is_not_zero), Ok(Term::False(fi())));
}

#[test]
fn eval_stuck() {
    let ctx = Context::default();
    let stuck_term = Term::Predecessor(fi(), b(Term::False(fi())));

    assert_eq!(eval(&ctx, &stuck_term), Err(EvalError::Stuck(b(stuck_term.clone()))));
}

#[test]
fn eval_complex_stuck() {
    let ctx = Context::default();
    let complex_stuck_term = Term::If(
        fi(),
        b(Term::False(fi())),
        b(Term::True(fi())),
        b(Term::If(
            fi(),
            b(Term::True(fi())),
            b(Term::Successor(fi(), b(Term::Successor(fi(), b(Term::True(fi())))))),
            b(Term::Zero(fi())),
        )),
    );

    assert_eq!(
        eval(&ctx, &complex_stuck_term),
        Err(EvalError::Stuck(b(Term::Successor(
            fi(),
            b(Term::Successor(fi(), b(Term::True(fi()))))
        ))))
    );
}

#[test]
fn eval_simple_case() {
    // (λx.x) applied to the Church numeral zero reduces to that numeral.
    let zero = Term::Abstraction(
        fi(),
        "s".to_string(),
        b(Term::Abstraction(fi(), "z".to_string(), b(Term::Var(fi(), Var::new("z", 0, 0))))),
    );
    let zero_expectation = zero.clone();
    let identity = Term::Abstraction(fi(), "x".to_string(), b(Term::Var(fi(), Var::new("x", 0, 0))));
    let application = Term::Application(fi(), b(identity), b(zero));
    let ctx = Context::default();

    assert_eq!(evaluate_top(&ctx, &application), zero_expectation);
}

#[test]
fn eval_free_variable() {
    // Context [x, y], both bare names: applying λx.y to a value leaves
    // the free variable y at the correctly shifted index.
    let mut ctx = Context::default();
    ctx.append_name("y");
    ctx.append_name("x");

    let open_combinator =
        Term::Abstraction(fi(), "x".to_string(), b(Term::Var(fi(), Var::new("y", 2, 1))));
    let zero = Term::Abstraction(
        fi(),
        "s".to_string(),
        b(Term::Abstraction(fi(), "z".to_string(), b(Term::Var(fi(), Var::new("z", 0, 0))))),
    );
    let application = Term::Application(fi(), b(open_combinator), b(zero));

    assert_eq!(evaluate_top(&ctx, &application), Term::Var(fi(), Var::new("y", 1, 0)));
}

#[test]
fn test_base_conditional() {
    let context = Context::default();
    let if_true = Term::If(
        fi(),
        b(Term::True(fi())),
        b(Term::Float(fi(), 1.0f32.to_bits())),
        b(Term::Float(fi(), 9.0f32.to_bits())),
    );

    assert_eq!(evaluate_top(&context, &if_true), Term::Float(fi(), 1.0f32.to_bits()));
}

#[test]
fn beta_reduction_single_step() {
    // Applying λx.x to the numeral zero reduces in one step to zero.
    let ctx = Context::default();
    let application = Term::Application(
        fi(),
        b(Term::Abstraction(fi(), "x".to_string(), b(Term::Var(fi(), Var::new("x", 0, 0))))),
        b(Term::Zero(fi())),
    );

    assert_eq!(eval_inner(&ctx, &application), Some(Term::Zero(fi())));
}

#[test]
fn let_binds_call_by_value() {
    // let x = 1 in successor(x) evaluates to the numeral 2.
    let ctx = Context::default();
    let term = Term::Let(
        fi(),
        "x".to_string(),
        b(Term::from_int(1, fi())),
        b(Term::Successor(fi(), b(Term::Var(fi(), Var::new("x", 0, 1))))),
    );

    assert_eq!(evaluate_top(&ctx, &term), Term::from_int(2, fi()));
}

#[test]
fn let_reduces_bound_term_first() {
    // let x = pred 1 in x first drives the bound term to a value.
    let ctx = Context::default();
    let term = Term::Let(
        fi(),
        "x".to_string(),
        b(Term::Predecessor(fi(), b(Term::from_int(1, fi())))),
        b(Term::Var(fi(), Var::new("x", 0, 1))),
    );

    assert_eq!(evaluate_top(&ctx, &term), Term::Zero(fi()));
}

#[test]
fn variable_lookup_shifts_binding() {
    // A bound term stored at depth 0 comes out shifted by one, so its
    // own free variables still point past the slot it was stored in.
    let mut ctx = Context::default();
    ctx.append_name("y");
    ctx.append_binding(tapl::context::ContextMember {
        name: "x".to_string(),
        binding: tapl::syntax::Binding::TermBind(b(Term::Var(fi(), Var::new("y", 0, 0)))),
    });

    let term = Term::Var(fi(), Var::new("x", 0, 0));
    assert_eq!(eval_inner(&ctx, &term), Some(Term::Var(fi(), Var::new("y", 1, 1))));
}

#[test]
fn record_fields_reduce_in_order() {
    let ctx = Context::default();
    let record = Term::Record(
        fi(),
        vec![
            ("a".to_string(), b(Term::Predecessor(fi(), b(Term::from_int(1, fi()))))),
            ("b".to_string(), b(Term::IsZero(fi(), b(Term::Zero(fi()))))),
        ],
    );

    let expected = Term::Record(
        fi(),
        vec![
            ("a".to_string(), b(Term::Zero(fi()))),
            ("b".to_string(), b(Term::True(fi()))),
        ],
    );
    assert_eq!(evaluate_top(&ctx, &record), expected);
}

#[test]
fn projection_takes_labelled_field() {
    let ctx = Context::default();
    let record = Term::Record(
        fi(),
        vec![
            ("x".to_string(), b(Term::String(fi(), "hello".to_string()))),
            ("y".to_string(), b(Term::from_int(3, fi()))),
        ],
    );
    let projection = Term::Projection(fi(), b(record), "y".to_string());

    assert_eq!(eval(&ctx, &projection), Ok(Term::from_int(3, fi())));
}

#[test]
fn projection_reduces_target_first() {
    let ctx = Context::default();
    let record = Term::Record(
        fi(),
        vec![("x".to_string(), b(Term::Predecessor(fi(), b(Term::Zero(fi())))))],
    );
    let projection = Term::Projection(fi(), b(record), "x".to_string());

    assert_eq!(evaluate_top(&ctx, &projection), Term::Zero(fi()));
}

#[test]
fn projection_of_missing_label_is_stuck() {
    let ctx = Context::default();
    let record = Term::Record(fi(), vec![("x".to_string(), b(Term::Zero(fi())))]);
    let projection = Term::Projection(fi(), b(record.clone()), "nope".to_string());

    assert_eq!(eval(&ctx, &projection), Err(EvalError::Stuck(b(projection.clone()))));
}

#[test]
fn evaluation_is_idempotent_on_samples() {
    // Normal forms are fixed points: evaluating twice equals once.
    let ctx = Context::default();
    let samples = vec![
        Term::If(fi(), b(Term::True(fi())), b(Term::from_int(4, fi())), b(Term::Zero(fi()))),
        Term::Predecessor(fi(), b(Term::False(fi()))),
        Term::Application(
            fi(),
            b(Term::Abstraction(fi(), "x".to_string(), b(Term::Var(fi(), Var::new("x", 0, 0))))),
            b(Term::from_int(2, fi())),
        ),
    ];

    for t in samples {
        let once = evaluate_top(&ctx, &t);
        let twice = evaluate_top(&ctx, &once);
        assert_eq!(twice, once);
    }
}

#[test]
fn values_are_recognised() {
    assert!(is_value(&Term::True(fi())));
    assert!(is_value(&Term::from_int(5, fi())));
    assert!(is_value(&Term::String(fi(), "s".to_string())));
    assert!(is_value(&Term::Float(fi(), 2.5f32.to_bits())));
    assert!(is_value(&Term::Record(fi(), vec![("a".to_string(), b(Term::Zero(fi())))])));
    assert!(!is_value(&Term::Record(
        fi(),
        vec![("a".to_string(), b(Term::Predecessor(fi(), b(Term::Zero(fi())))))],
    )));
    assert!(!is_value(&Term::Predecessor(fi(), b(Term::Zero(fi())))));
    assert!(!is_value(&Term::Successor(fi(), b(Term::True(fi())))));
}

#[test]
fn projection_takes_first_of_equal_labels() {
    let ctx = Context::default();
    let record = Term::Record(
        fi(),
        vec![
            ("a".to_string(), b(Term::from_int(1, fi()))),
            ("a".to_string(), b(Term::from_int(2, fi()))),
        ],
    );
    let projection = Term::Projection(fi(), b(record), "a".to_string());

    assert_eq!(eval(&ctx, &projection), Ok(Term::from_int(1, fi())));
}

#[test]
fn empty_record_is_a_value() {
    let ctx = Context::default();
    let record = Term::Record(fi(), vec![]);

    assert!(is_value(&record));
    assert_eq!(eval(&ctx, &record), Ok(Term::Record(fi(), vec![])));
}

#[test]
fn evaluation_handles_indices_past_the_engine_bound() {
    // A step without index arithmetic goes through whatever the
    // indices are; only a step whose own arithmetic would overflow is
    // refused.
    let ctx = Context::default();
    let far = Term::Var(fi(), Var::new("v", 0x4000_0000, 0));
    let term = Term::If(fi(), b(Term::True(fi())), b(far.clone()), b(Term::Zero(fi())));

    assert_eq!(evaluate_top(&ctx, &term), far);
}

#[test]
fn evaluation_reduces_up_to_the_machine_limit() {
    // The lookup shift runs right up to i32::MAX.
    let mut ctx = Context::default();
    ctx.append_binding(tapl::context::ContextMember {
        name: "x".to_string(),
        binding: tapl::syntax::Binding::TermBind(b(Term::Var(
            fi(),
            Var::new("y", i32::MAX - 1, 0),
        ))),
    });
    let term = Term::Var(fi(), Var::new("x", 0, 0));

    assert_eq!(evaluate_top(&ctx, &term), Term::Var(fi(), Var::new("y", i32::MAX, 1)));
}

#[test]
fn evaluation_stops_where_the_shift_would_overflow() {
    // The one step this term admits would push an index past i32, so
    // the term is handed back unreduced.
    let mut ctx = Context::default();
    ctx.append_binding(tapl::context::ContextMember {
        name: "x".to_string(),
        binding: tapl::syntax::Binding::TermBind(b(Term::Var(fi(), Var::new("y", i32::MAX, 0)))),
    });
    let term = Term::Var(fi(), Var::new("x", 0, 0));

    assert_eq!(evaluate_top(&ctx, &term), term);
}
