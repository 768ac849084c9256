use tapl::context::Context;
use tapl::context::ContextError;
use tapl::context::ContextMember;
use tapl::context_visitor::hydrate_vars;
use tapl::evaluate::eval_command;
use tapl::evaluate::evaluate_binding;
use tapl::syntax::Binding;
use tapl::syntax::Command;
use tapl::syntax::FileInfo;
use tapl::syntax::Term;
use tapl::syntax::Var;

fn fi() -> FileInfo {
    FileInfo::default()
}

fn b(t: Term) -> Box<Term> {
    Box::new(t)
}

#[test]
fn lib_it_works() {
    let result = 2 + 2;
    assert_eq!(result, 4);
}

#[test]
fn main_it_works() {
    let result = 2 + 2;
    assert_eq!(result, 4);
}

#[test]
fn hydrate_resolves_names() {
    let mut context = Context::default();
    context.append_name("y");
    context.append_name("x");

    // λa. x becomes λa. 1: the name x sits one binder out.
    let term = Term::Abstraction(fi(), "a".to_string(), b(Term::Var(fi(), Var::new("x", 0, 0))));
    let hydrated = hydrate_vars(&context, &term).unwrap();

    assert_eq!(
        hydrated,
        Term::Abstraction(fi(), "a".to_string(), b(Term::Var(fi(), Var::new("x", 1, 1))))
    );
}

#[test]
fn hydrate_reports_unbound_name() {
    let context = Context::default();
    let term = Term::Var(fi(), Var::new("ghost_name", 0, 0));

    assert_eq!(
        hydrate_vars(&context, &term),
        Err(ContextError::RangeError("ghost_name not found in context".to_string()))
    );
}

#[test]
fn eval_command_wraps_globals() {
    // A global binding `b = true` reaches the evaluated term through a
    // let wrapper, so a command `b;` evaluates to true.
    let mut context = Context::default();
    context.append_binding(ContextMember {
        name: "b".to_string(),
        binding: Binding::TermBind(b(Term::True(fi()))),
    });

    let command = Command::Eval(fi(), Term::Var(fi(), Var::new("b", 0, 0)));
    assert_eq!(eval_command(&context, &command), Ok(Some(Term::True(fi()))));
}

#[test]
fn eval_command_skips_imports_and_binds() {
    let context = Context::default();
    assert_eq!(eval_command(&context, &Command::Import("std".to_string())), Ok(None));
    assert_eq!(
        eval_command(
            &context,
            &Command::Bind(fi(), "x".to_string(), Binding::NameBind),
        ),
        Ok(None)
    );
}

#[test]
fn eval_command_reports_unbound_name() {
    let context = Context::default();
    let command = Command::Eval(fi(), Term::Var(fi(), Var::new("nowhere", 0, 0)));

    assert_eq!(
        eval_command(&context, &command),
        Err(ContextError::RangeError("nowhere not found in context".to_string()))
    );
}

#[test]
fn evaluate_binding_hydrates_bound_term() {
    let mut context = Context::default();
    context.append_name("x");

    let bind = Binding::TermBind(b(Term::Var(fi(), Var::new("x", 0, 0))));
    assert_eq!(
        evaluate_binding(&context, &bind),
        Ok(Binding::TermBind(b(Term::Var(fi(), Var::new("x", 0, 0)))))
    );

    assert_eq!(evaluate_binding(&context, &Binding::NameBind), Ok(Binding::NameBind));
}
