use tapl::context::Context;
use tapl::context::ContextMember;
use tapl::syntax::Binding;
use tapl::syntax::Var;
use tapl::typechecker::SimpleTerm;
use tapl::typechecker::SimpleType;
use tapl::typechecker::TypeCheckError;

fn b(t: SimpleTerm) -> Box<SimpleTerm> {
    Box::new(t)
}

fn bt(t: SimpleType) -> Box<SimpleType> {
    Box::new(t)
}

#[test]
fn typecheck_bool() {
    let context = Context::default();
    assert_eq!(SimpleTerm::True.type_of(&context), Ok(SimpleType::Bool));
    assert_eq!(SimpleTerm::False.type_of(&context), Ok(SimpleType::Bool));
}

#[test]
fn type_check_var() {
    let mut context = Context::default();
    let var = SimpleTerm::Var(Var::new("test", 0, 0));

    context.append_binding(ContextMember {
        name: "test".to_string(),
        binding: Binding::VarBind(SimpleType::Bool),
    });

    assert_eq!(var.type_of(&context), Ok(SimpleType::Bool));

    context.append_binding(ContextMember {
        name: "somethingElse".to_string(),
        binding: Binding::NameBind,
    });

    assert_eq!(var.type_of(&context), Err(TypeCheckError::IncorrectBinding(Binding::NameBind)));

    let var = SimpleTerm::Var(Var::new("test", 10, 0));

    assert_eq!(var.type_of(&context), Err(TypeCheckError::BindingNotFound));
}

#[test]
fn type_check_conditional() {
    let context = Context::default();

    let conditional = SimpleTerm::Conditional(b(SimpleTerm::True), b(SimpleTerm::False), b(SimpleTerm::True));

    assert_eq!(conditional.type_of(&context), Ok(SimpleType::Bool));

    let conditional = SimpleTerm::Conditional(
        b(SimpleTerm::Abstraction("x".to_string(), SimpleType::Bool, b(SimpleTerm::False))),
        b(SimpleTerm::False),
        b(SimpleTerm::True),
    );

    assert_eq!(
        conditional.type_of(&context),
        Err(TypeCheckError::Fail(
            conditional.clone(),
            SimpleType::Bool,
            SimpleType::Arrow(bt(SimpleType::Bool), bt(SimpleType::Bool))
        ))
    );

    let conditional = SimpleTerm::Conditional(
        b(SimpleTerm::True),
        b(SimpleTerm::False),
        b(SimpleTerm::Abstraction("x".to_string(), SimpleType::Bool, b(SimpleTerm::False))),
    );

    assert_eq!(
        conditional.type_of(&context),
        Err(TypeCheckError::Fail(
            conditional.clone(),
            SimpleType::Bool,
            SimpleType::Arrow(bt(SimpleType::Bool), bt(SimpleType::Bool))
        ))
    );
}

#[test]
fn abstraction() {
    let mut context = Context::default();

    context.append_binding(ContextMember {
        name: "yabadabadoo".to_string(),
        binding: Binding::VarBind(SimpleType::Arrow(bt(SimpleType::Bool), bt(SimpleType::Unknown))),
    });

    // λx. y, where y is the outer binding of arrow type.
    let abstraction = SimpleTerm::Abstraction(
        "x".to_string(),
        SimpleType::Bool,
        b(SimpleTerm::Var(Var::new("y", 1, 0))),
    );

    assert_eq!(
        abstraction.type_of(&context),
        Ok(SimpleType::Arrow(
            bt(SimpleType::Bool),
            bt(SimpleType::Arrow(bt(SimpleType::Bool), bt(SimpleType::Unknown)))
        ))
    );
}

#[test]
fn application_types_through_arrow() {
    let mut context = Context::default();
    context.append_binding(ContextMember {
        name: "f".to_string(),
        binding: Binding::VarBind(SimpleType::Arrow(bt(SimpleType::Bool), bt(SimpleType::Bool))),
    });

    let application =
        SimpleTerm::Application(b(SimpleTerm::Var(Var::new("f", 0, 0))), b(SimpleTerm::True));

    assert_eq!(application.type_of(&context), Ok(SimpleType::Bool));
}

#[test]
fn application_of_non_arrow_fails() {
    let context = Context::default();
    let application = SimpleTerm::Application(b(SimpleTerm::True), b(SimpleTerm::False));

    assert_eq!(
        application.type_of(&context),
        Err(TypeCheckError::Fail(
            application.clone(),
            SimpleType::Arrow(bt(SimpleType::Unknown), bt(SimpleType::Unknown)),
            SimpleType::Bool,
        ))
    );
}

#[test]
fn abstraction_shadows_with_fresh_name() {
    // A bound name already in the context gets a primed slot, which
    // changes nothing about the inferred type.
    let mut context = Context::default();
    context.append_binding(ContextMember {
        name: "x".to_string(),
        binding: Binding::VarBind(SimpleType::Bool),
    });

    let abstraction = SimpleTerm::Abstraction(
        "x".to_string(),
        SimpleType::Bool,
        b(SimpleTerm::Var(Var::new("x", 0, 0))),
    );

    assert_eq!(
        abstraction.type_of(&context),
        Ok(SimpleType::Arrow(bt(SimpleType::Bool), bt(SimpleType::Bool)))
    );
}

#[test]
fn simple_type_same_compares_structure() {
    let arrow = SimpleType::Arrow(bt(SimpleType::Bool), bt(SimpleType::Unknown));
    assert!(arrow.same(&SimpleType::Arrow(bt(SimpleType::Bool), bt(SimpleType::Unknown))));
    assert!(!arrow.same(&SimpleType::Arrow(bt(SimpleType::Bool), bt(SimpleType::Bool))));
    assert!(!arrow.same(&SimpleType::Bool));
}

#[test]
fn application_domain_mismatch_reports_pair() {
    // Applying a Bool -> Bool function to a function-typed argument
    // fails with the expected domain against the argument's own type.
    let context = Context::default();
    let func = SimpleTerm::Abstraction("x".to_string(), SimpleType::Bool, b(SimpleTerm::False));
    let arg = SimpleTerm::Abstraction("y".to_string(), SimpleType::Bool, b(SimpleTerm::False));
    let application = SimpleTerm::Application(b(func), b(arg));

    assert_eq!(
        application.type_of(&context),
        Err(TypeCheckError::Fail(
            application.clone(),
            SimpleType::Bool,
            SimpleType::Arrow(bt(SimpleType::Bool), bt(SimpleType::Bool)),
        ))
    );
}
