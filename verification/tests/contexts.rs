use tapl::context::Context;
use tapl::context::ContextError;
use tapl::context::ContextMember;
use tapl::syntax::Binding;
use tapl::syntax::FileInfo;
use tapl::syntax::Term;

fn fi() -> FileInfo {
    FileInfo::default()
}

#[test]
fn context_add_binding() {
    let mut context = Context::default();

    context.append_binding(ContextMember { name: "test".to_string(), binding: Binding::NameBind });

    assert!(context.is_name_bound("test"));
    assert_eq!(context.lookup_name_by_idx(0), Ok("test".to_string()));
    assert_eq!(context.member(0).binding, Binding::NameBind);
}

#[test]
fn context_add_named_binding() {
    let mut context = Context::default();

    context.append_name("test");

    assert!(context.is_name_bound("test"));
    assert_eq!(context.lookup_name_by_idx(0), Ok("test".to_string()));
    assert_eq!(context.member(0).binding, Binding::NameBind);
}

#[test]
fn context_is_name_bound() {
    let mut context = Context::default();

    context.append_name("exists");

    assert_eq!(context.is_name_bound("exists"), true);
    assert_eq!(context.is_name_bound("nonexists"), false);
}

#[test]
fn context_get_free_name() {
    let mut context = Context::default();

    assert_eq!(context.get_free_name("test"), "test");

    context.append_name("test");

    assert_eq!(context.get_free_name("test"), "test'");
}

#[test]
fn context_get_free_name_primes_until_free() {
    let mut context = Context::default();
    context.append_name("test");
    context.append_name("test'");

    assert_eq!(context.get_free_name("test"), "test''");
}

#[test]
fn context_lookup_idx_by_name() {
    let mut context = Context::default();

    context.append_name("index_0");
    context.append_name("index_1");

    assert_eq!(context.lookup_idx_by_name("index_0"), Ok(1));
    assert_eq!(context.lookup_idx_by_name("index_1"), Ok(0));
    assert_eq!(
        context.lookup_idx_by_name("doesnt_exist"),
        Err(ContextError::RangeError("doesnt_exist not found in context".to_string()))
    );
}

#[test]
fn context_lookup_name_by_idx() {
    let mut context = Context::default();

    context.append_name("index_0");
    context.append_name("index_1");

    assert_eq!(context.lookup_name_by_idx(1), Ok("index_0".to_string()));
    assert_eq!(context.lookup_name_by_idx(0), Ok("index_1".to_string()));
    assert_eq!(
        context.lookup_name_by_idx(2),
        Err(ContextError::RangeError("index 2 does not exist in context".to_string()))
    );
}

#[test]
fn lib_it_appends_a_binding() {
    let mut context = Context::default();

    context.append_binding(ContextMember { name: "test".to_string(), binding: Binding::NameBind });

    assert_eq!(context.get_name(0).unwrap(), "test");
}

#[test]
fn lib_it_finds_a_binding() {
    let mut context = Context::default();

    context.append_binding(ContextMember { name: "test".to_string(), binding: Binding::NameBind });

    let idx = context.get_idx("test").unwrap();

    assert_eq!(idx, 0);
    assert_eq!(context.member(idx).name, "test");
    assert_eq!(context.member(idx).binding, Binding::NameBind);
}

#[test]
fn update_binding_replaces_first_slot() {
    let mut context = Context::default();
    context.append_name("a");
    context.append_name("b");

    let bound = Binding::TermBind(Box::new(Term::True(fi())));
    assert_eq!(context.update_binding("a", bound.clone()), Ok(()));
    assert_eq!(context.member(1).binding, bound);
    assert!(matches!(
        context.update_binding("missing", Binding::NameBind),
        Err(ContextError::RangeError(_))
    ));
}

#[test]
fn get_binding_shifts_stored_term() {
    // The binding stored at depth idx comes back shifted by idx + 1.
    let mut context = Context::default();
    context.append_binding(ContextMember {
        name: "x".to_string(),
        binding: Binding::TermBind(Box::new(Term::Var(
            fi(),
            tapl::syntax::Var::new("free", 0, 0),
        ))),
    });
    context.append_name("top");

    assert_eq!(
        context.get_binding(1),
        Some(Binding::TermBind(Box::new(Term::Var(fi(), tapl::syntax::Var::new("free", 2, 2)))))
    );
    assert_eq!(context.get_binding(5), None);
    assert_eq!(context.shift_binding(1), context.get_binding(1));
}

#[test]
fn with_new_binding_leaves_receiver() {
    let base = Context::default();
    let extended = base.with_new_binding(&ContextMember {
        name: "n".to_string(),
        binding: Binding::NameBind,
    });

    assert_eq!(base.len(), 0);
    assert_eq!(extended.len(), 1);
    assert_eq!(extended.add_name("m").len(), 2);
}

#[test]
fn range_error_names_the_index() {
    let context = Context::default();
    assert_eq!(
        context.lookup_name_by_idx(123),
        Err(ContextError::RangeError("index 123 does not exist in context".to_string()))
    );
    assert_eq!(
        context.get_name(0),
        Err(ContextError::RangeError("index 0 does not exist in context".to_string()))
    );
}
