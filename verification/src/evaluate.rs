//! The evaluator: a deterministic, call-by-value, small-step reduction
//! relation driven to a fixed point.
//!
//! `eval_inner` attempts one reduction step and is specified exactly by
//! the ghost relation `step_v`; `evaluate_top` iterates it, mirrored by
//! `run_v`.  Record and projection reduction follow the standard rules:
//! the first non-value field of a record is reduced in place, and a
//! projection waits for its record to become a value before taking the
//! labelled field.  Evaluation itself never fails: a term that cannot
//! reduce further is returned as it stands, and `eval` separately
//! applies the value predicate to tell a result from a stuck term.

use vstd::prelude::*;

use crate::context::Context;
use crate::context::ContextError;
use crate::context::EntryV;
use crate::context_visitor::hydrate_v;
use crate::context_visitor::hydrate_vars;
use crate::shift::Substitute;
use crate::shift::bounded_v;
use crate::shift::bounded_fields_v;
use crate::shift::height_v;
use crate::shift::height_fields_v;
use crate::shift::lemma_bounded_fields;
use crate::shift::lemma_height_fields;
use crate::shift::lemma_height_nonneg;
use crate::shift::max2;
use crate::shift::shift_v;
use crate::shift::shift_ok_binding_v;
use crate::shift::subst_top_ok_v;
use crate::shift::subst_top_v;
use crate::syntax::Binding;
use crate::syntax::BindingV;
use crate::syntax::Command;
use crate::syntax::CommandV;
use crate::syntax::FileInfo;
use crate::syntax::SIZE_BOUND;
use crate::syntax::Term;
use crate::syntax::TermV;
use crate::syntax::lemma_view_fields;
use crate::syntax::view_fields;

verus! {

broadcast use vstd::std_specs::vec::group_vec_axioms;

/// How many reduction steps `evaluate_top` will attempt before handing
/// the term back: far beyond anything a run can reach, so in practice
/// evaluation stops only at a normal form.
pub const EVAL_FUEL: u64 = u64::MAX;

/// The evaluator's failures.  A stuck term is one that is no value yet
/// admits no reduction step; the file and parse variants are filled by
/// callers that read source text before evaluating it.
#[derive(Debug, PartialEq)]
pub enum EvalError {
    NoFile(String),
    Parse(String),
    Stuck(Box<Term>),
}

/// The view of an evaluator failure.
pub ghost enum EvalErrV {
    NoFile(Seq<char>),
    Parse(Seq<char>),
    Stuck(TermV),
}

impl View for EvalError {
    type V = EvalErrV;

    open spec fn view(&self) -> EvalErrV {
        match *self {
            EvalError::NoFile(m) => EvalErrV::NoFile(m@),
            EvalError::Parse(m) => EvalErrV::Parse(m@),
            EvalError::Stuck(t) => EvalErrV::Stuck(t.view_rec()),
        }
    }
}

/// Whether a term is a numeric value: `Zero` under zero or more
/// `Successor`s.
pub open spec fn numeric_v(t: TermV) -> bool
    decreases t,
{
    match t {
        TermV::Zero => true,
        TermV::Successor(x) => numeric_v(*x),
        _ => false,
    }
}

/// Whether a term is a value: a boolean, a numeral, an abstraction, a
/// float, a string, or a record all of whose fields are values.
pub open spec fn value_v(t: TermV) -> bool
    decreases t,
{
    match t {
        TermV::String(_) => true,
        TermV::True => true,
        TermV::False => true,
        TermV::Abstraction(_, _) => true,
        TermV::Float(_) => true,
        TermV::Zero => true,
        TermV::Successor(x) => numeric_v(*x),
        TermV::Record(fs) => fields_values_v(fs),
        _ => false,
    }
}

pub open spec fn fields_values_v(fs: Seq<(Seq<char>, TermV)>) -> bool
    decreases fs,
{
    if fs.len() == 0 {
        true
    } else {
        value_v(fs[0].1) && fields_values_v(fs.drop_first())
    }
}

pub broadcast proof fn lemma_fields_values(fs: Seq<(Seq<char>, TermV)>)
    ensures
        #[trigger] fields_values_v(fs) <==> (forall|i: int|
            0 <= i < fs.len() ==> value_v(#[trigger] fs[i].1)),
    decreases fs,
{
    if fs.len() > 0 {
        lemma_fields_values(fs.drop_first());
        assert forall|i: int|
            0 <= i < fs.len() && fields_values_v(fs) implies value_v(fs[i].1) by {
            if i > 0 {
                assert(fs.drop_first()[i - 1] == fs[i]);
            }
        }
        if forall|i: int| 0 <= i < fs.len() ==> value_v(#[trigger] fs[i].1) {
            assert forall|i: int|
                0 <= i < fs.drop_first().len() implies value_v(#[trigger] fs.drop_first()[i].1) by {
                assert(fs.drop_first()[i] == fs[i + 1]);
            }
        }
    }
}

/// The first field carrying the label, if any.
pub open spec fn lookup_field_v(fs: Seq<(Seq<char>, TermV)>, l: Seq<char>) -> Option<TermV>
    decreases fs,
{
    if fs.len() == 0 {
        None
    } else if fs[0].0 == l {
        Some(fs[0].1)
    } else {
        lookup_field_v(fs.drop_first(), l)
    }
}

/// Whether a term's indices, expected lengths and height all stay
/// within the engine's bound; what running a top-level command asks of
/// the command's term and of every term stored in the global context,
/// so that wrapping in `let`s and hydration stay within `i32`.
pub open spec fn small_v(t: TermV) -> bool {
    bounded_v(t, SIZE_BOUND as int) && height_v(t) <= SIZE_BOUND as int
}

/// Whether a binding's contained term is small.
pub open spec fn binding_small_v(b: BindingV) -> bool {
    match b {
        BindingV::TermBind(t) => small_v(t),
        _ => true,
    }
}

/// Whether a context can drive a top-level command: few enough slots
/// and small enough stored terms that wrapping and hydration stay in
/// range.
pub open spec fn ctx_ok_v(ctx: Seq<EntryV>) -> bool {
    ctx.len() <= SIZE_BOUND as int && (forall|i: int|
        0 <= i < ctx.len() ==> binding_small_v(#[trigger] ctx[i].binding))
}

/// One reduction step, first match wins: variable lookup; the
/// conditional rules; call-by-value `let`; record and projection
/// reduction; beta-reduction with left-to-right call-by-value
/// application order; and the arithmetic rules, each with its
/// congruence.  `None` means no rule applies: the term is a value or it
/// is stuck.
pub open spec fn step_v(ctx: Seq<EntryV>, t: TermV) -> Option<TermV>
    decreases t,
{
    match t {
        TermV::Var(v) => if 0 <= v.index < ctx.len() {
            match ctx[v.index].binding {
                BindingV::TermBind(bt) => Some(shift_v(bt, v.index + 1, 0)),
                _ => None,
            }
        } else {
            None
        },
        TermV::If(t1, t2, t3) => match *t1 {
            TermV::True => Some(*t2),
            TermV::False => Some(*t3),
            _ => match step_v(ctx, *t1) {
                Some(p) => Some(TermV::If(Box::new(p), t2, t3)),
                None => None,
            },
        },
        TermV::Let(x, v1, t2) => if value_v(*v1) {
            Some(subst_top_v(*t2, *v1))
        } else {
            match step_v(ctx, *v1) {
                Some(p) => Some(TermV::Let(x, Box::new(p), t2)),
                None => None,
            }
        },
        TermV::Record(fs) => match step_fields_v(ctx, fs) {
            Some(fs2) => Some(TermV::Record(fs2)),
            None => None,
        },
        TermV::Projection(t1, l) => if value_v(*t1) {
            match *t1 {
                TermV::Record(fs) => lookup_field_v(fs, l),
                _ => None,
            }
        } else {
            match step_v(ctx, *t1) {
                Some(p) => Some(TermV::Projection(Box::new(p), l)),
                None => None,
            }
        },
        TermV::Application(t1, t2) => if (*t1 matches TermV::Abstraction(_, _)) && value_v(*t2) {
            match *t1 {
                TermV::Abstraction(_, t12) => Some(subst_top_v(*t12, *t2)),
                _ => None,
            }
        } else if value_v(*t1) {
            match step_v(ctx, *t2) {
                Some(p) => Some(TermV::Application(t1, Box::new(p))),
                None => None,
            }
        } else {
            match step_v(ctx, *t1) {
                Some(p) => Some(TermV::Application(Box::new(p), t2)),
                None => None,
            }
        },
        TermV::Successor(t1) => match step_v(ctx, *t1) {
            Some(p) => Some(TermV::Successor(Box::new(p))),
            None => None,
        },
        TermV::Predecessor(t1) => match *t1 {
            TermV::Zero => Some(TermV::Zero),
            TermV::Successor(nv) => if numeric_v(*nv) {
                Some(*nv)
            } else {
                match step_v(ctx, *t1) {
                    Some(p) => Some(TermV::Predecessor(Box::new(p))),
                    None => None,
                }
            },
            _ => match step_v(ctx, *t1) {
                Some(p) => Some(TermV::Predecessor(Box::new(p))),
                None => None,
            },
        },
        TermV::IsZero(t1) => match *t1 {
            TermV::Zero => Some(TermV::True),
            TermV::Successor(nv) => if numeric_v(*nv) {
                Some(TermV::False)
            } else {
                match step_v(ctx, *t1) {
                    Some(p) => Some(TermV::IsZero(Box::new(p))),
                    None => None,
                }
            },
            _ => match step_v(ctx, *t1) {
                Some(p) => Some(TermV::IsZero(Box::new(p))),
                None => None,
            },
        },
        _ => None,
    }
}

/// One step on a field list: the first non-value field is reduced in
/// place; a list of values admits no step.
pub open spec fn step_fields_v(ctx: Seq<EntryV>, fs: Seq<(Seq<char>, TermV)>) -> Option<
    Seq<(Seq<char>, TermV)>,
>
    decreases fs,
{
    if fs.len() == 0 {
        None
    } else if value_v(fs[0].1) {
        match step_fields_v(ctx, fs.drop_first()) {
            Some(rest) => Some(seq![fs[0]] + rest),
            None => None,
        }
    } else {
        match step_v(ctx, fs[0].1) {
            Some(p) => Some(seq![(fs[0].0, p)] + fs.drop_first()),
            None => None,
        }
    }
}

/// A list of values admits no field step.
pub proof fn lemma_step_fields_values(ctx: Seq<EntryV>, fs: Seq<(Seq<char>, TermV)>)
    requires
        forall|i: int| 0 <= i < fs.len() ==> value_v(#[trigger] fs[i].1),
    ensures
        step_fields_v(ctx, fs) is None,
    decreases fs,
{
    if fs.len() > 0 {
        assert(value_v(fs[0].1));
        assert forall|i: int|
            0 <= i < fs.drop_first().len() implies value_v(#[trigger] fs.drop_first()[i].1) by {
            assert(fs.drop_first()[i] == fs[i + 1]);
        }
        lemma_step_fields_values(ctx, fs.drop_first());
    }
}

/// A field step happens exactly at the first non-value field.
pub proof fn lemma_step_fields_at(ctx: Seq<EntryV>, fs: Seq<(Seq<char>, TermV)>, k: int)
    requires
        0 <= k < fs.len(),
        !value_v(fs[k].1),
        forall|j: int| 0 <= j < k ==> value_v(#[trigger] fs[j].1),
    ensures
        match step_v(ctx, fs[k].1) {
            Some(t2) => step_fields_v(ctx, fs) == Some(fs.update(k, (fs[k].0, t2))),
            None => step_fields_v(ctx, fs) is None,
        },
    decreases fs,
{
    if k == 0 {
        match step_v(ctx, fs[0].1) {
            Some(t2) => {
                assert(seq![(fs[0].0, t2)] + fs.drop_first() =~= fs.update(0, (fs[0].0, t2)));
            },
            None => {},
        }
    } else {
        assert(value_v(fs[0].1));
        assert(fs.drop_first()[k - 1] == fs[k]);
        assert forall|j: int|
            0 <= j < k - 1 implies value_v(#[trigger] fs.drop_first()[j].1) by {
            assert(fs.drop_first()[j] == fs[j + 1]);
        }
        lemma_step_fields_at(ctx, fs.drop_first(), k - 1);
        match step_v(ctx, fs[k].1) {
            Some(t2) => {
                assert(seq![fs[0]] + fs.drop_first().update(k - 1, (fs[k].0, t2)) =~= fs.update(
                    k,
                    (fs[k].0, t2),
                ));
            },
            None => {},
        }
    }
}

/// When the executable walk of one reduction step stays within
/// `i32`: along the path the step takes, the variable-lookup shift and
/// the top-level substitution of the rule that fires are in range.
/// Everything else a step does is tree rebuilding without arithmetic.
pub open spec fn step_ok_v(ctx: Seq<EntryV>, t: TermV) -> bool
    decreases t,
{
    match t {
        TermV::Var(v) => 0 <= v.index < ctx.len() ==> v.index + 1 <= i32::MAX as int
            && shift_ok_binding_v(ctx[v.index].binding, v.index + 1, 0),
        TermV::If(t1, t2, t3) => match *t1 {
            TermV::True => true,
            TermV::False => true,
            _ => step_ok_v(ctx, *t1),
        },
        TermV::Let(_, v1, t2) => if value_v(*v1) {
            subst_top_ok_v(*t2, *v1)
        } else {
            step_ok_v(ctx, *v1)
        },
        TermV::Record(fs) => step_ok_fields_v(ctx, fs),
        TermV::Projection(t1, _) => if value_v(*t1) {
            true
        } else {
            step_ok_v(ctx, *t1)
        },
        TermV::Application(t1, t2) => if (*t1 matches TermV::Abstraction(_, _)) && value_v(*t2) {
            match *t1 {
                TermV::Abstraction(_, t12) => subst_top_ok_v(*t12, *t2),
                _ => true,
            }
        } else if value_v(*t1) {
            step_ok_v(ctx, *t2)
        } else {
            step_ok_v(ctx, *t1)
        },
        TermV::Successor(t1) => step_ok_v(ctx, *t1),
        TermV::Predecessor(t1) => match *t1 {
            TermV::Zero => true,
            TermV::Successor(nv) => if numeric_v(*nv) {
                true
            } else {
                step_ok_v(ctx, *t1)
            },
            _ => step_ok_v(ctx, *t1),
        },
        TermV::IsZero(t1) => match *t1 {
            TermV::Zero => true,
            TermV::Successor(nv) => if numeric_v(*nv) {
                true
            } else {
                step_ok_v(ctx, *t1)
            },
            _ => step_ok_v(ctx, *t1),
        },
        _ => true,
    }
}

/// The step on a field list touches only the first non-value field.
pub open spec fn step_ok_fields_v(ctx: Seq<EntryV>, fs: Seq<(Seq<char>, TermV)>) -> bool
    decreases fs,
{
    if fs.len() == 0 {
        true
    } else if value_v(fs[0].1) {
        step_ok_fields_v(ctx, fs.drop_first())
    } else {
        step_ok_v(ctx, fs[0].1)
    }
}

/// A list of values asks nothing of the field step.
pub proof fn lemma_step_ok_fields_values(ctx: Seq<EntryV>, fs: Seq<(Seq<char>, TermV)>)
    requires
        forall|i: int| 0 <= i < fs.len() ==> value_v(#[trigger] fs[i].1),
    ensures
        step_ok_fields_v(ctx, fs),
    decreases fs,
{
    if fs.len() > 0 {
        assert(value_v(fs[0].1));
        assert forall|i: int|
            0 <= i < fs.drop_first().len() implies value_v(#[trigger] fs.drop_first()[i].1) by {
            assert(fs.drop_first()[i] == fs[i + 1]);
        }
        lemma_step_ok_fields_values(ctx, fs.drop_first());
    }
}

/// The field-step range condition is exactly the condition at the
/// first non-value field.
pub proof fn lemma_step_ok_fields_at(ctx: Seq<EntryV>, fs: Seq<(Seq<char>, TermV)>, k: int)
    requires
        0 <= k < fs.len(),
        !value_v(fs[k].1),
        forall|j: int| 0 <= j < k ==> value_v(#[trigger] fs[j].1),
    ensures
        step_ok_fields_v(ctx, fs) == step_ok_v(ctx, fs[k].1),
    decreases fs,
{
    if k > 0 {
        assert(value_v(fs[0].1));
        assert(fs.drop_first()[k - 1] == fs[k]);
        assert forall|j: int|
            0 <= j < k - 1 implies value_v(#[trigger] fs.drop_first()[j].1) by {
            assert(fs.drop_first()[j] == fs[j + 1]);
        }
        lemma_step_ok_fields_at(ctx, fs.drop_first(), k - 1);
    }
}

impl Term {
    /// Whether the term is `Zero` under zero or more `Successor`s.
    pub fn is_numeric(&self) -> (r: bool)
        ensures
            r == numeric_v(self@),
        decreases self,
    {
        match self {
            Term::Zero(_) => true,
            Term::Successor(_, t1) => t1.is_numeric(),
            _ => false,
        }
    }
}

/// Whether the term is a value: a boolean, a numeral, an abstraction, a
/// float, a string, or a record all of whose fields are values.
#[verifier::loop_isolation(false)]
pub fn is_value(t: &Term) -> (r: bool)
    ensures
        r == value_v(t@),
    decreases t,
{
    broadcast use lemma_view_fields, lemma_fields_values;

    match t {
        Term::String(_, _) => true,
        Term::True(_) => true,
        Term::False(_) => true,
        Term::Abstraction(_, _, _) => true,
        Term::Float(_, _) => true,
        Term::Zero(_) => true,
        Term::Successor(_, t1) => t1.is_numeric(),
        Term::Record(_, fs) => {
            proof {
                lemma_fields_values(view_fields(fs@));
                assert(t@ == TermV::Record(view_fields(fs@)));
            }
            let mut i: usize = 0;
            while i < fs.len()
                invariant
                    i <= fs.len(),
                    forall|k: int| 0 <= k < i ==> value_v((#[trigger] view_fields(fs@)[k]).1),
                decreases fs.len() - i,
            {
                proof {
                    assert(view_fields(fs@)[i as int].1 == fs@[i as int].1@);
                }
                let v = is_value(&fs[i].1);
                if !v {
                    proof {
                        assert(!value_v(view_fields(fs@)[i as int].1));
                        assert(!fields_values_v(view_fields(fs@)));
                    }
                    return false;
                }
                i += 1;
            }
            proof {
                assert(fields_values_v(view_fields(fs@)));
            }
            true
        },
        _ => false,
    }
}

/// Whether the term's indices and height stay within the engine's
/// bound; what running a top-level command asks of the command's term.
#[verifier::loop_isolation(false)]
pub fn term_small(t: &Term) -> (r: bool)
    ensures
        r == small_v(t@),
{
    let b = term_bounded(t, SIZE_BOUND);
    if !b {
        return false;
    }
    let h = term_height_capped(t);
    h <= SIZE_BOUND
}

/// Whether every index and expected context length in the term lies in
/// `[-m, m]`.
#[verifier::loop_isolation(false)]
pub fn term_bounded(t: &Term, m: i32) -> (r: bool)
    requires
        0 <= m,
    ensures
        r == bounded_v(t@, m as int),
    decreases t,
{
    broadcast use lemma_view_fields, lemma_bounded_fields;

    match t {
        Term::String(_, _) => true,
        Term::Var(_, v) => -m <= v.index && v.index <= m && -m <= v.container_size
            && v.container_size <= m,
        Term::True(_) => true,
        Term::False(_) => true,
        Term::If(_, t1, t2, t3) => {
            let r1 = term_bounded(t1, m);
            let r2 = term_bounded(t2, m);
            let r3 = term_bounded(t3, m);
            r1 && r2 && r3
        },
        Term::Let(_, _, t1, t2) => {
            let r1 = term_bounded(t1, m);
            let r2 = term_bounded(t2, m);
            r1 && r2
        },
        Term::Record(_, fs) => {
            proof {
                lemma_bounded_fields(view_fields(fs@), m as int);
                assert(t@ == TermV::Record(view_fields(fs@)));
            }
            let mut i: usize = 0;
            while i < fs.len()
                invariant
                    i <= fs.len(),
                    forall|k: int|
                        0 <= k < i ==> bounded_v((#[trigger] view_fields(fs@)[k]).1, m as int),
                decreases fs.len() - i,
            {
                proof {
                    assert(view_fields(fs@)[i as int].1 == fs@[i as int].1@);
                }
                let v = term_bounded(&fs[i].1, m);
                if !v {
                    proof {
                        assert(!bounded_v(view_fields(fs@)[i as int].1, m as int));
                        assert(!bounded_fields_v(view_fields(fs@), m as int));
                    }
                    return false;
                }
                i += 1;
            }
            proof {
                assert(bounded_fields_v(view_fields(fs@), m as int));
            }
            true
        },
        Term::Projection(_, t1, _) => term_bounded(t1, m),
        Term::Abstraction(_, _, t2) => term_bounded(t2, m),
        Term::Application(_, t1, t2) => {
            let r1 = term_bounded(t1, m);
            let r2 = term_bounded(t2, m);
            r1 && r2
        },
        Term::Zero(_) => true,
        Term::Successor(_, t1) => term_bounded(t1, m),
        Term::Predecessor(_, t1) => term_bounded(t1, m),
        Term::IsZero(_, t1) => term_bounded(t1, m),
        Term::Float(_, _) => true,
        Term::TimesFloat(_, t1, t2) => {
            let r1 = term_bounded(t1, m);
            let r2 = term_bounded(t2, m);
            r1 && r2
        },
    }
}

/// The height capped just above the engine's bound.
pub open spec fn hcap(x: int) -> int {
    if x > SIZE_BOUND as int {
        SIZE_BOUND as int + 1
    } else {
        x
    }
}

/// The term's height, capped just above the engine's bound so the
/// computation itself cannot overflow.
#[verifier::loop_isolation(false)]
pub fn term_height_capped(t: &Term) -> (h: i32)
    ensures
        h == hcap(height_v(t@)),
    decreases t,
{
    broadcast use lemma_view_fields, lemma_height_nonneg, lemma_height_fields;

    match t {
        Term::String(_, _) => 0,
        Term::Var(_, _) => 0,
        Term::True(_) => 0,
        Term::False(_) => 0,
        Term::If(_, t1, t2, t3) => {
            let h1 = term_height_capped(t1);
            let h2 = term_height_capped(t2);
            let h3 = term_height_capped(t3);
            let m = if h1 >= h2 && h1 >= h3 {
                h1
            } else if h2 >= h3 {
                h2
            } else {
                h3
            };
            if m >= SIZE_BOUND + 1 {
                SIZE_BOUND + 1
            } else {
                m + 1
            }
        },
        Term::Let(_, _, t1, t2) => {
            let h1 = term_height_capped(t1);
            let h2 = term_height_capped(t2);
            let m = if h1 >= h2 {
                h1
            } else {
                h2
            };
            if m >= SIZE_BOUND + 1 {
                SIZE_BOUND + 1
            } else {
                m + 1
            }
        },
        Term::Record(_, fs) => {
            let mut i: usize = 0;
            let mut m: i32 = 0;
            while i < fs.len()
                invariant
                    i <= fs.len(),
                    m == hcap(height_fields_v(view_fields(fs@).take(i as int))),
                    0 <= m <= SIZE_BOUND + 1,
                decreases fs.len() - i,
            {
                proof {
                    assert(view_fields(fs@)[i as int].1 == fs@[i as int].1@);
                }
                let hi = term_height_capped(&fs[i].1);
                proof {
                    lemma_height_fields_take(view_fields(fs@), i as int);
                }
                if hi > m {
                    m = hi;
                }
                i += 1;
            }
            proof {
                assert(view_fields(fs@).take(fs@.len() as int) =~= view_fields(fs@));
            }
            if m >= SIZE_BOUND + 1 {
                SIZE_BOUND + 1
            } else {
                m + 1
            }
        },
        Term::Projection(_, t1, _) => {
            let h1 = term_height_capped(t1);
            if h1 >= SIZE_BOUND + 1 {
                SIZE_BOUND + 1
            } else {
                h1 + 1
            }
        },
        Term::Abstraction(_, _, t2) => {
            let h2 = term_height_capped(t2);
            if h2 >= SIZE_BOUND + 1 {
                SIZE_BOUND + 1
            } else {
                h2 + 1
            }
        },
        Term::Application(_, t1, t2) => {
            let h1 = term_height_capped(t1);
            let h2 = term_height_capped(t2);
            let m = if h1 >= h2 {
                h1
            } else {
                h2
            };
            if m >= SIZE_BOUND + 1 {
                SIZE_BOUND + 1
            } else {
                m + 1
            }
        },
        Term::Zero(_) => 0,
        Term::Successor(_, t1) => {
            let h1 = term_height_capped(t1);
            if h1 >= SIZE_BOUND + 1 {
                SIZE_BOUND + 1
            } else {
                h1 + 1
            }
        },
        Term::Predecessor(_, t1) => {
            let h1 = term_height_capped(t1);
            if h1 >= SIZE_BOUND + 1 {
                SIZE_BOUND + 1
            } else {
                h1 + 1
            }
        },
        Term::IsZero(_, t1) => {
            let h1 = term_height_capped(t1);
            if h1 >= SIZE_BOUND + 1 {
                SIZE_BOUND + 1
            } else {
                h1 + 1
            }
        },
        Term::Float(_, _) => 0,
        Term::TimesFloat(_, t1, t2) => {
            let h1 = term_height_capped(t1);
            let h2 = term_height_capped(t2);
            let m = if h1 >= h2 {
                h1
            } else {
                h2
            };
            if m >= SIZE_BOUND + 1 {
                SIZE_BOUND + 1
            } else {
                m + 1
            }
        },
    }
}

/// Extending a prefix of a field list by one element extends its
/// running height maximum.
proof fn lemma_height_fields_take(fs: Seq<(Seq<char>, TermV)>, i: int)
    requires
        0 <= i < fs.len(),
    ensures
        height_fields_v(fs.take(i + 1)) == max2(height_fields_v(fs.take(i)), height_v(fs[i].1)),
    decreases i,
{
    broadcast use lemma_height_nonneg, lemma_height_fields;

    if i == 0 {
        assert(fs.take(1) =~= seq![fs[0]]);
        assert(fs.take(1).drop_first() =~= Seq::<(Seq<char>, TermV)>::empty());
        assert(fs.take(0) =~= Seq::<(Seq<char>, TermV)>::empty());
    } else {
        assert(fs.take(i + 1).drop_first() =~= fs.drop_first().take(i));
        assert(fs.take(i).drop_first() =~= fs.drop_first().take(i - 1));
        assert(fs.drop_first()[i - 1] == fs[i]);
        lemma_height_fields_take(fs.drop_first(), i - 1);
    }
}

/// Whether the context can drive a top-level command; what a caller of
/// `eval_command` tests first.
#[verifier::loop_isolation(false)]
pub fn check_context(context: &Context) -> (r: bool)
    ensures
        r == ctx_ok_v(context@),
{
    let n = context.len();
    if n > SIZE_BOUND as usize {
        return false;
    }
    let mut i: usize = 0;
    while i < n
        invariant
            i <= context@.len(),
            n == context@.len(),
            n <= SIZE_BOUND as usize,
            forall|k: int| 0 <= k < i ==> binding_small_v((#[trigger] context@[k]).binding),
        decreases n - i,
    {
        let m = context.member(i);
        let ok = match &m.binding {
            Binding::TermBind(t) => term_small(t),
            _ => true,
        };
        if !ok {
            return false;
        }
        i += 1;
    }
    true
}

/// Decides `step_ok_v`: whether the arithmetic of the next reduction
/// step stays within `i32`.  What `evaluate_top` tests before every
/// step.
#[verifier::loop_isolation(false)]
pub fn check_step_ok(context: &Context, t: &Term) -> (r: bool)
    ensures
        r == step_ok_v(context@, t@),
    decreases t,
{
    broadcast use lemma_view_fields;

    match t {
        Term::Var(_, v) => {
            proof {
                assert(t@ == TermV::Var(v@));
            }
            if v.index >= 0 {
                let idx = v.index as usize;
                if idx < context.len() {
                    if v.index == i32::MAX {
                        proof {
                            assert(!step_ok_v(context@, t@));
                        }
                        false
                    } else {
                        let m = context.member(idx);
                        proof {
                            assert(m@ == context@[idx as int]);
                            assert(m.binding@ == context@[idx as int].binding);
                        }
                        match &m.binding {
                            Binding::TermBind(bt) => {
                                let in_range = crate::shift::check_shift_ok(bt, v.index + 1, 0);
                                proof {
                                    assert(m.binding@ == BindingV::TermBind(bt@));
                                    assert(in_range == shift_ok_binding_v(
                                        context@[idx as int].binding,
                                        v.index + 1,
                                        0,
                                    ));
                                }
                                proof {
                                    assert(in_range == step_ok_v(context@, t@));
                                }
                                in_range
                            },
                            _ => {
                                proof {
                                    assert(shift_ok_binding_v(
                                        context@[idx as int].binding,
                                        v.index + 1,
                                        0,
                                    ));
                                    assert(step_ok_v(context@, t@));
                                }
                                true
                            },
                        }
                    }
                } else {
                    proof {
                        assert(step_ok_v(context@, t@));
                    }
                    true
                }
            } else {
                proof {
                    assert(step_ok_v(context@, t@));
                }
                true
            }
        },
        Term::If(_, t1, _, _) => {
            match &**t1 {
                Term::True(_) => true,
                Term::False(_) => true,
                _ => {
                    let rr = check_step_ok(context, t1);
                    proof {
                        assert(rr == step_ok_v(context@, t@));
                    }
                    rr
                },
            }
        },
        Term::Let(_, _, v1, t2) => {
            let v1_is_value = is_value(v1);
            if v1_is_value {
                let rr = crate::shift::check_subst_top_ok(t2, v1);
                proof {
                    assert(rr == step_ok_v(context@, t@));
                }
                rr
            } else {
                let rr = check_step_ok(context, v1);
                proof {
                    assert(rr == step_ok_v(context@, t@));
                }
                rr
            }
        },
        Term::Record(_, fs) => {
            proof {
                assert(t@ == TermV::Record(view_fields(fs@)));
            }
            let mut k: usize = 0;
            while k < fs.len()
                invariant
                    k <= fs.len(),
                    forall|j: int| 0 <= j < k ==> value_v((#[trigger] view_fields(fs@)[j]).1),
                decreases fs.len() - k,
            {
                proof {
                    assert(view_fields(fs@)[k as int].1 == fs@[k as int].1@);
                }
                let field_is_value = is_value(&fs[k].1);
                if !field_is_value {
                    proof {
                        lemma_step_ok_fields_at(context@, view_fields(fs@), k as int);
                    }
                    let rr = check_step_ok(context, &fs[k].1);
                    proof {
                        assert(rr == step_ok_v(context@, t@));
                    }
                    return rr;
                }
                k += 1;
            }
            proof {
                lemma_step_ok_fields_values(context@, view_fields(fs@));
            }
            true
        },
        Term::Projection(_, t1, _) => {
            let t1_is_value = is_value(t1);
            if t1_is_value {
                true
            } else {
                let rr = check_step_ok(context, t1);
                proof {
                    assert(rr == step_ok_v(context@, t@));
                }
                rr
            }
        },
        Term::Application(_, t1, t2) => {
            let t2_is_value = is_value(t2);
            match &**t1 {
                Term::Abstraction(_, _, t12) if t2_is_value => {
                    let rr = crate::shift::check_subst_top_ok(t12, t2);
                    proof {
                        assert(t1@ matches TermV::Abstraction(_, _));
                        assert(*t1@->Abstraction_1 == t12@);
                        assert(rr == step_ok_v(context@, t@));
                    }
                    rr
                },
                _ => {
                    let t1_is_value = is_value(t1);
                    if t1_is_value {
                        let rr = check_step_ok(context, t2);
                        proof {
                            assert(rr == step_ok_v(context@, t@));
                        }
                        rr
                    } else {
                        let rr = check_step_ok(context, t1);
                        proof {
                            assert(rr == step_ok_v(context@, t@));
                        }
                        rr
                    }
                },
            }
        },
        Term::Successor(_, t1) => {
            let rr = check_step_ok(context, t1);
            proof {
                assert(rr == step_ok_v(context@, t@));
            }
            rr
        },
        Term::Predecessor(_, t1) => {
            match &**t1 {
                Term::Zero(_) => true,
                Term::Successor(_, nv) => {
                    let nv_numeric = nv.is_numeric();
                    if nv_numeric {
                        true
                    } else {
                        let rr = check_step_ok(context, t1);
                        proof {
                            assert(rr == step_ok_v(context@, t@));
                        }
                        rr
                    }
                },
                _ => {
                    let rr = check_step_ok(context, t1);
                    proof {
                        assert(rr == step_ok_v(context@, t@));
                    }
                    rr
                },
            }
        },
        Term::IsZero(_, t1) => {
            match &**t1 {
                Term::Zero(_) => true,
                Term::Successor(_, nv) => {
                    let nv_numeric = nv.is_numeric();
                    if nv_numeric {
                        true
                    } else {
                        let rr = check_step_ok(context, t1);
                        proof {
                            assert(rr == step_ok_v(context@, t@));
                        }
                        rr
                    }
                },
                _ => {
                    let rr = check_step_ok(context, t1);
                    proof {
                        assert(rr == step_ok_v(context@, t@));
                    }
                    rr
                },
            }
        },
        _ => true,
    }
}

/// The field list with the field at `k` replaced by a stepped term,
/// everything else copied unchanged.
#[verifier::loop_isolation(false)]
fn rebuild_record_fields(fs: &Vec<(String, Box<Term>)>, k: usize, stepped: Term) -> (out: Vec<
    (String, Box<Term>),
>)
    requires
        k < fs@.len(),
    ensures
        view_fields(out@) == view_fields(fs@).update(
            k as int,
            (fs@[k as int].0@, stepped@),
        ),
{
    broadcast use lemma_view_fields;

    let mut out: Vec<(String, Box<Term>)> = Vec::new();
    let mut j: usize = 0;
    while j < fs.len()
        invariant
            j <= fs.len(),
            k < fs.len(),
            out@.len() == j,
            forall|q: int| 0 <= q < j ==> (#[trigger] out@[q].0@) == fs@[q].0@,
            forall|q: int| 0 <= q < j && q != k ==> (#[trigger] out@[q].1@) == fs@[q].1@,
            j > k ==> out@[k as int].1@ == stepped@,
        decreases fs.len() - j,
    {
        let name = fs[j].0.clone();
        if j == k {
            let replaced = stepped.clone();
            out.push((name, Box::new(replaced)));
        } else {
            let kept = (&*fs[j].1).clone();
            out.push((name, Box::new(kept)));
        }
        proof {
            assert(out@[j as int].0@ == fs@[j as int].0@);
            if j == k {
                assert(out@[j as int].1@ == stepped@);
            } else {
                assert(out@[j as int].1@ == fs@[j as int].1@);
            }
        }
        j += 1;
    }
    proof {
        lemma_view_fields(out@);
        lemma_view_fields(fs@);
        assert forall|q: int|
            0 <= q < fs@.len() implies #[trigger] view_fields(out@)[q] == view_fields(
            fs@,
        ).update(k as int, (fs@[k as int].0@, stepped@))[q] by {
            assert(view_fields(out@)[q] == (out@[q].0@, out@[q].1@));
            assert(view_fields(fs@)[q] == (fs@[q].0@, fs@[q].1@));
        }
        assert(view_fields(out@) =~= view_fields(fs@).update(
            k as int,
            (fs@[k as int].0@, stepped@),
        ));
    }
    out
}

/// Attempts one reduction step; `None` when no rule applies, so the
/// term is a value or stuck.  Exactly the relation `step_v`.
#[verifier::loop_isolation(false)]
#[verifier::rlimit(80)]
pub fn eval_inner(context: &Context, term: &Term) -> (r: Option<Term>)
    requires
        step_ok_v(context@, term@),
    ensures
        match step_v(context@, term@) {
            Some(tv) => r matches Some(rt) && rt@ == tv,
            None => r is None,
        },
    decreases term,
{
    broadcast use lemma_view_fields;

    match term {
        Term::Var(_, v) => {
            if v.index >= 0 {
                let idx = v.index as usize;
                match context.get_binding(idx) {
                    Some(Binding::TermBind(bt)) => {
                        let rr = *bt;
                        proof {
                            assert(step_v(context@, term@) matches Some(tv) && rr@ == tv);
                        }
                        Some(rr)
                    },
                    _ => {
                        proof {
                            assert(step_v(context@, term@) is None);
                        }
                        None
                    },
                }
            } else {
                None
            }
        },
        Term::If(fi, t1, t2, t3) => {
            match &**t1 {
                Term::True(_) => Some((&**t2).clone()),
                Term::False(_) => Some((&**t3).clone()),
                _ => {
                    match eval_inner(context, t1) {
                        Some(p) => {
                            let rr = Term::If(
                                fi.clone(),
                                Box::new(p),
                                Box::new((&**t2).clone()),
                                Box::new((&**t3).clone()),
                            );
                            proof {
                                assert(step_v(context@, term@) matches Some(tv) && rr@ == tv);
                            }
                            Some(rr)
                        },
                        None => None,
                    }
                },
            }
        },
        Term::Let(fi, x, v1, t2) => {
            let v1_is_value = is_value(v1);
            if v1_is_value {
                let rr = t2.substitute_top(v1);
                proof {
                    assert(step_v(context@, term@) matches Some(tv) && rr@ == tv);
                }
                Some(rr)
            } else {
                match eval_inner(context, v1) {
                    Some(p) => {
                        let rr = Term::Let(fi.clone(), x.clone(), Box::new(p), Box::new((&**t2).clone()));
                        proof {
                            assert(step_v(context@, term@) matches Some(tv) && rr@ == tv);
                        }
                        Some(rr)
                    },
                    None => None,
                }
            }
        },
        Term::Record(fi, fs) => {
            proof {
                assert(term@ == TermV::Record(view_fields(fs@)));
            }
            let mut k: usize = 0;
            while k < fs.len()
                invariant
                    k <= fs.len(),
                    forall|j: int| 0 <= j < k ==> value_v((#[trigger] view_fields(fs@)[j]).1),
                decreases fs.len() - k,
            {
                proof {
                    assert(view_fields(fs@)[k as int].1 == fs@[k as int].1@);
                }
                let field_is_value = is_value(&fs[k].1);
                if !field_is_value {
                    proof {
                        lemma_step_fields_at(context@, view_fields(fs@), k as int);
                        lemma_step_ok_fields_at(context@, view_fields(fs@), k as int);
                    }
                    match eval_inner(context, &fs[k].1) {
                        None => {
                            return None;
                        },
                        Some(t2) => {
                            let out = rebuild_record_fields(fs, k, t2);
                            let rr = Term::Record(fi.clone(), out);
                            proof {
                                assert(step_v(context@, term@) matches Some(tv) && rr@ == tv);
                            }
                            return Some(rr);
                        },
                    }
                }
                k += 1;
            }
            proof {
                lemma_step_fields_values(context@, view_fields(fs@));
            }
            None
        },
        Term::Projection(fi, t1, l) => {
            let t1_is_value = is_value(t1);
            if t1_is_value {
                match &**t1 {
                    Term::Record(_, fs) => {
                        proof {
                            lemma_lookup_field(view_fields(fs@), l@);
                        }
                        let mut j: usize = 0;
                        while j < fs.len()
                            invariant
                                j <= fs.len(),
                                forall|q: int|
                                    0 <= q < j ==> (#[trigger] view_fields(fs@)[q]).0 != l@,
                            decreases fs.len() - j,
                        {
                            proof {
                                assert(view_fields(fs@)[j as int] == (fs@[j as int].0@, fs@[j as int].1@));
                            }
                            let hit = fs[j].0 == *l;
                            if hit {
                                proof {
                                    let fsv = view_fields(fs@);
                                    match lookup_field_v(fsv, l@) {
                                        Some(tf) => {
                                            let kp = choose|k: int|
                                                0 <= k < fsv.len() && (#[trigger] fsv[k]).0 == l@
                                                    && fsv[k].1 == tf && (forall|q: int|
                                                    0 <= q < k ==> (#[trigger] fsv[q]).0 != l@);
                                            if kp > j as int {
                                                assert(fsv[j as int].0 != l@);
                                            }
                                            assert(kp == j as int);
                                            assert(tf == fs@[j as int].1@);
                                        },
                                        None => {
                                            assert(fsv[j as int].0 != l@);
                                            assert(false);
                                        },
                                    }
                                }
                                let rr = (&*fs[j].1).clone();
                                proof {
                                    assert(step_v(context@, term@) matches Some(tv) && rr@ == tv);
                                }
                                return Some(rr);
                            }
                            j += 1;
                        }
                        None
                    },
                    _ => None,
                }
            } else {
                match eval_inner(context, t1) {
                    Some(p) => {
                        let rr = Term::Projection(fi.clone(), Box::new(p), l.clone());
                        proof {
                            assert(step_v(context@, term@) matches Some(tv) && rr@ == tv);
                        }
                        Some(rr)
                    },
                    None => None,
                }
            }
        },
        Term::Application(fi, t1, t2) => {
            let t2_is_value = is_value(t2);
            match &**t1 {
                Term::Abstraction(_, _, t12) if t2_is_value => {
                    proof {
                        assert(t1@ matches TermV::Abstraction(_, _));
                        assert(subst_top_ok_v(t12@, t2@));
                    }
                    let rr = t12.substitute_top(t2);
                    proof {
                        assert(step_v(context@, term@) matches Some(tv) && rr@ == tv);
                    }
                    Some(rr)
                },
                _ => {
                    let t1_is_value = is_value(t1);
                    if t1_is_value {
                        match eval_inner(context, t2) {
                            Some(p) => {
                                let rr = Term::Application(fi.clone(), Box::new((&**t1).clone()), Box::new(p));
                                proof {
                                    assert(step_v(context@, term@) matches Some(tv) && rr@ == tv);
                                }
                                Some(rr)
                            },
                            None => None,
                        }
                    } else {
                        match eval_inner(context, t1) {
                            Some(p) => {
                                let rr = Term::Application(fi.clone(), Box::new(p), Box::new((&**t2).clone()));
                                proof {
                                    assert(step_v(context@, term@) matches Some(tv) && rr@ == tv);
                                }
                                Some(rr)
                            },
                            None => None,
                        }
                    }
                },
            }
        },
        Term::Successor(fi, t1) => {
            match eval_inner(context, t1) {
                Some(p) => {
                    let rr = Term::Successor(fi.clone(), Box::new(p));
                    proof {
                        assert(step_v(context@, term@) matches Some(tv) && rr@ == tv);
                    }
                    Some(rr)
                },
                None => None,
            }
        },
        Term::Predecessor(fi, t1) => {
            match &**t1 {
                Term::Zero(_) => Some(Term::Zero(FileInfo::default())),
                Term::Successor(_, nv) => {
                    let nv_numeric = nv.is_numeric();
                    if nv_numeric {
                        Some((&**nv).clone())
                    } else {
                        match eval_inner(context, t1) {
                            Some(p) => {
                                let rr = Term::Predecessor(fi.clone(), Box::new(p));
                                proof {
                                    assert(step_v(context@, term@) matches Some(tv) && rr@ == tv);
                                }
                                Some(rr)
                            },
                            None => None,
                        }
                    }
                },
                _ => {
                    match eval_inner(context, t1) {
                        Some(p) => {
                            let rr = Term::Predecessor(fi.clone(), Box::new(p));
                            proof {
                                assert(step_v(context@, term@) matches Some(tv) && rr@ == tv);
                            }
                            Some(rr)
                        },
                        None => None,
                    }
                },
            }
        },
        Term::IsZero(fi, t1) => {
            match &**t1 {
                Term::Zero(_) => Some(Term::True(FileInfo::default())),
                Term::Successor(_, nv) => {
                    let nv_numeric = nv.is_numeric();
                    if nv_numeric {
                        Some(Term::False(FileInfo::default()))
                    } else {
                        match eval_inner(context, t1) {
                            Some(p) => {
                                let rr = Term::IsZero(fi.clone(), Box::new(p));
                                proof {
                                    assert(step_v(context@, term@) matches Some(tv) && rr@ == tv);
                                }
                                Some(rr)
                            },
                            None => None,
                        }
                    }
                },
                _ => {
                    match eval_inner(context, t1) {
                        Some(p) => {
                            let rr = Term::IsZero(fi.clone(), Box::new(p));
                            proof {
                                assert(step_v(context@, term@) matches Some(tv) && rr@ == tv);
                            }
                            Some(rr)
                        },
                        None => None,
                    }
                },
            }
        },
        _ => None,
    }
}

/// The first field carrying the label is the one projection takes.
pub proof fn lemma_lookup_field(fs: Seq<(Seq<char>, TermV)>, l: Seq<char>)
    ensures
        match lookup_field_v(fs, l) {
            Some(t) => exists|k: int|
                0 <= k < fs.len() && (#[trigger] fs[k]).0 == l && fs[k].1 == t && (forall|j: int|
                    0 <= j < k ==> (#[trigger] fs[j]).0 != l),
            None => forall|k: int| 0 <= k < fs.len() ==> (#[trigger] fs[k]).0 != l,
        },
    decreases fs,
{
    if fs.len() > 0 && fs[0].0 != l {
        lemma_lookup_field(fs.drop_first(), l);
        match lookup_field_v(fs.drop_first(), l) {
            Some(t) => {
                let kp = choose|k: int|
                    0 <= k < fs.drop_first().len() && (#[trigger] fs.drop_first()[k]).0 == l
                        && fs.drop_first()[k].1 == t && (forall|j: int|
                        0 <= j < k ==> (#[trigger] fs.drop_first()[j]).0 != l);
                assert(fs.drop_first()[kp] == fs[kp + 1]);
                assert forall|j: int| 0 <= j < kp + 1 implies (#[trigger] fs[j]).0 != l by {
                    if j > 0 {
                        assert(fs.drop_first()[j - 1] == fs[j]);
                    }
                }
                assert(0 <= kp + 1 < fs.len() && fs[kp + 1].0 == l && fs[kp + 1].1 == t);
            },
            None => {
                assert forall|k: int| 0 <= k < fs.len() implies (#[trigger] fs[k]).0 != l by {
                    if k > 0 {
                        assert(fs.drop_first()[k - 1] == fs[k]);
                    }
                }
            },
        }
    }
}

/// A value admits no reduction step: what `eval` hands back as `Ok`
/// is a normal form.
pub proof fn lemma_value_no_step(ctx: Seq<EntryV>, t: TermV)
    requires
        value_v(t),
    ensures
        step_v(ctx, t) is None,
    decreases t,
{
    match t {
        TermV::Successor(x) => {
            lemma_numeric_no_step(ctx, *x);
        },
        TermV::Record(fs) => {
            lemma_fields_values(fs);
            assert forall|i: int| 0 <= i < fs.len() implies value_v(#[trigger] fs[i].1) by {}
            lemma_step_fields_values(ctx, fs);
        },
        _ => {},
    }
}

/// A numeric value admits no reduction step.
pub proof fn lemma_numeric_no_step(ctx: Seq<EntryV>, t: TermV)
    requires
        numeric_v(t),
    ensures
        step_v(ctx, t) is None,
    decreases t,
{
    match t {
        TermV::Successor(x) => {
            lemma_numeric_no_step(ctx, *x);
        },
        _ => {},
    }
}

/// Iterated reduction, as `evaluate_top` performs it: step until no
/// rule applies, stopping early only when the fuel runs out or the
/// arithmetic of the very next step would leave `i32`.
pub open spec fn run_v(ctx: Seq<EntryV>, t: TermV, fuel: nat) -> TermV
    decreases fuel,
{
    if fuel == 0 || !step_ok_v(ctx, t) {
        t
    } else {
        match step_v(ctx, t) {
            None => t,
            Some(t2) => run_v(ctx, t2, (fuel - 1) as nat),
        }
    }
}

/// A value is a fixed point of iterated reduction.
pub proof fn lemma_value_runs_to_itself(ctx: Seq<EntryV>, t: TermV, fuel: nat)
    requires
        value_v(t),
    ensures
        run_v(ctx, t, fuel) == t,
{
    if fuel != 0 && step_ok_v(ctx, t) {
        lemma_value_no_step(ctx, t);
    }
}

/// Normal forms are fixed points: when iterated reduction has stopped
/// (no rule applies any more, or the next step's arithmetic would
/// leave `i32`), running it again returns the same term.  Only a run
/// that consumed all its fuel on a still-reducible term is outside
/// this law.
pub proof fn lemma_evaluate_idempotent(ctx: Seq<EntryV>, t: TermV, fuel: nat)
    requires
        step_v(ctx, run_v(ctx, t, fuel)) is None || !step_ok_v(ctx, run_v(ctx, t, fuel)),
    ensures
        run_v(ctx, run_v(ctx, t, fuel), fuel) == run_v(ctx, t, fuel),
{
    let r = run_v(ctx, t, fuel);
    if fuel == 0 || !step_ok_v(ctx, r) {
    } else {
        assert(run_v(ctx, r, fuel) == r);
    }
}

/// Drives a term to its normal form by repeated single steps: the only
/// externally visible evaluation entry point.  It does not tell a value
/// from a stuck non-value: an irreducible term is returned as it is,
/// and callers wanting stuck-term diagnostics apply `is_value` to the
/// result.  Before every step the exact range conditions of that step
/// are checked, so a term is handed back unreduced only where the
/// walk's `i32` arithmetic itself would overflow.
#[verifier::loop_isolation(false)]
pub fn evaluate_top(context: &Context, term: &Term) -> (r: Term)
    ensures
        r@ == run_v(context@, term@, EVAL_FUEL as nat),
{
    let mut cur: Term = term.clone();
    let mut fuel: u64 = EVAL_FUEL;
    loop
        invariant
            run_v(context@, term@, EVAL_FUEL as nat) == run_v(context@, cur@, fuel as nat),
        decreases fuel,
    {
        if fuel == 0 {
            return cur;
        }
        let step_in_range = check_step_ok(context, &cur);
        if !step_in_range {
            return cur;
        }
        match eval_inner(context, &cur) {
            None => {
                return cur;
            },
            Some(next) => {
                proof {
                    assert(run_v(context@, cur@, fuel as nat) == run_v(
                        context@,
                        next@,
                        (fuel - 1) as nat,
                    ));
                }
                cur = next;
                fuel = fuel - 1;
            },
        }
    }
}

/// Evaluates to normal form and then applies the value predicate: a
/// normal form that is no value is reported as stuck, carrying the
/// term it got stuck at.
pub fn eval(context: &Context, term: &Term) -> (r: Result<Term, EvalError>)
    ensures
        ({
            let nf = run_v(context@, term@, EVAL_FUEL as nat);
            if value_v(nf) {
                r matches Ok(v) && v@ == nf
            } else {
                r matches Err(e) && e@ == EvalErrV::Stuck(nf)
            }
        }),
{
    let nf = evaluate_top(context, term);
    let nf_is_value = is_value(&nf);
    if nf_is_value {
        Ok(nf)
    } else {
        Err(EvalError::Stuck(Box::new(nf)))
    }
}

/// A term bound at the top level, hydrated against the global context
/// before it is stored.
pub fn evaluate_binding(context: &Context, bind: &Binding) -> (r: Result<Binding, ContextError>)
    requires
        match bind@ {
            BindingV::TermBind(t) => context@.len() + height_v(t) <= i32::MAX as int && height_v(t)
                <= i32::MAX as int,
            _ => true,
        },
    ensures
        match bind@ {
            BindingV::TermBind(t) => match hydrate_v(context@, 0, t) {
                Ok(h) => r matches Ok(b2) && b2@ == BindingV::TermBind(h),
                Err(name) => r matches Err(e) && e.message() == name + " not found in context"@,
            },
            _ => r matches Ok(b2) && b2@ == bind@,
        },
{
    match bind {
        Binding::TermBind(term) => {
            let hydrated = hydrate_vars(context, term)?;
            Ok(Binding::TermBind(Box::new(hydrated)))
        },
        _ => Ok(bind.clone()),
    }
}

/// The global context folded into the term as a chain of `let`s: the
/// slot at index 0 becomes the innermost binder, so indices keep their
/// meaning.  Slots without a bound term add no binder.
pub open spec fn wrap_globals_v(ctx: Seq<EntryV>, t: TermV) -> TermV
    decreases ctx.len(),
{
    if ctx.len() == 0 {
        t
    } else {
        let e = ctx.last();
        let inner = wrap_globals_v(ctx.drop_last(), t);
        match e.binding {
            BindingV::TermBind(bt) => TermV::Let(e.name, Box::new(bt), Box::new(inner)),
            _ => inner,
        }
    }
}

/// Wrapping in global `let`s adds at most one level per slot and keeps
/// every height involved.
pub proof fn lemma_wrap_globals_height(ctx: Seq<EntryV>, t: TermV, hb: int)
    requires
        0 <= hb,
        height_v(t) <= hb,
        forall|i: int|
            0 <= i < ctx.len() ==> (match (#[trigger] ctx[i].binding) {
                BindingV::TermBind(bt) => height_v(bt) <= hb,
                _ => true,
            }),
    ensures
        height_v(wrap_globals_v(ctx, t)) <= ctx.len() + hb,
    decreases ctx.len(),
{
    broadcast use lemma_height_nonneg;

    if ctx.len() > 0 {
        assert forall|i: int|
            0 <= i < ctx.drop_last().len() implies (match (#[trigger] ctx.drop_last()[i].binding) {
            BindingV::TermBind(bt) => height_v(bt) <= hb,
            _ => true,
        }) by {
            assert(ctx.drop_last()[i] == ctx[i]);
        }
        lemma_wrap_globals_height(ctx.drop_last(), t, hb);
        assert(ctx[ctx.len() - 1] == ctx.last());
    }
}

/// Builds the term that evaluation of a top-level command works on:
/// the command's term under a `let` for every bound slot of the global
/// context, innermost first.
#[verifier::loop_isolation(false)]
pub fn wrap_globals(context: &Context, term: &Term) -> (r: Term)
    ensures
        r@ == wrap_globals_v(context@, term@),
{
    let mut acc: Term = term.clone();
    let mut i: usize = 0;
    let n = context.len();
    while i < n
        invariant
            i <= n,
            n == context@.len(),
            acc@ == wrap_globals_v(context@.take(i as int), term@),
        decreases n - i,
    {
        let m = context.member(i);
        match &m.binding {
            Binding::TermBind(bt) => {
                acc = Term::Let(
                    FileInfo::default(),
                    m.name.clone(),
                    Box::new((&**bt).clone()),
                    Box::new(acc),
                );
            },
            _ => {},
        }
        proof {
            assert(context@.take(i + 1).drop_last() =~= context@.take(i as int));
            assert(context@.take(i + 1).last() == context@[i as int]);
        }
        i += 1;
    }
    proof {
        assert(context@.take(n as int) =~= context@);
    }
    acc
}

/// Runs one top-level command: an `Eval` command's term is wrapped in
/// the global `let`s, hydrated, and driven to normal form; `Import`
/// and `Bind` commands ask for no evaluation.  A hydration failure
/// (an unbound name) is handed back as the registry's error.
pub fn eval_command(context: &Context, command: &Command) -> (r: Result<
    Option<Term>,
    ContextError,
>)
    requires
        ctx_ok_v(context@),
        command@ matches CommandV::Eval(t) ==> small_v(t),
    ensures
        match command@ {
            CommandV::Eval(t) => {
                let wrapped = wrap_globals_v(context@, t);
                match hydrate_v(context@, 0, wrapped) {
                    Ok(h) => r matches Ok(o) && (o matches Some(res) && res@ == run_v(
                        context@,
                        h,
                        EVAL_FUEL as nat,
                    )),
                    Err(name) => r matches Err(e) && e.message() == name
                        + " not found in context"@,
                }
            },
            _ => r matches Ok(o) && o is None,
        },
{
    match command {
        Command::Eval(_, term) => {
            let wrapped = wrap_globals(context, term);
            proof {
                broadcast use lemma_height_nonneg;

                assert forall|i: int|
                    0 <= i < context@.len() implies (match (#[trigger] context@[i].binding) {
                    BindingV::TermBind(bt) => height_v(bt) <= SIZE_BOUND as int,
                    _ => true,
                }) by {
                    assert(binding_small_v(context@[i].binding));
                }
                lemma_wrap_globals_height(context@, term@, SIZE_BOUND as int);
            }
            let hydrated = hydrate_vars(context, &wrapped)?;
            Ok(Some(evaluate_top(context, &hydrated)))
        },
        _ => Ok(None),
    }
}

} // verus!
