//! The shift/substitute engine.
//!
//! `shift` renumbers every free variable of a term by a fixed amount,
//! tracking a cutoff that grows under binders; `substitute` replaces a
//! free variable by a term, shifting the payload to the depth it lands
//! at.  Both are specified by total functions over the ghost views, with
//! `_ok` predicates saying exactly when the `i32` arithmetic of the
//! executable walk stays in range.  The algebraic laws (shift by zero is
//! the identity, shifts compose, substitution into a closed term is a
//! no-op) are proved at the end.

use vstd::prelude::*;

use crate::syntax::Binding;
use crate::syntax::BindingV;
use crate::syntax::Term;
use crate::syntax::TermV;
use crate::syntax::Var;
use crate::syntax::VarV;
use crate::syntax::view_fields;
use crate::syntax::lemma_view_fields;

verus! {

broadcast use vstd::std_specs::vec::group_vec_axioms;

/// Whether a mathematical integer fits in `i32`.
pub open spec fn in_i32(x: int) -> bool {
    i32::MIN as int <= x <= i32::MAX as int
}

/// Shifting one variable occurrence: a free index (at or past the
/// cutoff) moves by `d`, a bound one stays; the expected context length
/// always moves by `d`.
pub open spec fn shift_var_v(v: VarV, d: int, c: int) -> VarV {
    VarV {
        index: if v.index >= c {
            v.index + d
        } else {
            v.index
        },
        name: v.name,
        csize: v.csize + d,
    }
}

/// Shifting a whole term: the cutoff grows by one under an
/// `Abstraction` body and under a `Let` body (the bound sub-term of a
/// `let` lives in the outer scope).
pub open spec fn shift_v(t: TermV, d: int, c: int) -> TermV
    decreases t,
{
    match t {
        TermV::String(s) => TermV::String(s),
        TermV::Var(v) => TermV::Var(shift_var_v(v, d, c)),
        TermV::True => TermV::True,
        TermV::False => TermV::False,
        TermV::If(t1, t2, t3) => TermV::If(
            Box::new(shift_v(*t1, d, c)),
            Box::new(shift_v(*t2, d, c)),
            Box::new(shift_v(*t3, d, c)),
        ),
        TermV::Let(x, t1, t2) => TermV::Let(
            x,
            Box::new(shift_v(*t1, d, c)),
            Box::new(shift_v(*t2, d, c + 1)),
        ),
        TermV::Record(fs) => TermV::Record(shift_fields_v(fs, d, c)),
        TermV::Projection(t1, l) => TermV::Projection(Box::new(shift_v(*t1, d, c)), l),
        TermV::Abstraction(x, t2) => TermV::Abstraction(x, Box::new(shift_v(*t2, d, c + 1))),
        TermV::Application(t1, t2) => TermV::Application(
            Box::new(shift_v(*t1, d, c)),
            Box::new(shift_v(*t2, d, c)),
        ),
        TermV::Zero => TermV::Zero,
        TermV::Successor(t1) => TermV::Successor(Box::new(shift_v(*t1, d, c))),
        TermV::Predecessor(t1) => TermV::Predecessor(Box::new(shift_v(*t1, d, c))),
        TermV::IsZero(t1) => TermV::IsZero(Box::new(shift_v(*t1, d, c))),
        TermV::Float(bits) => TermV::Float(bits),
        TermV::TimesFloat(t1, t2) => TermV::TimesFloat(
            Box::new(shift_v(*t1, d, c)),
            Box::new(shift_v(*t2, d, c)),
        ),
    }
}

pub open spec fn shift_fields_v(fs: Seq<(Seq<char>, TermV)>, d: int, c: int) -> Seq<
    (Seq<char>, TermV),
>
    decreases fs,
{
    if fs.len() == 0 {
        Seq::empty()
    } else {
        seq![(fs[0].0, shift_v(fs[0].1, d, c))] + shift_fields_v(fs.drop_first(), d, c)
    }
}

pub broadcast proof fn lemma_shift_fields(fs: Seq<(Seq<char>, TermV)>, d: int, c: int)
    ensures
        (#[trigger] shift_fields_v(fs, d, c)).len() == fs.len(),
        forall|i: int|
            0 <= i < fs.len() ==> shift_fields_v(fs, d, c)[i] == (fs[i].0, shift_v(fs[i].1, d, c)),
    decreases fs,
{
    if fs.len() > 0 {
        lemma_shift_fields(fs.drop_first(), d, c);
    }
}

/// When the executable shift walk stays within `i32`.
pub open spec fn shift_ok_v(t: TermV, d: int, c: int) -> bool
    decreases t,
{
    match t {
        TermV::String(_) => true,
        TermV::Var(v) => (v.index >= c ==> in_i32(v.index + d)) && in_i32(v.csize + d),
        TermV::True => true,
        TermV::False => true,
        TermV::If(t1, t2, t3) => shift_ok_v(*t1, d, c) && shift_ok_v(*t2, d, c) && shift_ok_v(
            *t3,
            d,
            c,
        ),
        TermV::Let(_, t1, t2) => c < i32::MAX as int && shift_ok_v(*t1, d, c) && shift_ok_v(
            *t2,
            d,
            c + 1,
        ),
        TermV::Record(fs) => shift_ok_fields_v(fs, d, c),
        TermV::Projection(t1, _) => shift_ok_v(*t1, d, c),
        TermV::Abstraction(_, t2) => c < i32::MAX as int && shift_ok_v(*t2, d, c + 1),
        TermV::Application(t1, t2) => shift_ok_v(*t1, d, c) && shift_ok_v(*t2, d, c),
        TermV::Zero => true,
        TermV::Successor(t1) => shift_ok_v(*t1, d, c),
        TermV::Predecessor(t1) => shift_ok_v(*t1, d, c),
        TermV::IsZero(t1) => shift_ok_v(*t1, d, c),
        TermV::Float(_) => true,
        TermV::TimesFloat(t1, t2) => shift_ok_v(*t1, d, c) && shift_ok_v(*t2, d, c),
    }
}

pub open spec fn shift_ok_fields_v(fs: Seq<(Seq<char>, TermV)>, d: int, c: int) -> bool
    decreases fs,
{
    if fs.len() == 0 {
        true
    } else {
        shift_ok_v(fs[0].1, d, c) && shift_ok_fields_v(fs.drop_first(), d, c)
    }
}

pub broadcast proof fn lemma_shift_ok_fields(fs: Seq<(Seq<char>, TermV)>, d: int, c: int)
    ensures
        #[trigger] shift_ok_fields_v(fs, d, c) <==> (forall|i: int|
            0 <= i < fs.len() ==> shift_ok_v(#[trigger] fs[i].1, d, c)),
    decreases fs,
{
    if fs.len() > 0 {
        lemma_shift_ok_fields(fs.drop_first(), d, c);
        assert forall|i: int|
            0 <= i < fs.len() && shift_ok_fields_v(fs, d, c) implies shift_ok_v(
            fs[i].1,
            d,
            c,
        ) by {
            if i > 0 {
                assert(fs.drop_first()[i - 1] == fs[i]);
            }
        }
        if forall|i: int| 0 <= i < fs.len() ==> shift_ok_v(#[trigger] fs[i].1, d, c) {
            assert forall|i: int|
                0 <= i < fs.drop_first().len() implies shift_ok_v(
                #[trigger] fs.drop_first()[i].1,
                d,
                c,
            ) by {
                assert(fs.drop_first()[i] == fs[i + 1]);
            }
        }
    }
}

/// Substituting into one term: at walk depth `c`, the variable whose
/// index is `j + c` becomes the payload shifted by `c`; every other
/// variable is untouched.
pub open spec fn subst_v(t: TermV, j: int, s: TermV, c: int) -> TermV
    decreases t,
{
    match t {
        TermV::String(str) => TermV::String(str),
        TermV::Var(v) => if v.index == j + c {
            shift_v(s, c, 0)
        } else {
            TermV::Var(v)
        },
        TermV::True => TermV::True,
        TermV::False => TermV::False,
        TermV::If(t1, t2, t3) => TermV::If(
            Box::new(subst_v(*t1, j, s, c)),
            Box::new(subst_v(*t2, j, s, c)),
            Box::new(subst_v(*t3, j, s, c)),
        ),
        TermV::Let(x, t1, t2) => TermV::Let(
            x,
            Box::new(subst_v(*t1, j, s, c)),
            Box::new(subst_v(*t2, j, s, c + 1)),
        ),
        TermV::Record(fs) => TermV::Record(subst_fields_v(fs, j, s, c)),
        TermV::Projection(t1, l) => TermV::Projection(Box::new(subst_v(*t1, j, s, c)), l),
        TermV::Abstraction(x, t2) => TermV::Abstraction(x, Box::new(subst_v(*t2, j, s, c + 1))),
        TermV::Application(t1, t2) => TermV::Application(
            Box::new(subst_v(*t1, j, s, c)),
            Box::new(subst_v(*t2, j, s, c)),
        ),
        TermV::Zero => TermV::Zero,
        TermV::Successor(t1) => TermV::Successor(Box::new(subst_v(*t1, j, s, c))),
        TermV::Predecessor(t1) => TermV::Predecessor(Box::new(subst_v(*t1, j, s, c))),
        TermV::IsZero(t1) => TermV::IsZero(Box::new(subst_v(*t1, j, s, c))),
        TermV::Float(bits) => TermV::Float(bits),
        TermV::TimesFloat(t1, t2) => TermV::TimesFloat(
            Box::new(subst_v(*t1, j, s, c)),
            Box::new(subst_v(*t2, j, s, c)),
        ),
    }
}

pub open spec fn subst_fields_v(fs: Seq<(Seq<char>, TermV)>, j: int, s: TermV, c: int) -> Seq<
    (Seq<char>, TermV),
>
    decreases fs,
{
    if fs.len() == 0 {
        Seq::empty()
    } else {
        seq![(fs[0].0, subst_v(fs[0].1, j, s, c))] + subst_fields_v(fs.drop_first(), j, s, c)
    }
}

pub broadcast proof fn lemma_subst_fields(fs: Seq<(Seq<char>, TermV)>, j: int, s: TermV, c: int)
    ensures
        (#[trigger] subst_fields_v(fs, j, s, c)).len() == fs.len(),
        forall|i: int|
            0 <= i < fs.len() ==> subst_fields_v(fs, j, s, c)[i] == (
                fs[i].0,
                subst_v(fs[i].1, j, s, c),
            ),
    decreases fs,
{
    if fs.len() > 0 {
        lemma_subst_fields(fs.drop_first(), j, s, c);
    }
}

/// When the executable substitution walk stays within `i32`: the index
/// comparison `j + c` fits at every variable, and wherever the payload
/// is planted it can be shifted to that depth.
pub open spec fn subst_ok_v(t: TermV, j: int, s: TermV, c: int) -> bool
    decreases t,
{
    match t {
        TermV::String(_) => true,
        TermV::Var(v) => in_i32(j + c) && (v.index == j + c ==> shift_ok_v(s, c, 0)),
        TermV::True => true,
        TermV::False => true,
        TermV::If(t1, t2, t3) => subst_ok_v(*t1, j, s, c) && subst_ok_v(*t2, j, s, c)
            && subst_ok_v(*t3, j, s, c),
        TermV::Let(_, t1, t2) => c < i32::MAX as int && subst_ok_v(*t1, j, s, c) && subst_ok_v(
            *t2,
            j,
            s,
            c + 1,
        ),
        TermV::Record(fs) => subst_ok_fields_v(fs, j, s, c),
        TermV::Projection(t1, _) => subst_ok_v(*t1, j, s, c),
        TermV::Abstraction(_, t2) => c < i32::MAX as int && subst_ok_v(*t2, j, s, c + 1),
        TermV::Application(t1, t2) => subst_ok_v(*t1, j, s, c) && subst_ok_v(*t2, j, s, c),
        TermV::Zero => true,
        TermV::Successor(t1) => subst_ok_v(*t1, j, s, c),
        TermV::Predecessor(t1) => subst_ok_v(*t1, j, s, c),
        TermV::IsZero(t1) => subst_ok_v(*t1, j, s, c),
        TermV::Float(_) => true,
        TermV::TimesFloat(t1, t2) => subst_ok_v(*t1, j, s, c) && subst_ok_v(*t2, j, s, c),
    }
}

pub open spec fn subst_ok_fields_v(fs: Seq<(Seq<char>, TermV)>, j: int, s: TermV, c: int) -> bool
    decreases fs,
{
    if fs.len() == 0 {
        true
    } else {
        subst_ok_v(fs[0].1, j, s, c) && subst_ok_fields_v(fs.drop_first(), j, s, c)
    }
}

pub broadcast proof fn lemma_subst_ok_fields(fs: Seq<(Seq<char>, TermV)>, j: int, s: TermV, c: int)
    ensures
        #[trigger] subst_ok_fields_v(fs, j, s, c) <==> (forall|i: int|
            0 <= i < fs.len() ==> subst_ok_v(#[trigger] fs[i].1, j, s, c)),
    decreases fs,
{
    if fs.len() > 0 {
        lemma_subst_ok_fields(fs.drop_first(), j, s, c);
        assert forall|i: int|
            0 <= i < fs.len() && subst_ok_fields_v(fs, j, s, c) implies subst_ok_v(
            fs[i].1,
            j,
            s,
            c,
        ) by {
            if i > 0 {
                assert(fs.drop_first()[i - 1] == fs[i]);
            }
        }
        if forall|i: int| 0 <= i < fs.len() ==> subst_ok_v(#[trigger] fs[i].1, j, s, c) {
            assert forall|i: int|
                0 <= i < fs.drop_first().len() implies subst_ok_v(
                #[trigger] fs.drop_first()[i].1,
                j,
                s,
                c,
            ) by {
                assert(fs.drop_first()[i] == fs[i + 1]);
            }
        }
    }
}

/// The composed top-level substitution used by beta-reduction and `let`:
/// shift the payload up past the binder, substitute for index zero, then
/// shift the result down to close the eliminated binder.
pub open spec fn subst_top_v(t: TermV, s: TermV) -> TermV {
    shift_v(subst_v(t, 0, shift_v(s, 1, 0), 0), -1, 0)
}

/// When the three steps of `subst_top_v` all stay within `i32`.
pub open spec fn subst_top_ok_v(t: TermV, s: TermV) -> bool {
    &&& shift_ok_v(s, 1, 0)
    &&& subst_ok_v(t, 0, shift_v(s, 1, 0), 0)
    &&& shift_ok_v(subst_v(t, 0, shift_v(s, 1, 0), 0), -1, 0)
}

/// Renumbering the free variables of a value by a shift amount.
pub trait Shift: View + Sized {
    /// When the executable walk stays within `i32`.
    spec fn shift_ok(&self, d: int, c: int) -> bool;

    /// The view of the shifted value.
    spec fn shifted(&self, d: int, c: int) -> Self::V;

    /// Shifts free variables by `d`, treating indices below the cutoff
    /// `c` as bound.
    fn shift_n(&self, d: i32, c: i32) -> (r: Self)
        requires
            self.shift_ok(d as int, c as int),
        ensures
            r@ == self.shifted(d as int, c as int);

    /// Shifts free variables by `d` with cutoff zero.
    fn shift(&self, d: i32) -> (r: Self)
        requires
            self.shift_ok(d as int, 0),
        ensures
            r@ == self.shifted(d as int, 0);
}

impl Shift for Var {
    open spec fn shift_ok(&self, d: int, c: int) -> bool {
        (self@.index >= c ==> in_i32(self@.index + d)) && in_i32(self@.csize + d)
    }

    open spec fn shifted(&self, d: int, c: int) -> VarV {
        shift_var_v(self@, d, c)
    }

    fn shift_n(&self, d: i32, c: i32) -> (r: Self) {
        let index: i32 = if self.index >= c {
            self.index + d
        } else {
            self.index
        };
        Var { name: self.name.clone(), index, container_size: self.container_size + d }
    }

    fn shift(&self, d: i32) -> (r: Self) {
        self.shift_n(d, 0)
    }
}

/// When shifting a binding's contained term stays within `i32`.
pub open spec fn shift_ok_binding_v(b: BindingV, d: int, c: int) -> bool {
    match b {
        BindingV::TermBind(t) => shift_ok_v(t, d, c),
        _ => true,
    }
}

/// Shifting a binding: only a bound term has variables to renumber.
pub open spec fn shift_binding_v(b: BindingV, d: int, c: int) -> BindingV {
    match b {
        BindingV::NameBind => BindingV::NameBind,
        BindingV::TermBind(t) => BindingV::TermBind(shift_v(t, d, c)),
        BindingV::VarBind(ty) => BindingV::VarBind(ty),
    }
}

impl Shift for Binding {
    open spec fn shift_ok(&self, d: int, c: int) -> bool {
        shift_ok_binding_v(self@, d, c)
    }

    open spec fn shifted(&self, d: int, c: int) -> BindingV {
        shift_binding_v(self@, d, c)
    }

    fn shift_n(&self, d: i32, c: i32) -> (r: Self) {
        match self {
            Binding::NameBind => Binding::NameBind,
            Binding::TermBind(t) => Binding::TermBind(Box::new(t.shift_n(d, c))),
            Binding::VarBind(ty) => Binding::VarBind(ty.clone()),
        }
    }

    fn shift(&self, d: i32) -> (r: Self) {
        self.shift_n(d, 0)
    }
}

impl Shift for Term {
    open spec fn shift_ok(&self, d: int, c: int) -> bool {
        shift_ok_v(self@, d, c)
    }

    open spec fn shifted(&self, d: int, c: int) -> TermV {
        shift_v(self@, d, c)
    }

    #[verifier::loop_isolation(false)]
    fn shift_n(&self, d: i32, c: i32) -> (r: Self)
        decreases self,
    {
        broadcast use lemma_view_fields, lemma_shift_fields, lemma_shift_ok_fields;

        match self {
            Term::String(fi, s) => Term::String(fi.clone(), s.clone()),
            Term::Var(fi, v) => Term::Var(fi.clone(), v.shift_n(d, c)),
            Term::True(fi) => Term::True(fi.clone()),
            Term::False(fi) => Term::False(fi.clone()),
            Term::If(fi, t1, t2, t3) => Term::If(
                fi.clone(),
                Box::new(t1.shift_n(d, c)),
                Box::new(t2.shift_n(d, c)),
                Box::new(t3.shift_n(d, c)),
            ),
            Term::Let(fi, x, t1, t2) => Term::Let(
                fi.clone(),
                x.clone(),
                Box::new(t1.shift_n(d, c)),
                Box::new(t2.shift_n(d, c + 1)),
            ),
            Term::Record(fi, fs) => {
                proof {
                    lemma_view_fields(fs@);
                    lemma_shift_ok_fields(view_fields(fs@), d as int, c as int);
                }
                let mut out: Vec<(String, Box<Term>)> = Vec::new();
                let mut i: usize = 0;
                while i < fs.len()
                    invariant
                        i <= fs.len(),
                        out@.len() == i,
                        forall|k: int|
                            0 <= k < i ==> #[trigger] out@[k].0@ == fs@[k].0@ && out@[k].1@
                                == shift_v(fs@[k].1@, d as int, c as int),
                    decreases fs.len() - i,
                {
                    proof {
                        assert(shift_ok_fields_v(view_fields(fs@), d as int, c as int));
                        assert(view_fields(fs@)[i as int].1 == fs@[i as int].1@);
                        assert(shift_ok_v(fs@[i as int].1@, d as int, c as int));
                    }
                    let name = fs[i].0.clone();
                    let sub = fs[i].1.shift_n(d, c);
                    out.push((name, Box::new(sub)));
                    i += 1;
                }
                proof {
                    assert(view_fields(out@) =~= shift_fields_v(
                        view_fields(fs@),
                        d as int,
                        c as int,
                    ));
                }
                Term::Record(fi.clone(), out)
            },
            Term::Projection(fi, t1, l) => Term::Projection(
                fi.clone(),
                Box::new(t1.shift_n(d, c)),
                l.clone(),
            ),
            Term::Abstraction(fi, x, t2) => Term::Abstraction(
                fi.clone(),
                x.clone(),
                Box::new(t2.shift_n(d, c + 1)),
            ),
            Term::Application(fi, t1, t2) => Term::Application(
                fi.clone(),
                Box::new(t1.shift_n(d, c)),
                Box::new(t2.shift_n(d, c)),
            ),
            Term::Zero(fi) => Term::Zero(fi.clone()),
            Term::Successor(fi, t1) => Term::Successor(fi.clone(), Box::new(t1.shift_n(d, c))),
            Term::Predecessor(fi, t1) => Term::Predecessor(fi.clone(), Box::new(t1.shift_n(d, c))),
            Term::IsZero(fi, t1) => Term::IsZero(fi.clone(), Box::new(t1.shift_n(d, c))),
            Term::Float(fi, bits) => Term::Float(fi.clone(), *bits),
            Term::TimesFloat(fi, t1, t2) => Term::TimesFloat(
                fi.clone(),
                Box::new(t1.shift_n(d, c)),
                Box::new(t2.shift_n(d, c)),
            ),
        }
    }

    fn shift(&self, d: i32) -> (r: Self) {
        self.shift_n(d, 0)
    }
}

/// Replacing a free variable by a term.
pub trait Substitute: View + Sized {
    /// When the executable walk of `substitute` stays within `i32`.
    spec fn subst_ok(&self, j: int, s: &Self) -> bool;

    /// The view of the value after substituting `s` for variable `j`.
    spec fn substituted(&self, j: int, s: &Self) -> Self::V;

    /// When the composed top-level substitution stays within `i32`.
    spec fn subst_top_ok(&self, s: &Self) -> bool;

    /// The view of the value after the composed top-level substitution.
    spec fn substituted_top(&self, s: &Self) -> Self::V;

    /// Replaces every free occurrence of variable `j` with `s`.
    fn substitute(&self, j: i32, s: &Self) -> (r: Self)
        requires
            self.subst_ok(j as int, s),
        ensures
            r@ == self.substituted(j as int, s);

    /// The beta-reduction form: substitutes `s` for the outermost bound
    /// variable and closes the eliminated binder.
    fn substitute_top(&self, s: &Self) -> (r: Self)
        requires
            self.subst_top_ok(s),
        ensures
            r@ == self.substituted_top(s);
}

impl Term {
    #[verifier::loop_isolation(false)]
    fn subst_walk(&self, j: i32, s: &Term, c: i32) -> (r: Term)
        requires
            subst_ok_v(self@, j as int, s@, c as int),
        ensures
            r@ == subst_v(self@, j as int, s@, c as int),
        decreases self,
    {
        broadcast use lemma_view_fields, lemma_subst_fields, lemma_subst_ok_fields;

        match self {
            Term::String(fi, str) => Term::String(fi.clone(), str.clone()),
            Term::Var(fi, v) => if v.index == j + c {
                s.shift_n(c, 0)
            } else {
                Term::Var(fi.clone(), v.clone())
            },
            Term::True(fi) => Term::True(fi.clone()),
            Term::False(fi) => Term::False(fi.clone()),
            Term::If(fi, t1, t2, t3) => Term::If(
                fi.clone(),
                Box::new(t1.subst_walk(j, s, c)),
                Box::new(t2.subst_walk(j, s, c)),
                Box::new(t3.subst_walk(j, s, c)),
            ),
            Term::Let(fi, x, t1, t2) => Term::Let(
                fi.clone(),
                x.clone(),
                Box::new(t1.subst_walk(j, s, c)),
                Box::new(t2.subst_walk(j, s, c + 1)),
            ),
            Term::Record(fi, fs) => {
                proof {
                    lemma_view_fields(fs@);
                    lemma_subst_ok_fields(view_fields(fs@), j as int, s@, c as int);
                }
                let mut out: Vec<(String, Box<Term>)> = Vec::new();
                let mut i: usize = 0;
                while i < fs.len()
                    invariant
                        i <= fs.len(),
                        out@.len() == i,
                        forall|k: int|
                            0 <= k < i ==> #[trigger] out@[k].0@ == fs@[k].0@ && out@[k].1@
                                == subst_v(fs@[k].1@, j as int, s@, c as int),
                    decreases fs.len() - i,
                {
                    proof {
                        assert(subst_ok_fields_v(view_fields(fs@), j as int, s@, c as int));
                        assert(view_fields(fs@)[i as int].1 == fs@[i as int].1@);
                        assert(subst_ok_v(fs@[i as int].1@, j as int, s@, c as int));
                    }
                    let name = fs[i].0.clone();
                    let sub = fs[i].1.subst_walk(j, s, c);
                    out.push((name, Box::new(sub)));
                    i += 1;
                }
                proof {
                    assert(view_fields(out@) =~= subst_fields_v(
                        view_fields(fs@),
                        j as int,
                        s@,
                        c as int,
                    ));
                }
                Term::Record(fi.clone(), out)
            },
            Term::Projection(fi, t1, l) => Term::Projection(
                fi.clone(),
                Box::new(t1.subst_walk(j, s, c)),
                l.clone(),
            ),
            Term::Abstraction(fi, x, t2) => Term::Abstraction(
                fi.clone(),
                x.clone(),
                Box::new(t2.subst_walk(j, s, c + 1)),
            ),
            Term::Application(fi, t1, t2) => Term::Application(
                fi.clone(),
                Box::new(t1.subst_walk(j, s, c)),
                Box::new(t2.subst_walk(j, s, c)),
            ),
            Term::Zero(fi) => Term::Zero(fi.clone()),
            Term::Successor(fi, t1) => Term::Successor(fi.clone(), Box::new(t1.subst_walk(j, s, c))),
            Term::Predecessor(fi, t1) => Term::Predecessor(
                fi.clone(),
                Box::new(t1.subst_walk(j, s, c)),
            ),
            Term::IsZero(fi, t1) => Term::IsZero(fi.clone(), Box::new(t1.subst_walk(j, s, c))),
            Term::Float(fi, bits) => Term::Float(fi.clone(), *bits),
            Term::TimesFloat(fi, t1, t2) => Term::TimesFloat(
                fi.clone(),
                Box::new(t1.subst_walk(j, s, c)),
                Box::new(t2.subst_walk(j, s, c)),
            ),
        }
    }
}

impl Substitute for Term {
    open spec fn subst_ok(&self, j: int, s: &Term) -> bool {
        subst_ok_v(self@, j, s@, 0)
    }

    open spec fn substituted(&self, j: int, s: &Term) -> TermV {
        subst_v(self@, j, s@, 0)
    }

    open spec fn subst_top_ok(&self, s: &Term) -> bool {
        subst_top_ok_v(self@, s@)
    }

    open spec fn substituted_top(&self, s: &Term) -> TermV {
        subst_top_v(self@, s@)
    }

    fn substitute(&self, j: i32, s: &Term) -> (r: Self) {
        self.subst_walk(j, s, 0)
    }

    fn substitute_top(&self, s: &Term) -> (r: Self) {
        let lifted = s.shift(1);
        let substituted = self.substitute(0, &lifted);
        substituted.shift(-1)
    }
}

/// Shifting by zero changes nothing, at any cutoff.
pub proof fn lemma_shift_identity(t: TermV, c: int)
    ensures
        shift_v(t, 0, c) == t,
    decreases t,
{
    broadcast use lemma_shift_fields;

    match t {
        TermV::If(t1, t2, t3) => {
            lemma_shift_identity(*t1, c);
            lemma_shift_identity(*t2, c);
            lemma_shift_identity(*t3, c);
        },
        TermV::Let(_, t1, t2) => {
            lemma_shift_identity(*t1, c);
            lemma_shift_identity(*t2, c + 1);
        },
        TermV::Record(fs) => {
            assert forall|i: int| 0 <= i < fs.len() implies shift_v(#[trigger] fs[i].1, 0, c)
                == fs[i].1 by {
                lemma_shift_identity(fs[i].1, c);
            }
            assert(shift_fields_v(fs, 0, c) =~= fs);
        },
        TermV::Projection(t1, _) => lemma_shift_identity(*t1, c),
        TermV::Abstraction(_, t2) => lemma_shift_identity(*t2, c + 1),
        TermV::Application(t1, t2) => {
            lemma_shift_identity(*t1, c);
            lemma_shift_identity(*t2, c);
        },
        TermV::Successor(t1) => lemma_shift_identity(*t1, c),
        TermV::Predecessor(t1) => lemma_shift_identity(*t1, c),
        TermV::IsZero(t1) => lemma_shift_identity(*t1, c),
        TermV::TimesFloat(t1, t2) => {
            lemma_shift_identity(*t1, c);
            lemma_shift_identity(*t2, c);
        },
        _ => {},
    }
}

/// Two shifts compose into one: shifting by `d1` and then by `d2` is
/// shifting by `d1 + d2`, provided the first shift moves no free
/// variable below the cutoff (`d1 >= 0`).  For a negative first shift
/// the law fails: shifting the variable `0` by `-1` and then by `1`
/// leaves `-1`, not `0`.
pub proof fn lemma_shift_composition(t: TermV, d1: int, d2: int, c: int)
    requires
        d1 >= 0,
    ensures
        shift_v(shift_v(t, d1, c), d2, c) == shift_v(t, d1 + d2, c),
    decreases t,
{
    broadcast use lemma_shift_fields;

    match t {
        TermV::If(t1, t2, t3) => {
            lemma_shift_composition(*t1, d1, d2, c);
            lemma_shift_composition(*t2, d1, d2, c);
            lemma_shift_composition(*t3, d1, d2, c);
        },
        TermV::Let(_, t1, t2) => {
            lemma_shift_composition(*t1, d1, d2, c);
            lemma_shift_composition(*t2, d1, d2, c + 1);
        },
        TermV::Record(fs) => {
            assert forall|i: int|
                0 <= i < fs.len() implies shift_v(shift_v(#[trigger] fs[i].1, d1, c), d2, c)
                == shift_v(fs[i].1, d1 + d2, c) by {
                lemma_shift_composition(fs[i].1, d1, d2, c);
            }
            assert(shift_fields_v(shift_fields_v(fs, d1, c), d2, c) =~= shift_fields_v(
                fs,
                d1 + d2,
                c,
            ));
        },
        TermV::Projection(t1, _) => lemma_shift_composition(*t1, d1, d2, c),
        TermV::Abstraction(_, t2) => lemma_shift_composition(*t2, d1, d2, c + 1),
        TermV::Application(t1, t2) => {
            lemma_shift_composition(*t1, d1, d2, c);
            lemma_shift_composition(*t2, d1, d2, c);
        },
        TermV::Successor(t1) => lemma_shift_composition(*t1, d1, d2, c),
        TermV::Predecessor(t1) => lemma_shift_composition(*t1, d1, d2, c),
        TermV::IsZero(t1) => lemma_shift_composition(*t1, d1, d2, c),
        TermV::TimesFloat(t1, t2) => {
            lemma_shift_composition(*t1, d1, d2, c);
            lemma_shift_composition(*t2, d1, d2, c);
        },
        _ => {},
    }
}

/// Whether a term is closed at level `c`: every variable is bound by one
/// of the `c` binders assumed to enclose the term or by a binder inside
/// it.
pub open spec fn closed_at_v(t: TermV, c: int) -> bool
    decreases t,
{
    match t {
        TermV::String(_) => true,
        TermV::Var(v) => 0 <= v.index < c,
        TermV::True => true,
        TermV::False => true,
        TermV::If(t1, t2, t3) => closed_at_v(*t1, c) && closed_at_v(*t2, c) && closed_at_v(*t3, c),
        TermV::Let(_, t1, t2) => closed_at_v(*t1, c) && closed_at_v(*t2, c + 1),
        TermV::Record(fs) => closed_fields_v(fs, c),
        TermV::Projection(t1, _) => closed_at_v(*t1, c),
        TermV::Abstraction(_, t2) => closed_at_v(*t2, c + 1),
        TermV::Application(t1, t2) => closed_at_v(*t1, c) && closed_at_v(*t2, c),
        TermV::Zero => true,
        TermV::Successor(t1) => closed_at_v(*t1, c),
        TermV::Predecessor(t1) => closed_at_v(*t1, c),
        TermV::IsZero(t1) => closed_at_v(*t1, c),
        TermV::Float(_) => true,
        TermV::TimesFloat(t1, t2) => closed_at_v(*t1, c) && closed_at_v(*t2, c),
    }
}

pub open spec fn closed_fields_v(fs: Seq<(Seq<char>, TermV)>, c: int) -> bool
    decreases fs,
{
    if fs.len() == 0 {
        true
    } else {
        closed_at_v(fs[0].1, c) && closed_fields_v(fs.drop_first(), c)
    }
}

pub broadcast proof fn lemma_closed_fields(fs: Seq<(Seq<char>, TermV)>, c: int)
    ensures
        #[trigger] closed_fields_v(fs, c) <==> (forall|i: int|
            0 <= i < fs.len() ==> closed_at_v(#[trigger] fs[i].1, c)),
    decreases fs,
{
    if fs.len() > 0 {
        lemma_closed_fields(fs.drop_first(), c);
        assert forall|i: int|
            0 <= i < fs.len() && closed_fields_v(fs, c) implies closed_at_v(fs[i].1, c) by {
            if i > 0 {
                assert(fs.drop_first()[i - 1] == fs[i]);
            }
        }
        if forall|i: int| 0 <= i < fs.len() ==> closed_at_v(#[trigger] fs[i].1, c) {
            assert forall|i: int|
                0 <= i < fs.drop_first().len() implies closed_at_v(
                #[trigger] fs.drop_first()[i].1,
                c,
            ) by {
                assert(fs.drop_first()[i] == fs[i + 1]);
            }
        }
    }
}

/// Substituting a non-negative variable into a term closed at the walk
/// depth is a no-op: every variable is bound, so none matches.  For a
/// negative `j` the law fails: substituting for `j == -1` under one
/// binder replaces the bound variable `0`.
pub proof fn lemma_substitute_closed(t: TermV, j: int, s: TermV, c: int)
    requires
        j >= 0,
        closed_at_v(t, c),
    ensures
        subst_v(t, j, s, c) == t,
    decreases t,
{
    broadcast use lemma_subst_fields, lemma_closed_fields;

    match t {
        TermV::If(t1, t2, t3) => {
            lemma_substitute_closed(*t1, j, s, c);
            lemma_substitute_closed(*t2, j, s, c);
            lemma_substitute_closed(*t3, j, s, c);
        },
        TermV::Let(_, t1, t2) => {
            lemma_substitute_closed(*t1, j, s, c);
            lemma_substitute_closed(*t2, j, s, c + 1);
        },
        TermV::Record(fs) => {
            assert forall|i: int| 0 <= i < fs.len() implies subst_v(#[trigger] fs[i].1, j, s, c)
                == fs[i].1 by {
                lemma_closed_fields(fs, c);
                lemma_substitute_closed(fs[i].1, j, s, c);
            }
            assert(subst_fields_v(fs, j, s, c) =~= fs);
        },
        TermV::Projection(t1, _) => lemma_substitute_closed(*t1, j, s, c),
        TermV::Abstraction(_, t2) => lemma_substitute_closed(*t2, j, s, c + 1),
        TermV::Application(t1, t2) => {
            lemma_substitute_closed(*t1, j, s, c);
            lemma_substitute_closed(*t2, j, s, c);
        },
        TermV::Successor(t1) => lemma_substitute_closed(*t1, j, s, c),
        TermV::Predecessor(t1) => lemma_substitute_closed(*t1, j, s, c),
        TermV::IsZero(t1) => lemma_substitute_closed(*t1, j, s, c),
        TermV::TimesFloat(t1, t2) => {
            lemma_substitute_closed(*t1, j, s, c);
            lemma_substitute_closed(*t2, j, s, c);
        },
        _ => {},
    }
}

/// The height of a term tree: leaves are 0.
pub open spec fn height_v(t: TermV) -> int
    decreases t,
{
    match t {
        TermV::String(_) => 0,
        TermV::Var(_) => 0,
        TermV::True => 0,
        TermV::False => 0,
        TermV::If(t1, t2, t3) => 1 + max3(height_v(*t1), height_v(*t2), height_v(*t3)),
        TermV::Let(_, t1, t2) => 1 + max2(height_v(*t1), height_v(*t2)),
        TermV::Record(fs) => 1 + height_fields_v(fs),
        TermV::Projection(t1, _) => 1 + height_v(*t1),
        TermV::Abstraction(_, t2) => 1 + height_v(*t2),
        TermV::Application(t1, t2) => 1 + max2(height_v(*t1), height_v(*t2)),
        TermV::Zero => 0,
        TermV::Successor(t1) => 1 + height_v(*t1),
        TermV::Predecessor(t1) => 1 + height_v(*t1),
        TermV::IsZero(t1) => 1 + height_v(*t1),
        TermV::Float(_) => 0,
        TermV::TimesFloat(t1, t2) => 1 + max2(height_v(*t1), height_v(*t2)),
    }
}

pub open spec fn max2(a: int, b: int) -> int {
    if a >= b {
        a
    } else {
        b
    }
}

pub open spec fn max3(a: int, b: int, c: int) -> int {
    max2(a, max2(b, c))
}

pub open spec fn height_fields_v(fs: Seq<(Seq<char>, TermV)>) -> int
    decreases fs,
{
    if fs.len() == 0 {
        0
    } else {
        max2(height_v(fs[0].1), height_fields_v(fs.drop_first()))
    }
}

pub broadcast proof fn lemma_height_fields(fs: Seq<(Seq<char>, TermV)>)
    ensures
        #[trigger] height_fields_v(fs) >= 0,
        forall|i: int| 0 <= i < fs.len() ==> height_v(#[trigger] fs[i].1) <= height_fields_v(fs),
    decreases fs,
{
    if fs.len() > 0 {
        lemma_height_fields(fs.drop_first());
        lemma_height_nonneg(fs[0].1);
        assert forall|i: int|
            0 <= i < fs.len() implies height_v(#[trigger] fs[i].1) <= height_fields_v(fs) by {
            if i > 0 {
                assert(fs.drop_first()[i - 1] == fs[i]);
            }
        }
    }
}

pub broadcast proof fn lemma_height_nonneg(t: TermV)
    ensures
        #[trigger] height_v(t) >= 0,
    decreases t,
{
    match t {
        TermV::If(t1, t2, t3) => {
            lemma_height_nonneg(*t1);
        },
        TermV::Let(_, t1, t2) => {
            lemma_height_nonneg(*t1);
        },
        TermV::Record(fs) => {
            lemma_height_fields(fs);
        },
        TermV::Projection(t1, _) => lemma_height_nonneg(*t1),
        TermV::Abstraction(_, t2) => lemma_height_nonneg(*t2),
        TermV::Application(t1, t2) => lemma_height_nonneg(*t1),
        TermV::Successor(t1) => lemma_height_nonneg(*t1),
        TermV::Predecessor(t1) => lemma_height_nonneg(*t1),
        TermV::IsZero(t1) => lemma_height_nonneg(*t1),
        TermV::TimesFloat(t1, t2) => lemma_height_nonneg(*t1),
        _ => {},
    }
}

/// Whether every index and expected-context-length in the term lies in
/// `[-m, m]`.
pub open spec fn bounded_v(t: TermV, m: int) -> bool
    decreases t,
{
    match t {
        TermV::String(_) => true,
        TermV::Var(v) => -m <= v.index <= m && -m <= v.csize <= m,
        TermV::True => true,
        TermV::False => true,
        TermV::If(t1, t2, t3) => bounded_v(*t1, m) && bounded_v(*t2, m) && bounded_v(*t3, m),
        TermV::Let(_, t1, t2) => bounded_v(*t1, m) && bounded_v(*t2, m),
        TermV::Record(fs) => bounded_fields_v(fs, m),
        TermV::Projection(t1, _) => bounded_v(*t1, m),
        TermV::Abstraction(_, t2) => bounded_v(*t2, m),
        TermV::Application(t1, t2) => bounded_v(*t1, m) && bounded_v(*t2, m),
        TermV::Zero => true,
        TermV::Successor(t1) => bounded_v(*t1, m),
        TermV::Predecessor(t1) => bounded_v(*t1, m),
        TermV::IsZero(t1) => bounded_v(*t1, m),
        TermV::Float(_) => true,
        TermV::TimesFloat(t1, t2) => bounded_v(*t1, m) && bounded_v(*t2, m),
    }
}

pub open spec fn bounded_fields_v(fs: Seq<(Seq<char>, TermV)>, m: int) -> bool
    decreases fs,
{
    if fs.len() == 0 {
        true
    } else {
        bounded_v(fs[0].1, m) && bounded_fields_v(fs.drop_first(), m)
    }
}

pub broadcast proof fn lemma_bounded_fields(fs: Seq<(Seq<char>, TermV)>, m: int)
    ensures
        #[trigger] bounded_fields_v(fs, m) <==> (forall|i: int|
            0 <= i < fs.len() ==> bounded_v(#[trigger] fs[i].1, m)),
    decreases fs,
{
    if fs.len() > 0 {
        lemma_bounded_fields(fs.drop_first(), m);
        assert forall|i: int|
            0 <= i < fs.len() && bounded_fields_v(fs, m) implies bounded_v(fs[i].1, m) by {
            if i > 0 {
                assert(fs.drop_first()[i - 1] == fs[i]);
            }
        }
        if forall|i: int| 0 <= i < fs.len() ==> bounded_v(#[trigger] fs[i].1, m) {
            assert forall|i: int|
                0 <= i < fs.drop_first().len() implies bounded_v(
                #[trigger] fs.drop_first()[i].1,
                m,
            ) by {
                assert(fs.drop_first()[i] == fs[i + 1]);
            }
        }
    }
}

/// Whether the sum of two machine integers fits in `i32`, decided in
/// wider arithmetic.
fn in_i32_add(a: i32, b: i32) -> (r: bool)
    ensures
        r == in_i32(a as int + b as int),
{
    let s: i64 = (a as i64) + (b as i64);
    i32::MIN as i64 <= s && s <= i32::MAX as i64
}

/// Decides `shift_ok_v`: whether the executable shift walk on this
/// term, by this amount and cutoff, stays within `i32`.
#[verifier::loop_isolation(false)]
pub fn check_shift_ok(t: &Term, d: i32, c: i32) -> (r: bool)
    ensures
        r == shift_ok_v(t@, d as int, c as int),
    decreases t,
{
    broadcast use lemma_view_fields, lemma_shift_ok_fields;

    match t {
        Term::String(_, _) => true,
        Term::Var(_, v) => {
            let index_ok = if v.index >= c {
                in_i32_add(v.index, d)
            } else {
                true
            };
            let csize_ok = in_i32_add(v.container_size, d);
            index_ok && csize_ok
        },
        Term::True(_) => true,
        Term::False(_) => true,
        Term::If(_, t1, t2, t3) => {
            let r1 = check_shift_ok(t1, d, c);
            let r2 = check_shift_ok(t2, d, c);
            let r3 = check_shift_ok(t3, d, c);
            r1 && r2 && r3
        },
        Term::Let(_, _, t1, t2) => {
            if c == i32::MAX {
                false
            } else {
                let r1 = check_shift_ok(t1, d, c);
                let r2 = check_shift_ok(t2, d, c + 1);
                r1 && r2
            }
        },
        Term::Record(_, fs) => {
            proof {
                assert(t@ == TermV::Record(view_fields(fs@)));
            }
            let mut i: usize = 0;
            while i < fs.len()
                invariant
                    i <= fs.len(),
                    forall|k: int|
                        0 <= k < i ==> shift_ok_v(
                            (#[trigger] view_fields(fs@)[k]).1,
                            d as int,
                            c as int,
                        ),
                decreases fs.len() - i,
            {
                proof {
                    assert(view_fields(fs@)[i as int].1 == fs@[i as int].1@);
                }
                let ok = check_shift_ok(&fs[i].1, d, c);
                if !ok {
                    proof {
                        assert(!shift_ok_fields_v(view_fields(fs@), d as int, c as int));
                    }
                    return false;
                }
                i += 1;
            }
            proof {
                assert(shift_ok_fields_v(view_fields(fs@), d as int, c as int));
            }
            true
        },
        Term::Projection(_, t1, _) => check_shift_ok(t1, d, c),
        Term::Abstraction(_, _, t2) => {
            if c == i32::MAX {
                false
            } else {
                check_shift_ok(t2, d, c + 1)
            }
        },
        Term::Application(_, t1, t2) => {
            let r1 = check_shift_ok(t1, d, c);
            let r2 = check_shift_ok(t2, d, c);
            r1 && r2
        },
        Term::Zero(_) => true,
        Term::Successor(_, t1) => check_shift_ok(t1, d, c),
        Term::Predecessor(_, t1) => check_shift_ok(t1, d, c),
        Term::IsZero(_, t1) => check_shift_ok(t1, d, c),
        Term::Float(_, _) => true,
        Term::TimesFloat(_, t1, t2) => {
            let r1 = check_shift_ok(t1, d, c);
            let r2 = check_shift_ok(t2, d, c);
            r1 && r2
        },
    }
}

/// Decides `subst_ok_v`: whether the executable substitution walk on
/// this term stays within `i32`.
#[verifier::loop_isolation(false)]
pub fn check_subst_ok(t: &Term, j: i32, s: &Term, c: i32) -> (r: bool)
    ensures
        r == subst_ok_v(t@, j as int, s@, c as int),
    decreases t,
{
    broadcast use lemma_view_fields, lemma_subst_ok_fields;

    match t {
        Term::String(_, _) => true,
        Term::Var(_, v) => {
            let target_ok = in_i32_add(j, c);
            if !target_ok {
                false
            } else if (v.index as i64) == (j as i64) + (c as i64) {
                check_shift_ok(s, c, 0)
            } else {
                true
            }
        },
        Term::True(_) => true,
        Term::False(_) => true,
        Term::If(_, t1, t2, t3) => {
            let r1 = check_subst_ok(t1, j, s, c);
            let r2 = check_subst_ok(t2, j, s, c);
            let r3 = check_subst_ok(t3, j, s, c);
            r1 && r2 && r3
        },
        Term::Let(_, _, t1, t2) => {
            if c == i32::MAX {
                false
            } else {
                let r1 = check_subst_ok(t1, j, s, c);
                let r2 = check_subst_ok(t2, j, s, c + 1);
                r1 && r2
            }
        },
        Term::Record(_, fs) => {
            proof {
                assert(t@ == TermV::Record(view_fields(fs@)));
            }
            let mut i: usize = 0;
            while i < fs.len()
                invariant
                    i <= fs.len(),
                    forall|k: int|
                        0 <= k < i ==> subst_ok_v(
                            (#[trigger] view_fields(fs@)[k]).1,
                            j as int,
                            s@,
                            c as int,
                        ),
                decreases fs.len() - i,
            {
                proof {
                    assert(view_fields(fs@)[i as int].1 == fs@[i as int].1@);
                }
                let ok = check_subst_ok(&fs[i].1, j, s, c);
                if !ok {
                    proof {
                        assert(!subst_ok_fields_v(view_fields(fs@), j as int, s@, c as int));
                    }
                    return false;
                }
                i += 1;
            }
            proof {
                assert(subst_ok_fields_v(view_fields(fs@), j as int, s@, c as int));
            }
            true
        },
        Term::Projection(_, t1, _) => check_subst_ok(t1, j, s, c),
        Term::Abstraction(_, _, t2) => {
            if c == i32::MAX {
                false
            } else {
                check_subst_ok(t2, j, s, c + 1)
            }
        },
        Term::Application(_, t1, t2) => {
            let r1 = check_subst_ok(t1, j, s, c);
            let r2 = check_subst_ok(t2, j, s, c);
            r1 && r2
        },
        Term::Zero(_) => true,
        Term::Successor(_, t1) => check_subst_ok(t1, j, s, c),
        Term::Predecessor(_, t1) => check_subst_ok(t1, j, s, c),
        Term::IsZero(_, t1) => check_subst_ok(t1, j, s, c),
        Term::Float(_, _) => true,
        Term::TimesFloat(_, t1, t2) => {
            let r1 = check_subst_ok(t1, j, s, c);
            let r2 = check_subst_ok(t2, j, s, c);
            r1 && r2
        },
    }
}

/// Decides `subst_top_ok_v`: whether each of the three steps of the
/// top-level substitution stays within `i32`.
pub fn check_subst_top_ok(t: &Term, s: &Term) -> (r: bool)
    ensures
        r == subst_top_ok_v(t@, s@),
{
    let lift_ok = check_shift_ok(s, 1, 0);
    if !lift_ok {
        return false;
    }
    let lifted = s.shift(1);
    let body_ok = check_subst_ok(t, 0, &lifted, 0);
    if !body_ok {
        return false;
    }
    let substituted = t.substitute(0, &lifted);
    check_shift_ok(&substituted, -1, 0)
}

} // verus!
