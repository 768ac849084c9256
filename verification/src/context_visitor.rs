//! The hydration pass: resolving the surface names of a freshly parsed
//! term to de Bruijn indices against a context, and stamping each
//! variable with the number of binders enclosing it.  The evaluator
//! assumes this resolution already happened.

use vstd::prelude::*;

use crate::context::Context;
use crate::context::ContextError;
use crate::context::EntryV;
use crate::context::find_name_v;
use crate::shift::height_v;
use crate::shift::lemma_height_nonneg;
use crate::shift::lemma_height_fields;
use crate::syntax::BindingV;
use crate::syntax::Term;
use crate::syntax::TermV;
use crate::syntax::Var;
use crate::syntax::VarV;
use crate::syntax::view_fields;
use crate::syntax::lemma_view_fields;

verus! {

broadcast use vstd::std_specs::vec::group_vec_axioms;

/// The name pushed for a binder while hydrating under it.
pub open spec fn pushed_v(ctx: Seq<EntryV>, name: Seq<char>) -> Seq<EntryV> {
    ctx.insert(0, EntryV { name, binding: BindingV::NameBind })
}

/// Hydrating one term: a variable's name is looked up in the context
/// (extended by every binder crossed on the way down) and its index and
/// expected context length are rewritten; an unbound name is the error.
pub open spec fn hydrate_v(ctx: Seq<EntryV>, csize: int, t: TermV) -> Result<TermV, Seq<char>>
    decreases t,
{
    match t {
        TermV::String(s) => Ok(TermV::String(s)),
        TermV::Var(v) => match find_name_v(ctx, v.name) {
            Some(i) => Ok(TermV::Var(VarV { index: i, name: v.name, csize })),
            None => Err(v.name),
        },
        TermV::True => Ok(TermV::True),
        TermV::False => Ok(TermV::False),
        TermV::If(t1, t2, t3) => match hydrate_v(ctx, csize, *t1) {
            Ok(r1) => match hydrate_v(ctx, csize, *t2) {
                Ok(r2) => match hydrate_v(ctx, csize, *t3) {
                    Ok(r3) => Ok(TermV::If(Box::new(r1), Box::new(r2), Box::new(r3))),
                    Err(e) => Err(e),
                },
                Err(e) => Err(e),
            },
            Err(e) => Err(e),
        },
        TermV::Let(x, t1, t2) => match hydrate_v(ctx, csize, *t1) {
            Ok(r1) => match hydrate_v(pushed_v(ctx, x), csize + 1, *t2) {
                Ok(r2) => Ok(TermV::Let(x, Box::new(r1), Box::new(r2))),
                Err(e) => Err(e),
            },
            Err(e) => Err(e),
        },
        TermV::Record(fs) => match hydrate_fields_v(ctx, csize, fs) {
            Ok(rs) => Ok(TermV::Record(rs)),
            Err(e) => Err(e),
        },
        TermV::Projection(t1, l) => match hydrate_v(ctx, csize, *t1) {
            Ok(r1) => Ok(TermV::Projection(Box::new(r1), l)),
            Err(e) => Err(e),
        },
        TermV::Abstraction(x, t2) => match hydrate_v(pushed_v(ctx, x), csize + 1, *t2) {
            Ok(r2) => Ok(TermV::Abstraction(x, Box::new(r2))),
            Err(e) => Err(e),
        },
        TermV::Application(t1, t2) => match hydrate_v(ctx, csize, *t1) {
            Ok(r1) => match hydrate_v(ctx, csize, *t2) {
                Ok(r2) => Ok(TermV::Application(Box::new(r1), Box::new(r2))),
                Err(e) => Err(e),
            },
            Err(e) => Err(e),
        },
        TermV::Zero => Ok(TermV::Zero),
        TermV::Successor(t1) => match hydrate_v(ctx, csize, *t1) {
            Ok(r1) => Ok(TermV::Successor(Box::new(r1))),
            Err(e) => Err(e),
        },
        TermV::Predecessor(t1) => match hydrate_v(ctx, csize, *t1) {
            Ok(r1) => Ok(TermV::Predecessor(Box::new(r1))),
            Err(e) => Err(e),
        },
        TermV::IsZero(t1) => match hydrate_v(ctx, csize, *t1) {
            Ok(r1) => Ok(TermV::IsZero(Box::new(r1))),
            Err(e) => Err(e),
        },
        TermV::Float(bits) => Ok(TermV::Float(bits)),
        TermV::TimesFloat(t1, t2) => match hydrate_v(ctx, csize, *t1) {
            Ok(r1) => match hydrate_v(ctx, csize, *t2) {
                Ok(r2) => Ok(TermV::TimesFloat(Box::new(r1), Box::new(r2))),
                Err(e) => Err(e),
            },
            Err(e) => Err(e),
        },
    }
}

/// Hydrating a field list: the first unbound name wins.
pub open spec fn hydrate_fields_v(ctx: Seq<EntryV>, csize: int, fs: Seq<(Seq<char>, TermV)>) -> Result<
    Seq<(Seq<char>, TermV)>,
    Seq<char>,
>
    decreases fs,
{
    if fs.len() == 0 {
        Ok(Seq::empty())
    } else {
        match hydrate_v(ctx, csize, fs[0].1) {
            Ok(r0) => match hydrate_fields_v(ctx, csize, fs.drop_first()) {
                Ok(rest) => Ok(seq![(fs[0].0, r0)] + rest),
                Err(e) => Err(e),
            },
            Err(e) => Err(e),
        }
    }
}

/// What `hydrate_fields_v` returns, element by element: success means
/// every field hydrated, and the error is the first field's failure.
pub proof fn lemma_hydrate_fields(ctx: Seq<EntryV>, csize: int, fs: Seq<(Seq<char>, TermV)>)
    ensures
        match hydrate_fields_v(ctx, csize, fs) {
            Ok(rs) => rs.len() == fs.len() && forall|k: int|
                0 <= k < fs.len() ==> hydrate_v(ctx, csize, #[trigger] fs[k].1) == Ok::<
                    TermV,
                    Seq<char>,
                >(rs[k].1) && rs[k].0 == fs[k].0,
            Err(e) => exists|k: int|
                0 <= k < fs.len() && hydrate_v(ctx, csize, #[trigger] fs[k].1) == Err::<
                    TermV,
                    Seq<char>,
                >(e) && (forall|j: int| 0 <= j < k ==> hydrate_v(ctx, csize, #[trigger] fs[j].1) is Ok),
        },
    decreases fs,
{
    if fs.len() > 0 {
        lemma_hydrate_fields(ctx, csize, fs.drop_first());
        match hydrate_v(ctx, csize, fs[0].1) {
            Ok(r0) => {
                match hydrate_fields_v(ctx, csize, fs.drop_first()) {
                    Ok(rest) => {
                        assert forall|k: int|
                            0 <= k < fs.len() implies hydrate_v(ctx, csize, #[trigger] fs[k].1)
                            == Ok::<TermV, Seq<char>>(hydrate_fields_v(ctx, csize, fs)->Ok_0[k].1)
                            && hydrate_fields_v(ctx, csize, fs)->Ok_0[k].0 == fs[k].0 by {
                            if k > 0 {
                                assert(fs.drop_first()[k - 1] == fs[k]);
                            }
                        }
                    },
                    Err(e) => {
                        let kp = choose|k: int|
                            0 <= k < fs.drop_first().len() && hydrate_v(
                                ctx,
                                csize,
                                #[trigger] fs.drop_first()[k].1,
                            ) == Err::<TermV, Seq<char>>(e) && (forall|j: int|
                                0 <= j < k ==> hydrate_v(
                                    ctx,
                                    csize,
                                    #[trigger] fs.drop_first()[j].1,
                                ) is Ok);
                        assert(fs.drop_first()[kp] == fs[kp + 1]);
                        assert forall|j: int| 0 <= j < kp + 1 implies hydrate_v(
                            ctx,
                            csize,
                            #[trigger] fs[j].1,
                        ) is Ok by {
                            if j > 0 {
                                assert(fs.drop_first()[j - 1] == fs[j]);
                            }
                        }
                        assert(0 <= kp + 1 < fs.len() && hydrate_v(ctx, csize, fs[kp + 1].1)
                            == Err::<TermV, Seq<char>>(e));
                    },
                }
            },
            Err(e) => {
                assert(0 <= 0 < fs.len() && hydrate_v(ctx, csize, fs[0].1) == Err::<
                    TermV,
                    Seq<char>,
                >(e));
            },
        }
    }
}

impl Term {
    #[verifier::loop_isolation(false)]
    fn hydrate_walk(&self, context: &Context, csize: i32) -> (r: Result<Term, ContextError>)
        requires
            0 <= csize,
            context@.len() + height_v(self@) <= i32::MAX as int,
            csize + height_v(self@) <= i32::MAX as int,
        ensures
            match hydrate_v(context@, csize as int, self@) {
                Ok(h) => r matches Ok(ht) && ht@ == h,
                Err(name) => r matches Err(e) && e.message() == name + " not found in context"@,
            },
        decreases self,
    {
        broadcast use lemma_view_fields, lemma_height_nonneg, lemma_height_fields;

        match self {
            Term::String(fi, s) => Ok(Term::String(fi.clone(), s.clone())),
            Term::Var(fi, v) => {
                match context.lookup_idx_by_name(v.name.as_str()) {
                    Ok(idx) => {
                        proof {
                            crate::context::lemma_find_name(context@, v.name@);
                        }
                        Ok(Term::Var(fi.clone(), Var::new(v.name.as_str(), idx as i32, csize)))
                    },
                    Err(e) => Err(e),
                }
            },
            Term::True(fi) => Ok(Term::True(fi.clone())),
            Term::False(fi) => Ok(Term::False(fi.clone())),
            Term::If(fi, t1, t2, t3) => {
                let r1 = t1.hydrate_walk(context, csize)?;
                let r2 = t2.hydrate_walk(context, csize)?;
                let r3 = t3.hydrate_walk(context, csize)?;
                Ok(Term::If(fi.clone(), Box::new(r1), Box::new(r2), Box::new(r3)))
            },
            Term::Let(fi, x, t1, t2) => {
                proof {
                    lemma_height_nonneg(t1@);
                    lemma_height_nonneg(t2@);
                }
                let r1 = t1.hydrate_walk(context, csize)?;
                let inner = context.add_name(x.as_str());
                let r2 = t2.hydrate_walk(&inner, csize + 1)?;
                Ok(Term::Let(fi.clone(), x.clone(), Box::new(r1), Box::new(r2)))
            },
            Term::Record(fi, fs) => {
                proof {
                    lemma_hydrate_fields(context@, csize as int, view_fields(fs@));
                }
                let mut out: Vec<(String, Box<Term>)> = Vec::new();
                let mut i: usize = 0;
                while i < fs.len()
                    invariant
                        i <= fs.len(),
                        out@.len() == i,
                        forall|k: int|
                            0 <= k < i ==> (#[trigger] out@[k].0@ == fs@[k].0@) && hydrate_v(
                                context@,
                                csize as int,
                                fs@[k].1@,
                            ) == Ok::<TermV, Seq<char>>(out@[k].1@),
                    decreases fs.len() - i,
                {
                    proof {
                        lemma_view_fields(fs@);
                        lemma_height_fields(view_fields(fs@));
                        assert(view_fields(fs@)[i as int].1 == fs@[i as int].1@);
                    }
                    let name = fs[i].0.clone();
                    let sub = match fs[i].1.hydrate_walk(context, csize) {
                        Ok(s) => s,
                        Err(e) => {
                            proof {
                                let fsv = view_fields(fs@);
                                match hydrate_fields_v(context@, csize as int, fsv) {
                                    Ok(rs) => {
                                        assert(hydrate_v(context@, csize as int, fsv[i as int].1)
                                            is Ok);
                                        assert(false);
                                    },
                                    Err(ev) => {
                                        let kp = choose|k: int|
                                            0 <= k < fsv.len() && hydrate_v(
                                                context@,
                                                csize as int,
                                                #[trigger] fsv[k].1,
                                            ) == Err::<TermV, Seq<char>>(ev) && (forall|j: int|
                                                0 <= j < k ==> hydrate_v(
                                                    context@,
                                                    csize as int,
                                                    #[trigger] fsv[j].1,
                                                ) is Ok);
                                        assert(fsv[kp].1 == fs@[kp].1@);
                                        if kp < i as int {
                                            assert(out@[kp].0@ == fs@[kp].0@);
                                            assert(hydrate_v(context@, csize as int, fs@[kp].1@)
                                                is Ok);
                                        }
                                        if kp > i as int {
                                            assert(hydrate_v(context@, csize as int, fsv[i as int].1)
                                                is Ok);
                                        }
                                        assert(kp == i as int);
                                    },
                                }
                            }
                            return Err(e);
                        },
                    };
                    out.push((name, Box::new(sub)));
                    i += 1;
                }
                proof {
                    lemma_view_fields(out@);
                    lemma_view_fields(fs@);
                    match hydrate_fields_v(context@, csize as int, view_fields(fs@)) {
                        Ok(rs) => {
                            assert forall|k: int|
                                0 <= k < out@.len() implies #[trigger] view_fields(out@)[k]
                                == rs[k] by {
                                assert(view_fields(fs@)[k].1 == fs@[k].1@);
                                assert(view_fields(fs@)[k].0 == fs@[k].0@);
                                assert(out@[k].0@ == fs@[k].0@);
                                assert(view_fields(out@)[k] == (out@[k].0@, out@[k].1@));
                                assert(rs[k] == (rs[k].0, rs[k].1));
                            }
                            assert(view_fields(out@) =~= rs);
                        },
                        Err(ev) => {
                            let kp = choose|k: int|
                                0 <= k < view_fields(fs@).len() && hydrate_v(
                                    context@,
                                    csize as int,
                                    #[trigger] view_fields(fs@)[k].1,
                                ) == Err::<TermV, Seq<char>>(ev);
                            assert(view_fields(fs@)[kp].1 == fs@[kp].1@);
                            assert(out@[kp].0@ == fs@[kp].0@);
                            assert(false);
                        },
                    }
                }
                Ok(Term::Record(fi.clone(), out))
            },
            Term::Projection(fi, t1, l) => {
                let r1 = t1.hydrate_walk(context, csize)?;
                Ok(Term::Projection(fi.clone(), Box::new(r1), l.clone()))
            },
            Term::Abstraction(fi, x, t2) => {
                proof {
                    lemma_height_nonneg(t2@);
                }
                let inner = context.add_name(x.as_str());
                let r2 = t2.hydrate_walk(&inner, csize + 1)?;
                Ok(Term::Abstraction(fi.clone(), x.clone(), Box::new(r2)))
            },
            Term::Application(fi, t1, t2) => {
                let r1 = t1.hydrate_walk(context, csize)?;
                let r2 = t2.hydrate_walk(context, csize)?;
                Ok(Term::Application(fi.clone(), Box::new(r1), Box::new(r2)))
            },
            Term::Zero(fi) => Ok(Term::Zero(fi.clone())),
            Term::Successor(fi, t1) => {
                let r1 = t1.hydrate_walk(context, csize)?;
                Ok(Term::Successor(fi.clone(), Box::new(r1)))
            },
            Term::Predecessor(fi, t1) => {
                let r1 = t1.hydrate_walk(context, csize)?;
                Ok(Term::Predecessor(fi.clone(), Box::new(r1)))
            },
            Term::IsZero(fi, t1) => {
                let r1 = t1.hydrate_walk(context, csize)?;
                Ok(Term::IsZero(fi.clone(), Box::new(r1)))
            },
            Term::Float(fi, bits) => Ok(Term::Float(fi.clone(), *bits)),
            Term::TimesFloat(fi, t1, t2) => {
                let r1 = t1.hydrate_walk(context, csize)?;
                let r2 = t2.hydrate_walk(context, csize)?;
                Ok(Term::TimesFloat(fi.clone(), Box::new(r1), Box::new(r2)))
            },
        }
    }

    /// Resolves every variable's surface name to its de Bruijn index
    /// against the context, stamping the number of enclosing binders;
    /// an unbound name is a `RangeError`, a bug of the caller.
    pub fn visit_with_context(&self, global_context: &Context) -> (r: Result<Term, ContextError>)
        requires
            global_context@.len() + height_v(self@) <= i32::MAX as int,
            height_v(self@) <= i32::MAX as int,
        ensures
            match hydrate_v(global_context@, 0, self@) {
                Ok(h) => r matches Ok(ht) && ht@ == h,
                Err(name) => r matches Err(e) && e.message() == name + " not found in context"@,
            },
    {
        self.hydrate_walk(global_context, 0)
    }
}

/// Resolves names to indices over a whole term; the form the evaluator
/// calls before reducing.
pub fn hydrate_vars(context: &Context, term: &Term) -> (r: Result<Term, ContextError>)
    requires
        context@.len() + height_v(term@) <= i32::MAX as int,
        height_v(term@) <= i32::MAX as int,
    ensures
        match hydrate_v(context@, 0, term@) {
            Ok(h) => r matches Ok(ht) && ht@ == h,
            Err(name) => r matches Err(e) && e.message() == name + " not found in context"@,
        },
{
    term.visit_with_context(context)
}

} // verus!
