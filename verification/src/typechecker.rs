//! The typed variant: structural, syntax-directed type checking for the
//! simply typed fragment (booleans, abstraction, application,
//! conditionals) over the same context machinery as the evaluator.

use vstd::prelude::*;

use crate::context::Context;
use crate::context::ContextMember;
use crate::context::EntryV;
use crate::syntax::Binding;
use crate::syntax::BindingV;
use crate::syntax::Var;
use crate::syntax::VarV;

verus! {

/// A marker for the types a checker can infer.
pub trait Type {

}

/// A type of the simply typed fragment: `Bool`, an arrow type, or the
/// `Unknown` placeholder reported in mismatch diagnostics.
#[derive(Debug, PartialEq)]
pub enum SimpleType {
    Unknown,
    Arrow(Box<SimpleType>, Box<SimpleType>),
    Bool,
}

impl Type for SimpleType {

}

impl Clone for SimpleType {
    fn clone(&self) -> (r: Self)
        ensures
            r == *self,
        decreases self,
    {
        match self {
            SimpleType::Unknown => SimpleType::Unknown,
            SimpleType::Arrow(a, b) => SimpleType::Arrow(
                Box::new((&**a).clone()),
                Box::new((&**b).clone()),
            ),
            SimpleType::Bool => SimpleType::Bool,
        }
    }
}

impl SimpleType {
    /// Structural equality, usable from verified code.
    pub fn same(&self, other: &SimpleType) -> (r: bool)
        ensures
            r <==> *self == *other,
        decreases self,
    {
        match (self, other) {
            (SimpleType::Unknown, SimpleType::Unknown) => true,
            (SimpleType::Bool, SimpleType::Bool) => true,
            (SimpleType::Arrow(a1, b1), SimpleType::Arrow(a2, b2)) => {
                let ra = (&**a1).same(&**a2);
                let rb = (&**b1).same(&**b2);
                ra && rb
            },
            _ => false,
        }
    }
}

/// The view of a term of the simply typed fragment.
pub ghost enum SimpleTermV {
    Var(VarV),
    Abstraction(Seq<char>, SimpleType, Box<SimpleTermV>),
    Application(Box<SimpleTermV>, Box<SimpleTermV>),
    True,
    False,
    Conditional(Box<SimpleTermV>, Box<SimpleTermV>, Box<SimpleTermV>),
}

/// A term of the simply typed fragment; its abstractions carry the
/// domain type the checker assumes for the bound variable.
#[derive(Debug, PartialEq)]
pub enum SimpleTerm {
    Var(Var),
    Abstraction(String, SimpleType, Box<SimpleTerm>),
    Application(Box<SimpleTerm>, Box<SimpleTerm>),
    True,
    False,
    Conditional(Box<SimpleTerm>, Box<SimpleTerm>, Box<SimpleTerm>),
}

impl SimpleTerm {
    pub open spec fn view_rec(self) -> SimpleTermV
        decreases self,
    {
        match self {
            SimpleTerm::Var(v) => SimpleTermV::Var(v@),
            SimpleTerm::Abstraction(x, ty, t2) => SimpleTermV::Abstraction(
                x@,
                ty,
                Box::new(t2.view_rec()),
            ),
            SimpleTerm::Application(t1, t2) => SimpleTermV::Application(
                Box::new(t1.view_rec()),
                Box::new(t2.view_rec()),
            ),
            SimpleTerm::True => SimpleTermV::True,
            SimpleTerm::False => SimpleTermV::False,
            SimpleTerm::Conditional(t1, t2, t3) => SimpleTermV::Conditional(
                Box::new(t1.view_rec()),
                Box::new(t2.view_rec()),
                Box::new(t3.view_rec()),
            ),
        }
    }
}

impl View for SimpleTerm {
    type V = SimpleTermV;

    open spec fn view(&self) -> SimpleTermV {
        self.view_rec()
    }
}

impl Clone for SimpleTerm {
    fn clone(&self) -> (r: Self)
        ensures
            r@ == self@,
        decreases self,
    {
        match self {
            SimpleTerm::Var(v) => SimpleTerm::Var(v.clone()),
            SimpleTerm::Abstraction(x, ty, t2) => SimpleTerm::Abstraction(
                x.clone(),
                ty.clone(),
                Box::new((&**t2).clone()),
            ),
            SimpleTerm::Application(t1, t2) => SimpleTerm::Application(
                Box::new((&**t1).clone()),
                Box::new((&**t2).clone()),
            ),
            SimpleTerm::True => SimpleTerm::True,
            SimpleTerm::False => SimpleTerm::False,
            SimpleTerm::Conditional(t1, t2, t3) => SimpleTerm::Conditional(
                Box::new((&**t1).clone()),
                Box::new((&**t2).clone()),
                Box::new((&**t3).clone()),
            ),
        }
    }
}

/// The view of a typing failure.
pub ghost enum TypeCheckErrV {
    IncorrectBinding(BindingV),
    BindingNotFound,
    Fail(SimpleTermV, SimpleType, SimpleType),
}

/// A typing failure: a context slot that carries no type, an index past
/// the context, or a mismatch carrying the offending term and the two
/// types that disagree.
#[derive(Debug, PartialEq)]
pub enum TypeCheckError {
    IncorrectBinding(Binding),
    BindingNotFound,
    Fail(SimpleTerm, SimpleType, SimpleType),
}

impl View for TypeCheckError {
    type V = TypeCheckErrV;

    open spec fn view(&self) -> TypeCheckErrV {
        match *self {
            TypeCheckError::IncorrectBinding(b) => TypeCheckErrV::IncorrectBinding(b@),
            TypeCheckError::BindingNotFound => TypeCheckErrV::BindingNotFound,
            TypeCheckError::Fail(t, e, a) => TypeCheckErrV::Fail(t.view_rec(), e, a),
        }
    }
}

/// The bindings of a context, names projected away: the names chosen
/// for binders never change what a term types to.
pub open spec fn bindings_of(ctx: Seq<EntryV>) -> Seq<BindingV> {
    ctx.map_values(|e: EntryV| e.binding)
}

/// Looking a declared type up by index: a slot that carries no
/// `VarBind` is the wrong kind of binding, an index past the end is
/// not bound at all.
pub open spec fn get_type_v(bs: Seq<BindingV>, idx: int) -> Result<SimpleType, TypeCheckErrV> {
    if 0 <= idx < bs.len() {
        match bs[idx] {
            BindingV::VarBind(ty) => Ok(ty),
            other => Err(TypeCheckErrV::IncorrectBinding(other)),
        }
    } else {
        Err(TypeCheckErrV::BindingNotFound)
    }
}

/// The typing judgment, one case per term shape, no inference of
/// unknowns:
/// a variable has the type its slot declares; an abstraction types its
/// body under the extended context and yields an arrow; an application
/// demands an arrow whose domain is the argument's type; the booleans
/// are `Bool`; a conditional demands a `Bool` guard and equal branch
/// types.  A domain mismatch reports the mismatched pair: the arrow's
/// domain against the argument's actual type.
pub open spec fn type_of_v(bs: Seq<BindingV>, t: SimpleTermV) -> Result<
    SimpleType,
    TypeCheckErrV,
>
    decreases t,
{
    match t {
        SimpleTermV::Var(v) => get_type_v(bs, v.index),
        SimpleTermV::Abstraction(x, ty1, t2) => match type_of_v(
            bs.insert(0, BindingV::VarBind(ty1)),
            *t2,
        ) {
            Ok(ty2) => Ok(SimpleType::Arrow(Box::new(ty1), Box::new(ty2))),
            Err(e) => Err(e),
        },
        SimpleTermV::Application(t1, t2) => match type_of_v(bs, *t1) {
            Ok(ty_t1) => match type_of_v(bs, *t2) {
                Ok(ty_t2) => match ty_t1 {
                    SimpleType::Arrow(ty_t11, ty_t22) => if *ty_t11 == ty_t2 {
                        Ok(*ty_t22)
                    } else {
                        Err(TypeCheckErrV::Fail(t, *ty_t11, ty_t2))
                    },
                    _ => Err(
                        TypeCheckErrV::Fail(
                            t,
                            SimpleType::Arrow(Box::new(SimpleType::Unknown), Box::new(SimpleType::Unknown)),
                            ty_t1,
                        ),
                    ),
                },
                Err(e) => Err(e),
            },
            Err(e) => Err(e),
        },
        SimpleTermV::True => Ok(SimpleType::Bool),
        SimpleTermV::False => Ok(SimpleType::Bool),
        SimpleTermV::Conditional(t1, t2, t3) => match type_of_v(bs, *t1) {
            Ok(t_if) => if t_if != SimpleType::Bool {
                Err(TypeCheckErrV::Fail(t, SimpleType::Bool, t_if))
            } else {
                match type_of_v(bs, *t2) {
                    Ok(t_t2) => match type_of_v(bs, *t3) {
                        Ok(t_t3) => if t_t2 != t_t3 {
                            Err(TypeCheckErrV::Fail(t, t_t2, t_t3))
                        } else {
                            Ok(t_t2)
                        },
                        Err(e) => Err(e),
                    },
                    Err(e) => Err(e),
                }
            },
            Err(e) => Err(e),
        },
    }
}

impl SimpleTerm {
    /// The declared type of the variable at `idx`, straight from the
    /// context slot.
    pub fn get_type(ctx: &Context, idx: i32) -> (r: Result<SimpleType, TypeCheckError>)
        ensures
            match get_type_v(bindings_of(ctx@), idx as int) {
                Ok(ty) => r matches Ok(rt) && rt == ty,
                Err(e) => r matches Err(re) && re@ == e,
            },
    {
        if idx >= 0 && (idx as usize) < ctx.len() {
            let m = ctx.member(idx as usize);
            match &m.binding {
                Binding::VarBind(ty) => Ok(ty.clone()),
                other => Err(TypeCheckError::IncorrectBinding(other.clone())),
            }
        } else {
            Err(TypeCheckError::BindingNotFound)
        }
    }

    /// Infers the term's type under the context, or reports the first
    /// failure; exactly the judgment `type_of_v`.
    pub fn type_of(&self, ctx: &Context) -> (r: Result<SimpleType, TypeCheckError>)
        ensures
            match type_of_v(bindings_of(ctx@), self@) {
                Ok(ty) => r matches Ok(rt) && rt == ty,
                Err(e) => r matches Err(re) && re@ == e,
            },
        decreases self,
    {
        match self {
            SimpleTerm::Var(v) => SimpleTerm::get_type(ctx, v.index),
            SimpleTerm::Abstraction(param, ty_t1, t2) => {
                let name = ctx.get_free_name(param.as_str());
                let next_ctx = ctx.with_new_binding(
                    &ContextMember { name, binding: Binding::VarBind(ty_t1.clone()) },
                );
                proof {
                    assert(bindings_of(next_ctx@) =~= bindings_of(ctx@).insert(
                        0,
                        BindingV::VarBind(*ty_t1),
                    ));
                }
                match t2.type_of(&next_ctx) {
                    Ok(ty_t2) => Ok(SimpleType::Arrow(Box::new(ty_t1.clone()), Box::new(ty_t2))),
                    Err(e) => Err(e),
                }
            },
            SimpleTerm::Application(t1, t2) => {
                let ty_t1 = match t1.type_of(ctx) {
                    Ok(ty) => ty,
                    Err(e) => {
                        return Err(e);
                    },
                };
                let ty_t2 = match t2.type_of(ctx) {
                    Ok(ty) => ty,
                    Err(e) => {
                        return Err(e);
                    },
                };
                match ty_t1 {
                    SimpleType::Arrow(ty_t11, ty_t22) => {
                        let matches_domain = (&*ty_t11).same(&ty_t2);
                        if matches_domain {
                            Ok(*ty_t22)
                        } else {
                            Err(TypeCheckError::Fail(self.clone(), *ty_t11, ty_t2))
                        }
                    },
                    _ => Err(
                        TypeCheckError::Fail(
                            self.clone(),
                            SimpleType::Arrow(
                                Box::new(SimpleType::Unknown),
                                Box::new(SimpleType::Unknown),
                            ),
                            ty_t1,
                        ),
                    ),
                }
            },
            SimpleTerm::True => Ok(SimpleType::Bool),
            SimpleTerm::False => Ok(SimpleType::Bool),
            SimpleTerm::Conditional(t1, t2, t3) => {
                let t_if = match t1.type_of(ctx) {
                    Ok(ty) => ty,
                    Err(e) => {
                        return Err(e);
                    },
                };
                let guard_is_bool = t_if.same(&SimpleType::Bool);
                if !guard_is_bool {
                    return Err(TypeCheckError::Fail(self.clone(), SimpleType::Bool, t_if));
                }
                let t_t2 = match t2.type_of(ctx) {
                    Ok(ty) => ty,
                    Err(e) => {
                        return Err(e);
                    },
                };
                let t_t3 = match t3.type_of(ctx) {
                    Ok(ty) => ty,
                    Err(e) => {
                        return Err(e);
                    },
                };
                let branches_agree = t_t2.same(&t_t3);
                if !branches_agree {
                    return Err(TypeCheckError::Fail(self.clone(), t_t2, t_t3));
                }
                Ok(t_t2)
            },
        }
    }
}

} // verus!
