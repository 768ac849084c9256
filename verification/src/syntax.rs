//! The term model: source positions, binder-aware variables, bindings,
//! terms and top-level commands, together with their ghost views.
//!
//! A view (`VarV`, `TermV`, ...) mirrors the executable value with
//! mathematical integers for the index arithmetic and `Seq<char>` for
//! names; source positions (`FileInfo`) carry no meaning and are dropped.

use vstd::prelude::*;

verus! {

broadcast use vstd::std_specs::vec::group_vec_axioms;

/// Every index and expected-context-length handled by the engine is kept
/// within this bound, and terms within this height, so that shifting by a
/// context depth can never leave `i32`.
pub const SIZE_BOUND: i32 = 0x2000_0000;

/// A source position, carried through parsing for diagnostics.  It has no
/// semantic content: the views of all other types ignore it.
#[derive(Debug, PartialEq)]
pub struct FileInfo {
    filename: String,
    line_num: u32,
    line_col: u32,
}

impl FileInfo {
    /// The fields, for specifications; the position has no other meaning.
    pub closed spec fn parts(self) -> (Seq<char>, u32, u32) {
        (self.filename@, self.line_num, self.line_col)
    }

    pub fn new(filename: &str, line_num: u32, line_col: u32) -> (r: Self)
        ensures
            r.parts() == (filename@, line_num, line_col),
    {
        Self { filename: String::from_str(filename), line_col, line_num }
    }
}

impl Default for FileInfo {
    /// The anonymous position: an empty file name, line and column zero.
    fn default() -> (r: Self)
        ensures
            r.parts() == (Seq::<char>::empty(), 0u32, 0u32),
    {
        FileInfo { filename: String::new(), line_num: 0, line_col: 0 }
    }
}

impl Clone for FileInfo {
    fn clone(&self) -> (r: Self)
        ensures
            r == *self,
    {
        FileInfo {
            filename: self.filename.clone(),
            line_num: self.line_num,
            line_col: self.line_col,
        }
    }
}

/// The view of a variable occurrence.
pub ghost struct VarV {
    /// The de Bruijn index: how many binders lie between the occurrence
    /// and its binding site.
    pub index: int,
    /// The lexical name hint, for printing only.
    pub name: Seq<char>,
    /// The number of binders expected to enclose this occurrence; an
    /// internal consistency check on the shift arithmetic.
    pub csize: int,
}

/// A variable occurrence: a de Bruijn index, a lexical name hint, and the
/// expected number of enclosing binders.
#[derive(Debug, PartialEq)]
pub struct Var {
    pub name: String,
    pub index: i32,
    pub container_size: i32,
}

impl View for Var {
    type V = VarV;

    open spec fn view(&self) -> VarV {
        VarV { index: self.index as int, name: self.name@, csize: self.container_size as int }
    }
}

impl Var {
    pub fn new(name: &str, index: i32, container_size: i32) -> (r: Self)
        ensures
            r@ == (VarV { index: index as int, name: name@, csize: container_size as int }),
    {
        Var { name: String::from_str(name), index, container_size }
    }
}

impl Default for Var {
    /// The variable with index 0, no name hint and no expected binders.
    fn default() -> (r: Self)
        ensures
            r@ == (VarV { index: 0, name: Seq::<char>::empty(), csize: 0 }),
    {
        Var { name: String::new(), index: 0, container_size: 0 }
    }
}

impl Clone for Var {
    fn clone(&self) -> (r: Self)
        ensures
            r == *self,
    {
        Var { name: self.name.clone(), index: self.index, container_size: self.container_size }
    }
}

/// The view of a term; `FileInfo` positions are dropped.
pub ghost enum TermV {
    String(Seq<char>),
    Var(VarV),
    True,
    False,
    If(Box<TermV>, Box<TermV>, Box<TermV>),
    Let(Seq<char>, Box<TermV>, Box<TermV>),
    Record(Seq<(Seq<char>, TermV)>),
    Projection(Box<TermV>, Seq<char>),
    Abstraction(Seq<char>, Box<TermV>),
    Application(Box<TermV>, Box<TermV>),
    Zero,
    Successor(Box<TermV>),
    Predecessor(Box<TermV>),
    IsZero(Box<TermV>),
    Float(u32),
    TimesFloat(Box<TermV>, Box<TermV>),
}

/// A term of the calculus.  Every compound variant owns its sub-terms; a
/// term is a finite tree.  A float is carried as the bit pattern of an
/// `f32`: the evaluator never reads it, it only tells a value from a
/// reducible term.
#[derive(Debug, PartialEq)]
pub enum Term {
    String(FileInfo, String),
    Var(FileInfo, Var),
    True(FileInfo),
    False(FileInfo),
    If(FileInfo, Box<Term>, Box<Term>, Box<Term>),
    Let(FileInfo, String, Box<Term>, Box<Term>),
    Record(FileInfo, Vec<(String, Box<Term>)>),
    Projection(FileInfo, Box<Term>, String),
    Abstraction(FileInfo, String, Box<Term>),
    Application(FileInfo, Box<Term>, Box<Term>),
    Zero(FileInfo),
    Successor(FileInfo, Box<Term>),
    Predecessor(FileInfo, Box<Term>),
    IsZero(FileInfo, Box<Term>),
    Float(FileInfo, u32),
    TimesFloat(FileInfo, Box<Term>, Box<Term>),
}

/// The view of a record's field list.
pub open spec fn view_fields(fs: Seq<(String, Box<Term>)>) -> Seq<(Seq<char>, TermV)>
    decreases fs,
{
    if fs.len() == 0 {
        Seq::empty()
    } else {
        seq![(fs[0].0@, fs[0].1.view_rec())] + view_fields(fs.drop_first())
    }
}

pub broadcast proof fn lemma_view_fields(fs: Seq<(String, Box<Term>)>)
    ensures
        (#[trigger] view_fields(fs)).len() == fs.len(),
        forall|i: int|
            0 <= i < fs.len() ==> view_fields(fs)[i] == (fs[i].0@, fs[i].1.view_rec()),
    decreases fs,
{
    if fs.len() > 0 {
        lemma_view_fields(fs.drop_first());
    }
}

impl Term {
    pub open spec fn view_rec(self) -> TermV
        decreases self,
    {
        match self {
            Term::String(_, s) => TermV::String(s@),
            Term::Var(_, v) => TermV::Var(v@),
            Term::True(_) => TermV::True,
            Term::False(_) => TermV::False,
            Term::If(_, t1, t2, t3) => TermV::If(
                Box::new(t1.view_rec()),
                Box::new(t2.view_rec()),
                Box::new(t3.view_rec()),
            ),
            Term::Let(_, x, t1, t2) => TermV::Let(
                x@,
                Box::new(t1.view_rec()),
                Box::new(t2.view_rec()),
            ),
            Term::Record(_, fs) => TermV::Record(view_fields(fs@)),
            Term::Projection(_, t1, l) => TermV::Projection(Box::new(t1.view_rec()), l@),
            Term::Abstraction(_, x, t2) => TermV::Abstraction(x@, Box::new(t2.view_rec())),
            Term::Application(_, t1, t2) => TermV::Application(
                Box::new(t1.view_rec()),
                Box::new(t2.view_rec()),
            ),
            Term::Zero(_) => TermV::Zero,
            Term::Successor(_, t1) => TermV::Successor(Box::new(t1.view_rec())),
            Term::Predecessor(_, t1) => TermV::Predecessor(Box::new(t1.view_rec())),
            Term::IsZero(_, t1) => TermV::IsZero(Box::new(t1.view_rec())),
            Term::Float(_, bits) => TermV::Float(bits),
            Term::TimesFloat(_, t1, t2) => TermV::TimesFloat(
                Box::new(t1.view_rec()),
                Box::new(t2.view_rec()),
            ),
        }
    }
}

impl View for Term {
    type V = TermV;

    open spec fn view(&self) -> TermV {
        self.view_rec()
    }
}

#[verifier::loop_isolation(false)]
impl Clone for Term {
    /// A deep copy; positions are copied too, but only the view is
    /// promised, since the view is all later contracts speak of.
    fn clone(&self) -> (r: Self)
        ensures
            r@ == self@,
        decreases self,
    {
        broadcast use lemma_view_fields;

        match self {
            Term::String(fi, s) => Term::String(fi.clone(), s.clone()),
            Term::Var(fi, v) => Term::Var(fi.clone(), v.clone()),
            Term::True(fi) => Term::True(fi.clone()),
            Term::False(fi) => Term::False(fi.clone()),
            Term::If(fi, t1, t2, t3) => Term::If(
                fi.clone(),
                Box::new((&**t1).clone()),
                Box::new((&**t2).clone()),
                Box::new((&**t3).clone()),
            ),
            Term::Let(fi, x, t1, t2) => Term::Let(
                fi.clone(),
                x.clone(),
                Box::new((&**t1).clone()),
                Box::new((&**t2).clone()),
            ),
            Term::Record(fi, fs) => {
                let mut out: Vec<(String, Box<Term>)> = Vec::new();
                let mut i: usize = 0;
                while i < fs.len()
                    invariant
                        i <= fs.len(),
                        out@.len() == i,
                        forall|k: int|
                            0 <= k < i ==> #[trigger] out@[k].0@ == fs@[k].0@ && out@[k].1.view_rec()
                                == fs@[k].1.view_rec(),
                    decreases fs.len() - i,
                {
                    let name = fs[i].0.clone();
                    let sub = (&*fs[i].1).clone();
                    out.push((name, Box::new(sub)));
                    i += 1;
                }
                proof {
                    assert(view_fields(out@) =~= view_fields(fs@)) by {
                        lemma_view_fields(out@);
                        lemma_view_fields(fs@);
                    }
                }
                Term::Record(fi.clone(), out)
            },
            Term::Projection(fi, t1, l) => Term::Projection(
                fi.clone(),
                Box::new((&**t1).clone()),
                l.clone(),
            ),
            Term::Abstraction(fi, x, t2) => Term::Abstraction(
                fi.clone(),
                x.clone(),
                Box::new((&**t2).clone()),
            ),
            Term::Application(fi, t1, t2) => Term::Application(
                fi.clone(),
                Box::new((&**t1).clone()),
                Box::new((&**t2).clone()),
            ),
            Term::Zero(fi) => Term::Zero(fi.clone()),
            Term::Successor(fi, t1) => Term::Successor(fi.clone(), Box::new((&**t1).clone())),
            Term::Predecessor(fi, t1) => Term::Predecessor(fi.clone(), Box::new((&**t1).clone())),
            Term::IsZero(fi, t1) => Term::IsZero(fi.clone(), Box::new((&**t1).clone())),
            Term::Float(fi, bits) => Term::Float(fi.clone(), *bits),
            Term::TimesFloat(fi, t1, t2) => Term::TimesFloat(
                fi.clone(),
                Box::new((&**t1).clone()),
                Box::new((&**t2).clone()),
            ),
        }
    }
}

/// The view of a context binding.
pub ghost enum BindingV {
    NameBind,
    TermBind(TermV),
    VarBind(crate::typechecker::SimpleType),
}

/// What a context slot attaches to a name: a bare placeholder, a bound
/// term, or (for the typed variant) a declared type.
#[derive(Debug, PartialEq)]
pub enum Binding {
    NameBind,
    TermBind(Box<Term>),
    VarBind(crate::typechecker::SimpleType),
}

impl View for Binding {
    type V = BindingV;

    open spec fn view(&self) -> BindingV {
        match *self {
            Binding::NameBind => BindingV::NameBind,
            Binding::TermBind(t) => BindingV::TermBind(t.view_rec()),
            Binding::VarBind(ty) => BindingV::VarBind(ty),
        }
    }
}

impl Clone for Binding {
    fn clone(&self) -> (r: Self)
        ensures
            r@ == self@,
    {
        match self {
            Binding::NameBind => Binding::NameBind,
            Binding::TermBind(t) => Binding::TermBind(Box::new((&**t).clone())),
            Binding::VarBind(ty) => Binding::VarBind(ty.clone()),
        }
    }
}

/// The view of a top-level command.
pub ghost enum CommandV {
    Import(Seq<char>),
    Eval(TermV),
    Bind(Seq<char>, BindingV),
}

/// One top-level command of a source file, as the parser hands it over.
#[derive(Debug, PartialEq)]
pub enum Command {
    Import(String),
    Eval(FileInfo, Term),
    Bind(FileInfo, String, Binding),
}

impl View for Command {
    type V = CommandV;

    open spec fn view(&self) -> CommandV {
        match *self {
            Command::Import(m) => CommandV::Import(m@),
            Command::Eval(_, t) => CommandV::Eval(t.view_rec()),
            Command::Bind(_, x, b) => CommandV::Bind(x@, b@),
        }
    }
}

impl Clone for Command {
    fn clone(&self) -> (r: Self)
        ensures
            r@ == self@,
    {
        match self {
            Command::Import(m) => Command::Import(m.clone()),
            Command::Eval(fi, t) => Command::Eval(fi.clone(), t.clone()),
            Command::Bind(fi, x, b) => Command::Bind(fi.clone(), x.clone(), b.clone()),
        }
    }
}

/// The Peano numeral for `n`: `n` nested `Successor`s around `Zero`.
pub open spec fn numeral_of(n: int) -> TermV
    decreases n,
{
    if n <= 0 {
        TermV::Zero
    } else {
        TermV::Successor(Box::new(numeral_of(n - 1)))
    }
}

/// The machine integer a chain of `Zero`/`Successor`/`Predecessor` nodes
/// denotes: `Predecessor` saturates at zero, and `None` stands both for a
/// term that is no numeral and for a value past `i32::MAX`.
pub open spec fn into_int_v(t: TermV) -> Option<int>
    decreases t,
{
    match t {
        TermV::Zero => Some(0int),
        TermV::Successor(x) => match into_int_v(*x) {
            Some(v) => if v + 1 <= i32::MAX as int {
                Some(v + 1)
            } else {
                None
            },
            None => None,
        },
        TermV::Predecessor(x) => match into_int_v(*x) {
            Some(v) => Some(if v - 1 >= 0 { v - 1 } else { 0int }),
            None => None,
        },
        _ => None,
    }
}

/// Converting a machine integer to a numeral and back returns it: the two
/// helpers are mutually inverse on the naturals.
pub proof fn lemma_numeral_round_trip(n: int)
    requires
        0 <= n <= i32::MAX as int,
    ensures
        into_int_v(numeral_of(n)) == Some(n),
    decreases n,
{
    if n > 0 {
        lemma_numeral_round_trip(n - 1);
    }
}

impl Term {
    /// Builds the Peano numeral for a non-negative machine integer.
    pub fn from_int(input: i32, file_info: FileInfo) -> (r: Term)
        requires
            input >= 0,
        ensures
            r@ == numeral_of(input as int),
        decreases input,
    {
        if input == 0 {
            Term::Zero(file_info)
        } else {
            Term::Successor(file_info.clone(), Box::new(Term::from_int(input - 1, file_info)))
        }
    }

    /// Reads a numeral back as a machine integer, saturating
    /// `Predecessor` at zero; `None` when the term is no numeral or the
    /// value does not fit.
    pub fn into_int(&self) -> (r: Option<i32>)
        ensures
            match into_int_v(self@) {
                Some(v) => r == Some(v as i32),
                None => r is None,
            },
        decreases self,
    {
        match self {
            Term::Zero(_) => Some(0),
            Term::Successor(_, x) => {
                proof {
                    lemma_into_int_nonneg(x@);
                }
                match x.into_int() {
                    Some(v) => if v < i32::MAX {
                        Some(v + 1)
                    } else {
                        None
                    },
                    None => None,
                }
            },
            Term::Predecessor(_, x) => {
                proof {
                    lemma_into_int_nonneg(x@);
                }
                match x.into_int() {
                    Some(v) => if v >= 1 {
                        Some(v - 1)
                    } else {
                        Some(0)
                    },
                    None => None,
                }
            },
            _ => None,
        }
    }
}

/// A numeral's value stays within `0..=i32::MAX`: `Predecessor` saturates
/// at zero and `Successor` past the top is no numeral.
pub proof fn lemma_into_int_nonneg(t: TermV)
    ensures
        into_int_v(t) matches Some(v) ==> 0 <= v <= i32::MAX as int,
    decreases t,
{
    match t {
        TermV::Successor(x) => lemma_into_int_nonneg(*x),
        TermV::Predecessor(x) => lemma_into_int_nonneg(*x),
        _ => {},
    }
}

} // verus!
