//! The binding context: an ordered registry of `(name, binding)` pairs.
//!
//! Index 0 is always the most recently introduced binder, so insertion
//! happens at the front and existing indices stay stable as outer
//! binders are pushed.  Looking a binding up by index shifts its
//! contained term by `index + 1`: a binding stored at depth `idx` was
//! closed over a context that many binders shallower, so its free
//! variables must be renumbered to be valid at the lookup site.

use vstd::prelude::*;

use crate::shift::Shift;
use crate::shift::shift_binding_v;
use crate::shift::shift_ok_binding_v;
use crate::syntax::Binding;
use crate::syntax::BindingV;

verus! {

broadcast use vstd::std_specs::vec::group_vec_axioms;

/// The view of one context slot.
pub ghost struct EntryV {
    pub name: Seq<char>,
    pub binding: BindingV,
}

/// One context slot: a surface name and what it is bound to.
#[derive(Debug, PartialEq)]
pub struct ContextMember {
    pub name: String,
    pub binding: Binding,
}

impl View for ContextMember {
    type V = EntryV;

    open spec fn view(&self) -> EntryV {
        EntryV { name: self.name@, binding: self.binding@ }
    }
}

impl Clone for ContextMember {
    fn clone(&self) -> (r: Self)
        ensures
            r@ == self@,
    {
        ContextMember { name: self.name.clone(), binding: self.binding.clone() }
    }
}

/// The registry errors: an index or a name that is not in the context.
/// They indicate a bug in the caller (parser or hydration), never a
/// legitimate runtime outcome for well-formed input.
#[derive(Debug, PartialEq)]
pub enum ContextError {
    RangeError(String),
}

impl ContextError {
    /// The message carried by the error.
    pub open spec fn message(self) -> Seq<char> {
        match self {
            ContextError::RangeError(m) => m@,
        }
    }
}

/// The ordered sequence of context slots, innermost binder first.
#[derive(Debug, PartialEq)]
pub struct Context(Vec<ContextMember>);

impl View for Context {
    type V = Seq<EntryV>;

    closed spec fn view(&self) -> Seq<EntryV> {
        Seq::new(self.0@.len(), |i: int| self.0@[i]@)
    }
}

impl Clone for Context {
    fn clone(&self) -> (r: Self)
        ensures
            r@ == self@,
    {
        let mut out: Vec<ContextMember> = Vec::new();
        let mut i: usize = 0;
        while i < self.0.len()
            invariant
                i <= self.0.len(),
                out@.len() == i,
                forall|k: int| 0 <= k < i ==> #[trigger] out@[k]@ == self.0@[k]@,
            decreases self.0.len() - i,
        {
            let m = self.0[i].clone();
            out.push(m);
            i += 1;
        }
        let r = Context(out);
        proof {
            assert(r@ =~= self@);
        }
        r
    }
}

impl Default for Context {
    /// The empty context.
    fn default() -> (r: Context)
        ensures
            r@ == Seq::<EntryV>::empty(),
    {
        let r = Context(Vec::new());
        proof {
            assert(r@ =~= Seq::<EntryV>::empty());
        }
        r
    }
}

/// The first index whose slot carries the name, if any.
pub open spec fn find_name_v(ctx: Seq<EntryV>, name: Seq<char>) -> Option<int>
    decreases ctx.len(),
{
    if ctx.len() == 0 {
        None
    } else if ctx[0].name == name {
        Some(0int)
    } else {
        match find_name_v(ctx.drop_first(), name) {
            Some(i) => Some(i + 1),
            None => None,
        }
    }
}

/// Whether some slot carries the name.
pub open spec fn name_bound_v(ctx: Seq<EntryV>, name: Seq<char>) -> bool {
    exists|i: int| 0 <= i < ctx.len() && #[trigger] ctx[i].name == name
}

/// `find_name_v` finds exactly the bound names, at the first slot that
/// carries them.
pub proof fn lemma_find_name(ctx: Seq<EntryV>, name: Seq<char>)
    ensures
        match find_name_v(ctx, name) {
            Some(i) => 0 <= i < ctx.len() && ctx[i].name == name && (forall|k: int|
                0 <= k < i ==> (#[trigger] ctx[k].name) != name),
            None => !name_bound_v(ctx, name),
        },
    decreases ctx.len(),
{
    if ctx.len() > 0 && ctx[0].name != name {
        lemma_find_name(ctx.drop_first(), name);
        match find_name_v(ctx.drop_first(), name) {
            Some(ip) => {
                assert(ctx.drop_first()[ip] == ctx[ip + 1]);
                assert forall|k: int| 0 <= k < ip + 1 implies (#[trigger] ctx[k].name)
                    != name by {
                    if k > 0 {
                        assert(ctx.drop_first()[k - 1] == ctx[k]);
                    }
                }
            },
            None => {
                assert forall|i: int|
                    0 <= i < ctx.len() implies (#[trigger] ctx[i].name) != name by {
                    if i > 0 {
                        assert(ctx.drop_first()[i - 1] == ctx[i]);
                    }
                }
            },
        }
    }
}

/// The longest name any slot carries.
pub open spec fn max_name_len_v(ctx: Seq<EntryV>) -> int
    decreases ctx.len(),
{
    if ctx.len() == 0 {
        0
    } else {
        let rest = max_name_len_v(ctx.drop_first());
        if ctx[0].name.len() > rest {
            ctx[0].name.len() as int
        } else {
            rest
        }
    }
}

/// A bound name is no longer than the longest name in the context.
pub proof fn lemma_bound_name_len(ctx: Seq<EntryV>, name: Seq<char>)
    requires
        name_bound_v(ctx, name),
    ensures
        name.len() <= max_name_len_v(ctx),
    decreases ctx.len(),
{
    let i = choose|i: int| 0 <= i < ctx.len() && #[trigger] ctx[i].name == name;
    if i > 0 {
        assert(ctx.drop_first()[i - 1] == ctx[i]);
        assert(name_bound_v(ctx.drop_first(), name));
        lemma_bound_name_len(ctx.drop_first(), name);
    }
}

/// The character for one decimal digit.
pub open spec fn digit_char(d: nat) -> char {
    if d == 0 {
        '0'
    } else if d == 1 {
        '1'
    } else if d == 2 {
        '2'
    } else if d == 3 {
        '3'
    } else if d == 4 {
        '4'
    } else if d == 5 {
        '5'
    } else if d == 6 {
        '6'
    } else if d == 7 {
        '7'
    } else if d == 8 {
        '8'
    } else {
        '9'
    }
}

/// The decimal digits of a number, most significant first.
pub open spec fn dec_of(n: nat) -> Seq<char>
    decreases n,
{
    if n < 10 {
        seq![digit_char(n)]
    } else {
        dec_of(n / 10) + seq![digit_char(n % 10)]
    }
}

fn digit_str(d: usize) -> (r: &'static str)
    requires
        d < 10,
    ensures
        r@ == seq![digit_char(d as nat)],
{
    match d {
        0 => {
            proof {
                reveal_strlit("0");
                assert("0"@ =~= seq![digit_char(0)]);
            }
            "0"
        },
        1 => {
            proof {
                reveal_strlit("1");
                assert("1"@ =~= seq![digit_char(1)]);
            }
            "1"
        },
        2 => {
            proof {
                reveal_strlit("2");
                assert("2"@ =~= seq![digit_char(2)]);
            }
            "2"
        },
        3 => {
            proof {
                reveal_strlit("3");
                assert("3"@ =~= seq![digit_char(3)]);
            }
            "3"
        },
        4 => {
            proof {
                reveal_strlit("4");
                assert("4"@ =~= seq![digit_char(4)]);
            }
            "4"
        },
        5 => {
            proof {
                reveal_strlit("5");
                assert("5"@ =~= seq![digit_char(5)]);
            }
            "5"
        },
        6 => {
            proof {
                reveal_strlit("6");
                assert("6"@ =~= seq![digit_char(6)]);
            }
            "6"
        },
        7 => {
            proof {
                reveal_strlit("7");
                assert("7"@ =~= seq![digit_char(7)]);
            }
            "7"
        },
        8 => {
            proof {
                reveal_strlit("8");
                assert("8"@ =~= seq![digit_char(8)]);
            }
            "8"
        },
        _ => {
            proof {
                reveal_strlit("9");
                assert("9"@ =~= seq![digit_char(9)]);
            }
            "9"
        },
    }
}

/// A number rendered in decimal, for the range-error message.
fn dec_string(n: usize) -> (s: String)
    ensures
        s@ == dec_of(n as nat),
    decreases n,
{
    let d = n % 10;
    if n < 10 {
        let mut s = String::new();
        s.append(digit_str(d));
        proof {
            assert(s@ =~= dec_of(n as nat));
        }
        s
    } else {
        let mut s = dec_string(n / 10);
        s.append(digit_str(d));
        proof {
            assert(s@ =~= dec_of(n as nat));
        }
        s
    }
}

impl Context {
    /// Inserts a member at index 0; every existing entry's effective
    /// index grows by one, implicitly, since indices are positional.
    pub fn append_binding(&mut self, el: ContextMember)
        ensures
            final(self)@ == old(self)@.insert(0, el@),
    {
        self.0.insert(0, el);
        proof {
            assert(self@ =~= old(self)@.insert(0, self.0@[0]@));
        }
    }

    /// Inserts a bare name placeholder at index 0.
    pub fn append_name(&mut self, name: &str)
        ensures
            final(self)@ == old(self)@.insert(
                0,
                EntryV { name: name@, binding: BindingV::NameBind },
            ),
    {
        self.append_binding(
            ContextMember { name: String::from_str(name), binding: Binding::NameBind },
        );
    }

    /// A copy of the context with the member inserted at index 0; the
    /// receiver is untouched.
    pub fn add_binding(&self, el: ContextMember) -> (r: Self)
        ensures
            r@ == self@.insert(0, el@),
    {
        let mut next = self.clone();
        next.append_binding(el);
        next
    }

    /// A copy of the context with a bare name placeholder in front.
    pub fn add_name(&self, name: &str) -> (r: Self)
        ensures
            r@ == self@.insert(0, EntryV { name: name@, binding: BindingV::NameBind }),
    {
        self.add_binding(ContextMember { name: String::from_str(name), binding: Binding::NameBind })
    }

    /// A copy of the context with the member inserted at index 0.
    pub fn with_new_binding(&self, el: &ContextMember) -> (r: Self)
        ensures
            r@ == self@.insert(0, el@),
    {
        self.add_binding(el.clone())
    }

    /// Replaces the binding under the first slot carrying the name;
    /// an absent name leaves the context unchanged and reports it.
    pub fn update_binding(&mut self, name: &str, binding: Binding) -> (r: Result<
        (),
        ContextError,
    >)
        ensures
            match find_name_v(old(self)@, name@) {
                Some(i) => r is Ok && final(self)@ == old(self)@.update(
                    i,
                    EntryV { name: name@, binding: binding@ },
                ),
                None => final(self)@ == old(self)@ && (r matches Err(e) && e.message() == name@
                    + " not found in context"@),
            },
    {
        let idx_r = self.get_idx(name);
        match idx_r {
            Ok(idx) => {
                proof {
                    lemma_find_name(self@, name@);
                }
                let m = ContextMember { name: String::from_str(name), binding };
                self.0[idx] = m;
                proof {
                    assert(self@ =~= old(self)@.update(
                        idx as int,
                        EntryV { name: name@, binding: binding@ },
                    ));
                }
                Ok(())
            },
            Err(e) => Err(e),
        }
    }

    /// Whether the name is bound anywhere in the context.
    #[verifier::loop_isolation(false)]
    pub fn is_name_bound(&self, find_name: &str) -> (r: bool)
        ensures
            r == name_bound_v(self@, find_name@),
    {
        let needle = String::from_str(find_name);
        let mut i: usize = 0;
        while i < self.0.len()
            invariant
                i <= self.0.len(),
                needle@ == find_name@,
                forall|k: int| 0 <= k < i ==> (#[trigger] self@[k].name) != find_name@,
            decreases self.0.len() - i,
        {
            let hit = self.0[i].name == needle;
            if hit {
                proof {
                    assert(self@[i as int].name == find_name@);
                }
                return true;
            }
            i += 1;
        }
        false
    }

    /// The given name, primed until it collides with nothing in the
    /// context: the result is the shortest extension of the candidate
    /// by prime marks that is unbound.
    pub fn get_free_name(&self, existing_name: &str) -> (r: String)
        ensures
            !name_bound_v(self@, r@),
            r@.len() >= existing_name@.len(),
            r@.subrange(0, existing_name@.len() as int) == existing_name@,
            forall|k: int| existing_name@.len() <= k < r@.len() ==> r@[k] == '\'',
            forall|j: int|
                existing_name@.len() <= j < r@.len() ==> name_bound_v(
                    self@,
                    r@.subrange(0, j),
                ),
        decreases crate::shift::max2(max_name_len_v(self@) + 1 - existing_name@.len(), 0),
    {
        if self.is_name_bound(existing_name) {
            proof {
                lemma_bound_name_len(self@, existing_name@);
            }
            let mut primed = String::from_str(existing_name);
            primed.append("'");
            proof {
                reveal_strlit("'");
                assert(primed@ =~= existing_name@ + seq!['\'']);
            }
            let r = self.get_free_name(primed.as_str());
            proof {
                assert(r@.subrange(0, existing_name@.len() as int) =~= primed@.subrange(
                    0,
                    existing_name@.len() as int,
                ));
                assert forall|k: int|
                    existing_name@.len() <= k < r@.len() implies r@[k] == '\'' by {
                    if k < primed@.len() {
                        assert(r@.subrange(0, primed@.len() as int)[k] == primed@[k]);
                    }
                }
                assert forall|j: int|
                    existing_name@.len() <= j < r@.len() implies name_bound_v(
                    self@,
                    r@.subrange(0, j),
                ) by {
                    if j == existing_name@.len() {
                        assert(r@.subrange(0, j) =~= existing_name@);
                    }
                }
            }
            r
        } else {
            let r = String::from_str(existing_name);
            proof {
                assert(r@.subrange(0, existing_name@.len() as int) =~= existing_name@);
            }
            r
        }
    }

    /// The name at an index, or a range error naming the index that is
    /// past the end.
    pub fn lookup_name_by_idx(&self, idx: usize) -> (r: Result<String, ContextError>)
        ensures
            match r {
                Ok(name) => idx < self@.len() && name@ == self@[idx as int].name,
                Err(e) => idx >= self@.len() && e.message() == "index "@ + dec_of(idx as nat)
                    + " does not exist in context"@,
            },
    {
        if idx < self.0.len() {
            Ok(self.0[idx].name.clone())
        } else {
            let mut msg = String::from_str("index ");
            let number = dec_string(idx);
            msg.append(number.as_str());
            msg.append(" does not exist in context");
            proof {
                assert(msg@ =~= "index "@ + dec_of(idx as nat)
                    + " does not exist in context"@);
            }
            Err(ContextError::RangeError(msg))
        }
    }

    /// The name at an index, under the registry's own error type.
    pub fn get_name(&self, idx: usize) -> (r: Result<String, ContextError>)
        ensures
            match r {
                Ok(name) => idx < self@.len() && name@ == self@[idx as int].name,
                Err(e) => idx >= self@.len() && e.message() == "index "@ + dec_of(idx as nat)
                    + " does not exist in context"@,
            },
    {
        self.lookup_name_by_idx(idx)
    }

    /// The first index bound to the name, or a range error when the
    /// name is bound nowhere.
    #[verifier::loop_isolation(false)]
    pub fn get_idx(&self, find_name: &str) -> (r: Result<usize, ContextError>)
        ensures
            match r {
                Ok(idx) => find_name_v(self@, find_name@) == Some(idx as int),
                Err(e) => find_name_v(self@, find_name@) is None && e.message() == find_name@
                    + " not found in context"@,
            },
    {
        proof {
            lemma_find_name(self@, find_name@);
        }
        let needle = String::from_str(find_name);
        let mut i: usize = 0;
        while i < self.0.len()
            invariant
                i <= self.0.len(),
                needle@ == find_name@,
                forall|k: int| 0 <= k < i ==> (#[trigger] self@[k].name) != find_name@,
            decreases self.0.len() - i,
        {
            let hit = self.0[i].name == needle;
            if hit {
                proof {
                    assert(self@[i as int].name == find_name@);
                    match find_name_v(self@, find_name@) {
                        Some(j) => {
                            assert(j == i as int);
                        },
                        None => {
                            assert(name_bound_v(self@, find_name@));
                        },
                    }
                }
                return Ok(i);
            }
            i += 1;
        }
        proof {
            match find_name_v(self@, find_name@) {
                Some(j) => {
                    assert(self@[j].name == find_name@);
                },
                None => {},
            }
        }
        let mut msg = String::from_str(find_name);
        msg.append(" not found in context");
        Err(ContextError::RangeError(msg))
    }

    /// The first index bound to the name, as the hydration pass asks
    /// for it.
    pub fn lookup_idx_by_name(&self, name_to_find: &str) -> (r: Result<usize, ContextError>)
        ensures
            match r {
                Ok(idx) => find_name_v(self@, name_to_find@) == Some(idx as int),
                Err(e) => find_name_v(self@, name_to_find@) is None && e.message() == name_to_find@
                    + " not found in context"@,
            },
    {
        self.get_idx(name_to_find)
    }

    /// How many slots the context has.
    pub fn len(&self) -> (r: usize)
        ensures
            r == self@.len(),
    {
        self.0.len()
    }

    /// The member at an index, for walking the context in order.
    pub fn member(&self, idx: usize) -> (r: &ContextMember)
        requires
            idx < self@.len(),
        ensures
            r@ == self@[idx as int],
    {
        &self.0[idx]
    }

    /// The binding at an index, with its contained term shifted by
    /// `idx + 1`: a binding stored at depth `idx` was closed over a
    /// context that many binders shallower, so its free variables are
    /// renumbered to be valid at the lookup site.
    pub fn get_binding(&self, idx: usize) -> (r: Option<Binding>)
        requires
            idx < self@.len() ==> idx + 1 <= i32::MAX as int && shift_ok_binding_v(
                self@[idx as int].binding,
                idx + 1,
                0,
            ),
        ensures
            match r {
                Some(b) => idx < self@.len() && b@ == shift_binding_v(
                    self@[idx as int].binding,
                    idx + 1,
                    0,
                ),
                None => idx >= self@.len(),
            },
    {
        if idx < self.0.len() {
            let next_idx: i32 = (idx as i32) + 1;
            Some(self.0[idx].binding.shift(next_idx))
        } else {
            None
        }
    }

    /// The binding at an index, shifted to the lookup site; a second
    /// name for the same lookup, kept for callers that ask for the
    /// shift by name.
    pub fn shift_binding(&self, idx: usize) -> (r: Option<Binding>)
        requires
            idx < self@.len() ==> idx + 1 <= i32::MAX as int && shift_ok_binding_v(
                self@[idx as int].binding,
                idx + 1,
                0,
            ),
        ensures
            match r {
                Some(b) => idx < self@.len() && b@ == shift_binding_v(
                    self@[idx as int].binding,
                    idx + 1,
                    0,
                ),
                None => idx >= self@.len(),
            },
    {
        self.get_binding(idx)
    }
}

} // verus!
