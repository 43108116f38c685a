//! Macro definitions, the macro table, and the conditional state stack.
//!
//! A macro is either an object macro (a replacement byte buffer) or a
//! function macro (a buffer of literal fragments plus an action program that
//! interleaves those fragments with parameter material).  Every macro carries
//! a transient in-use flag: while a macro's own replacement text is being
//! rescanned the flag is set, and a macro whose flag is set is treated as
//! undefined, which is the conventional self-reference suppression.

use crate::table::{macros_of, MacroTable};
use vstd::prelude::*;

verus! {

/// State of one open conditional block: its lines are evaluated, skipped
/// because the condition was false, or skipped because a sibling branch
/// already matched.
#[derive(Clone, Copy, Debug, PartialEq, Eq, Structural)]
pub enum IfState {
    Eval,
    Skip,
    SkipAndSwitch,
}

/// One step of a function macro's action program.
#[derive(Clone, Copy, Debug, PartialEq, Eq, Structural)]
pub enum Action {
    /// Substitute the parameter's fully expanded value.
    Arg(usize),
    /// Substitute the parameter's raw spelling (a token-paste operand).
    Concat(usize),
    /// Substitute the parameter's raw spelling as a quoted string literal.
    Stringify(usize),
    /// Copy literal buffer bytes from the current cursor up to this offset.
    Chunk(usize),
}

/// An object macro: replacement bytes, plus a flag saying whether the
/// replacement holds any identifier at all (when it does not, expansion can
/// copy the buffer verbatim and skip the rescanning pass).
pub struct MacroObject {
    pub out: Vec<u8>,
    pub has_id: bool,
    pub in_use: bool,
}

/// A function macro: literal fragment bytes, the action program replayed on
/// every invocation, the declared parameter count, and the position of the
/// variadic parameter if the macro takes one (always the last parameter).
pub struct MacroFunction {
    pub out: Vec<u8>,
    pub actions: Vec<Action>,
    pub n_args: usize,
    pub in_use: bool,
    pub va_args: Option<usize>,
}

/// A macro definition.
pub enum Macro {
    Object(MacroObject),
    Function(MacroFunction),
}

/// What a name means to the scanner right now: not a currently eligible
/// macro, an object macro, or a function macro with its parameter count and
/// optional variadic position (so the scanner knows a `(` must follow).
pub enum MacroType {
    Undefined,
    Object(MacroObject),
    Function(usize, Option<usize>),
}

/// One action is well formed for a macro with `n_args` parameters and
/// `out_len` literal bytes.
pub open spec fn action_wf(a: Action, n_args: int, out_len: int) -> bool {
    match a {
        Action::Arg(i) => i < n_args,
        Action::Concat(i) => i < n_args,
        Action::Stringify(i) => i < n_args,
        Action::Chunk(e) => e <= out_len,
    }
}

/// Chunk cursors never move backwards along the action program.
pub open spec fn chunk_le(a: Action, b: Action) -> bool {
    match (a, b) {
        (Action::Chunk(x), Action::Chunk(y)) => x <= y,
        _ => true,
    }
}

/// An action program is well formed: every parameter index is in range,
/// every chunk offset stays inside the literal buffer, and chunk offsets are
/// monotone, so replaying the program only ever copies forward.
pub open spec fn actions_wf(acts: Seq<Action>, n_args: int, out_len: int) -> bool {
    &&& forall|i: int| 0 <= i < acts.len() ==> action_wf(#[trigger] acts[i], n_args, out_len)
    &&& forall|i: int, j: int|
        0 <= i <= j < acts.len() ==> chunk_le(#[trigger] acts[i], #[trigger] acts[j])
}

/// A function macro is well formed; the variadic parameter, when present, is
/// the last one.
pub open spec fn fun_wf(f: MacroFunction) -> bool {
    &&& actions_wf(f.actions@, f.n_args as int, f.out@.len() as int)
    &&& match f.va_args {
        Some(k) => f.n_args >= 1 && k == f.n_args - 1,
        None => true,
    }
}

/// A macro definition is well formed.
pub open spec fn macro_wf(m: Macro) -> bool {
    match m {
        Macro::Object(_) => true,
        Macro::Function(f) => fun_wf(f),
    }
}

/// The in-use (self-reference) flag of a definition.
pub open spec fn macro_in_use(m: Macro) -> bool {
    match m {
        Macro::Object(o) => o.in_use,
        Macro::Function(f) => f.in_use,
    }
}

/// The same definition with its in-use flag set to `b`.
pub open spec fn macro_with_use(m: Macro, b: bool) -> Macro {
    match m {
        Macro::Object(o) => Macro::Object(MacroObject { in_use: b, ..o }),
        Macro::Function(f) => Macro::Function(MacroFunction { in_use: b, ..f }),
    }
}

/// How many definitions are currently not painted (not in use).  Painting a
/// macro strictly shrinks this, which bounds the expansion recursion.
pub open spec fn unpainted_count(m: Map<Seq<u8>, Macro>) -> nat {
    m.dom().filter(|k: Seq<u8>| !macro_in_use(m[k])).len()
}

impl Action {
    /// Whether this action substitutes a fully expanded parameter.
    pub fn is_arg(&self) -> (r: bool)
        ensures
            r == (*self is Arg),
    {
        match self {
            Action::Arg(_) => true,
            _ => false,
        }
    }

    /// The parameter position of an `Arg` action, and 0 for the others.
    pub fn arg_n(&self) -> (r: usize)
        ensures
            r == match *self {
                Action::Arg(n) => n,
                _ => 0usize,
            },
    {
        match self {
            Action::Arg(n) => *n,
            _ => 0,
        }
    }
}

impl MacroObject {
    /// A fresh object macro: not in use.
    pub fn new(out: Vec<u8>, has_id: bool) -> (r: Self)
        ensures
            r == (MacroObject { out, has_id, in_use: false }),
    {
        Self { out, has_id, in_use: false }
    }
}

impl MacroFunction {
    /// A fresh function macro: not in use.
    pub fn new(out: Vec<u8>, actions: Vec<Action>, n_args: usize, va_args: Option<usize>) -> (r:
        Self)
        ensures
            r == (MacroFunction { out, actions, n_args, in_use: false, va_args }),
    {
        Self { out, actions, n_args, in_use: false, va_args }
    }

    /// The declared parameter count.
    pub fn len(&self) -> (r: usize)
        ensures
            r == self.n_args,
    {
        self.n_args
    }

    /// Whether the macro takes no parameters.
    pub fn is_empty(&self) -> (r: bool)
        ensures
            r == (self.n_args == 0),
    {
        self.n_args == 0
    }
}

/// Copy a byte vector (the expansion engine keeps owned copies of replacement
/// buffers so the table can be mutated while they are scanned).
pub fn clone_bytes(v: &Vec<u8>) -> (r: Vec<u8>)
    ensures
        r@ == v@,
{
    let mut r: Vec<u8> = Vec::new();
    let mut i: usize = 0;
    while i < v.len()
        invariant
            i <= v@.len(),
            r@ == v@.subrange(0, i as int),
        decreases v@.len() - i,
    {
        r.push(v[i]);
        i += 1;
        proof {
            assert(r@ =~= v@.subrange(0, i as int));
        }
    }
    proof {
        assert(r@ =~= v@);
    }
    r
}

/// Copy an action vector.
pub fn clone_actions(v: &Vec<Action>) -> (r: Vec<Action>)
    ensures
        r@ == v@,
{
    let mut r: Vec<Action> = Vec::new();
    let mut i: usize = 0;
    while i < v.len()
        invariant
            i <= v@.len(),
            r@ == v@.subrange(0, i as int),
        decreases v@.len() - i,
    {
        r.push(v[i]);
        i += 1;
        proof {
            assert(r@ =~= v@.subrange(0, i as int));
        }
    }
    proof {
        assert(r@ =~= v@);
    }
    r
}

/// The whole preprocessing context of one translation unit: the macro table
/// and the stack of open conditional blocks.
pub struct PContext {
    pub macros: MacroTable,
    pub if_stack: Vec<IfState>,
}

impl PContext {
    /// The macro definitions, as a map from name bytes to definitions.
    pub open spec fn defs(self) -> Map<Seq<u8>, Macro> {
        macros_of(self.macros)
    }

    /// Context validity: finitely many definitions, all well formed.
    pub open spec fn inv(self) -> bool {
        &&& self.defs().dom().finite()
        &&& forall|k: Seq<u8>|
            #[trigger] self.defs().dom().contains(k) ==> macro_wf(self.defs()[k])
    }

    /// An empty context: no macros, no open conditional blocks.
    pub fn new() -> (r: Self)
        ensures
            r.defs() == crate::table::no_defs(),
            r.if_stack@ == Seq::<IfState>::empty(),
            r.inv(),
    {
        Self { macros: MacroTable::new(), if_stack: Vec::new() }
    }

    /// Open a conditional block with the given state.
    pub fn add_if(&mut self, state: IfState)
        ensures
            final(self).if_stack@ == old(self).if_stack@.push(state),
            final(self).defs() == old(self).defs(),
    {
        self.if_stack.push(state);
    }

    /// Close the innermost conditional block; a no-op when none is open.
    pub fn rm_if(&mut self)
        ensures
            final(self).if_stack@ == if old(self).if_stack@.len() == 0 {
                old(self).if_stack@
            } else {
                old(self).if_stack@.drop_last()
            },
            final(self).defs() == old(self).defs(),
    {
        let _ = self.if_stack.pop();
    }

    /// The state of the innermost open conditional block.
    pub fn if_state(&self) -> (r: Option<&IfState>)
        ensures
            match r {
                Some(s) => self.if_stack@.len() > 0 && *s == self.if_stack@.last(),
                None => self.if_stack@.len() == 0,
            },
    {
        let n = self.if_stack.len();
        if n > 0 {
            Some(&self.if_stack[n - 1])
        } else {
            None
        }
    }

    /// Replace the state of the innermost open conditional block (as on
    /// `#elif`/`#else`); there must be one.
    pub fn if_change(&mut self, state: IfState)
        requires
            old(self).if_stack@.len() > 0,
        ensures
            final(self).if_stack@ == old(self).if_stack@.update(
                old(self).if_stack@.len() - 1,
                state,
            ),
            final(self).defs() == old(self).defs(),
    {
        let _ = self.if_stack.pop();
        self.if_stack.push(state);
        proof {
            assert(self.if_stack@ =~= old(self).if_stack@.update(
                old(self).if_stack@.len() - 1,
                state,
            ));
        }
    }

    /// Insert or overwrite an object macro definition.
    pub fn add_object(&mut self, name: Vec<u8>, mac: MacroObject)
        requires
            old(self).inv(),
        ensures
            final(self).defs() == old(self).defs().insert(name@, Macro::Object(mac)),
            final(self).if_stack@ == old(self).if_stack@,
            final(self).inv(),
    {
        self.macros.insert(name, Macro::Object(mac));
    }

    /// Insert or overwrite a function macro definition.
    pub fn add_function(&mut self, name: Vec<u8>, mac: MacroFunction)
        requires
            old(self).inv(),
            fun_wf(mac),
        ensures
            final(self).defs() == old(self).defs().insert(name@, Macro::Function(mac)),
            final(self).if_stack@ == old(self).if_stack@,
            final(self).inv(),
    {
        self.macros.insert(name, Macro::Function(mac));
    }

    /// Remove a definition; an absent name is a no-op.
    pub fn undef(&mut self, name: &Vec<u8>)
        requires
            old(self).inv(),
        ensures
            final(self).defs() == old(self).defs().remove(name@),
            final(self).if_stack@ == old(self).if_stack@,
            final(self).inv(),
    {
        let _ = self.macros.remove(name);
    }

    /// Whether a definition exists under this name (painted or not).
    pub fn defined(&self, name: &Vec<u8>) -> (r: bool)
        ensures
            r == self.defs().dom().contains(name@),
    {
        self.macros.contains_key(name)
    }

    /// Look a name up; a macro that is currently in use is reported as
    /// absent, indistinguishable from an undefined name.
    pub fn get(&self, name: &Vec<u8>) -> (r: Option<&Macro>)
        ensures
            match r {
                Some(m) => self.defs().dom().contains(name@) && *m == self.defs()[name@]
                    && !macro_in_use(*m),
                None => !self.defs().dom().contains(name@) || macro_in_use(
                    self.defs()[name@],
                ),
            },
    {
        match self.macros.get(name) {
            Some(mac) => match mac {
                Macro::Object(m) => if m.in_use {
                    None
                } else {
                    Some(mac)
                },
                Macro::Function(m) => if m.in_use {
                    None
                } else {
                    Some(mac)
                },
            },
            None => None,
        }
    }

    /// What kind of macro, if any, this name currently is; used by the
    /// scanner to decide whether a following `(` starts an argument list.
    pub fn get_type(&self, name: &Vec<u8>) -> (r: MacroType)
        ensures
            match r {
                MacroType::Undefined => !self.defs().dom().contains(name@) || macro_in_use(
                    self.defs()[name@],
                ),
                MacroType::Object(o) => self.defs().dom().contains(name@) && !macro_in_use(
                    self.defs()[name@],
                ) && match self.defs()[name@] {
                    Macro::Object(orig) => o.out@ == orig.out@ && o.has_id == orig.has_id
                        && o.in_use == orig.in_use,
                    Macro::Function(_) => false,
                },
                MacroType::Function(n, va) => self.defs().dom().contains(name@) && !macro_in_use(
                    self.defs()[name@],
                ) && match self.defs()[name@] {
                    Macro::Function(f) => n == f.n_args && va == f.va_args,
                    Macro::Object(_) => false,
                },
            },
    {
        match self.get(name) {
            Some(mac) => match mac {
                Macro::Object(o) => MacroType::Object(
                    MacroObject { out: clone_bytes(&o.out), has_id: o.has_id, in_use: o.in_use },
                ),
                Macro::Function(f) => MacroType::Function(f.n_args, f.va_args),
            },
            None => MacroType::Undefined,
        }
    }

    /// Set or clear the in-use flag of an existing definition.
    pub(crate) fn set_in_use(&mut self, name: &Vec<u8>, val: bool)
        requires
            old(self).inv(),
            old(self).defs().dom().contains(name@),
        ensures
            final(self).defs() == old(self).defs().insert(
                name@,
                macro_with_use(old(self).defs()[name@], val),
            ),
            final(self).if_stack@ == old(self).if_stack@,
            final(self).inv(),
    {
        let m = self.macros.remove(name);
        match m {
            Some(mac) => {
                let mac2 = match mac {
                    Macro::Object(mut o) => {
                        o.in_use = val;
                        Macro::Object(o)
                    },
                    Macro::Function(mut f) => {
                        f.in_use = val;
                        Macro::Function(f)
                    },
                };
                let key = clone_bytes(name);
                self.macros.insert(key, mac2);
                proof {
                    assert(self.defs() =~= old(self).defs().insert(
                        name@,
                        macro_with_use(old(self).defs()[name@], val),
                    ));
                }
            },
            None => {
                proof {
                    assert(false);
                }
            },
        }
    }
}

} // verus!
