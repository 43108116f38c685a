//! The byte scanner that drives the preprocessor: it walks a source buffer,
//! consumes `#define`/`#undef` directive lines into the macro table, and
//! hands out tokens; character literals are decoded by the escape decoder.

use crate::ascii::{APOS, HASH, LO_U, UP_L, UP_U};
use crate::engine::{expand_in, is_digit, is_ident_char, is_ident_start, is_space, sub_bytes};
use crate::pmacros::PContext;
use vstd::prelude::*;

verus! {

/// A scanned token.  Character literals carry their decoded code point;
/// the `L`/`u`/`U`/`u8` prefixes keep their own variants.
#[derive(Clone, Copy, Debug, PartialEq, Eq, Structural)]
pub enum Token {
    Eof,
    Preproc,
    Id,
    Num,
    Punct(u8),
    LiteralChar(u32),
    LiteralLChar(u32),
    LiteralUChar(u32),
    LiteralUUChar(u32),
    LiteralU8Char(u32),
}

/// The scanner: an owned byte buffer, a cursor, and the preprocessing
/// context that directive lines mutate.
pub struct Lexer {
    pub buf: Vec<u8>,
    pub pos: usize,
    pub context: PContext,
}

/// One `next` step, as far as the macro table is concerned: the buffer is
/// kept, the cursor does not move backwards, and the definitions change
/// exactly as the directive line at the cursor says — or not at all when no
/// directive starts there.
pub open spec fn next_rel(a: Lexer, b: Lexer) -> bool {
    &&& b.buf@ == a.buf@
    &&& a.pos <= b.pos && b.pos <= a.buf@.len()
    &&& ({
        let bb = crate::engine::skip_spaces(a.buf@, a.pos as int);
        if bb < a.buf@.len() && a.buf@[bb] == HASH {
            crate::defines::directive_effect(a.buf@, bb + 1, a.context.defs(), b.context.defs())
        } else {
            b.context.defs() == a.context.defs()
        }
    })
}

/// A sequence of scanner states in which each one steps to the next as
/// one `next` call allows.
pub open spec fn chain_ok(trace: Seq<Lexer>) -> bool {
    forall|k: int| 0 <= k < trace.len() - 1 ==> next_rel(#[trigger] trace[k], trace[k + 1])
}

impl Lexer {
    /// Scanner validity: the cursor stays inside the buffer and the context
    /// is well formed.
    pub open spec fn wf(self) -> bool {
        &&& self.pos <= self.buf@.len()
        &&& self.context.inv()
    }

    /// A scanner over a copy of the given bytes, with an empty context.
    pub fn new(src: &[u8]) -> (r: Lexer)
        ensures
            r.wf(),
            r.buf@ == src@,
            r.pos == 0,
            r.context.defs() == crate::table::no_defs(),
    {
        let buf = vstd::slice::slice_to_vec(src);
        Lexer { buf, pos: 0, context: PContext::new() }
    }

    /// The preprocessing context built up so far.
    pub fn context(&self) -> (r: &PContext)
        ensures
            r == &self.context,
    {
        &self.context
    }

    /// Scan the next token.  A `#` starts a directive line, which is
    /// consumed whole — defining or undefining macros exactly as
    /// `directive_effect` says — and reported as one `Preproc` token; any
    /// other token leaves the macro table untouched.
    pub fn next(&mut self) -> (r: Token)
        requires
            old(self).wf(),
        ensures
            final(self).wf(),
            final(self).buf@ == old(self).buf@,
            old(self).pos <= final(self).pos,
            ({
                let s2 = old(self).buf@;
                let b = crate::engine::skip_spaces(s2, old(self).pos as int);
                if b < s2.len() && s2[b] == crate::ascii::HASH {
                    crate::defines::directive_effect(
                        s2,
                        b + 1,
                        old(self).context.defs(),
                        final(self).context.defs(),
                    )
                } else {
                    final(self).context.defs() == old(self).context.defs()
                }
            }),
            next_rel(*old(self), *final(self)),
    {
        let ghost s2 = self.buf@;
        let ghost p0 = self.pos as int;
        let mut pos = self.pos;
        while pos < self.buf.len() && is_space(self.buf[pos])
            invariant
                pos <= self.buf@.len(),
                old(self).pos <= pos,
                self == old(self),
                s2 == self.buf@,
                crate::engine::skip_spaces(s2, p0) == crate::engine::skip_spaces(s2, pos as int),
            decreases self.buf@.len() - pos,
        {
            pos = pos + 1;
        }
        proof {
            assert(crate::engine::skip_spaces(s2, p0) == pos as int);
        }
        if pos >= self.buf.len() {
            self.pos = pos;
            return Token::Eof;
        }
        let c = self.buf[pos];
        if c == HASH {
            self.pos = pos + 1;
            crate::defines::parse_directive(&self.buf, &mut self.pos, &mut self.context);
            return Token::Preproc;
        }
        if c == APOS {
            self.pos = pos + 1;
            return self.get_char();
        }
        if is_ident_start(c) {
            let idstart = pos;
            let mut idend = pos + 1;
            while idend < self.buf.len() && is_ident_char(self.buf[idend])
                invariant
                    idstart < idend && idend <= self.buf@.len(),
                    self == old(self),
                decreases self.buf@.len() - idend,
            {
                idend = idend + 1;
            }
            let n = idend - idstart;
            let quote_follows = idend < self.buf.len() && self.buf[idend] == APOS;
            if quote_follows && n == 1 && c == LO_U {
                self.pos = idend + 1;
                let v = self.get_c_char_u32();
                return Token::LiteralUChar(v);
            }
            if quote_follows && n == 1 && c == UP_U {
                self.pos = idend + 1;
                let v = self.get_c_char_u32();
                return Token::LiteralUUChar(v);
            }
            if quote_follows && n == 1 && c == UP_L {
                self.pos = idend + 1;
                let v = self.get_c_char_u32();
                return Token::LiteralLChar(v);
            }
            if quote_follows && n == 2 && c == LO_U && self.buf[idstart + 1] == 56 {
                self.pos = idend + 1;
                let v = self.get_c_char_u32();
                return Token::LiteralU8Char(v);
            }
            self.pos = idend;
            return Token::Id;
        }
        if is_digit(c) {
            let mut idend = pos + 1;
            while idend < self.buf.len() && is_ident_char(self.buf[idend])
                invariant
                    pos < idend && idend <= self.buf@.len(),
                    self == old(self),
                decreases self.buf@.len() - idend,
            {
                idend = idend + 1;
            }
            self.pos = idend;
            return Token::Num;
        }
        self.pos = pos + 1;
        Token::Punct(c)
    }

    /// Consume the next `n` tokens (directive lines count as one token
    /// each), feeding every `#define`/`#undef` into the context: the
    /// scanner afterwards is what a chain of `n` successive `next` steps
    /// makes of it.
    pub fn consume_tokens(&mut self, n: usize)
        requires
            old(self).wf(),
        ensures
            final(self).wf(),
            final(self).buf@ == old(self).buf@,
            exists|trace: Seq<Lexer>|
                #[trigger] chain_ok(trace) && trace.len() == n + 1 && trace.first() == *old(self)
                    && trace.last() == *final(self),
    {
        let mut i: usize = 0;
        let ghost mut trace: Seq<Lexer> = seq![*self];
        while i < n
            invariant
                self.wf(),
                self.buf@ == old(self).buf@,
                i <= n,
                trace.len() == i + 1,
                trace.first() == *old(self),
                trace.last() == *self,
                chain_ok(trace),
            decreases n - i,
        {
            let ghost cur = *self;
            let _ = self.next();
            proof {
                let t2 = trace.push(*self);
                assert(t2[trace.len() - 1] == cur);
                assert(t2[trace.len() as int] == *self);
                assert forall|k: int| 0 <= k < t2.len() - 1 implies next_rel(
                    #[trigger] t2[k],
                    t2[k + 1],
                ) by {
                    if k < trace.len() - 1 {
                        assert(t2[k] == trace[k]);
                        assert(t2[k + 1] == trace[k + 1]);
                        assert(next_rel(trace[k], trace[k + 1]));
                    }
                }
                trace = t2;
            }
            i = i + 1;
        }
        proof {
            assert(chain_ok(trace) && trace.len() == n + 1 && trace.first() == *old(self)
                && trace.last() == *self);
        }
    }

    /// Give up the scanner and keep only the context it built.
    pub fn into_context(self) -> (r: PContext)
        ensures
            r == self.context,
    {
        self.context
    }

    /// Expand one invocation of `name` against this scanner's own context,
    /// reading a function macro's arguments from the current position.
    /// On success exactly the bytes of `spec_expand` are appended to `out`
    /// and the cursor lands where that model says; on failure `out` and the
    /// cursor are untouched.  The context (in-use flags included) is
    /// restored.
    pub fn eval_macro(&mut self, name: &[u8], out: &mut Vec<u8>) -> (r: bool)
        requires
            old(self).wf(),
        ensures
            final(self).wf(),
            final(self).buf@ == old(self).buf@,
            final(self).context.defs() == old(self).context.defs(),
            old(self).pos <= final(self).pos,
            old(out)@.is_prefix_of(final(out)@),
            !r ==> final(out)@ == old(out)@ && final(self).pos == old(self).pos,
            match crate::engine::spec_expand(
                old(self).context.defs(),
                name@,
                old(self).buf@,
                old(self).pos as int,
            ) {
                Some(bp) => r && final(out)@ == old(out)@ + bp.0 && final(self).pos as int
                    == bp.1,
                None => !r,
            },
            !old(self).context.defs().dom().contains(name@) ==> !r,
            old(self).context.defs().dom().contains(name@) && !crate::pmacros::macro_in_use(
                old(self).context.defs()[name@],
            ) ==> match old(self).context.defs()[name@] {
                crate::pmacros::Macro::Object(o) => r && (!o.has_id ==> final(out)@ == old(out)@
                    + o.out@),
                crate::pmacros::Macro::Function(f) => r == crate::engine::invocation_ok(
                    old(self).buf@,
                    old(self).pos as int,
                    f.n_args as int,
                    f.va_args,
                ),
            },
    {
        let key = vstd::slice::slice_to_vec(name);
        expand_in(&mut self.context, &key, &self.buf, &mut self.pos, out)
    }
}

impl PContext {
    /// The central expansion entry point: expand one invocation of `name`,
    /// collecting a function macro's arguments from the scanner.  On
    /// success exactly the bytes of `spec_expand` are appended to `out` and
    /// the scanner's cursor lands where that model says; the call returns
    /// false, leaving the output and the cursor untouched, when the name is
    /// unknown or currently in use (the two are indistinguishable by
    /// design) or when argument collection fails.  An eligible object macro
    /// always expands, and one whose replacement holds no identifier
    /// appends exactly its stored replacement text.  Since the table
    /// (in-use flags included) is restored on every path, expanding a macro
    /// again appends byte-identical output.
    pub fn eval(&mut self, name: &[u8], lexer: &mut Lexer, out: &mut Vec<u8>) -> (r: bool)
        requires
            old(self).inv(),
            old(lexer).wf(),
        ensures
            final(self).inv(),
            final(self).defs() == old(self).defs(),
            final(self).if_stack@ == old(self).if_stack@,
            final(lexer).wf(),
            final(lexer).buf@ == old(lexer).buf@,
            final(lexer).context == old(lexer).context,
            old(lexer).pos <= final(lexer).pos,
            old(out)@.is_prefix_of(final(out)@),
            !r ==> final(out)@ == old(out)@ && final(lexer).pos == old(lexer).pos,
            match crate::engine::spec_expand(
                old(self).defs(),
                name@,
                old(lexer).buf@,
                old(lexer).pos as int,
            ) {
                Some(bp) => r && final(out)@ == old(out)@ + bp.0 && final(lexer).pos as int
                    == bp.1,
                None => !r,
            },
            !old(self).defs().dom().contains(name@) ==> !r,
            old(self).defs().dom().contains(name@) && crate::pmacros::macro_in_use(
                old(self).defs()[name@],
            ) ==> !r,
            old(self).defs().dom().contains(name@) && !crate::pmacros::macro_in_use(
                old(self).defs()[name@],
            ) ==> match old(self).defs()[name@] {
                crate::pmacros::Macro::Object(o) => r && (!o.has_id ==> final(out)@ == old(out)@
                    + o.out@),
                crate::pmacros::Macro::Function(f) => r == crate::engine::invocation_ok(
                    old(lexer).buf@,
                    old(lexer).pos as int,
                    f.n_args as int,
                    f.va_args,
                ),
            },
    {
        let key = vstd::slice::slice_to_vec(name);
        expand_in(self, &key, &lexer.buf, &mut lexer.pos, out)
    }
}

impl Default for PContext {
    /// An empty context, as `PContext::new` builds it.
    fn default() -> (r: Self)
        ensures
            r.defs() == crate::table::no_defs(),
            r.if_stack@ == Seq::<crate::pmacros::IfState>::empty(),
            r.inv(),
    {
        PContext::new()
    }
}

} // verus!
