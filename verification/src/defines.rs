//! Parsing of `#define` and `#undef` directive lines: the replacement text
//! is scanned once, comments collapse to a single space, and parameter
//! occurrences and the `#`/`##` operators become the action program that
//! the expansion engine replays on every invocation.  Any other directive
//! line is consumed without effect.

use crate::ascii::{APOS, BSLASH, COMMA, CR, DOT, HASH, LPAR, NL, QUOTE, RPAR, SLASH, SP, STAR, TAB, UP_R};
use crate::engine::{append_range, copy_raw_string, ident_end, is_digit, is_ident_char,
    is_ident_start, spec_ident_start, sub_bytes};
use crate::pmacros::{action_wf, actions_wf, chunk_le, fun_wf, macro_in_use, Action, Macro,
    MacroFunction, MacroObject, PContext};
use vstd::prelude::*;

verus! {

/// Whitespace inside one logical line (a newline ends the line instead).
pub open spec fn spec_line_space(c: u8) -> bool {
    c == SP || c == TAB || c == CR
}

fn is_line_space(c: u8) -> (r: bool)
    ensures
        r == spec_line_space(c),
{
    c == SP || c == TAB || c == CR
}

/// A chunk action reaching no further than `v`.
pub open spec fn chunk_at_most(a: Action, v: int) -> bool {
    match a {
        Action::Chunk(e) => e <= v,
        _ => true,
    }
}


/// Where a block comment whose opening `/*` just ended closes: after the
/// next `*/`, or at the end of the buffer.
pub open spec fn bc_end(s: Seq<u8>, i: int) -> int
    decreases s.len() - i,
    when 0 <= i
{
    if i >= s.len() {
        i
    } else if s[i] == STAR && i + 1 < s.len() && s[i + 1] == SLASH {
        i + 2
    } else {
        bc_end(s, i + 1)
    }
}

pub proof fn lemma_bc_end_bounds(s: Seq<u8>, i: int)
    requires
        0 <= i && i <= s.len(),
    ensures
        i <= bc_end(s, i) && bc_end(s, i) <= s.len(),
    decreases s.len() - i,
{
    if i < s.len() && !(s[i] == STAR && i + 1 < s.len() && s[i + 1] == SLASH) {
        lemma_bc_end_bounds(s, i + 1);
    }
}

/// Where a run of line whitespace and block comments starting at `i` ends.
pub open spec fn run_end(s: Seq<u8>, i: int) -> int
    decreases s.len() - i,
    when 0 <= i
{
    if i >= s.len() {
        i
    } else if spec_line_space(s[i]) {
        run_end(s, i + 1)
    } else if s[i] == SLASH && i + 1 < s.len() && s[i + 1] == STAR {
        proof {
            lemma_bc_end_bounds(s, i + 2);
        }
        run_end(s, bc_end(s, i + 2))
    } else {
        i
    }
}

/// The bytes spelling the word `define`.
pub open spec fn kw_define() -> Seq<u8> {
    seq![100u8, 101u8, 102u8, 105u8, 110u8, 101u8]
}

/// The bytes spelling the word `undef`.
pub open spec fn kw_undef() -> Seq<u8> {
    seq![117u8, 110u8, 100u8, 101u8, 102u8]
}

/// What a directive line does to the definitions: `#undef name` removes
/// the name, a well-formed `#define name ...` inserts a definition under
/// the name — a function macro when a parenthesis follows the name
/// immediately (unless its parameter list is malformed, which defines
/// nothing), an object macro otherwise — and any other or malformed
/// directive leaves the table as it was.  `old_defs` and `new_defs` are the
/// definitions before and after, `i` the position just after the `#`.
pub open spec fn directive_effect(
    s: Seq<u8>,
    i: int,
    old_defs: Map<Seq<u8>, Macro>,
    new_defs: Map<Seq<u8>, Macro>,
) -> bool {
    let b = run_end(s, i);
    if !(b < s.len() && spec_ident_start(s[b])) {
        new_defs == old_defs
    } else {
        let e = ident_end(s, b + 1);
        let w = s.subrange(b, e);
        if w == kw_undef() {
            let nb = run_end(s, e);
            if nb < s.len() && spec_ident_start(s[nb]) {
                new_defs == old_defs.remove(s.subrange(nb, ident_end(s, nb + 1)))
            } else {
                new_defs == old_defs
            }
        } else if w == kw_define() {
            let nb = run_end(s, e);
            if nb < s.len() && spec_ident_start(s[nb]) {
                let ne = ident_end(s, nb + 1);
                let nm = s.subrange(nb, ne);
                if ne < s.len() && s[ne] == LPAR {
                    (exists|f: MacroFunction|
                        #[trigger] fun_wf(f) && !f.in_use && new_defs == old_defs.insert(
                            nm,
                            Macro::Function(f),
                        )) || new_defs == old_defs
                } else {
                    exists|o: MacroObject|
                        !#[trigger] macro_in_use(Macro::Object(o)) && new_defs == old_defs.insert(
                            nm,
                            Macro::Object(o),
                        )
                }
            } else {
                new_defs == old_defs
            }
        } else {
            new_defs == old_defs
        }
    }
}

/// Consume the inside of a block comment up to and past its closing
/// `*/`, or to the end of the buffer.
fn skip_block_comment(buf: &Vec<u8>, pos: &mut usize)
    requires
        *old(pos) <= buf@.len(),
    ensures
        *old(pos) <= *final(pos) && *final(pos) <= buf@.len(),
        *final(pos) == bc_end(buf@, *old(pos) as int),
{
    let mut closed: bool = false;
    while !closed && *pos < buf.len()
        invariant
            *old(pos) <= *pos && *pos <= buf@.len(),
            bc_end(buf@, *old(pos) as int) == (if closed {
                *pos as int
            } else {
                bc_end(buf@, *pos as int)
            }),
        decreases buf@.len() - *pos,
    {
        if buf[*pos] == STAR && *pos + 1 < buf.len() && buf[*pos + 1] == SLASH {
            *pos = *pos + 2;
            closed = true;
        } else {
            *pos = *pos + 1;
        }
    }
}

/// Consume a run of line whitespace and block comments, emitting nothing.
fn consume_run(buf: &Vec<u8>, pos: &mut usize)
    requires
        *old(pos) <= buf@.len(),
    ensures
        *old(pos) <= *final(pos) && *final(pos) <= buf@.len(),
        *final(pos) == run_end(buf@, *old(pos) as int),
{
    let mut more: bool = true;
    while more && *pos < buf.len()
        invariant
            *old(pos) <= *pos && *pos <= buf@.len(),
            run_end(buf@, *old(pos) as int) == (if more {
                run_end(buf@, *pos as int)
            } else {
                *pos as int
            }),
        decreases buf@.len() - *pos, (if more {
            1int
        } else {
            0int
        }),
    {
        let c = buf[*pos];
        if is_line_space(c) {
            *pos = *pos + 1;
        } else if c == SLASH && *pos + 1 < buf.len() && buf[*pos + 1] == STAR {
            *pos = *pos + 2;
            skip_block_comment(buf, pos);
        } else {
            more = false;
        }
    }
}

/// Copy a quoted literal (the opening quote at `buf[pos]`) verbatim,
/// honouring backslash escapes; an unterminated literal is copied to the
/// end of the buffer.
fn copy_quoted(buf: &Vec<u8>, pos: usize, close: u8, out: &mut Vec<u8>) -> (p: usize)
    requires
        pos < buf@.len(),
    ensures
        pos < p && p <= buf@.len(),
        old(out)@.len() <= final(out)@.len(),
{
    let bl = buf.len();
    out.push(buf[pos]);
    let mut i: usize = pos + 1;
    let mut closed: bool = false;
    while !closed && i < buf.len()
        invariant
            bl == buf@.len(),
            pos < i && i <= buf@.len(),
            old(out)@.len() <= out@.len(),
        decreases buf@.len() - i,
    {
        let c = buf[i];
        if c == BSLASH && i + 1 < buf.len() {
            out.push(c);
            out.push(buf[i + 1]);
            i = i + 2;
        } else {
            out.push(c);
            i = i + 1;
            if c == close {
                closed = true;
            }
        }
    }
    i
}

/// Do the bytes `buf[from..to]` spell the same word as `w`?
fn bytes_match(buf: &Vec<u8>, from: usize, to: usize, w: &Vec<u8>) -> (r: bool)
    requires
        from <= to && to <= buf@.len(),
    ensures
        r == (buf@.subrange(from as int, to as int) =~= w@),
{
    if to - from != w.len() {
        proof {
            assert(buf@.subrange(from as int, to as int).len() == to - from);
        }
        return false;
    }
    let n = w.len();
    let mut i: usize = 0;
    while i < n
        invariant
            i <= n,
            n == w@.len(),
            from + n <= to && to <= buf@.len(),
            to - from == n,
            forall|j: int| 0 <= j < i ==> buf@[from + j] == w@[j],
        decreases n - i,
    {
        if buf[from + i] != w[i] {
            proof {
                assert(buf@.subrange(from as int, to as int)[i as int] == buf@[from + i]);
            }
            return false;
        }
        i = i + 1;
    }
    proof {
        assert(buf@.subrange(from as int, to as int) =~= w@);
    }
    true
}

/// The position of the parameter that `buf[from..to]` names, if any.
fn find_param(params: &Vec<Vec<u8>>, buf: &Vec<u8>, from: usize, to: usize) -> (r: Option<usize>)
    requires
        from <= to && to <= buf@.len(),
    ensures
        match r {
            Some(j) => j < params@.len(),
            None => true,
        },
{
    let mut i: usize = 0;
    while i < params.len()
        invariant
            i <= params@.len(),
            from <= to && to <= buf@.len(),
        decreases params@.len() - i,
    {
        if bytes_match(buf, from, to, &params[i]) {
            return Some(i);
        }
        i = i + 1;
    }
    None
}


/// Appending a chunk that reaches the current buffer end, followed by one
/// parameter action, keeps an action program well formed; the new chunk
/// offset becomes the program's high-water mark.
proof fn lemma_actions_push_pair(
    acts0: Seq<Action>,
    x: Action,
    l: usize,
    n_args: int,
    out_len: int,
    mark: int,
)
    requires
        actions_wf(acts0, n_args, out_len),
        forall|i: int| 0 <= i < acts0.len() ==> chunk_at_most(#[trigger] acts0[i], mark),
        mark <= l as int && l as int <= out_len,
        action_wf(x, n_args, out_len),
        !(x is Chunk),
    ensures
        actions_wf(acts0.push(Action::Chunk(l)).push(x), n_args, out_len),
        forall|i: int|
            0 <= i < acts0.push(Action::Chunk(l)).push(x).len() ==> chunk_at_most(
                #[trigger] acts0.push(Action::Chunk(l)).push(x)[i],
                l as int,
            ),
{
    let acts = acts0.push(Action::Chunk(l)).push(x);
    assert forall|i: int| 0 <= i < acts.len() implies action_wf(
        #[trigger] acts[i],
        n_args,
        out_len,
    ) by {
        if i < acts0.len() {
            assert(action_wf(acts0[i], n_args, out_len));
        }
    }
    assert forall|i: int, j: int| 0 <= i <= j < acts.len() implies chunk_le(
        #[trigger] acts[i],
        #[trigger] acts[j],
    ) by {
        if j < acts0.len() {
            assert(chunk_le(acts0[i], acts0[j]));
        } else if i < acts0.len() {
            assert(chunk_at_most(acts0[i], mark));
        }
    }
    assert forall|i: int| 0 <= i < acts.len() implies chunk_at_most(
        #[trigger] acts[i],
        l as int,
    ) by {
        if i < acts0.len() {
            assert(chunk_at_most(acts0[i], mark));
        }
    }
}

/// Scan a replacement text up to the end of the line, producing the literal
/// buffer, the action program against `params`, and whether any identifier
/// occurred in it (object macros without one are emitted verbatim, with no
/// rescanning).  Comment runs collapse to one space, a `//` comment
/// truncates the line, and the operands around `##` lose the whitespace
/// that separated them from the operator.
#[verifier::rlimit(30)]
fn parse_body(buf: &Vec<u8>, pos: &mut usize, params: &Vec<Vec<u8>>) -> (r: (
    Vec<u8>,
    Vec<Action>,
    bool,
))
    requires
        *old(pos) <= buf@.len(),
    ensures
        *old(pos) <= *final(pos) && *final(pos) <= buf@.len(),
        actions_wf(r.1@, params@.len() as int, r.0@.len() as int),
{
    let ghost n_args = params@.len() as int;
    let mut out: Vec<u8> = Vec::new();
    let mut actions: Vec<Action> = Vec::new();
    let mut has_id: bool = false;
    let mut mark: usize = 0;
    let mut last_arg: bool = false;
    consume_run(buf, pos);
    while *pos < buf.len() && buf[*pos] != NL
        invariant
            *old(pos) <= *pos && *pos <= buf@.len(),
            mark <= out@.len(),
            actions_wf(actions@, n_args, out@.len() as int),
            n_args == params@.len() as int,
            forall|i: int|
                0 <= i < actions@.len() ==> chunk_at_most(#[trigger] actions@[i], mark as int),
        decreases buf@.len() - *pos,
    {
        let ghost opos = *pos;
        let c = buf[*pos];
        if is_line_space(c) {
            out.push(SP);
            *pos = *pos + 1;
            consume_run(buf, pos);
        } else if c == SLASH && *pos + 1 < buf.len() && buf[*pos + 1] == STAR {
            out.push(SP);
            *pos = *pos + 2;
            skip_block_comment(buf, pos);
            consume_run(buf, pos);
        } else if c == SLASH && *pos + 1 < buf.len() && buf[*pos + 1] == SLASH {
            *pos = *pos + 1;
            while *pos < buf.len() && buf[*pos] != NL
                invariant
                    opos < *pos && *pos <= buf@.len(),
                decreases buf@.len() - *pos,
            {
                *pos = *pos + 1;
            }
        } else if c == HASH && *pos + 1 < buf.len() && buf[*pos + 1] == HASH {
            *pos = *pos + 2;
            while out.len() > mark && is_line_space(out[out.len() - 1])
                invariant
                    mark <= out@.len(),
                    actions_wf(actions@, n_args, out@.len() as int),
                    forall|i: int|
                        0 <= i < actions@.len() ==> chunk_at_most(
                            #[trigger] actions@[i],
                            mark as int,
                        ),
                decreases out@.len(),
            {
                let _ = out.pop();
            }
            if last_arg && out.len() == mark {
                let ghost acts0 = actions@;
                match actions.pop() {
                    Some(a) => {
                        match a {
                            Action::Arg(i) => {
                                actions.push(Action::Concat(i));
                            },
                            _ => {
                                actions.push(a);
                            },
                        }
                        proof {
                            assert forall|i2: int|
                                0 <= i2 < actions@.len() implies action_wf(
                                #[trigger] actions@[i2],
                                n_args,
                                out@.len() as int,
                            ) by {
                                assert(action_wf(acts0[i2], n_args, out@.len() as int));
                            }
                            assert forall|i2: int, j2: int|
                                0 <= i2 <= j2 < actions@.len() implies chunk_le(
                                #[trigger] actions@[i2],
                                #[trigger] actions@[j2],
                            ) by {
                                assert(chunk_le(acts0[i2], acts0[j2]));
                            }
                            assert forall|i2: int|
                                0 <= i2 < actions@.len() implies chunk_at_most(
                                #[trigger] actions@[i2],
                                mark as int,
                            ) by {
                                assert(chunk_at_most(acts0[i2], mark as int));
                            }
                        }
                    },
                    None => {
                    },
                }
            }
            last_arg = false;
            consume_run(buf, pos);
            if *pos < buf.len() && is_ident_start(buf[*pos]) {
                let s = *pos;
                let mut e = *pos + 1;
                while e < buf.len() && is_ident_char(buf[e])
                    invariant
                        s < e && e <= buf@.len(),
                    decreases buf@.len() - e,
                {
                    e = e + 1;
                }
                match find_param(params, buf, s, e) {
                    Some(j) => {
                        let l = out.len();
                        let ghost acts0 = actions@;
                        actions.push(Action::Chunk(l));
                        actions.push(Action::Concat(j));
                        proof {
                            lemma_actions_push_pair(
                                acts0,
                                Action::Concat(j),
                                l,
                                n_args,
                                out@.len() as int,
                                mark as int,
                            );
                            assert(actions@ == acts0.push(Action::Chunk(l)).push(Action::Concat(j)));
                        }
                        mark = l;
                        *pos = e;
                    },
                    None => {
                        append_range(&mut out, buf, s, e);
                        has_id = true;
                        *pos = e;
                    },
                }
            }
        } else if c == HASH {
            *pos = *pos + 1;
            consume_run(buf, pos);
            if *pos < buf.len() && is_ident_start(buf[*pos]) {
                let s = *pos;
                let mut e = *pos + 1;
                while e < buf.len() && is_ident_char(buf[e])
                    invariant
                        s < e && e <= buf@.len(),
                    decreases buf@.len() - e,
                {
                    e = e + 1;
                }
                match find_param(params, buf, s, e) {
                    Some(j) => {
                        let l = out.len();
                        let ghost acts0 = actions@;
                        actions.push(Action::Chunk(l));
                        actions.push(Action::Stringify(j));
                        proof {
                            lemma_actions_push_pair(
                                acts0,
                                Action::Stringify(j),
                                l,
                                n_args,
                                out@.len() as int,
                                mark as int,
                            );
                            assert(actions@ == acts0.push(Action::Chunk(l)).push(Action::Stringify(j)));
                        }
                        mark = l;
                        last_arg = false;
                        *pos = e;
                    },
                    None => {
                        out.push(HASH);
                        append_range(&mut out, buf, s, e);
                        has_id = true;
                        last_arg = false;
                        *pos = e;
                    },
                }
            } else {
                out.push(HASH);
                last_arg = false;
            }
        } else if is_ident_start(c) {
            let s = *pos;
            let mut e = *pos + 1;
            while e < buf.len() && is_ident_char(buf[e])
                invariant
                    s < e && e <= buf@.len(),
                decreases buf@.len() - e,
            {
                e = e + 1;
            }
            match find_param(params, buf, s, e) {
                Some(j) => {
                    let l = out.len();
                    let ghost acts0 = actions@;
                    actions.push(Action::Chunk(l));
                    actions.push(Action::Arg(j));
                    proof {
                        lemma_actions_push_pair(
                            acts0,
                            Action::Arg(j),
                            l,
                            n_args,
                            out@.len() as int,
                            mark as int,
                        );
                        assert(actions@ == acts0.push(Action::Chunk(l)).push(Action::Arg(j)));
                    }
                    mark = l;
                    last_arg = true;
                    *pos = e;
                },
                None => {
                    append_range(&mut out, buf, s, e);
                    has_id = true;
                    *pos = e;
                },
            }
        } else if is_digit(c) {
            out.push(c);
            *pos = *pos + 1;
            while *pos < buf.len() && (is_ident_char(buf[*pos]) || buf[*pos] == DOT)
                invariant
                    opos < *pos && *pos <= buf@.len(),
                    mark <= out@.len(),
                    actions_wf(actions@, n_args, out@.len() as int),
                    n_args == params@.len() as int,
                    forall|i: int|
                        0 <= i < actions@.len() ==> chunk_at_most(
                            #[trigger] actions@[i],
                            mark as int,
                        ),
                decreases buf@.len() - *pos,
            {
                out.push(buf[*pos]);
                *pos = *pos + 1;
            }
        } else if c == QUOTE {
            let ol = out.len();
            let raw = ol > 0 && out[ol - 1] == UP_R;
            if raw {
                match copy_raw_string(buf, *pos, &mut out) {
                    Some(p2) => {
                        *pos = p2;
                    },
                    None => {
                        out.push(c);
                        *pos = *pos + 1;
                    },
                }
            } else {
                let p2 = copy_quoted(buf, *pos, QUOTE, &mut out);
                *pos = p2;
            }
        } else if c == APOS {
            let p2 = copy_quoted(buf, *pos, APOS, &mut out);
            *pos = p2;
        } else {
            out.push(c);
            *pos = *pos + 1;
        }
    }
    if *pos < buf.len() {
        *pos = *pos + 1;
    }
    (out, actions, has_id)
}

/// Parse the parenthesised parameter list of a function macro definition,
/// the cursor standing just after the opening parenthesis.  `...` and a
/// trailing `name...` both declare a variadic last parameter (the former
/// under the name `__VA_ARGS__`); failure means a malformed or unterminated
/// list, and no macro is defined.
fn parse_params(buf: &Vec<u8>, pos: &mut usize) -> (r: Option<(Vec<Vec<u8>>, Option<usize>)>)
    requires
        *old(pos) <= buf@.len(),
    ensures
        *old(pos) <= *final(pos) && *final(pos) <= buf@.len(),
        match r {
            Some(pv) => match pv.1 {
                Some(k) => pv.0@.len() >= 1 && k == pv.0@.len() - 1,
                None => true,
            },
            None => true,
        },
{
    let mut params: Vec<Vec<u8>> = Vec::new();
    let mut va: Option<usize> = None;
    while *pos < buf.len()
        invariant
            *old(pos) <= *pos && *pos <= buf@.len(),
            match va {
                Some(k) => params@.len() >= 1 && k == params@.len() - 1,
                None => true,
            },
        decreases buf@.len() - *pos,
    {
        consume_run(buf, pos);
        if *pos >= buf.len() {
            return None;
        }
        let c = buf[*pos];
        if c == RPAR {
            *pos = *pos + 1;
            return Some((params, va));
        }
        if c == NL {
            return None;
        }
        match va {
            Some(_) => {
                return None;
            },
            None => {
            },
        }
        if c == DOT && buf.len() - *pos > 2 && buf[*pos + 1] == DOT && buf[*pos + 2] == DOT {
            let mut name: Vec<u8> = Vec::new();
            name.push(95);
            name.push(95);
            name.push(86);
            name.push(65);
            name.push(95);
            name.push(65);
            name.push(82);
            name.push(71);
            name.push(83);
            name.push(95);
            name.push(95);
            params.push(name);
            va = Some(params.len() - 1);
            *pos = *pos + 3;
        } else if is_ident_start(c) {
            let s = *pos;
            let mut e = *pos + 1;
            while e < buf.len() && is_ident_char(buf[e])
                invariant
                    s < e && e <= buf@.len(),
                decreases buf@.len() - e,
            {
                e = e + 1;
            }
            let name = sub_bytes(buf, s, e);
            params.push(name);
            *pos = e;
            if buf.len() - e > 2 && buf[e] == DOT && buf[e + 1] == DOT && buf[e + 2] == DOT {
                va = Some(params.len() - 1);
                *pos = e + 3;
            }
        } else if c == COMMA {
            *pos = *pos + 1;
        } else {
            return None;
        }
    }
    None
}

/// Skip the remainder of the current line, the terminating newline
/// included.
fn skip_line(buf: &Vec<u8>, pos: &mut usize)
    requires
        *old(pos) <= buf@.len(),
    ensures
        *old(pos) <= *final(pos) && *final(pos) <= buf@.len(),
{
    while *pos < buf.len() && buf[*pos] != NL
        invariant
            *old(pos) <= *pos && *pos <= buf@.len(),
        decreases buf@.len() - *pos,
    {
        *pos = *pos + 1;
    }
    if *pos < buf.len() {
        *pos = *pos + 1;
    }
}

/// Parse a `#define` line (the cursor standing after the word `define`)
/// and enter the macro into the context: a function macro when a
/// parenthesis follows the name immediately (a malformed parameter list
/// defines nothing), an object macro otherwise; a line without a name
/// defines nothing.
fn parse_define(buf: &Vec<u8>, pos: &mut usize, ctx: &mut PContext)
    requires
        old(ctx).inv(),
        *old(pos) <= buf@.len(),
    ensures
        final(ctx).inv(),
        *old(pos) <= *final(pos) && *final(pos) <= buf@.len(),
        final(ctx).if_stack@ == old(ctx).if_stack@,
        ({
            let s2 = buf@;
            let nb = run_end(s2, *old(pos) as int);
            if nb < s2.len() && spec_ident_start(s2[nb]) {
                let ne = ident_end(s2, nb + 1);
                let nm = s2.subrange(nb, ne);
                if ne < s2.len() && s2[ne] == LPAR {
                    (exists|f: MacroFunction|
                        #[trigger] fun_wf(f) && !f.in_use && final(ctx).defs() == old(
                            ctx,
                        ).defs().insert(nm, Macro::Function(f))) || final(ctx).defs() == old(
                        ctx,
                    ).defs()
                } else {
                    exists|o: MacroObject|
                        !#[trigger] macro_in_use(Macro::Object(o)) && final(ctx).defs() == old(
                            ctx,
                        ).defs().insert(nm, Macro::Object(o))
                }
            } else {
                final(ctx).defs() == old(ctx).defs()
            }
        }),
{
    let ghost s2 = buf@;
    consume_run(buf, pos);
    if !(*pos < buf.len() && is_ident_start(buf[*pos])) {
        skip_line(buf, pos);
        return ;
    }
    let nstart = *pos;
    let mut e = *pos + 1;
    while e < buf.len() && is_ident_char(buf[e])
        invariant
            nstart < e && e <= buf@.len(),
            s2 == buf@,
            ident_end(s2, nstart + 1) == ident_end(s2, e as int),
        decreases buf@.len() - e,
    {
        e = e + 1;
    }
    proof {
        assert(ident_end(s2, nstart + 1) == e as int);
    }
    let name = sub_bytes(buf, nstart, e);
    *pos = e;
    if e < buf.len() && buf[e] == LPAR {
        *pos = e + 1;
        match parse_params(buf, pos) {
            None => {
                skip_line(buf, pos);
            },
            Some((params, va)) => {
                let body = parse_body(buf, pos, &params);
                let (out, actions, _hid) = body;
                let n = params.len();
                let mac = MacroFunction::new(out, actions, n, va);
                ctx.add_function(name, mac);
                proof {
                    assert(fun_wf(mac) && !mac.in_use && ctx.defs() == old(ctx).defs().insert(
                        s2.subrange(nstart as int, e as int),
                        Macro::Function(mac),
                    ));
                }
            },
        }
    } else {
        let empty: Vec<Vec<u8>> = Vec::new();
        let body = parse_body(buf, pos, &empty);
        let (out, _actions, hid) = body;
        let mac = MacroObject::new(out, hid);
        ctx.add_object(name, mac);
        proof {
            assert(!macro_in_use(Macro::Object(mac)) && ctx.defs() == old(ctx).defs().insert(
                s2.subrange(nstart as int, e as int),
                Macro::Object(mac),
            ));
        }
    }
}

/// Parse one directive line, the cursor standing after the `#`: `define`
/// and `undef` mutate the macro table exactly as `directive_effect` says,
/// and any other directive is consumed without effect.
pub fn parse_directive(buf: &Vec<u8>, pos: &mut usize, ctx: &mut PContext)
    requires
        old(ctx).inv(),
        *old(pos) <= buf@.len(),
    ensures
        final(ctx).inv(),
        *old(pos) <= *final(pos) && *final(pos) <= buf@.len(),
        final(ctx).if_stack@ == old(ctx).if_stack@,
        directive_effect(buf@, *old(pos) as int, old(ctx).defs(), final(ctx).defs()),
{
    let ghost s2 = buf@;
    consume_run(buf, pos);
    if !(*pos < buf.len() && is_ident_start(buf[*pos])) {
        skip_line(buf, pos);
        return ;
    }
    let wstart = *pos;
    let mut e = *pos + 1;
    while e < buf.len() && is_ident_char(buf[e])
        invariant
            wstart < e && e <= buf@.len(),
            s2 == buf@,
            ident_end(s2, wstart + 1) == ident_end(s2, e as int),
        decreases buf@.len() - e,
    {
        e = e + 1;
    }
    proof {
        assert(ident_end(s2, wstart + 1) == e as int);
    }
    let mut kwd: Vec<u8> = Vec::new();
    kwd.push(100);
    kwd.push(101);
    kwd.push(102);
    kwd.push(105);
    kwd.push(110);
    kwd.push(101);
    let mut kwu: Vec<u8> = Vec::new();
    kwu.push(117);
    kwu.push(110);
    kwu.push(100);
    kwu.push(101);
    kwu.push(102);
    proof {
        assert(kwd@ =~= kw_define());
        assert(kwu@ =~= kw_undef());
    }
    if bytes_match(buf, wstart, e, &kwd) {
        *pos = e;
        parse_define(buf, pos, ctx);
        proof {
            assert(s2.subrange(wstart as int, e as int) != kw_undef());
        }
    } else if bytes_match(buf, wstart, e, &kwu) {
        *pos = e;
        consume_run(buf, pos);
        if *pos < buf.len() && is_ident_start(buf[*pos]) {
            let ns = *pos;
            let mut ne = *pos + 1;
            while ne < buf.len() && is_ident_char(buf[ne])
                invariant
                    ns < ne && ne <= buf@.len(),
                    s2 == buf@,
                    ident_end(s2, ns + 1) == ident_end(s2, ne as int),
                decreases buf@.len() - ne,
            {
                ne = ne + 1;
            }
            proof {
                assert(ident_end(s2, ns + 1) == ne as int);
            }
            let name = sub_bytes(buf, ns, ne);
            *pos = ne;
            ctx.undef(&name);
        }
        skip_line(buf, pos);
    } else {
        *pos = e;
        skip_line(buf, pos);
    }
}

} // verus!
