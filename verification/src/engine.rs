//! The macro expansion engine: argument collection, action replay
//! (chunk copy, argument substitution, token-paste and stringify operands),
//! and the rescanning pass with the self-reference guard.

use crate::pmacros::{action_wf, actions_wf, chunk_le, clone_actions, clone_bytes, macro_in_use,
    macro_wf, macro_with_use, unpainted_count, Action, Macro, PContext};
use crate::ascii::{APOS, BSLASH, COMMA, CR, D0, D9, DOT, LO_A, LO_Z, LPAR, NL, QUOTE, RPAR, SP, TAB, UNDER, UP_A, UP_R, UP_Z};
use vstd::prelude::*;

verus! {

/// A byte that can start an identifier.
pub open spec fn spec_ident_start(c: u8) -> bool {
    (LO_A <= c && c <= LO_Z) || (UP_A <= c && c <= UP_Z) || c == UNDER
}

/// A byte that can continue an identifier.
pub open spec fn spec_ident_char(c: u8) -> bool {
    spec_ident_start(c) || (D0 <= c && c <= D9)
}

/// A decimal digit.
pub open spec fn spec_digit(c: u8) -> bool {
    D0 <= c && c <= D9
}

/// Horizontal or vertical whitespace.
pub open spec fn spec_space(c: u8) -> bool {
    c == SP || c == TAB || c == NL || c == CR
}

pub fn is_ident_start(c: u8) -> (r: bool)
    ensures
        r == spec_ident_start(c),
{
    (LO_A <= c && c <= LO_Z) || (UP_A <= c && c <= UP_Z) || c == UNDER
}

pub fn is_ident_char(c: u8) -> (r: bool)
    ensures
        r == spec_ident_char(c),
{
    is_ident_start(c) || (D0 <= c && c <= D9)
}

pub fn is_digit(c: u8) -> (r: bool)
    ensures
        r == spec_digit(c),
{
    D0 <= c && c <= D9
}

pub fn is_space(c: u8) -> (r: bool)
    ensures
        r == spec_space(c),
{
    c == SP || c == TAB || c == NL || c == CR
}

/// Append `src[from..to]` to `out`.
pub fn append_range(out: &mut Vec<u8>, src: &Vec<u8>, from: usize, to: usize)
    requires
        from <= to && to <= src@.len(),
    ensures
        final(out)@ == old(out)@ + src@.subrange(from as int, to as int),
{
    let mut i: usize = from;
    while i < to
        invariant
            from <= i && i <= to && to <= src@.len(),
            out@ == old(out)@ + src@.subrange(from as int, i as int),
        decreases to - i,
    {
        out.push(src[i]);
        i += 1;
        proof {
            assert(out@ =~= old(out)@ + src@.subrange(from as int, i as int));
        }
    }
}

/// The bytes `src[from..to]` as a fresh vector.
pub fn sub_bytes(src: &Vec<u8>, from: usize, to: usize) -> (r: Vec<u8>)
    requires
        from <= to && to <= src@.len(),
    ensures
        r@ == src@.subrange(from as int, to as int),
{
    let mut r: Vec<u8> = Vec::new();
    append_range(&mut r, src, from, to);
    proof {
        assert(r@ =~= src@.subrange(from as int, to as int));
    }
    r
}

/// How one byte is spelled inside a stringified argument: a quote, a
/// backslash, an apostrophe or an embedded newline gets a backslash in
/// front; every other byte stands as itself.
pub open spec fn esc_byte(c: u8) -> Seq<u8> {
    if c == QUOTE || c == BSLASH || c == APOS || c == NL {
        seq![BSLASH, c]
    } else {
        seq![c]
    }
}

/// The body of a stringified argument: each byte spelled by `esc_byte`.
pub open spec fn escaped(s: Seq<u8>) -> Seq<u8>
    decreases s.len(),
{
    if s.len() == 0 {
        Seq::empty()
    } else {
        esc_byte(s.first()) + escaped(s.drop_first())
    }
}

proof fn lemma_escaped_push(s: Seq<u8>, x: u8)
    ensures
        escaped(s.push(x)) == escaped(s) + esc_byte(x),
    decreases s.len(),
{
    if s.len() == 0 {
        let t = s.push(x);
        assert(escaped(s) =~= Seq::<u8>::empty());
        assert(t.len() == 1);
        assert(t.first() == x);
        assert(t.drop_first() =~= Seq::<u8>::empty());
        assert(escaped(t.drop_first()) =~= Seq::<u8>::empty());
        assert(escaped(t) =~= esc_byte(t.first()) + escaped(t.drop_first()));
        assert(escaped(t) =~= esc_byte(x));
        assert(escaped(s.push(x)) =~= escaped(s) + esc_byte(x));
    } else {
        assert(s.push(x).first() == s.first());
        assert(s.push(x).drop_first() =~= s.drop_first().push(x));
        lemma_escaped_push(s.drop_first(), x);
        assert(escaped(s.push(x)) =~= escaped(s) + esc_byte(x));
    }
}

/// Append an argument's raw spelling as a double-quoted string literal, with
/// embedded quotes, apostrophes, backslashes and newlines backslash-escaped.
pub fn make_string(arg: &Vec<u8>, out: &mut Vec<u8>)
    ensures
        final(out)@ == old(out)@ + seq![QUOTE] + escaped(arg@) + seq![QUOTE],
{
    out.push(QUOTE);
    let mut i: usize = 0;
    while i < arg.len()
        invariant
            i <= arg@.len(),
            out@ == old(out)@ + seq![QUOTE] + escaped(arg@.subrange(0, i as int)),
        decreases arg@.len() - i,
    {
        let c = arg[i];
        if c == QUOTE || c == BSLASH || c == APOS || c == NL {
            out.push(BSLASH);
        }
        out.push(c);
        proof {
            lemma_escaped_push(arg@.subrange(0, i as int), c);
            assert(arg@.subrange(0, i as int).push(c) =~= arg@.subrange(0, i as int + 1));
            assert(out@ =~= old(out)@ + seq![QUOTE] + escaped(arg@.subrange(0, i as int + 1)));
        }
        i += 1;
    }
    proof {
        assert(arg@.subrange(0, arg@.len() as int) =~= arg@);
    }
    out.push(QUOTE);
    proof {
        assert(out@ =~= old(out)@ + seq![QUOTE] + escaped(arg@) + seq![QUOTE]);
    }
}

/// Total length of a sequence of argument groups.
pub open spec fn sum_len(gs: Seq<Seq<u8>>) -> nat
    decreases gs.len(),
{
    if gs.len() == 0 {
        0
    } else {
        gs.first().len() + sum_len(gs.drop_first())
    }
}

/// The groups joined by single commas, with no extra spacing: the spelling
/// of a collapsed variadic argument.
pub open spec fn join_comma(gs: Seq<Seq<u8>>) -> Seq<u8>
    decreases gs.len(),
{
    if gs.len() == 0 {
        Seq::empty()
    } else if gs.len() == 1 {
        gs.first()
    } else {
        gs.first() + seq![COMMA] + join_comma(gs.drop_first())
    }
}

proof fn lemma_join_len(gs: Seq<Seq<u8>>)
    ensures
        join_comma(gs).len() + 1 <= sum_len(gs) + gs.len() + 1,
        gs.len() > 0 ==> join_comma(gs).len() + 1 <= sum_len(gs) + gs.len(),
    decreases gs.len(),
{
    if gs.len() > 1 {
        lemma_join_len(gs.drop_first());
    }
}

pub proof fn lemma_elem_le_sum(gs: Seq<Seq<u8>>, i: int)
    requires
        0 <= i && i < gs.len(),
    ensures
        gs[i].len() <= sum_len(gs),
    decreases gs.len(),
{
    if i > 0 {
        lemma_elem_le_sum(gs.drop_first(), i - 1);
    }
}

proof fn lemma_sum_push(gs: Seq<Seq<u8>>, g: Seq<u8>)
    ensures
        sum_len(gs.push(g)) == sum_len(gs) + g.len(),
    decreases gs.len(),
{
    let t = gs.push(g);
    if gs.len() == 0 {
        assert(t.len() == 1);
        assert(t.first() == g);
        assert(t.drop_first() =~= Seq::<Seq<u8>>::empty());
        assert(sum_len(t.drop_first()) == 0);
        assert(sum_len(t) == g.len());
        assert(sum_len(gs) == 0);
    } else {
        assert(t.first() == gs.first());
        assert(t.drop_first() =~= gs.drop_first().push(g));
        lemma_sum_push(gs.drop_first(), g);
        assert(sum_len(t.drop_first()) == sum_len(gs.drop_first()) + g.len());
        assert(sum_len(t) == t.first().len() + sum_len(t.drop_first()));
        assert(sum_len(gs) == gs.first().len() + sum_len(gs.drop_first()));
    }
}

proof fn lemma_sum_skip(gs: Seq<Seq<u8>>, i: int)
    requires
        0 <= i && i <= gs.len(),
    ensures
        sum_len(gs.subrange(i, gs.len() as int)) <= sum_len(gs),
    decreases i,
{
    if i > 0 {
        assert(gs.subrange(i, gs.len() as int) =~= gs.drop_first().subrange(
            i - 1,
            gs.drop_first().len() as int,
        ));
        lemma_sum_skip(gs.drop_first(), i - 1);
    } else {
        assert(gs.subrange(0, gs.len() as int) =~= gs);
    }
}

/// Whether an argument-group list fits a macro taking `n_args` parameters
/// with the given variadic position: a variadic macro needs at least its
/// fixed parameters, a plain macro exactly its parameters (a macro of no
/// parameters is invoked with one empty group).
pub open spec fn arity_ok(gv: Seq<Seq<u8>>, n_args: int, va: Option<usize>) -> bool {
    match va {
        Some(k) => gv.len() >= n_args - 1,
        None => if n_args == 0 {
            gv =~= seq![Seq::<u8>::empty()]
        } else {
            gv.len() == n_args
        },
    }
}

/// The argument list a macro sees: for a variadic macro the groups beyond
/// the fixed parameters collapse into one trailing argument joined by
/// commas; for a plain macro the groups stand as they are.
pub open spec fn built_args(gv: Seq<Seq<u8>>, n_args: int, va: Option<usize>) -> Seq<Seq<u8>> {
    match va {
        Some(k) => gv.subrange(0, k as int).push(
            join_comma(gv.subrange(k as int, gv.len() as int)),
        ),
        None => if n_args == 0 {
            Seq::empty()
        } else {
            gv
        },
    }
}

/// A variadic macro invoked with exactly its fixed parameters receives an
/// empty variadic argument: nothing is substituted for it, and no comma
/// artifact is left behind.
pub proof fn lemma_empty_variadic_tail(gv: Seq<Seq<u8>>, n_args: int, k: usize)
    requires
        n_args >= 1,
        k == n_args - 1,
        gv.len() == k,
    ensures
        built_args(gv, n_args, Some(k)).len() == n_args,
        built_args(gv, n_args, Some(k))[k as int].len() == 0,
{
    assert(gv.subrange(k as int, gv.len() as int) =~= Seq::<Seq<u8>>::empty());
}

/// The collapsed variadic argument is exactly the remaining groups joined by
/// commas, whatever the invocation.
pub proof fn lemma_variadic_join(gv: Seq<Seq<u8>>, n_args: int, k: usize)
    requires
        n_args >= 1,
        k == n_args - 1,
        gv.len() >= k,
    ensures
        built_args(gv, n_args, Some(k)).len() == n_args,
        built_args(gv, n_args, Some(k))[k as int] == join_comma(
            gv.subrange(k as int, gv.len() as int),
        ),
        forall|i: int|
            0 <= i < k ==> built_args(gv, n_args, Some(k))[i] == gv[i],
{
}

/// Join `groups[i..]` with commas.
fn join_groups(groups: &Vec<Vec<u8>>, i: usize) -> (r: Vec<u8>)
    requires
        i <= groups@.len(),
    ensures
        r@ == join_comma(groups.deep_view().subrange(i as int, groups@.len() as int)),
    decreases groups@.len() - i,
{
    let ghost gv = groups.deep_view();
    proof {
        assert(gv.len() == groups@.len());
    }
    if i >= groups.len() {
        let r: Vec<u8> = Vec::new();
        proof {
            assert(gv.subrange(i as int, gv.len() as int) =~= Seq::<Seq<u8>>::empty());
        }
        r
    } else {
        let mut r = clone_bytes(&groups[i]);
        proof {
            assert(gv[i as int] == groups@[i as int]@);
        }
        if i + 1 < groups.len() {
            r.push(COMMA);
            let rest = join_groups(groups, i + 1);
            let n = rest.len();
            append_range(&mut r, &rest, 0, n);
            proof {
                let sub = gv.subrange(i as int, gv.len() as int);
                assert(sub.len() >= 2);
                assert(sub.first() == gv[i as int]);
                assert(sub.drop_first() =~= gv.subrange(i as int + 1, gv.len() as int));
                assert(rest@.subrange(0, n as int) =~= rest@);
                assert(r@ =~= join_comma(sub));
            }
        } else {
            proof {
                let sub = gv.subrange(i as int, gv.len() as int);
                assert(sub.len() == 1);
                assert(sub.first() == gv[i as int]);
                assert(r@ =~= join_comma(sub));
            }
        }
        r
    }
}

/// Turn the raw comma-separated groups of an invocation into the macro's
/// argument list, collapsing a variadic tail; reports failure exactly on an
/// arity mismatch.
pub fn assemble_args(groups: &Vec<Vec<u8>>, n_args: usize, va: Option<usize>) -> (r: Option<
    Vec<Vec<u8>>,
>)
    requires
        match va {
            Some(k) => n_args >= 1 && k == n_args - 1,
            None => true,
        },
    ensures
        r is Some <==> arity_ok(groups.deep_view(), n_args as int, va),
        match r {
            Some(args) => {
                &&& args.deep_view() == built_args(groups.deep_view(), n_args as int, va)
                &&& args@.len() == n_args
                &&& forall|i: int|
                    0 <= i < args@.len() ==> #[trigger] args.deep_view()[i].len() <= sum_len(
                        groups.deep_view(),
                    ) + groups@.len()
            },
            None => true,
        },
{
    let ghost gv = groups.deep_view();
    proof {
        assert(gv.len() == groups@.len());
    }
    match va {
        Some(k) => {
            if groups.len() < k {
                proof {
                    assert(!arity_ok(gv, n_args as int, va));
                }
                return None;
            }
            let mut args: Vec<Vec<u8>> = Vec::new();
            let mut i: usize = 0;
            while i < k
                invariant
                    i <= k,
                    k <= groups@.len(),
                    gv == groups.deep_view(),
                    gv.len() == groups@.len(),
                    args.deep_view() == gv.subrange(0, i as int),
                    args@.len() == i,
                decreases k - i,
            {
                let a = clone_bytes(&groups[i]);
                args.push(a);
                i += 1;
                proof {
                    assert(args.deep_view() =~= gv.subrange(0, i as int));
                }
            }
            let tail = join_groups(groups, k);
            args.push(tail);
            proof {
                assert(gv.len() >= n_args - 1);
                assert(arity_ok(gv, n_args as int, va));
                let av = args.deep_view();
                let bv = built_args(gv, n_args as int, va);
                assert(bv == gv.subrange(0, k as int).push(
                    join_comma(gv.subrange(k as int, gv.len() as int)),
                ));
                assert(av.len() == k + 1);
                assert(bv.len() == k + 1);
                assert(av[k as int] == tail@);
                assert(bv[k as int] == join_comma(gv.subrange(k as int, gv.len() as int)));
                assert forall|j: int| 0 <= j < k implies av[j] == bv[j] by {
                    assert(av[j] == gv.subrange(0, k as int)[j]);
                }
                assert(av =~= bv);
                assert(args.deep_view() =~= built_args(gv, n_args as int, va));
                lemma_join_len(gv.subrange(k as int, gv.len() as int));
                lemma_sum_skip(gv, k as int);
                let av = args.deep_view();
                assert forall|i2: int| 0 <= i2 < args@.len() implies #[trigger] av[i2].len()
                    <= sum_len(gv) + groups@.len() by {
                    if i2 < k {
                        lemma_elem_le_sum(gv, i2);
                    }
                }
            }
            Some(args)
        },
        None => {
            if groups.len() == n_args && n_args > 0 {
                let mut args: Vec<Vec<u8>> = Vec::new();
                let mut i: usize = 0;
                while i < n_args
                    invariant
                        i <= n_args,
                        n_args == groups@.len(),
                        gv == groups.deep_view(),
                        gv.len() == groups@.len(),
                        args.deep_view() == gv.subrange(0, i as int),
                        args@.len() == i,
                    decreases n_args - i,
                {
                    let a = clone_bytes(&groups[i]);
                    args.push(a);
                    i += 1;
                    proof {
                        assert(args.deep_view() =~= gv.subrange(0, i as int));
                    }
                }
                proof {
                    assert(gv.len() == n_args && n_args > 0);
                    assert(gv.subrange(0, n_args as int) =~= gv);
                    assert(args.deep_view() =~= built_args(gv, n_args as int, va));
                    let av = args.deep_view();
                    assert forall|i2: int| 0 <= i2 < args@.len() implies #[trigger] av[i2].len()
                        <= sum_len(gv) + groups@.len() by {
                        lemma_elem_le_sum(gv, i2);
                    }
                }
                Some(args)
            } else if n_args == 0 && groups.len() == 1 && groups[0].len() == 0 {
                let args: Vec<Vec<u8>> = Vec::new();
                proof {
                    assert(gv =~= seq![Seq::<u8>::empty()]) by {
                        assert(gv.len() == 1);
                        assert(gv[0] =~= Seq::<u8>::empty());
                    }
                    assert(args.deep_view() =~= built_args(gv, n_args as int, va));
                }
                Some(args)
            } else {
                proof {
                    if n_args == 0 {
                        if gv =~= seq![Seq::<u8>::empty()] {
                            assert(gv.len() == 1);
                            assert(groups@.len() == 1);
                            assert(gv[0] == groups@[0]@);
                            assert(groups@[0]@.len() == 0);
                        }
                        assert(!arity_ok(gv, n_args as int, va));
                    }
                }
                None
            }
        },
    }
}


/// Where a quoted literal that opened just before `i` closes: escapes are
/// skipped, and the position after the closing byte is returned; a literal
/// that never closes yields nothing.
pub open spec fn lit_end(s: Seq<u8>, i: int, close: u8) -> Option<int>
    decreases s.len() - i,
    when 0 <= i
{
    if i >= s.len() {
        None
    } else if s[i] == BSLASH && i + 1 < s.len() {
        lit_end(s, i + 2, close)
    } else if s[i] == close {
        Some(i + 1)
    } else {
        lit_end(s, i + 1, close)
    }
}

/// Bounds of `lit_end`: a closing position lies past `i` and inside the
/// buffer.
pub proof fn lemma_lit_end_bounds(s: Seq<u8>, i: int, close: u8)
    requires
        0 <= i,
    ensures
        match lit_end(s, i, close) {
            Some(p) => i < p && p <= s.len(),
            None => true,
        },
    decreases s.len() - i,
{
    if i < s.len() {
        if s[i] == BSLASH && i + 1 < s.len() {
            lemma_lit_end_bounds(s, i + 2, close);
        } else if s[i] != close {
            lemma_lit_end_bounds(s, i + 1, close);
        }
    }
}

/// The first `(` at or after `i`.
pub open spec fn find_lpar(s: Seq<u8>, i: int) -> Option<int>
    decreases s.len() - i,
    when 0 <= i
{
    if i >= s.len() {
        None
    } else if s[i] == LPAR {
        Some(i)
    } else {
        find_lpar(s, i + 1)
    }
}

pub proof fn lemma_find_lpar_bounds(s: Seq<u8>, i: int)
    requires
        0 <= i,
    ensures
        match find_lpar(s, i) {
            Some(p) => i <= p && p < s.len() && s[p] == LPAR,
            None => true,
        },
    decreases s.len() - i,
{
    if i < s.len() && s[i] != LPAR {
        lemma_find_lpar_bounds(s, i + 1);
    }
}

/// Where the body of a raw string closes: the first `)` followed by the
/// delimiter `s[dstart..dend]` and a quote.
pub open spec fn raw_body_end(s: Seq<u8>, i: int, dstart: int, dend: int) -> Option<int>
    decreases s.len() - i,
    when 0 <= i && 0 <= dstart <= dend
{
    let dlen = dend - dstart;
    if i >= s.len() {
        None
    } else if s[i] == RPAR && dlen + 1 < s.len() - i && s.subrange(i + 1, i + 1 + dlen)
        == s.subrange(dstart, dend) && s[i + 1 + dlen] == QUOTE {
        Some(i + dlen + 2)
    } else {
        raw_body_end(s, i + 1, dstart, dend)
    }
}

pub proof fn lemma_raw_body_end_bounds(s: Seq<u8>, i: int, dstart: int, dend: int)
    requires
        0 <= i,
        0 <= dstart <= dend,
    ensures
        match raw_body_end(s, i, dstart, dend) {
            Some(p) => i < p && p <= s.len(),
            None => true,
        },
    decreases s.len() - i,
{
    if i < s.len() {
        let dlen = dend - dstart;
        if !(s[i] == RPAR && dlen + 1 < s.len() - i && s.subrange(i + 1, i + 1 + dlen)
            == s.subrange(dstart, dend) && s[i + 1 + dlen] == QUOTE) {
            lemma_raw_body_end_bounds(s, i + 1, dstart, dend);
        }
    }
}

/// Where a raw string literal whose opening quote stands at `i` closes.
pub open spec fn raw_end(s: Seq<u8>, i: int) -> Option<int> {
    match find_lpar(s, i + 1) {
        Some(dend) => raw_body_end(s, dend + 1, i + 1, dend),
        None => None,
    }
}

pub proof fn lemma_raw_end_bounds(s: Seq<u8>, i: int)
    requires
        0 <= i,
    ensures
        match raw_end(s, i) {
            Some(p) => i < p && p <= s.len(),
            None => true,
        },
{
    lemma_find_lpar_bounds(s, i + 1);
    match find_lpar(s, i + 1) {
        Some(dend) => {
            lemma_raw_body_end_bounds(s, dend + 1, i + 1, dend);
        },
        None => {
        },
    }
}

/// A collected argument group with its trailing whitespace dropped.
pub open spec fn spec_trim(b: Seq<u8>) -> Seq<u8>
    decreases b.len(),
{
    if b.len() > 0 && spec_space(b.last()) {
        spec_trim(b.drop_last())
    } else {
        b
    }
}

proof fn lemma_spec_trim_len(b: Seq<u8>)
    ensures
        spec_trim(b).len() <= b.len(),
    decreases b.len(),
{
    if b.len() > 0 && spec_space(b.last()) {
        lemma_spec_trim_len(b.drop_last());
    }
}

/// Remove trailing whitespace from a collected argument group.
fn trim_trailing(cur: &mut Vec<u8>)
    ensures
        final(cur)@ == spec_trim(old(cur)@),
        final(cur)@.len() <= old(cur)@.len(),
{
    let mut go: bool = true;
    while go && cur.len() > 0
        invariant
            cur@.len() <= old(cur)@.len(),
            spec_trim(cur@) == spec_trim(old(cur)@),
            !go ==> cur@.len() == 0 || !spec_space(cur@.last()),
        decreases cur@.len() + (if go { 1int } else { 0int }),
    {
        let n = cur.len();
        if is_space(cur[n - 1]) {
            let ghost before = cur@;
            let _ = cur.pop();
            proof {
                assert(cur@ =~= before.drop_last());
            }
        } else {
            go = false;
        }
    }
}

/// Copy a double-quoted string literal from `buf[pos..]` (the opening quote
/// included) into `cur`, honouring backslash escapes; reports the position
/// after the closing quote, or failure when the literal never closes.
fn copy_string(buf: &Vec<u8>, pos: usize, close: u8, cur: &mut Vec<u8>) -> (r: Option<usize>)
    requires
        pos < buf@.len(),
    ensures
        old(cur)@.len() <= final(cur)@.len(),
        match r {
            Some(p) => {
                &&& lit_end(buf@, pos + 1, close) == Some(p as int)
                &&& pos < p && p <= buf@.len()
                &&& final(cur)@ == old(cur)@ + buf@.subrange(pos as int, p as int)
                &&& final(cur)@.len() <= old(cur)@.len() + (p - pos)
                &&& final(cur)@.len() > 0
                &&& final(cur)@.last() == close
            },
            None => lit_end(buf@, pos + 1, close) is None,
        },
{
    let ghost s = buf@;
    let bl = buf.len();
    cur.push(buf[pos]);
    proof {
        assert(cur@ =~= old(cur)@ + s.subrange(pos as int, pos + 1));
    }
    let mut i: usize = pos + 1;
    while i < buf.len()
        invariant
            s == buf@,
            bl == buf@.len(),
            pos < i && i <= buf@.len(),
            old(cur)@.len() <= cur@.len(),
            cur@ == old(cur)@ + s.subrange(pos as int, i as int),
            cur@.len() <= old(cur)@.len() + (i - pos),
            lit_end(s, pos + 1, close) == lit_end(s, i as int, close),
        decreases buf@.len() - i,
    {
        let c = buf[i];
        if c == BSLASH && i + 1 < buf.len() {
            cur.push(c);
            cur.push(buf[i + 1]);
            i = i + 2;
            proof {
                assert(cur@ =~= old(cur)@ + s.subrange(pos as int, i as int));
            }
        } else {
            cur.push(c);
            i = i + 1;
            proof {
                assert(cur@ =~= old(cur)@ + s.subrange(pos as int, i as int));
            }
            if c == close {
                return Some(i);
            }
        }
    }
    None
}

/// Copy a raw string literal `R"delim( ... )delim"` from `buf[pos..]` (the
/// opening quote) into `cur`; the delimiter is matched literally and no
/// escape is recognised inside.  Reports the position after the closing
/// quote, or failure when the literal never closes.
pub(crate) fn copy_raw_string(buf: &Vec<u8>, pos: usize, cur: &mut Vec<u8>) -> (r: Option<usize>)
    requires
        pos < buf@.len(),
    ensures
        old(cur)@.len() <= final(cur)@.len(),
        match r {
            Some(p) => {
                &&& raw_end(buf@, pos as int) == Some(p as int)
                &&& pos < p && p <= buf@.len()
                &&& final(cur)@ == old(cur)@ + buf@.subrange(pos as int, p as int)
                &&& final(cur)@.len() <= old(cur)@.len() + (p - pos)
                &&& final(cur)@.len() > 0
                &&& final(cur)@.last() == QUOTE
            },
            None => raw_end(buf@, pos as int) is None,
        },
{
    let ghost s = buf@;
    let bl = buf.len();
    cur.push(buf[pos]);
    proof {
        assert(cur@ =~= old(cur)@ + s.subrange(pos as int, pos + 1));
    }
    let mut i: usize = pos + 1;
    let dstart = i;
    while i < buf.len() && buf[i] != LPAR
        invariant
            s == buf@,
            bl == buf@.len(),
            pos < i && i <= buf@.len(),
            dstart <= i,
            dstart == pos + 1,
            old(cur)@.len() <= cur@.len(),
            cur@ == old(cur)@ + s.subrange(pos as int, i as int),
            cur@.len() <= old(cur)@.len() + (i - pos),
            find_lpar(s, dstart as int) == find_lpar(s, i as int),
        decreases buf@.len() - i,
    {
        cur.push(buf[i]);
        i = i + 1;
        proof {
            assert(cur@ =~= old(cur)@ + s.subrange(pos as int, i as int));
        }
    }
    if i >= buf.len() {
        proof {
            assert(find_lpar(s, dstart as int) is None);
        }
        return None;
    }
    let dend = i;
    proof {
        assert(find_lpar(s, dstart as int) == Some(dend as int));
    }
    cur.push(buf[i]);
    i = i + 1;
    proof {
        assert(cur@ =~= old(cur)@ + s.subrange(pos as int, i as int));
    }
    let dlen = dend - dstart;
    while i < buf.len()
        invariant
            s == buf@,
            bl == buf@.len(),
            pos < i && i <= buf@.len(),
            dstart == pos + 1,
            dstart <= dend && dend < buf@.len(),
            dlen == dend - dstart,
            old(cur)@.len() <= cur@.len(),
            cur@ == old(cur)@ + s.subrange(pos as int, i as int),
            cur@.len() <= old(cur)@.len() + (i - pos),
            find_lpar(s, dstart as int) == Some(dend as int),
            raw_body_end(s, dend + 1, dstart as int, dend as int) == raw_body_end(
                s,
                i as int,
                dstart as int,
                dend as int,
            ),
        decreases buf@.len() - i,
    {
        let c = buf[i];
        if c == RPAR && dlen + 1 < buf.len() - i {
            let mut j: usize = 0;
            let mut matched: bool = true;
            while j < dlen
                invariant
                    s == buf@,
                    bl == buf@.len(),
                    j <= dlen,
                    i < buf@.len(),
                    i + dlen + 1 < buf@.len(),
                    dstart + dlen < buf@.len(),
                    matched == (forall|j2: int|
                        0 <= j2 < j ==> s[i + 1 + j2] == #[trigger] s[dstart + j2]),
                decreases dlen - j,
            {
                if buf[i + 1 + j] != buf[dstart + j] {
                    matched = false;
                }
                j = j + 1;
            }
            let quote_after = buf[i + dlen + 1] == QUOTE;
            proof {
                if matched {
                    assert forall|k: int| 0 <= k < dlen implies s.subrange(i + 1, i + 1 + dlen)[k]
                        == s.subrange(dstart as int, dend as int)[k] by {
                        assert(s[i + 1 + k] == s[dstart + k]);
                    }
                    assert(s.subrange(i + 1, i + 1 + dlen) =~= s.subrange(
                        dstart as int,
                        dend as int,
                    ));
                } else {
                    assert(!(s.subrange(i + 1, i + 1 + dlen) =~= s.subrange(
                        dstart as int,
                        dend as int,
                    ))) by {
                        let j3 = choose|j3: int|
                            0 <= j3 < dlen && s[i + 1 + j3] != #[trigger] s[dstart + j3];
                        assert(s.subrange(i + 1, i + 1 + dlen)[j3] != s.subrange(
                            dstart as int,
                            dend as int,
                        )[j3]);
                    }
                }
            }
            if matched && quote_after {
                append_range(cur, buf, i, i + dlen + 2);
                proof {
                    assert(raw_body_end(s, i as int, dstart as int, dend as int) == Some(
                        i + dlen + 2,
                    ));
                    assert(cur@ =~= old(cur)@ + s.subrange(pos as int, i + dlen + 2));
                    assert(cur@.last() == s[i + dlen + 1]);
                }
                return Some(i + dlen + 2);
            }
        }
        cur.push(c);
        i = i + 1;
        proof {
            assert(cur@ =~= old(cur)@ + s.subrange(pos as int, i as int));
        }
    }
    None
}



/// The argument collector with its contents: scanning from `i` with `depth`
/// open parentheses, `cur` the bytes of the group being built and `done`
/// the completed groups, the groups an invocation yields and the position
/// after its closing parenthesis.  Leading whitespace of a group is never
/// kept, trailing whitespace is trimmed, and string, character and raw
/// string literals are carried verbatim.
pub open spec fn spec_groups_step(
    s: Seq<u8>,
    i: int,
    depth: int,
    cur: Seq<u8>,
    done: Seq<Seq<u8>>,
) -> Option<(Seq<Seq<u8>>, int)>
    decreases s.len() - i,
    when 0 <= i
{
    if i >= s.len() {
        None
    } else {
        let c = s[i];
        if c == COMMA && depth == 1 {
            spec_groups_step(s, i + 1, 1, Seq::empty(), done.push(spec_trim(cur)))
        } else if c == LPAR {
            spec_groups_step(s, i + 1, depth + 1, cur.push(c), done)
        } else if c == RPAR {
            if depth == 1 {
                Some((done.push(spec_trim(cur)), i + 1))
            } else {
                spec_groups_step(s, i + 1, depth - 1, cur.push(c), done)
            }
        } else if c == QUOTE {
            if cur.len() > 0 && cur.last() == UP_R {
                match raw_end(s, i) {
                    Some(p) => {
                        proof {
                            lemma_raw_end_bounds(s, i);
                        }
                        spec_groups_step(s, p, depth, cur + s.subrange(i, p), done)
                    },
                    None => None,
                }
            } else {
                match lit_end(s, i + 1, QUOTE) {
                    Some(p) => {
                        proof {
                            lemma_lit_end_bounds(s, i + 1, QUOTE);
                        }
                        spec_groups_step(s, p, depth, cur + s.subrange(i, p), done)
                    },
                    None => None,
                }
            }
        } else if c == APOS {
            match lit_end(s, i + 1, APOS) {
                Some(p) => {
                    proof {
                        lemma_lit_end_bounds(s, i + 1, APOS);
                    }
                    spec_groups_step(s, p, depth, cur + s.subrange(i, p), done)
                },
                None => None,
            }
        } else if spec_space(c) && cur.len() == 0 {
            spec_groups_step(s, i + 1, depth, cur, done)
        } else {
            spec_groups_step(s, i + 1, depth, cur.push(c), done)
        }
    }
}

/// The argument groups of an invocation whose opening parenthesis stands
/// just before `start`, with the position after the closing parenthesis.
pub open spec fn spec_groups(s: Seq<u8>, start: int) -> Option<(Seq<Seq<u8>>, int)> {
    spec_groups_step(s, start, 1, Seq::empty(), Seq::empty())
}

/// Collect the comma-separated argument groups of an invocation from
/// `buf[start..]`, `start` standing just after the opening parenthesis.
/// Commas inside nested parentheses, string or character literals do not
/// split groups; leading and trailing whitespace of each group is dropped.
/// Failure means the argument list never closes.  The bound relating the
/// groups to the consumed span shows that every group (and any comma-joined
/// collapse of them) is shorter than the buffer, which bounds the rescanning
/// recursion.
pub fn parse_groups(buf: &Vec<u8>, start: usize) -> (r: Option<(Vec<Vec<u8>>, usize)>)
    requires
        1 <= start && start <= buf@.len(),
    ensures
        match r {
            Some(gp) => {
                &&& spec_groups(buf@, start as int) == Some((gp.0.deep_view(), gp.1 as int))
                &&& start < gp.1 && gp.1 <= buf@.len()
                &&& gp.0@.len() >= 1
                &&& sum_len(gp.0.deep_view()) + gp.0@.len() <= gp.1 - start
            },
            None => spec_groups(buf@, start as int) is None,
        },
{
    let ghost s = buf@;
    let mut done: Vec<Vec<u8>> = Vec::new();
    let mut cur: Vec<u8> = Vec::new();
    let mut pos: usize = start;
    let mut depth: usize = 1;
    proof {
        assert(cur@ =~= Seq::<u8>::empty());
        assert(done.deep_view() =~~= Seq::<Seq<u8>>::empty());
    }
    while pos < buf.len()
        invariant
            s == buf@,
            start <= pos && pos <= buf@.len(),
            1 <= start,
            1 <= depth && depth <= 1 + (pos - start),
            sum_len(done.deep_view()) + done@.len() + cur@.len() <= pos - start,
            spec_groups(s, start as int) == spec_groups_step(
                s,
                pos as int,
                depth as int,
                cur@,
                done.deep_view(),
            ),
        decreases buf@.len() - pos,
    {
        let ghost opos = pos as int;
        let ghost odepth = depth as int;
        let ghost ocur = cur@;
        let ghost odv = done.deep_view();
        let c = buf[pos];
        if c == COMMA && depth == 1 {
            trim_trailing(&mut cur);
            let ghost dv = done.deep_view();
            let ghost cv = cur@;
            done.push(cur);
            proof {
                assert(done.deep_view() =~~= dv.push(cv));
                lemma_sum_push(dv, cv);
            }
            cur = Vec::new();
            pos = pos + 1;
            proof {
                assert(spec_groups_step(s, opos, 1, ocur, odv) == spec_groups_step(
                    s,
                    pos as int,
                    1,
                    cur@,
                    done.deep_view(),
                ));
            }
        } else if c == LPAR {
            depth = depth + 1;
            cur.push(c);
            pos = pos + 1;
            proof {
                assert(cur@ =~= ocur.push(c));
            }
        } else if c == RPAR {
            if depth == 1 {
                trim_trailing(&mut cur);
                let ghost dv = done.deep_view();
                let ghost cv = cur@;
                done.push(cur);
                proof {
                    assert(done.deep_view() =~~= dv.push(cv));
                    lemma_sum_push(dv, cv);
                    assert(spec_groups_step(s, opos, 1, ocur, odv) == Some(
                        (odv.push(spec_trim(ocur)), opos + 1),
                    ));
                    assert(done.deep_view() =~~= odv.push(spec_trim(ocur)));
                }
                return Some((done, pos + 1));
            } else {
                depth = depth - 1;
                cur.push(c);
                pos = pos + 1;
                proof {
                    assert(cur@ =~= ocur.push(c));
                }
            }
        } else if c == QUOTE {
            let n = cur.len();
            let raw = n > 0 && cur[n - 1] == UP_R;
            let r2 = if raw {
                copy_raw_string(buf, pos, &mut cur)
            } else {
                copy_string(buf, pos, QUOTE, &mut cur)
            };
            match r2 {
                Some(p2) => {
                    pos = p2;
                    proof {
                        assert(cur@ =~= ocur + s.subrange(opos, p2 as int));
                    }
                },
                None => {
                    proof {
                        assert(spec_groups_step(s, opos, odepth, ocur, odv) is None);
                    }
                    return None;
                },
            }
        } else if c == APOS {
            match copy_string(buf, pos, APOS, &mut cur) {
                Some(p2) => {
                    pos = p2;
                    proof {
                        assert(cur@ =~= ocur + s.subrange(opos, p2 as int));
                    }
                },
                None => {
                    proof {
                        assert(spec_groups_step(s, opos, odepth, ocur, odv) is None);
                    }
                    return None;
                },
            }
        } else if is_space(c) && cur.len() == 0 {
            pos = pos + 1;
        } else {
            cur.push(c);
            pos = pos + 1;
            proof {
                assert(cur@ =~= ocur.push(c));
            }
        }
    }
    proof {
        assert(spec_groups_step(s, pos as int, depth as int, cur@, done.deep_view()) is None);
    }
    None
}


/// Where the whitespace between a macro name and its argument list ends.
pub open spec fn skip_spaces(s: Seq<u8>, i: int) -> int
    decreases s.len() - i,
    when 0 <= i
{
    if i >= s.len() {
        i
    } else if spec_space(s[i]) {
        skip_spaces(s, i + 1)
    } else {
        i
    }
}

pub proof fn lemma_skip_spaces_lower(s: Seq<u8>, i: int)
    requires
        0 <= i,
    ensures
        i <= skip_spaces(s, i),
    decreases s.len() - i,
{
    if i < s.len() && spec_space(s[i]) {
        lemma_skip_spaces_lower(s, i + 1);
    }
}

/// Whether a function-macro invocation whose name ends at `i` can collect
/// its arguments: after optional whitespace an opening parenthesis, an
/// argument list that closes, and groups that fit `n_args` parameters with
/// the given variadic position.
pub open spec fn invocation_ok(s: Seq<u8>, i: int, n_args: int, va: Option<usize>) -> bool {
    let j = skip_spaces(s, i);
    &&& j < s.len() && s[j] == LPAR
    &&& match spec_groups(s, j + 1) {
        Some(gp) => arity_ok(gp.0, n_args, va),
        None => false,
    }
}

/// Painting a definition that is not in use strictly shrinks the number of
/// unpainted definitions: the measure that bounds the expansion recursion.
pub proof fn lemma_paint_decreases(m: Map<Seq<u8>, Macro>, k: Seq<u8>)
    requires
        m.dom().finite(),
        m.dom().contains(k),
        !macro_in_use(m[k]),
    ensures
        unpainted_count(m.insert(k, macro_with_use(m[k], true))) < unpainted_count(m),
{
    let m2 = m.insert(k, macro_with_use(m[k], true));
    let s1 = m.dom().filter(|k2: Seq<u8>| !macro_in_use(m[k2]));
    let s2 = m2.dom().filter(|k2: Seq<u8>| !macro_in_use(m2[k2]));
    assert(m2.dom() =~= m.dom());
    assert(macro_in_use(m2[k]));
    assert(s2 =~= s1.remove(k));
    m.dom().lemma_len_filter(|k2: Seq<u8>| !macro_in_use(m[k2]));
    assert(s1.contains(k));
    vstd::set::axiom_set_remove_len(s1, k);
    assert(s2.len() < s1.len());
}


/// Where the identifier run beginning at `i` ends.
pub open spec fn ident_end(s: Seq<u8>, i: int) -> int
    decreases s.len() - i,
    when 0 <= i
{
    if i >= s.len() || !spec_ident_char(s[i]) {
        i
    } else {
        ident_end(s, i + 1)
    }
}

pub proof fn lemma_ident_end_bounds(s: Seq<u8>, i: int)
    requires
        0 <= i && i <= s.len(),
    ensures
        i <= ident_end(s, i) && ident_end(s, i) <= s.len(),
    decreases s.len() - i,
{
    if i < s.len() && spec_ident_char(s[i]) {
        lemma_ident_end_bounds(s, i + 1);
    }
}

/// Where the number token beginning at `i` ends (a number carries its
/// trailing letters and dots with it).
pub open spec fn num_end(s: Seq<u8>, i: int) -> int
    decreases s.len() - i,
    when 0 <= i
{
    if i >= s.len() || !(spec_ident_char(s[i]) || s[i] == DOT) {
        i
    } else {
        num_end(s, i + 1)
    }
}

pub proof fn lemma_num_end_bounds(s: Seq<u8>, i: int)
    requires
        0 <= i && i <= s.len(),
    ensures
        i <= num_end(s, i) && num_end(s, i) <= s.len(),
    decreases s.len() - i,
{
    if i < s.len() && (spec_ident_char(s[i]) || s[i] == DOT) {
        lemma_num_end_bounds(s, i + 1);
    }
}

/// Where the rescanner's verbatim copy of a quoted literal ends: after the
/// closing byte, or at the end of the buffer when the literal never closes.
pub open spec fn scan_lit_end(s: Seq<u8>, i: int, close: u8) -> int
    decreases s.len() - i,
    when 0 <= i
{
    if i >= s.len() {
        i
    } else if s[i] == BSLASH && i + 1 < s.len() {
        scan_lit_end(s, i + 2, close)
    } else if s[i] == close {
        i + 1
    } else {
        scan_lit_end(s, i + 1, close)
    }
}

pub proof fn lemma_scan_lit_end_bounds(s: Seq<u8>, i: int, close: u8)
    requires
        0 <= i && i <= s.len(),
    ensures
        i <= scan_lit_end(s, i, close) && scan_lit_end(s, i, close) <= s.len(),
    decreases s.len() - i,
{
    if i < s.len() {
        if s[i] == BSLASH && i + 1 < s.len() {
            lemma_scan_lit_end_bounds(s, i + 2, close);
        } else if s[i] != close {
            lemma_scan_lit_end_bounds(s, i + 1, close);
        }
    }
}

proof fn lemma_sum_split(gs: Seq<Seq<u8>>, k: int)
    requires
        0 <= k && k <= gs.len(),
    ensures
        sum_len(gs) == sum_len(gs.subrange(0, k)) + sum_len(gs.subrange(k, gs.len() as int)),
    decreases k,
{
    if k == 0 {
        assert(gs.subrange(0, 0) =~= Seq::<Seq<u8>>::empty());
        assert(gs.subrange(0, gs.len() as int) =~= gs);
    } else {
        assert(gs.subrange(0, k).first() == gs.first());
        assert(gs.subrange(0, k).drop_first() =~= gs.drop_first().subrange(0, k - 1));
        assert(gs.subrange(k, gs.len() as int) =~= gs.drop_first().subrange(
            k - 1,
            gs.drop_first().len() as int,
        ));
        lemma_sum_split(gs.drop_first(), k - 1);
    }
}

/// The assembled argument list is no bulkier than the groups it came from
/// (one extra slot at most, for an empty variadic tail).
pub proof fn lemma_built_args_bound(gs: Seq<Seq<u8>>, n_args: int, va: Option<usize>)
    requires
        arity_ok(gs, n_args, va),
        match va {
            Some(k) => n_args >= 1 && k == n_args - 1,
            None => true,
        },
    ensures
        sum_len(built_args(gs, n_args, va)) + built_args(gs, n_args, va).len() <= sum_len(gs)
            + gs.len() + 1,
{
    match va {
        Some(k) => {
            let head = gs.subrange(0, k as int);
            let tail = gs.subrange(k as int, gs.len() as int);
            lemma_sum_split(gs, k as int);
            lemma_join_len(tail);
            lemma_sum_push(head, join_comma(tail));
        },
        None => {
        },
    }
}

/// The groups of a closed argument list, with what was pending, stay within
/// the consumed span: every byte kept was consumed, and the commas and the
/// closing parenthesis were consumed without being kept.
pub proof fn lemma_spec_groups_step_bound(
    s: Seq<u8>,
    i: int,
    depth: int,
    cur: Seq<u8>,
    done: Seq<Seq<u8>>,
)
    requires
        0 <= i,
    ensures
        match spec_groups_step(s, i, depth, cur, done) {
            Some(gp) => {
                &&& sum_len(gp.0) + gp.0.len() <= (gp.1 - i) + sum_len(done) + done.len()
                    + cur.len()
                &&& i < gp.1 && gp.1 <= s.len()
            },
            None => true,
        },
    decreases s.len() - i,
{
    if i < s.len() {
        let c = s[i];
        if c == COMMA && depth == 1 {
            lemma_sum_push(done, spec_trim(cur));
            lemma_spec_trim_len(cur);
            lemma_spec_groups_step_bound(s, i + 1, 1, Seq::empty(), done.push(spec_trim(cur)));
        } else if c == LPAR {
            lemma_spec_groups_step_bound(s, i + 1, depth + 1, cur.push(c), done);
        } else if c == RPAR {
            if depth == 1 {
                lemma_sum_push(done, spec_trim(cur));
                lemma_spec_trim_len(cur);
            } else {
                lemma_spec_groups_step_bound(s, i + 1, depth - 1, cur.push(c), done);
            }
        } else if c == QUOTE {
            if cur.len() > 0 && cur.last() == UP_R {
                match raw_end(s, i) {
                    Some(p) => {
                        lemma_raw_end_bounds(s, i);
                        lemma_spec_groups_step_bound(s, p, depth, cur + s.subrange(i, p), done);
                    },
                    None => {
                    },
                }
            } else {
                match lit_end(s, i + 1, QUOTE) {
                    Some(p) => {
                        lemma_lit_end_bounds(s, i + 1, QUOTE);
                        lemma_spec_groups_step_bound(s, p, depth, cur + s.subrange(i, p), done);
                    },
                    None => {
                    },
                }
            }
        } else if c == APOS {
            match lit_end(s, i + 1, APOS) {
                Some(p) => {
                    lemma_lit_end_bounds(s, i + 1, APOS);
                    lemma_spec_groups_step_bound(s, p, depth, cur + s.subrange(i, p), done);
                },
                None => {
                },
            }
        } else if spec_space(c) && cur.len() == 0 {
            lemma_spec_groups_step_bound(s, i + 1, depth, cur, done);
        } else {
            lemma_spec_groups_step_bound(s, i + 1, depth, cur.push(c), done);
        }
    }
}

/// The bytes one whole rescanning pass over `t` appends, under the
/// definitions `defs`.
pub open spec fn spec_scan(defs: Map<Seq<u8>, Macro>, t: Seq<u8>) -> Seq<u8>
    decreases unpainted_count(defs), t.len(), 4int, 0int,
    when defs.dom().finite()
{
    spec_scan_from(defs, t, 0)
}

/// The bytes the rescanner appends while walking `s` from `i`: an eligible
/// macro invocation contributes its expansion, an ineligible identifier its
/// own spelling, a number or quoted literal its verbatim bytes, and any
/// other byte itself.
pub open spec fn spec_scan_from(defs: Map<Seq<u8>, Macro>, s: Seq<u8>, i: int) -> Seq<u8>
    decreases unpainted_count(defs), s.len(), 3int, s.len() - i,
    when 0 <= i && defs.dom().finite()
{
    if i >= s.len() {
        Seq::empty()
    } else {
        let c = s[i];
        if spec_ident_start(c) {
            let e = ident_end(s, i + 1);
            proof {
                lemma_ident_end_bounds(s, i + 1);
            }
            let name = s.subrange(i, e);
            match spec_expand(defs, name, s, e) {
                Some(bp) => bp.0 + spec_scan_from(
                    defs,
                    s,
                    if i < bp.1 && bp.1 <= s.len() {
                        bp.1
                    } else {
                        e
                    },
                ),
                None => name + spec_scan_from(defs, s, e),
            }
        } else if spec_digit(c) {
            let e = num_end(s, i + 1);
            proof {
                lemma_num_end_bounds(s, i + 1);
            }
            s.subrange(i, e) + spec_scan_from(defs, s, e)
        } else if c == QUOTE || c == APOS {
            let e = scan_lit_end(s, i + 1, c);
            proof {
                lemma_scan_lit_end_bounds(s, i + 1, c);
            }
            s.subrange(i, e) + spec_scan_from(defs, s, e)
        } else {
            seq![c] + spec_scan_from(defs, s, i + 1)
        }
    }
}

/// What one invocation of `name` appends and where the cursor lands, the
/// arguments of a function macro collected from `s` at `i`: nothing for an
/// unknown or painted name or a failing argument list; the stored bytes for
/// an object macro without identifiers; a painted rescan of the replacement
/// for one with them; and for a function macro a painted rescan of the
/// action replay over the assembled arguments.
pub open spec fn spec_expand(defs: Map<Seq<u8>, Macro>, name: Seq<u8>, s: Seq<u8>, i: int) -> Option<
    (Seq<u8>, int),
>
    decreases unpainted_count(defs), s.len(), 2int, 0int,
    when 0 <= i && defs.dom().finite()
{
    if !defs.dom().contains(name) {
        None
    } else if macro_in_use(defs[name]) {
        None
    } else {
        match defs[name] {
            Macro::Object(o) => if !o.has_id {
                Some((o.out@, i))
            } else {
                proof {
                    lemma_paint_decreases(defs, name);
                }
                Some(
                    (
                        spec_scan(defs.insert(name, macro_with_use(defs[name], true)), o.out@),
                        i,
                    ),
                )
            },
            Macro::Function(f) => {
                let j = skip_spaces(s, i);
                if !(j < s.len() && s[j] == LPAR) {
                    None
                } else {
                    match spec_groups(s, j + 1) {
                        None => None,
                        Some(gp) => if !arity_ok(gp.0, f.n_args as int, f.va_args) || !(match f
                            .va_args {
                            Some(k) => f.n_args >= 1 && k == f.n_args - 1,
                            None => true,
                        }) {
                            None
                        } else {
                            let args = built_args(gp.0, f.n_args as int, f.va_args);
                            proof {
                                lemma_skip_spaces_lower(s, i);
                                lemma_spec_groups_step_bound(
                                    s,
                                    j + 1,
                                    1,
                                    Seq::empty(),
                                    Seq::empty(),
                                );
                                lemma_built_args_bound(gp.0, f.n_args as int, f.va_args);
                                lemma_paint_decreases(defs, name);
                            }
                            Some(
                                (
                                    spec_scan(
                                        defs.insert(name, macro_with_use(defs[name], true)),
                                        spec_replay(defs, f.out@, f.actions@, args),
                                    ),
                                    gp.1,
                                ),
                            )
                        },
                    }
                }
            },
        }
    }
}

/// The intermediate buffer a function macro assembles: the action program
/// replayed from the start, the literal cursor at zero.
pub open spec fn spec_replay(
    defs: Map<Seq<u8>, Macro>,
    body: Seq<u8>,
    acts: Seq<Action>,
    args: Seq<Seq<u8>>,
) -> Seq<u8>
    decreases unpainted_count(defs), sum_len(args) + args.len(), 1int, acts.len() + 1,
    when defs.dom().finite()
{
    spec_replay_from(defs, body, acts, args, 0, 0)
}

/// The bytes the action replay emits from action `k` on, the literal cursor
/// at `cursor`: a chunk copies literal bytes up to its offset, `Arg`
/// substitutes the argument's own expansion, `Concat` its raw spelling,
/// `Stringify` its quoted raw spelling, and the trailing literal bytes
/// follow the last action.
pub open spec fn spec_replay_from(
    defs: Map<Seq<u8>, Macro>,
    body: Seq<u8>,
    acts: Seq<Action>,
    args: Seq<Seq<u8>>,
    k: int,
    cursor: int,
) -> Seq<u8>
    decreases unpainted_count(defs), sum_len(args) + args.len(), 1int, acts.len() - k,
    when 0 <= k && defs.dom().finite()
{
    if k >= acts.len() {
        if 0 <= cursor && cursor <= body.len() {
            body.subrange(cursor, body.len() as int)
        } else {
            Seq::empty()
        }
    } else {
        match acts[k] {
            Action::Arg(i2) => (if i2 < args.len() {
                proof {
                    lemma_elem_le_sum(args, i2 as int);
                }
                spec_scan(defs, args[i2 as int])
            } else {
                Seq::empty()
            }) + spec_replay_from(defs, body, acts, args, k + 1, cursor),
            Action::Concat(i2) => (if i2 < args.len() {
                args[i2 as int]
            } else {
                Seq::empty()
            }) + spec_replay_from(defs, body, acts, args, k + 1, cursor),
            Action::Stringify(i2) => (if i2 < args.len() {
                seq![QUOTE] + escaped(args[i2 as int]) + seq![QUOTE]
            } else {
                Seq::empty()
            }) + spec_replay_from(defs, body, acts, args, k + 1, cursor),
            Action::Chunk(e) => (if 0 <= cursor && cursor <= e && e <= body.len() {
                body.subrange(cursor, e as int)
            } else {
                Seq::empty()
            }) + spec_replay_from(
                defs,
                body,
                acts,
                args,
                k + 1,
                if cursor <= e && e <= body.len() {
                    e as int
                } else {
                    cursor
                },
            ),
        }
    }
}

/// A chunk action never reaches back before the copy cursor.
pub open spec fn chunk_ge(a: Action, v: int) -> bool {
    match a {
        Action::Chunk(e) => v <= e,
        _ => true,
    }
}

/// What one lookup found, copied out of the table so the table can be
/// mutated while the definition's buffers are replayed.
enum MacroPlan {
    Missing,
    Obj(Vec<u8>, bool),
    Fun(Vec<u8>, Vec<Action>, usize, Option<usize>),
}

/// Expand one invocation of the macro `name`; for a function macro the
/// arguments are collected from `buf` at `pos` (just after the name).
/// On success exactly the bytes of `spec_expand` are appended to `out` and
/// `pos` lands where that model says; on failure `out` and `pos` are
/// untouched.  The table (in-use flags included) is restored on every path.
pub(crate) fn expand_in(
    ctx: &mut PContext,
    name: &Vec<u8>,
    buf: &Vec<u8>,
    pos: &mut usize,
    out: &mut Vec<u8>,
) -> (r: bool)
    requires
        old(ctx).inv(),
        *old(pos) <= buf@.len(),
    ensures
        final(ctx).inv(),
        final(ctx).defs() == old(ctx).defs(),
        final(ctx).if_stack@ == old(ctx).if_stack@,
        *old(pos) <= *final(pos) && *final(pos) <= buf@.len(),
        old(out)@.is_prefix_of(final(out)@),
        !r ==> final(out)@ == old(out)@ && *final(pos) == *old(pos),
        match spec_expand(old(ctx).defs(), name@, buf@, *old(pos) as int) {
            Some(bp) => r && final(out)@ == old(out)@ + bp.0 && *final(pos) as int == bp.1,
            None => !r,
        },
        !old(ctx).defs().dom().contains(name@) ==> !r,
        old(ctx).defs().dom().contains(name@) && macro_in_use(old(ctx).defs()[name@]) ==> !r,
        old(ctx).defs().dom().contains(name@) && !macro_in_use(old(ctx).defs()[name@])
            ==> match old(ctx).defs()[name@] {
            Macro::Object(o) => r && (!o.has_id ==> final(out)@ == old(out)@ + o.out@
                && *final(pos) == *old(pos)),
            Macro::Function(f) => r == invocation_ok(
                buf@,
                *old(pos) as int,
                f.n_args as int,
                f.va_args,
            ),
        },
    decreases unpainted_count(old(ctx).defs()), buf@.len(), 0int,
{
    let ghost defs0 = old(ctx).defs();
    let ghost pos0 = *pos;
    let plan = match ctx.get(name) {
        None => MacroPlan::Missing,
        Some(m) => match m {
            Macro::Object(o) => MacroPlan::Obj(clone_bytes(&o.out), o.has_id),
            Macro::Function(f) => MacroPlan::Fun(
                clone_bytes(&f.out),
                clone_actions(&f.actions),
                f.n_args,
                f.va_args,
            ),
        },
    };
    match plan {
        MacroPlan::Missing => {
            proof {
                assert(out@.is_prefix_of(out@));
                assert(spec_expand(defs0, name@, buf@, pos0 as int) is None);
            }
            false
        },
        MacroPlan::Obj(body, has_id) => {
            if !has_id {
                let n = body.len();
                append_range(out, &body, 0, n);
                proof {
                    assert(body@.subrange(0, n as int) =~= body@);
                    assert(old(out)@.is_prefix_of(out@)) by {
                        assert(out@.subrange(0, old(out)@.len() as int) =~= old(out)@);
                    }
                    assert(spec_expand(defs0, name@, buf@, pos0 as int) == Some(
                        (body@, pos0 as int),
                    ));
                }
                true
            } else {
                ctx.set_in_use(name, true);
                proof {
                    lemma_paint_decreases(defs0, name@);
                }
                scan_expand(ctx, &body, out);
                ctx.set_in_use(name, false);
                proof {
                    assert(macro_with_use(
                        macro_with_use(defs0[name@], true),
                        false,
                    ) == defs0[name@]);
                    assert(ctx.defs() =~= defs0);
                    assert(spec_expand(defs0, name@, buf@, pos0 as int) == Some(
                        (
                            spec_scan(
                                defs0.insert(name@, macro_with_use(defs0[name@], true)),
                                body@,
                            ),
                            pos0 as int,
                        ),
                    ));
                }
                true
            }
        },
        MacroPlan::Fun(body, actions, n_args, va) => {
            let mut j: usize = *pos;
            while j < buf.len() && is_space(buf[j])
                invariant
                    pos0 <= j && j <= buf@.len(),
                    skip_spaces(buf@, pos0 as int) == skip_spaces(buf@, j as int),
                decreases buf@.len() - j,
            {
                j = j + 1;
            }
            proof {
                assert(skip_spaces(buf@, pos0 as int) == j as int);
            }
            if j >= buf.len() || buf[j] != LPAR {
                proof {
                    assert(out@.is_prefix_of(out@));
                    assert(!invocation_ok(buf@, pos0 as int, n_args as int, va));
                    assert(spec_expand(defs0, name@, buf@, pos0 as int) is None);
                }
                return false;
            }
            match parse_groups(buf, j + 1) {
                None => {
                    proof {
                        assert(out@.is_prefix_of(out@));
                        assert(!invocation_ok(buf@, pos0 as int, n_args as int, va));
                        assert(spec_expand(defs0, name@, buf@, pos0 as int) is None);
                    }
                    false
                },
                Some((groups, close)) => {
                    let ghost gv = groups.deep_view();
                    match assemble_args(&groups, n_args, va) {
                        None => {
                            proof {
                                assert(gv.len() == groups@.len());
                                assert(out@.is_prefix_of(out@));
                                assert(!arity_ok(gv, n_args as int, va));
                                assert(spec_expand(defs0, name@, buf@, pos0 as int) is None);
                                if n_args >= 1 {
                                    assert(!invocation_ok(
                                        buf@,
                                        pos0 as int,
                                        n_args as int,
                                        va,
                                    ));
                                }
                            }
                            false
                        },
                        Some(args) => {
                            let ghost av = args.deep_view();
                            proof {
                                assert(gv.len() == groups@.len());
                                assert(arity_ok(gv, n_args as int, va));
                                assert(av == built_args(gv, n_args as int, va));
                                if n_args >= 1 {
                                    assert(invocation_ok(buf@, pos0 as int, n_args as int, va));
                                }
                                assert forall|i2: int| 0 <= i2 < av.len() implies #[trigger] av[i2].len()
                                    < buf@.len() by {
                                    assert(av[i2].len() <= sum_len(gv) + groups@.len());
                                    assert(sum_len(gv) + groups@.len() <= close - (j + 1));
                                }
                            }
                            let ghost fdef = defs0[name@];
                            proof {
                                assert(macro_wf(fdef));
                                assert(actions_wf(actions@, n_args as int, body@.len() as int));
                            }
                            let mut assembled: Vec<u8> = Vec::new();
                            let mut out_pos: usize = 0;
                            let mut ai: usize = 0;
                            proof {
                                assert(assembled@ =~= Seq::<u8>::empty());
                            }
                            while ai < actions.len()
                                invariant
                                    ctx.inv(),
                                    ctx.defs() == defs0,
                                    defs0 == old(ctx).defs(),
                                    ctx.if_stack@ == old(ctx).if_stack@,
                                    ai <= actions@.len(),
                                    out_pos <= body@.len(),
                                    out@ == old(out)@,
                                    *pos == pos0,
                                    actions_wf(actions@, n_args as int, body@.len() as int),
                                    args@.len() == n_args,
                                    av == args.deep_view(),
                                    av.len() == n_args,
                                    forall|i2: int|
                                        0 <= i2 < av.len() ==> #[trigger] av[i2].len()
                                            < buf@.len(),
                                    assembled@ + spec_replay_from(
                                        defs0,
                                        body@,
                                        actions@,
                                        av,
                                        ai as int,
                                        out_pos as int,
                                    ) == spec_replay_from(defs0, body@, actions@, av, 0, 0),
                                    forall|j2: int|
                                        ai <= j2 < actions@.len() ==> chunk_ge(
                                            #[trigger] actions@[j2],
                                            out_pos as int,
                                        ),
                                decreases actions@.len() - ai,
                            {
                                let ghost asm0 = assembled@;
                                proof {
                                    assert(action_wf(
                                        actions@[ai as int],
                                        n_args as int,
                                        body@.len() as int,
                                    ));
                                }
                                let act = actions[ai];
                                match act {
                                    Action::Arg(i) => {
                                        let a: &Vec<u8> = &args[i];
                                        proof {
                                            assert(av[i as int] =~= a@);
                                            assert(a@.len() < buf@.len());
                                        }
                                        scan_expand(ctx, a, &mut assembled);
                                        proof {
                                            assert(assembled@ =~= asm0 + spec_scan(
                                                defs0,
                                                av[i as int],
                                            ));
                                        }
                                    },
                                    Action::Concat(i) => {
                                        let a: &Vec<u8> = &args[i];
                                        let n = a.len();
                                        append_range(&mut assembled, a, 0, n);
                                        proof {
                                            assert(a@.subrange(0, n as int) =~= a@);
                                            assert(av[i as int] =~= a@);
                                            assert(assembled@ =~= asm0 + av[i as int]);
                                        }
                                    },
                                    Action::Stringify(i) => {
                                        let a: &Vec<u8> = &args[i];
                                        make_string(a, &mut assembled);
                                        proof {
                                            assert(av[i as int] =~= a@);
                                            assert(assembled@ =~= asm0 + (seq![QUOTE] + escaped(
                                                av[i as int],
                                            ) + seq![QUOTE]));
                                        }
                                    },
                                    Action::Chunk(e) => {
                                        proof {
                                            assert(chunk_ge(actions@[ai as int], out_pos as int));
                                        }
                                        append_range(&mut assembled, &body, out_pos, e);
                                        proof {
                                            assert(assembled@ =~= asm0 + body@.subrange(
                                                out_pos as int,
                                                e as int,
                                            ));
                                        }
                                        out_pos = e;
                                        proof {
                                            assert forall|j2: int|
                                                ai + 1 <= j2 < actions@.len() implies chunk_ge(
                                                #[trigger] actions@[j2],
                                                out_pos as int,
                                            ) by {
                                                assert(chunk_le(
                                                    actions@[ai as int],
                                                    actions@[j2],
                                                ));
                                            }
                                        }
                                    },
                                }
                                proof {
                                    assert(assembled@ + spec_replay_from(
                                        defs0,
                                        body@,
                                        actions@,
                                        av,
                                        ai + 1,
                                        out_pos as int,
                                    ) =~= spec_replay_from(defs0, body@, actions@, av, 0, 0));
                                }
                                ai = ai + 1;
                            }
                            let bn = body.len();
                            append_range(&mut assembled, &body, out_pos, bn);
                            proof {
                                assert(spec_replay_from(
                                    defs0,
                                    body@,
                                    actions@,
                                    av,
                                    actions@.len() as int,
                                    out_pos as int,
                                ) =~= body@.subrange(out_pos as int, body@.len() as int));
                                assert(assembled@ =~= spec_replay(defs0, body@, actions@, av));
                            }
                            ctx.set_in_use(name, true);
                            proof {
                                lemma_paint_decreases(defs0, name@);
                            }
                            scan_expand(ctx, &assembled, out);
                            ctx.set_in_use(name, false);
                            proof {
                                assert(macro_with_use(
                                    macro_with_use(defs0[name@], true),
                                    false,
                                ) == defs0[name@]);
                                assert(ctx.defs() =~= defs0);
                                assert(old(out)@.is_prefix_of(out@));
                                assert(spec_expand(defs0, name@, buf@, pos0 as int) == Some(
                                    (
                                        spec_scan(
                                            defs0.insert(
                                                name@,
                                                macro_with_use(defs0[name@], true),
                                            ),
                                            spec_replay(defs0, body@, actions@, av),
                                        ),
                                        close as int,
                                    ),
                                ));
                            }
                            *pos = close;
                            true
                        },
                    }
                },
            }
        },
    }
}

/// Rescan a byte buffer, expanding every eligible macro invocation found in
/// it and copying everything else verbatim; exactly the bytes of
/// `spec_scan` are appended to `out`.  String and character literals are
/// copied without lookup, and a number carries its trailing letters with
/// it, so an identifier embedded in either is never treated as a macro
/// name.
pub(crate) fn scan_expand(ctx: &mut PContext, buf: &Vec<u8>, out: &mut Vec<u8>)
    requires
        old(ctx).inv(),
    ensures
        final(ctx).inv(),
        final(ctx).defs() == old(ctx).defs(),
        final(ctx).if_stack@ == old(ctx).if_stack@,
        old(out)@.is_prefix_of(final(out)@),
        final(out)@ == old(out)@ + spec_scan(old(ctx).defs(), buf@),
    decreases unpainted_count(old(ctx).defs()), buf@.len(), 1int,
{
    let ghost s = buf@;
    let ghost defs0 = old(ctx).defs();
    let mut pos: usize = 0;
    proof {
        assert(out@.subrange(0, out@.len() as int) =~= out@);
    }
    while pos < buf.len()
        invariant
            ctx.inv(),
            ctx.defs() == defs0,
            defs0 == old(ctx).defs(),
            ctx.if_stack@ == old(ctx).if_stack@,
            pos <= buf@.len(),
            s == buf@,
            old(out)@.is_prefix_of(out@),
            out@ + spec_scan_from(defs0, s, pos as int) == old(out)@ + spec_scan_from(
                defs0,
                s,
                0,
            ),
        decreases buf@.len() - pos,
    {
        let ghost opos = pos as int;
        let ghost oout = out@;
        let c = buf[pos];
        if is_ident_start(c) {
            let idstart = pos;
            let mut idend = pos + 1;
            while idend < buf.len() && is_ident_char(buf[idend])
                invariant
                    idstart < idend && idend <= buf@.len(),
                    s == buf@,
                    ident_end(s, idstart + 1) == ident_end(s, idend as int),
                decreases buf@.len() - idend,
            {
                idend = idend + 1;
            }
            proof {
                assert(ident_end(s, idstart + 1) == idend as int);
            }
            let name = sub_bytes(buf, idstart, idend);
            let mut p2: usize = idend;
            let ok = expand_in(ctx, &name, buf, &mut p2, out);
            if ok {
                pos = p2;
                proof {
                    assert(out@ + spec_scan_from(defs0, s, pos as int) =~= oout
                        + spec_scan_from(defs0, s, opos));
                    assert(out@.subrange(0, old(out)@.len() as int) =~= old(out)@);
                }
            } else {
                append_range(out, buf, idstart, idend);
                pos = idend;
                proof {
                    assert(out@ + spec_scan_from(defs0, s, pos as int) =~= oout
                        + spec_scan_from(defs0, s, opos));
                    assert(out@.subrange(0, old(out)@.len() as int) =~= old(out)@);
                }
            }
        } else if is_digit(c) {
            out.push(c);
            pos = pos + 1;
            proof {
                assert(out@ =~= oout + s.subrange(opos, pos as int));
            }
            while pos < buf.len() && (is_ident_char(buf[pos]) || buf[pos] == DOT)
                invariant
                    s == buf@,
                    0 <= opos && opos < pos && pos <= buf@.len(),
                    num_end(s, opos + 1) == num_end(s, pos as int),
                    out@ == oout + s.subrange(opos, pos as int),
                decreases buf@.len() - pos,
            {
                out.push(buf[pos]);
                pos = pos + 1;
                proof {
                    assert(out@ =~= oout + s.subrange(opos, pos as int));
                }
            }
            proof {
                assert(num_end(s, opos + 1) == pos as int);
                assert(out@ + spec_scan_from(defs0, s, pos as int) =~= oout + spec_scan_from(
                    defs0,
                    s,
                    opos,
                ));
                assert(out@.subrange(0, old(out)@.len() as int) =~= old(out)@);
            }
        } else if c == QUOTE || c == APOS {
            out.push(c);
            pos = pos + 1;
            let mut closed: bool = false;
            proof {
                assert(out@ =~= oout + s.subrange(opos, pos as int));
            }
            while !closed && pos < buf.len()
                invariant
                    s == buf@,
                    0 <= opos && opos < pos && pos <= buf@.len(),
                    c == s[opos],
                    scan_lit_end(s, opos + 1, c) == (if closed {
                        pos as int
                    } else {
                        scan_lit_end(s, pos as int, c)
                    }),
                    out@ == oout + s.subrange(opos, pos as int),
                decreases buf@.len() - pos,
            {
                let cc = buf[pos];
                if cc == BSLASH && pos + 1 < buf.len() {
                    out.push(cc);
                    out.push(buf[pos + 1]);
                    pos = pos + 2;
                } else {
                    out.push(cc);
                    pos = pos + 1;
                    if cc == c {
                        closed = true;
                    }
                }
                proof {
                    assert(out@ =~= oout + s.subrange(opos, pos as int));
                }
            }
            proof {
                assert(scan_lit_end(s, opos + 1, c) == pos as int);
                assert(out@ + spec_scan_from(defs0, s, pos as int) =~= oout + spec_scan_from(
                    defs0,
                    s,
                    opos,
                ));
                assert(out@.subrange(0, old(out)@.len() as int) =~= old(out)@);
            }
        } else {
            out.push(c);
            pos = pos + 1;
            proof {
                assert(out@ =~= oout + seq![c]);
                assert(out@ + spec_scan_from(defs0, s, pos as int) =~= oout + spec_scan_from(
                    defs0,
                    s,
                    opos,
                ));
                assert(out@.subrange(0, old(out)@.len() as int) =~= old(out)@);
            }
        }
    }
    proof {
        assert(spec_scan_from(defs0, s, pos as int) =~= Seq::<u8>::empty());
        assert(out@ =~= old(out)@ + spec_scan(defs0, s));
    }
}

} // verus!
