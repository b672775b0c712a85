//! Properties that relate the parser, the compiler and the matcher.
use vstd::prelude::*;

use crate::compiler::{
    choices_len, code_len, code_len_seq, emit, emit_choices, emit_heads, emit_seq, heads_len,
    lemma_seq_push, repeats_choices, repeats_seq, Instr, Program,
};
use crate::matcher::{
    apply, current_rest, effect, has_string, initial, match_of, pull, run, search, step, Effect,
    Machine,
    MatchResult, Thread, STEP_LIMIT,
};
use crate::parser::{
    join, spec_alternatives, spec_class, spec_literal, spec_next_node, spec_parse,
    spec_parse_nodes, spec_repeat, Node, Stop, OPEN_ANGLE, OPEN_BRACE, OPEN_BRACKET, STAR,
};
use crate::path::{components, split_from, Comp};

verus! {

/// The program that a pattern compiles to.
pub open spec fn program_of(ns: Seq<Node>) -> Seq<Instr> {
    emit_seq(ns, 0, 0).push(Instr::Complete)
}

/// What matching the compiled pattern `ns` on `path` reports.
pub open spec fn pattern_match(ns: Seq<Node>, path: Seq<u8>) -> MatchResult {
    let m = search(program_of(ns), repeats_seq(ns), components(path));
    MatchResult { valid_as_prefix: m.prefix, valid_as_complete_match: m.complete }
}

/// The empty pattern matches the empty path completely and nothing else, and reports no path
/// as a prefix.
pub proof fn lemma_empty_pattern(path: Seq<u8>)
    ensures
        pattern_match(Seq::empty(), path) == (MatchResult {
            valid_as_prefix: false,
            valid_as_complete_match: components(path).len() == 0,
        }),
{
    let prog = program_of(Seq::empty());
    assert(prog =~= seq![Instr::Complete]);
    let p = components(path);
    let m0 = initial(0);
    let m1 = step(prog, p, m0);
    assert(m1.halted);
    assert(run(prog, p, m1, (STEP_LIMIT - 1) as nat) == m1);
}

/// A `{`, `[` or `<` that does not open a well-formed construct starts a literal: the node
/// read there is the literal that begins with that byte.
pub proof fn lemma_unclosed_is_literal(s: Seq<u8>, boundary: bool)
    requires
        s.len() > 0,
        (s[0] == OPEN_BRACE && spec_alternatives(s) is None) || (s[0] == OPEN_BRACKET
            && spec_class(s) is None) || (s[0] == OPEN_ANGLE && spec_repeat(s) is None),
    ensures
        spec_next_node(s, boundary) == spec_literal(s),
        spec_literal(s).0 matches Node::LiteralString(b) && b.len() >= 1 && b[0] == s[0],
{
    assert(spec_alternatives(s) is None);
    assert(spec_class(s) is None);
    assert(spec_repeat(s) is None);
    crate::parser::lemma_literal_end_bound(s, 1);
}

/// A compiled program reports on a path what its pattern does.
pub proof fn lemma_compiled_match(pattern: Seq<Node>, program: Program, path: Seq<u8>)
    requires
        program.instrs() == program_of(pattern),
        program.counters == repeats_seq(pattern),
    ensures
        match_of(program, path) == pattern_match(pattern, path),
{
}

/// A compiled program ends with its one `Complete`, and every branch in it goes to an
/// instruction of the program.
pub proof fn lemma_compiled_shape(pattern: Seq<Node>, program: Program)
    requires
        program.instrs() == program_of(pattern),
    ensures
        program.instrs().len() == code_len_seq(pattern) + 1,
        program.instrs().last() == Instr::Complete,
        forall|i: int|
            0 <= i < program.instrs().len() - 1 ==> !(#[trigger] program.instrs()[i] is Complete),
        forall|i: int|
            0 <= i < program.instrs().len() ==> match #[trigger] program.instrs()[i] {
                Instr::Jump(o) => o < program.instrs().len(),
                Instr::Alternative(o) => o < program.instrs().len(),
                Instr::BranchIfLessThan(o, _, _) => o < program.instrs().len(),
                _ => true,
            },
{
    let code = emit_seq(pattern, 0, 0);
    let prog = program.instrs();
    lemma_seq(pattern, 0, 0);
    assert forall|i: int| 0 <= i < prog.len() - 1 implies !(#[trigger] prog[i] is Complete) by {
        assert(prog[i] == code[i]);
    }
    assert forall|i: int| 0 <= i < prog.len() implies match #[trigger] prog[i] {
        Instr::Jump(o) => o < prog.len(),
        Instr::Alternative(o) => o < prog.len(),
        Instr::BranchIfLessThan(o, _, _) => o < prog.len(),
        _ => true,
    } by {
        if i < code.len() {
            assert(prog[i] == code[i]);
        }
    }
}

/// Every branch of `code` goes to an offset at most `bound`, and none of it is `Complete`.
pub open spec fn branches_within(code: Seq<Instr>, bound: nat) -> bool {
    forall|i: int|
        0 <= i < code.len() ==> match #[trigger] code[i] {
            Instr::Jump(o) => o <= bound,
            Instr::Alternative(o) => o <= bound,
            Instr::BranchIfLessThan(o, _, _) => o <= bound,
            Instr::Complete => false,
            _ => true,
        }
}

proof fn lemma_within_concat(a: Seq<Instr>, b: Seq<Instr>, bound: nat)
    requires
        branches_within(a, bound),
        branches_within(b, bound),
    ensures
        branches_within(a + b, bound),
{
    assert forall|i: int| 0 <= i < (a + b).len() implies match #[trigger] (a + b)[i] {
        Instr::Jump(o) => o <= bound,
        Instr::Alternative(o) => o <= bound,
        Instr::BranchIfLessThan(o, _, _) => o <= bound,
        Instr::Complete => false,
        _ => true,
    } by {
        if i < a.len() {
            assert((a + b)[i] == a[i]);
        } else {
            assert((a + b)[i] == b[i - a.len()]);
        }
    }
}

proof fn lemma_within_weaken(a: Seq<Instr>, bound: nat, larger: nat)
    requires
        branches_within(a, bound),
        bound <= larger,
    ensures
        branches_within(a, larger),
{
    assert forall|i: int| 0 <= i < a.len() implies match #[trigger] a[i] {
        Instr::Jump(o) => o <= larger,
        Instr::Alternative(o) => o <= larger,
        Instr::BranchIfLessThan(o, _, _) => o <= larger,
        Instr::Complete => false,
        _ => true,
    } by {
        let x = a[i];
    }
}

proof fn lemma_choices_take(cs: Seq<Seq<Node>>, k: int)
    requires
        0 <= k <= cs.len(),
    ensures
        choices_len(cs.take(k)) <= choices_len(cs),
        k < cs.len() ==> choices_len(cs.take(k)) < choices_len(cs),
    decreases cs.len() - k,
{
    if k < cs.len() {
        lemma_choices_take(cs, k + 1);
        assert(cs.take(k + 1).drop_last() =~= cs.take(k));
    } else {
        assert(cs.take(k) =~= cs);
    }
}

proof fn lemma_heads(cs: Seq<Seq<Node>>, base: nat, k: nat)
    requires
        k <= cs.len(),
    ensures
        emit_heads(cs, base, k).len() == k,
        branches_within(emit_heads(cs, base, k), base + choices_len(cs)),
    decreases k,
{
    if k > 0 {
        lemma_heads(cs, base, (k - 1) as nat);
        lemma_choices_take(cs, k as int);
        let last = seq![Instr::Alternative(base + choices_len(cs.take(k as int)))];
        assert(branches_within(last, base + choices_len(cs)));
        lemma_within_concat(emit_heads(cs, base, (k - 1) as nat), last, base + choices_len(cs));
        assert(emit_heads(cs, base, k) =~= emit_heads(cs, base, (k - 1) as nat) + last);
    } else {
        assert(emit_heads(cs, base, k) =~= Seq::<Instr>::empty());
    }
}

/// The code of a node has the length that `code_len` gives, and branches only within itself or
/// to its end.
proof fn lemma_emit(n: Node, at: nat, ctr: nat)
    ensures
        emit(n, at, ctr).len() == code_len(n),
        branches_within(emit(n, at, ctr), at + code_len(n)),
    decreases n,
{
    let code = emit(n, at, ctr);
    let bound = at + code_len(n);
    match n {
        Node::Alternatives(cs) => {
            let h = heads_len(cs);
            let end = at + h + choices_len(cs);
            lemma_heads(cs, at + h, h);
            lemma_choices(cs, at + h, ctr, end);
            lemma_within_concat(
                emit_heads(cs, at + h, h),
                emit_choices(cs, at + h, ctr, end),
                bound,
            );
        },
        Node::Repeat(min, max, body) => {
            lemma_seq(body, at + 1, ctr + 1);
            let head = seq![Instr::Increment(ctr)];
            let mid = emit_seq(body, at + 1, ctr + 1);
            let here = at + 1 + code_len_seq(body) + 1;
            let br = seq![Instr::BranchIfLessThan(at, ctr, min)];
            let tail = if max > min {
                seq![
                    Instr::BranchIfLessThan(here + 2, ctr, max),
                    Instr::Jump(here + 3),
                    Instr::Alternative(at),
                ]
            } else {
                Seq::empty()
            };
            assert(branches_within(head, bound));
            lemma_within_weaken(mid, at + 1 + code_len_seq(body), bound);
            assert(branches_within(br, bound));
            assert(branches_within(tail, bound));
            lemma_within_concat(head, mid, bound);
            lemma_within_concat(head + mid, br, bound);
            lemma_within_concat(head + mid + br, tail, bound);
        },
        _ => {
            assert(branches_within(code, bound));
        },
    }
}

proof fn lemma_seq(ns: Seq<Node>, at: nat, ctr: nat)
    ensures
        emit_seq(ns, at, ctr).len() == code_len_seq(ns),
        branches_within(emit_seq(ns, at, ctr), at + code_len_seq(ns)),
    decreases ns,
{
    if ns.len() == 0 {
        assert(branches_within(emit_seq(ns, at, ctr), at));
    } else {
        let init = ns.drop_last();
        lemma_seq(init, at, ctr);
        lemma_emit(ns.last(), at + code_len_seq(init), ctr + repeats_seq(init));
        lemma_within_weaken(emit_seq(init, at, ctr), at + code_len_seq(init), at + code_len_seq(ns));
        lemma_within_concat(
            emit_seq(init, at, ctr),
            emit(ns.last(), at + code_len_seq(init), ctr + repeats_seq(init)),
            at + code_len_seq(ns),
        );
    }
}

proof fn lemma_choices(cs: Seq<Seq<Node>>, at: nat, ctr: nat, end: nat)
    requires
        at + choices_len(cs) <= end,
    ensures
        emit_choices(cs, at, ctr, end).len() == choices_len(cs),
        branches_within(emit_choices(cs, at, ctr, end), end),
    decreases cs,
{
    if cs.len() == 0 {
        assert(branches_within(emit_choices(cs, at, ctr, end), end));
    } else {
        let init = cs.drop_last();
        lemma_choices(init, at, ctr, end);
        lemma_seq(cs.last(), at + choices_len(init), ctr + repeats_choices(init));
        lemma_within_weaken(
            emit_seq(cs.last(), at + choices_len(init), ctr + repeats_choices(init)),
            at + choices_len(init) + code_len_seq(cs.last()),
            end,
        );
        let j = seq![Instr::Jump(end)];
        assert(branches_within(j, end));
        lemma_within_concat(
            emit_choices(init, at, ctr, end),
            emit_seq(cs.last(), at + choices_len(init), ctr + repeats_choices(init)),
            end,
        );
        lemma_within_concat(
            emit_choices(init, at, ctr, end) + emit_seq(
                cs.last(),
                at + choices_len(init),
                ctr + repeats_choices(init),
            ),
            j,
            end,
        );
    }
}

/// Where a pattern ends with `/**`: the code before the separator, the separator at `L`, the
/// recurse gadget at `L + 1`, and `Complete` last.
proof fn lemma_trailing_layout(ns: Seq<Node>)
    requires
        ns.len() >= 2,
        ns[ns.len() - 2] is Separator,
        ns.last() is Recurse,
    ensures
        ({
            let xs = ns.take(ns.len() - 2);
            let l = code_len_seq(xs);
            let prog = program_of(ns);
            let g = l + 1;
            &&& prog.len() == l + 7
            &&& branches_within(prog.take(l as int), l)
            &&& prog[l as int] == Instr::Separator
            &&& prog[g as int] == Instr::Alternative(g + 2)
            &&& prog[g + 1 as int] == Instr::Jump(g + 5)
            &&& prog[g + 2 as int] == Instr::AnyString
            &&& prog[g + 3 as int] == Instr::Separator
            &&& prog[g + 4 as int] == Instr::Jump(g)
            &&& prog[g + 5 as int] == Instr::Complete
        }),
{
    let xs = ns.take(ns.len() - 2);
    let with_sep = xs.push(Node::Separator);
    assert(with_sep.push(Node::Recurse) =~= ns);
    lemma_seq_push(xs, Node::Separator, 0, 0);
    lemma_seq_push(with_sep, Node::Recurse, 0, 0);
    lemma_seq(xs, 0, 0);
    let l = code_len_seq(xs);
    let code = emit_seq(xs, 0, 0);
    let prog = program_of(ns);
    assert(emit(Node::Separator, l, repeats_seq(xs)) =~= seq![Instr::Separator]);
    assert(prog.take(l as int) =~= code);
}

pub open spec fn in_tail(pc: nat, g: nat) -> bool {
    pc == g || pc == g + 1 || pc == g + 4 || pc == g + 5
}

/// The search of a pattern that ends with `/**` keeps these: a thread in the last part of the
/// program that has consumed the whole path comes after a prefix was recorded; no saved thread
/// is in that part; and a complete match comes after a prefix.
pub open spec fn keeps_prefix(p: Seq<Comp>, g: nat, m: Machine) -> bool {
    &&& (in_tail(m.thread.pc, g) && m.thread.component >= p.len() && !has_string(p, m.thread))
        ==> m.prefix
    &&& forall|i: int| 0 <= i < m.stack.len() ==> !in_tail(#[trigger] m.stack[i].pc, g)
    &&& m.complete ==> m.prefix
}

proof fn lemma_effect_low(prog: Seq<Instr>, p: Seq<Comp>, t: Thread, l: nat)
    requires
        t.pc < l,
        l < prog.len(),
        branches_within(prog.take(l as int), l),
    ensures
        match effect(prog, p, t) {
            Effect::Next(u) => u.pc <= l,
            Effect::Fork(s, u) => s.pc <= l && u.pc <= l,
            Effect::ExhaustedThen(u) => u.pc <= l,
            Effect::Accept => false,
            _ => true,
        },
{
    assert(prog.take(l as int)[t.pc as int] == prog[t.pc as int]);
}

proof fn lemma_step_keeps_prefix(ns: Seq<Node>, p: Seq<Comp>, m: Machine)
    requires
        ns.len() >= 2,
        ns[ns.len() - 2] is Separator,
        ns.last() is Recurse,
        keeps_prefix(p, code_len_seq(ns.take(ns.len() - 2)) + 1, m),
    ensures
        keeps_prefix(p, code_len_seq(ns.take(ns.len() - 2)) + 1, step(program_of(ns), p, m)),
{
    lemma_trailing_layout(ns);
    let l = code_len_seq(ns.take(ns.len() - 2));
    let g = l + 1;
    let prog = program_of(ns);
    let t = m.thread;
    let m2 = step(prog, p, m);
    if t.pc < l {
        lemma_effect_low(prog, p, t, l);
    }
    if m2.stack.len() > m.stack.len() {
        assert forall|i: int| 0 <= i < m2.stack.len() implies !in_tail(#[trigger] m2.stack[i].pc, g) by {
            if i < m.stack.len() {
                assert(m2.stack[i] == m.stack[i]);
            }
        }
    } else if m2.stack.len() < m.stack.len() {
        assert(m2.thread == m.stack.last());
        assert forall|i: int| 0 <= i < m2.stack.len() implies !in_tail(#[trigger] m2.stack[i].pc, g) by {
            assert(m2.stack[i] == m.stack[i]);
        }
    }
}

proof fn lemma_run_keeps_prefix(ns: Seq<Node>, p: Seq<Comp>, m: Machine, fuel: nat)
    requires
        ns.len() >= 2,
        ns[ns.len() - 2] is Separator,
        ns.last() is Recurse,
        keeps_prefix(p, code_len_seq(ns.take(ns.len() - 2)) + 1, m),
    ensures
        keeps_prefix(p, code_len_seq(ns.take(ns.len() - 2)) + 1, run(program_of(ns), p, m, fuel)),
    decreases fuel,
{
    if !m.halted && fuel > 0 {
        lemma_step_keeps_prefix(ns, p, m);
        lemma_run_keeps_prefix(ns, p, step(program_of(ns), p, m), (fuel - 1) as nat);
    }
}

/// A pattern that ends with `/**` reports every path that it matches completely as a prefix
/// too, so that a walker descends into each directory it matches.
pub proof fn lemma_trailing_recurse_prefix(ns: Seq<Node>, path: Seq<u8>)
    requires
        ns.len() >= 2,
        ns[ns.len() - 2] is Separator,
        ns.last() is Recurse,
    ensures
        pattern_match(ns, path).valid_as_complete_match ==> pattern_match(
            ns,
            path,
        ).valid_as_prefix,
{
    let p = components(path);
    let m0 = initial(repeats_seq(ns));
    lemma_trailing_layout(ns);
    assert(keeps_prefix(p, code_len_seq(ns.take(ns.len() - 2)) + 1, m0));
    lemma_run_keeps_prefix(ns, p, m0, STEP_LIMIT as nat);
}

/// Running `a` steps and then `b` more is running `a + b` steps.
pub proof fn lemma_run_split(prog: Seq<Instr>, p: Seq<Comp>, m: Machine, a: nat, b: nat)
    ensures
        run(prog, p, m, a + b) == run(prog, p, run(prog, p, m, a), b),
    decreases a,
{
    if a > 0 && !m.halted {
        lemma_run_split(prog, p, step(prog, p, m), (a - 1) as nat, b);
        assert((a + b - 1) as nat == ((a - 1) as nat + b) as nat);
    } else if m.halted {
        assert(run(prog, p, m, b) == m);
    }
}

/// The search of `**` alone after it has taken `j` of the `n` components of the path.
pub open spec fn recurse_round(j: nat, n: nat) -> Machine {
    Machine {
        thread: Thread {
            pc: 0,
            component: j,
            current: None,
            fresh: false,
            counters: Seq::empty(),
        },
        stack: Seq::empty(),
        prefix: n > 0 && j == n,
        complete: false,
        halted: false,
    }
}

proof fn lemma_recurse_round(p: Seq<Comp>, j: nat)
    requires
        j < p.len(),
        p[j as int] is Normal,
    ensures
        run(program_of(seq![Node::Recurse]), p, recurse_round(j, p.len()), 6) == recurse_round(
            j + 1,
            p.len(),
        ),
{
    let prog = program_of(seq![Node::Recurse]);
    lemma_seq_push(Seq::empty(), Node::Recurse, 0, 0);
    assert(seq![Node::Recurse] =~= Seq::<Node>::empty().push(Node::Recurse));
    assert(prog =~= seq![
        Instr::Alternative(2),
        Instr::Jump(5),
        Instr::AnyString,
        Instr::Separator,
        Instr::Jump(0),
        Instr::Complete,
    ]);
    let m0 = recurse_round(j, p.len());
    let m1 = step(prog, p, m0);
    let m2 = step(prog, p, m1);
    let m3 = step(prog, p, m2);
    let m4 = step(prog, p, m3);
    let b = p[j as int]->Normal_0;
    assert(b.subrange(b.len() as int, b.len() as int) =~= Seq::<u8>::empty());
    assert(m1.thread.pc == 1 && m1.stack.len() == 1);
    assert(m2.thread.pc == 5 && m2.stack.len() == 1);
    assert(m3.thread.pc == 2 && m3.stack.len() == 0 && m3.thread.component == j);
    assert(m4.thread.pc == 3 && m4.thread.component == j + 1);
    assert(m4.thread.current == Some(b.len()));
    let m5 = step(prog, p, m4);
    assert(m5.thread.pc == 4 && m5.thread.current is None);
    assert(m5.prefix == (j + 1 == p.len()));
    let m6 = step(prog, p, m5);
    assert(m6.thread =~= recurse_round(j + 1, p.len()).thread);
    assert(m6.stack =~= recurse_round(j + 1, p.len()).stack);
    assert(m6 == recurse_round(j + 1, p.len()));
    assert(run(prog, p, m6, 0) == m6);
    assert(run(prog, p, m5, 1) == m6);
    assert(run(prog, p, m4, 2) == m6);
    assert(run(prog, p, m3, 3) == m6);
    assert(run(prog, p, m2, 4) == m6);
    assert(run(prog, p, m1, 5) == m6);
}

proof fn lemma_recurse_rounds(p: Seq<Comp>, j: nat)
    requires
        j <= p.len(),
        forall|i: int| 0 <= i < p.len() ==> #[trigger] p[i] is Normal,
    ensures
        run(program_of(seq![Node::Recurse]), p, recurse_round(0, p.len()), 6 * j) == recurse_round(
            j,
            p.len(),
        ),
    decreases j,
{
    let prog = program_of(seq![Node::Recurse]);
    if j == 0 {
        assert(run(prog, p, recurse_round(0, p.len()), 0) == recurse_round(0, p.len()));
    } else {
        lemma_recurse_rounds(p, (j - 1) as nat);
        lemma_recurse_round(p, (j - 1) as nat);
        lemma_run_split(prog, p, recurse_round(0, p.len()), (6 * (j - 1)) as nat, 6);
        assert(6 * j == (6 * (j - 1)) as nat + 6);
    }
}

/// `**` alone matches every path of normal components completely, and reports it as a prefix
/// too.
pub proof fn lemma_recurse_alone(path: Seq<u8>)
    requires
        forall|i: int|
            0 <= i < components(path).len() ==> #[trigger] components(path)[i] is Normal,
        6 * components(path).len() + 4 <= STEP_LIMIT,
    ensures
        pattern_match(seq![Node::Recurse], path) == (MatchResult {
            valid_as_prefix: true,
            valid_as_complete_match: true,
        }),
{
    let p = components(path);
    let n = p.len();
    let prog = program_of(seq![Node::Recurse]);
    lemma_seq_push(Seq::empty(), Node::Recurse, 0, 0);
    assert(seq![Node::Recurse] =~= Seq::<Node>::empty().push(Node::Recurse));
    assert(prog =~= seq![
        Instr::Alternative(2),
        Instr::Jump(5),
        Instr::AnyString,
        Instr::Separator,
        Instr::Jump(0),
        Instr::Complete,
    ]);
    assert(repeats_seq(seq![Node::Recurse]) == 0);
    assert(initial(0) == recurse_round(0, n)) by {
        assert(Seq::new(0, |i: int| 0u32) =~= Seq::<u32>::empty());
    }
    lemma_recurse_rounds(p, n);
    let mn = recurse_round(n, n);
    let m1 = step(prog, p, mn);
    let m2 = step(prog, p, m1);
    let m3 = step(prog, p, m2);
    let rest = (STEP_LIMIT - 6 * n) as nat;
    if n > 0 {
        assert(m3.halted && m3.prefix && m3.complete);
        assert(run(prog, p, m3, (rest - 3) as nat) == m3);
        assert(run(prog, p, m2, (rest - 2) as nat) == m3);
        assert(run(prog, p, m1, (rest - 1) as nat) == m3);
        assert(run(prog, p, mn, rest) == m3);
    } else {
        // the complete match comes first; the saved branch then runs out of input
        assert(m3.complete && !m3.halted && m3.thread.pc == 2);
        let m4 = step(prog, p, m3);
        assert(m4.halted && m4.prefix && m4.complete);
        assert(run(prog, p, m4, (rest - 4) as nat) == m4);
        assert(run(prog, p, m3, (rest - 3) as nat) == m4);
        assert(run(prog, p, m2, (rest - 2) as nat) == m4);
        assert(run(prog, p, m1, (rest - 1) as nat) == m4);
        assert(run(prog, p, mn, rest) == m4);
    }
    lemma_run_split(prog, p, recurse_round(0, n), 6 * n, rest);
    assert(6 * n + rest == STEP_LIMIT as nat);
}

/// The glob `**` parses to a single recurse node.
pub proof fn lemma_parse_recurse()
    ensures
        spec_parse(seq![STAR, STAR]) == seq![Node::Recurse],
{
    let s = seq![STAR, STAR];
    assert(split_from(s, 0, 2) == seq![Comp::Normal(s)]) by {
        assert(s.subrange(0, 2) =~= s);
    }
    assert(split_from(s, 0, 0) == split_from(s, 0, 2)) by {
        assert(split_from(s, 0, 0) == split_from(s, 0, 1));
    }
    assert(components(s) == seq![Comp::Normal(s)]);
    let cs = components(s);
    assert(join(cs) == s);
    assert(spec_next_node(s, true) == (Node::Recurse, 2nat));
    assert(s.skip(2) =~= Seq::<u8>::empty());
    let first = spec_parse_nodes(s, Stop::Never, Seq::empty(), 0);
    assert(first == spec_parse_nodes(s.skip(2), Stop::Never, seq![Node::Recurse], 2));
    assert(Seq::<Node>::empty().push(Node::Recurse) =~= seq![Node::Recurse]);
}

/// `t2` is a thread that running one instruction of `t` leads to: the thread that goes on, or
/// one that it saves for later.
pub open spec fn successor(prog: Seq<Instr>, path: Seq<Comp>, t: Thread, t2: Thread) -> bool {
    match effect(prog, path, t) {
        Effect::Next(u) => t2 == u,
        Effect::Fork(s, u) => t2 == s || t2 == u,
        Effect::ExhaustedThen(u) => t2 == u,
        _ => false,
    }
}

/// A line of threads, each a successor of the one before.
pub open spec fn is_chain(prog: Seq<Instr>, path: Seq<Comp>, ch: Seq<Thread>) -> bool {
    ch.len() >= 1 && forall|i: int|
        0 <= i < ch.len() - 1 ==> #[trigger] successor(prog, path, ch[i], ch[i + 1])
}

/// A thread that a line of threads leads to from the first thread of a search with `n`
/// counters.
pub open spec fn derivable(prog: Seq<Instr>, path: Seq<Comp>, n: nat, t: Thread) -> bool {
    exists|ch: Seq<Thread>|
        #[trigger] is_chain(prog, path, ch) && ch[0] == initial(n).thread && ch.last() == t
}

/// Some line of threads from the first thread of a search ends in a thread that accepts.
pub open spec fn accepting_chain(prog: Seq<Instr>, path: Seq<Comp>, n: nat) -> bool {
    exists|ch: Seq<Thread>|
        #[trigger] is_chain(prog, path, ch) && ch[0] == initial(n).thread && effect(
            prog,
            path,
            ch.last(),
        ) is Accept
}

pub open spec fn traced(prog: Seq<Instr>, path: Seq<Comp>, n: nat, m: Machine) -> bool {
    &&& derivable(prog, path, n, m.thread)
    &&& forall|j: int| 0 <= j < m.stack.len() ==> #[trigger] derivable(prog, path, n, m.stack[j])
    &&& m.complete ==> accepting_chain(prog, path, n)
}

proof fn lemma_extend_chain(prog: Seq<Instr>, path: Seq<Comp>, n: nat, t: Thread, t2: Thread)
    requires
        derivable(prog, path, n, t),
        successor(prog, path, t, t2),
    ensures
        derivable(prog, path, n, t2),
{
    let ch = choose|ch: Seq<Thread>|
        #[trigger] is_chain(prog, path, ch) && ch[0] == initial(n).thread && ch.last() == t;
    let ch2 = ch.push(t2);
    assert forall|i: int| 0 <= i < ch2.len() - 1 implies #[trigger] successor(
        prog,
        path,
        ch2[i],
        ch2[i + 1],
    ) by {
        if i < ch.len() - 1 {
            assert(ch2[i] == ch[i] && ch2[i + 1] == ch[i + 1]);
            assert(successor(prog, path, ch[i], ch[i + 1]));
        } else {
            assert(ch2[i] == t && ch2[i + 1] == t2);
        }
    }
    assert(is_chain(prog, path, ch2));
    assert(ch2[0] == ch[0]);
}

proof fn lemma_step_traced(prog: Seq<Instr>, path: Seq<Comp>, n: nat, m: Machine)
    requires
        traced(prog, path, n, m),
        !m.halted,
    ensures
        traced(prog, path, n, step(prog, path, m)),
{
    let t = m.thread;
    let m2 = step(prog, path, m);
    match effect(prog, path, t) {
        Effect::Next(u) => {
            lemma_extend_chain(prog, path, n, t, u);
        },
        Effect::Fork(s, u) => {
            lemma_extend_chain(prog, path, n, t, u);
            lemma_extend_chain(prog, path, n, t, s);
            assert forall|j: int| 0 <= j < m2.stack.len() implies #[trigger] derivable(
                prog,
                path,
                n,
                m2.stack[j],
            ) by {
                if j < m.stack.len() {
                    assert(m2.stack[j] == m.stack[j]);
                } else {
                    assert(m2.stack[j] == s);
                }
            }
        },
        Effect::ExhaustedThen(u) => {
            lemma_extend_chain(prog, path, n, t, u);
        },
        Effect::Accept => {
            let ch = choose|ch: Seq<Thread>|
                #[trigger] is_chain(prog, path, ch) && ch[0] == initial(n).thread && ch.last()
                    == t;
            assert(is_chain(prog, path, ch));
        },
        _ => {
            if m.stack.len() > 0 {
                assert(m2.thread == m.stack[m.stack.len() - 1]);
                assert forall|j: int| 0 <= j < m2.stack.len() implies #[trigger] derivable(
                    prog,
                    path,
                    n,
                    m2.stack[j],
                ) by {
                    assert(m2.stack[j] == m.stack[j]);
                }
            }
        },
    }
}

proof fn lemma_run_traced(prog: Seq<Instr>, path: Seq<Comp>, n: nat, m: Machine, fuel: nat)
    requires
        traced(prog, path, n, m),
    ensures
        traced(prog, path, n, run(prog, path, m, fuel)),
    decreases fuel,
{
    if !m.halted && fuel > 0 {
        lemma_step_traced(prog, path, n, m);
        lemma_run_traced(prog, path, n, step(prog, path, m), (fuel - 1) as nat);
    }
}

/// A search that reports a complete match has a line of threads that ends in acceptance.
proof fn lemma_complete_has_chain(prog: Seq<Instr>, n: nat, path: Seq<Comp>)
    requires
        search(prog, n, path).complete,
    ensures
        accepting_chain(prog, path, n),
{
    let m0 = initial(n);
    let ch = seq![m0.thread];
    assert(is_chain(prog, path, ch));
    assert(derivable(prog, path, n, m0.thread));
    lemma_run_traced(prog, path, n, m0, STEP_LIMIT as nat);
}

proof fn lemma_successor_component(prog: Seq<Instr>, path: Seq<Comp>, t: Thread, t2: Thread)
    requires
        t.component <= path.len(),
        successor(prog, path, t, t2),
    ensures
        t2.component <= path.len(),
{
}

/// On the first `k` components of `p`, a thread that has taken at most `k` of them does what it
/// does on `p`, or runs out of input.
proof fn lemma_effect_on_prefix(prog: Seq<Instr>, p: Seq<Comp>, k: nat, t: Thread)
    requires
        k < p.len(),
        t.component <= k,
    ensures
        effect(prog, p.take(k as int), t) == effect(prog, p, t) || effect(
            prog,
            p.take(k as int),
            t,
        ) is Exhausted || effect(prog, p.take(k as int), t) is ExhaustedThen || effect(prog, p, t)
            is Fail || effect(prog, p, t) is Exhausted,
        !(effect(prog, p, t) is Accept),
{
    let q = p.take(k as int);
    assert(current_rest(q, t) == current_rest(p, t)) by {
        if 1 <= t.component {
            assert(q[t.component - 1] == p[t.component - 1]);
        }
    }
    if t.component < k {
        assert(q[t.component as int] == p[t.component as int]);
        assert(pull(q, t) == pull(p, t));
    }
}

/// The run on `p` and the run on its prefix agree on the first `i` threads of the line `ch`.
pub open spec fn agrees_to(prog: Seq<Instr>, p: Seq<Comp>, k: nat, ch: Seq<Thread>, i: int) -> bool {
    forall|j: int| 0 <= j < i ==> #[trigger] effect(prog, p.take(k as int), ch[j]) == effect(
        prog,
        p,
        ch[j],
    )
}

proof fn lemma_agreeing_components(
    prog: Seq<Instr>,
    p: Seq<Comp>,
    k: nat,
    n: nat,
    ch: Seq<Thread>,
    i: int,
)
    requires
        k < p.len(),
        is_chain(prog, p, ch),
        ch[0] == initial(n).thread,
        0 <= i < ch.len(),
        agrees_to(prog, p, k, ch, i),
    ensures
        ch[i].component <= k,
    decreases i,
{
    if i > 0 {
        lemma_agreeing_components(prog, p, k, n, ch, i - 1);
        assert(effect(prog, p.take(k as int), ch[i - 1]) == effect(prog, p, ch[i - 1]));
        assert(successor(prog, p, ch[i - 1], ch[(i - 1) + 1]));
        assert(successor(prog, p.take(k as int), ch[i - 1], ch[i]));
        lemma_successor_component(prog, p.take(k as int), ch[i - 1], ch[i]);
    }
}

/// What the search on the prefix keeps while it runs: it has recorded a prefix or a complete
/// match, or a thread of the line `ch` that the two runs agree on up to is still to run.
pub open spec fn on_track(
    prog: Seq<Instr>,
    p: Seq<Comp>,
    k: nat,
    ch: Seq<Thread>,
    m: Machine,
) -> bool {
    m.prefix || (!m.halted && exists|i: int|
        0 <= i < ch.len() && #[trigger] agrees_to(prog, p, k, ch, i) && (m.thread == ch[i]
            || m.stack.contains(ch[i])))
}

proof fn lemma_step_on_track(
    prog: Seq<Instr>,
    p: Seq<Comp>,
    k: nat,
    n: nat,
    ch: Seq<Thread>,
    m: Machine,
)
    requires
        k < p.len(),
        is_chain(prog, p, ch),
        ch[0] == initial(n).thread,
        effect(prog, p, ch.last()) is Accept,
        on_track(prog, p, k, ch, m),
        !m.halted,
    ensures
        on_track(prog, p, k, ch, step(prog, p.take(k as int), m)),
{
    let q = p.take(k as int);
    let m2 = step(prog, q, m);
    let a = apply(effect(prog, q, m.thread), m);
    if m.prefix || a.prefix {
        return;
    }
    assert(m2 == a);
    let i = choose|i: int|
        0 <= i < ch.len() && #[trigger] agrees_to(prog, p, k, ch, i) && (m.thread == ch[i]
            || m.stack.contains(ch[i]));
    lemma_agreeing_components(prog, p, k, n, ch, i);
    lemma_effect_on_prefix(prog, p, k, ch[i]);
    if m.thread == ch[i] {
        let e = effect(prog, q, ch[i]);
        if e is Exhausted || e is ExhaustedThen {
            return;
        }
        if i == ch.len() - 1 {
            assert(false);
        }
        assert(successor(prog, p, ch[i], ch[i + 1]));
        assert(e == effect(prog, p, ch[i]));
        assert(agrees_to(prog, p, k, ch, i + 1)) by {
            assert forall|j: int| 0 <= j < i + 1 implies #[trigger] effect(prog, q, ch[j]) == effect(
                prog,
                p,
                ch[j],
            ) by {
                if j < i {
                    assert(agrees_to(prog, p, k, ch, i));
                }
            }
        }
        match e {
            Effect::Fork(sv, u) => {
                if ch[i + 1] == sv {
                    assert(m2.stack[m2.stack.len() - 1] == sv);
                    assert(m2.stack.contains(ch[i + 1]));
                }
            },
            _ => {},
        }
    } else {
        let j = choose|j: int| 0 <= j < m.stack.len() && m.stack[j] == ch[i];
        match effect(prog, q, m.thread) {
            Effect::Fork(sv, u) => {
                assert(m2.stack[j] == ch[i]);
                assert(m2.stack.contains(ch[i]));
            },
            Effect::Next(u) => {
                assert(m2.stack.contains(ch[i]));
            },
            Effect::ExhaustedThen(u) => {},
            Effect::Exhausted => {},
            _ => {
                if j < m.stack.len() - 1 {
                    assert(m2.stack[j] == ch[i]);
                    assert(m2.stack.contains(ch[i]));
                } else {
                    assert(m2.thread == ch[i]);
                }
            },
        }
    }
}

proof fn lemma_run_on_track(
    prog: Seq<Instr>,
    p: Seq<Comp>,
    k: nat,
    n: nat,
    ch: Seq<Thread>,
    m: Machine,
    fuel: nat,
)
    requires
        k < p.len(),
        is_chain(prog, p, ch),
        ch[0] == initial(n).thread,
        effect(prog, p, ch.last()) is Accept,
        on_track(prog, p, k, ch, m),
    ensures
        on_track(prog, p, k, ch, run(prog, p.take(k as int), m, fuel)),
    decreases fuel,
{
    if !m.halted && fuel > 0 {
        lemma_step_on_track(prog, p, k, n, ch, m);
        lemma_run_on_track(prog, p, k, n, ch, step(prog, p.take(k as int), m), (fuel - 1) as nat);
    }
}

/// Where a path matches completely, each path made of fewer of its leading components is
/// reported as a prefix, so a walker reaches the match; where the search of the shorter path
/// ends within the step limit.
pub proof fn lemma_prefix_of_match(ns: Seq<Node>, q: Seq<u8>, p: Seq<u8>)
    requires
        components(q).len() < components(p).len(),
        components(q) == components(p).take(components(q).len() as int),
        pattern_match(ns, p).valid_as_complete_match,
        search(program_of(ns), repeats_seq(ns), components(q)).halted,
    ensures
        pattern_match(ns, q).valid_as_prefix,
{
    let prog = program_of(ns);
    let n = repeats_seq(ns);
    let pc = components(p);
    let k = components(q).len();
    lemma_complete_has_chain(prog, n, pc);
    let ch = choose|ch: Seq<Thread>|
        #[trigger] is_chain(prog, pc, ch) && ch[0] == initial(n).thread && effect(
            prog,
            pc,
            ch.last(),
        ) is Accept;
    let m0 = initial(n);
    assert(agrees_to(prog, pc, k, ch, 0));
    assert(on_track(prog, pc, k, ch, m0));
    lemma_run_on_track(prog, pc, k, n, ch, m0, STEP_LIMIT as nat);
}

} // verus!
