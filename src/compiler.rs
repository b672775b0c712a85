//! Compiling a syntax tree into bytecode for the matcher.
use vstd::prelude::*;
use vstd::slice::slice_to_vec;

use crate::parser::{
    choices_view, lemma_choices_view, lemma_choices_view_take, lemma_nodes_view,
    lemma_nodes_view_take, nodes_view, AstNode, CharacterClass, Node, Pattern,
};

verus! {

broadcast use vstd::seq::group_seq_axioms, vstd::std_specs::vec::group_vec_axioms;

/// The index of an instruction in a program.
#[derive(Debug, Clone, Copy, PartialEq, Eq)]
pub struct ProgramOffset(pub usize);

/// The number of a repetition counter.
#[derive(Debug, Clone, Copy, PartialEq, Eq)]
pub struct CounterId(pub u16);

/// One bytecode instruction.
#[derive(Debug, Clone, PartialEq, Eq)]
pub enum Instruction {
    Separator,
    Prefix(Vec<u8>),
    RootDir,
    CurDir,
    ParentDir,
    LiteralString(Vec<u8>),
    AnyCharacter,
    AnyString,
    Characters(Vec<CharacterClass>),
    Jump(ProgramOffset),
    Alternative(ProgramOffset),
    Increment(CounterId),
    BranchIfLessThan(ProgramOffset, CounterId, u32),
    Complete,
}

/// What an `Instruction` holds.
pub enum Instr {
    Separator,
    Prefix(Seq<u8>),
    RootDir,
    CurDir,
    ParentDir,
    LiteralString(Seq<u8>),
    AnyCharacter,
    AnyString,
    Characters(Seq<CharacterClass>),
    Jump(nat),
    Alternative(nat),
    Increment(nat),
    BranchIfLessThan(nat, nat, u32),
    Complete,
}

impl Instruction {
    pub open spec fn view(&self) -> Instr {
        match self {
            Instruction::Separator => Instr::Separator,
            Instruction::Prefix(t) => Instr::Prefix(t@),
            Instruction::RootDir => Instr::RootDir,
            Instruction::CurDir => Instr::CurDir,
            Instruction::ParentDir => Instr::ParentDir,
            Instruction::LiteralString(b) => Instr::LiteralString(b@),
            Instruction::AnyCharacter => Instr::AnyCharacter,
            Instruction::AnyString => Instr::AnyString,
            Instruction::Characters(c) => Instr::Characters(c@),
            Instruction::Jump(o) => Instr::Jump(o.0 as nat),
            Instruction::Alternative(o) => Instr::Alternative(o.0 as nat),
            Instruction::Increment(c) => Instr::Increment(c.0 as nat),
            Instruction::BranchIfLessThan(o, c, v) => Instr::BranchIfLessThan(
                o.0 as nat,
                c.0 as nat,
                *v,
            ),
            Instruction::Complete => Instr::Complete,
        }
    }
}

pub open spec fn instrs_view(v: Seq<Instruction>) -> Seq<Instr> {
    v.map_values(|i: Instruction| i@)
}

/// A compiled glob.
#[derive(Debug, Clone, PartialEq, Eq, Default)]
pub struct Program {
    pub instructions: Vec<Instruction>,
    /// How many counters the instructions use.
    pub counters: u16,
    /// The path that the program's leading root and prefix instructions match, if it has any.
    pub absolute_prefix: Option<Vec<u8>>,
}

impl Program {
    pub open spec fn instrs(&self) -> Seq<Instr> {
        instrs_view(self.instructions@)
    }
}

/// Why a pattern could not be compiled.
#[derive(Debug, Clone, Copy, PartialEq, Eq)]
pub enum CompileError {
    /// The pattern holds more repetitions than there are counter ids.
    TooManyRepeats,
    /// The program would hold more instructions than an address can count.
    ProgramTooLarge,
}

/// The most counters a program can use.
pub const MAX_COUNTERS: u16 = 0xFFFF;

/// The number of instructions that a node compiles to.
pub open spec fn code_len(n: Node) -> nat
    decreases n,
{
    match n {
        Node::Wildcard => 4,
        Node::Recurse => 5,
        Node::Alternatives(cs) => heads_len(cs) + choices_len(cs),
        Node::Repeat(min, max, body) => code_len_seq(body) + 2 + if max > min {
            3nat
        } else {
            0nat
        },
        _ => 1,
    }
}

pub open spec fn code_len_seq(ns: Seq<Node>) -> nat
    decreases ns,
{
    if ns.len() == 0 {
        0
    } else {
        code_len_seq(ns.drop_last()) + code_len(ns.last())
    }
}

/// The number of `Alternative` instructions at the head of the code of alternatives.
pub open spec fn heads_len(cs: Seq<Seq<Node>>) -> nat {
    if cs.len() == 0 {
        0
    } else {
        (cs.len() - 1) as nat
    }
}

/// The length of the code of the choices, each followed by a jump to the end.
pub open spec fn choices_len(cs: Seq<Seq<Node>>) -> nat
    decreases cs,
{
    if cs.len() == 0 {
        0
    } else {
        choices_len(cs.drop_last()) + code_len_seq(cs.last()) + 1
    }
}

/// The number of repetitions in a node, each of which takes a counter.
pub open spec fn repeats(n: Node) -> nat
    decreases n,
{
    match n {
        Node::Alternatives(cs) => repeats_choices(cs),
        Node::Repeat(_, _, body) => 1 + repeats_seq(body),
        _ => 0,
    }
}

pub open spec fn repeats_seq(ns: Seq<Node>) -> nat
    decreases ns,
{
    if ns.len() == 0 {
        0
    } else {
        repeats_seq(ns.drop_last()) + repeats(ns.last())
    }
}

pub open spec fn repeats_choices(cs: Seq<Seq<Node>>) -> nat
    decreases cs,
{
    if cs.len() == 0 {
        0
    } else {
        repeats_choices(cs.drop_last()) + repeats_seq(cs.last())
    }
}

/// The code of a node placed at offset `at`, whose first repetition takes counter `ctr`.
pub open spec fn emit(n: Node, at: nat, ctr: nat) -> Seq<Instr>
    decreases n,
{
    match n {
        Node::Separator => seq![Instr::Separator],
        Node::Prefix(t) => seq![Instr::Prefix(t)],
        Node::RootDir => seq![Instr::RootDir],
        Node::CurDir => seq![Instr::CurDir],
        Node::ParentDir => seq![Instr::ParentDir],
        Node::LiteralString(b) => seq![Instr::LiteralString(b)],
        Node::AnyCharacter => seq![Instr::AnyCharacter],
        Node::Characters(c) => seq![Instr::Characters(c)],
        // fork: one branch goes on after the gadget, the other takes one more character
        Node::Wildcard => seq![
            Instr::Alternative(at + 2),
            Instr::Jump(at + 4),
            Instr::AnyCharacter,
            Instr::Jump(at),
        ],
        // fork: one branch goes on after the gadget, the other takes one more component
        Node::Recurse => seq![
            Instr::Alternative(at + 2),
            Instr::Jump(at + 5),
            Instr::AnyString,
            Instr::Separator,
            Instr::Jump(at),
        ],
        Node::Alternatives(cs) => emit_heads(cs, at + heads_len(cs), heads_len(cs))
            + emit_choices(cs, at + heads_len(cs), ctr, at + heads_len(cs) + choices_len(cs)),
        Node::Repeat(min, max, body) => {
            let here = at + 1 + code_len_seq(body) + 1;
            seq![Instr::Increment(ctr)] + emit_seq(body, at + 1, ctr + 1) + seq![
                Instr::BranchIfLessThan(at, ctr, min),
            ] + if max > min {
                seq![
                    Instr::BranchIfLessThan(here + 2, ctr, max),
                    Instr::Jump(here + 3),
                    Instr::Alternative(at),
                ]
            } else {
                Seq::empty()
            }
        },
    }
}

/// The code of a sequence of nodes, one after the other.
pub open spec fn emit_seq(ns: Seq<Node>, at: nat, ctr: nat) -> Seq<Instr>
    decreases ns,
{
    if ns.len() == 0 {
        Seq::empty()
    } else {
        emit_seq(ns.drop_last(), at, ctr) + emit(
            ns.last(),
            at + code_len_seq(ns.drop_last()),
            ctr + repeats_seq(ns.drop_last()),
        )
    }
}

/// The first `k` of the `Alternative` instructions that fork to the choices after the first,
/// where the choices start at `base`.
pub open spec fn emit_heads(cs: Seq<Seq<Node>>, base: nat, k: nat) -> Seq<Instr>
    decreases k,
{
    if k == 0 {
        Seq::empty()
    } else {
        emit_heads(cs, base, (k - 1) as nat).push(
            Instr::Alternative(base + choices_len(cs.take(k as int))),
        )
    }
}

/// The code of the choices placed at `at`, each followed by a jump to `end`.
pub open spec fn emit_choices(cs: Seq<Seq<Node>>, at: nat, ctr: nat, end: nat) -> Seq<Instr>
    decreases cs,
{
    if cs.len() == 0 {
        Seq::empty()
    } else {
        let init = cs.drop_last();
        emit_choices(init, at, ctr, end) + emit_seq(
            cs.last(),
            at + choices_len(init),
            ctr + repeats_choices(init),
        ) + seq![Instr::Jump(end)]
    }
}

/// The path that the leading root and prefix nodes of a pattern stand for.
pub open spec fn head_path(ns: Seq<Node>) -> Seq<u8>
    decreases ns.len(),
{
    if ns.len() == 0 {
        Seq::empty()
    } else {
        match ns[0] {
            Node::Prefix(t) => t + head_path(ns.skip(1)),
            Node::RootDir => seq![0x2Fu8] + head_path(ns.skip(1)),
            _ => Seq::empty(),
        }
    }
}

/// The absolute prefix of a program compiled from `ns`: present where `ns` starts with a root
/// or a prefix.
pub open spec fn absolute_prefix_of(ns: Seq<Node>) -> Option<Seq<u8>> {
    if ns.len() > 0 && (ns[0] is Prefix || ns[0] is RootDir) {
        Some(head_path(ns))
    } else {
        None
    }
}

pub proof fn lemma_seq_push(ns: Seq<Node>, n: Node, at: nat, ctr: nat)
    ensures
        code_len_seq(ns.push(n)) == code_len_seq(ns) + code_len(n),
        repeats_seq(ns.push(n)) == repeats_seq(ns) + repeats(n),
        emit_seq(ns.push(n), at, ctr) == emit_seq(ns, at, ctr) + emit(
            n,
            at + code_len_seq(ns),
            ctr + repeats_seq(ns),
        ),
{
    assert(ns.push(n).drop_last() =~= ns);
}

pub proof fn lemma_choices_push(cs: Seq<Seq<Node>>, c: Seq<Node>, at: nat, ctr: nat, end: nat)
    ensures
        choices_len(cs.push(c)) == choices_len(cs) + code_len_seq(c) + 1,
        repeats_choices(cs.push(c)) == repeats_choices(cs) + repeats_seq(c),
        emit_choices(cs.push(c), at, ctr, end) == emit_choices(cs, at, ctr, end) + emit_seq(
            c,
            at + choices_len(cs),
            ctr + repeats_choices(cs),
        ) + seq![Instr::Jump(end)],
{
    assert(cs.push(c).drop_last() =~= cs);
}

/// Sums over a prefix of the nodes are at most the sums over all of them.
pub proof fn lemma_nodes_prefix(s: Seq<AstNode>, i: int)
    requires
        0 <= i <= s.len(),
    ensures
        code_len_seq(nodes_view(s.take(i))) <= code_len_seq(nodes_view(s)),
        repeats_seq(nodes_view(s.take(i))) <= repeats_seq(nodes_view(s)),
    decreases s.len() - i,
{
    if i == s.len() {
        assert(s.take(i) =~= s);
    } else {
        lemma_nodes_prefix(s, i + 1);
        lemma_nodes_view_take(s, i);
        lemma_seq_push(nodes_view(s.take(i)), s[i].view(), 0, 0);
    }
}

/// Sums over a prefix of the choices are at most the sums over all of them.
pub proof fn lemma_choices_prefix(s: Seq<Pattern>, i: int)
    requires
        0 <= i <= s.len(),
    ensures
        choices_len(choices_view(s.take(i))) <= choices_len(choices_view(s)),
        repeats_choices(choices_view(s.take(i))) <= repeats_choices(choices_view(s)),
    decreases s.len() - i,
{
    if i == s.len() {
        assert(s.take(i) =~= s);
    } else {
        lemma_choices_prefix(s, i + 1);
        lemma_choices_view_take(s, i);
        lemma_choices_push(choices_view(s.take(i)), nodes_view(s[i].nodes@), 0, 0, 0);
    }
}

/// The number of instructions that `nodes` compile to, where it fits in a `usize`.
fn code_len_nodes(nodes: &Vec<AstNode>) -> (r: Option<usize>)
    ensures
        r matches Some(n) ==> n == code_len_seq(nodes_view(nodes@)),
        r is None ==> code_len_seq(nodes_view(nodes@)) > usize::MAX,
    decreases nodes,
{
    let mut total: usize = 0;
    let mut i: usize = 0;
    while i < nodes.len()
        invariant
            i <= nodes@.len(),
            total == code_len_seq(nodes_view(nodes@.take(i as int))),
        decreases nodes@.len() - i,
    {
        proof {
            lemma_nodes_view_take(nodes@, i as int);
            lemma_seq_push(nodes_view(nodes@.take(i as int)), nodes@[i as int].view(), 0, 0);
            lemma_nodes_prefix(nodes@, i + 1);
        }
        let n = match code_len_node(&nodes[i]) {
            Some(n) => n,
            None => return None,
        };
        total = match total.checked_add(n) {
            Some(t) => t,
            None => return None,
        };
        i = i + 1;
    }
    proof {
        assert(nodes@.take(i as int) =~= nodes@);
    }
    Some(total)
}

/// The number of instructions that `node` compiles to, where it fits in a `usize`.
fn code_len_node(node: &AstNode) -> (r: Option<usize>)
    ensures
        r matches Some(n) ==> n == code_len(node@),
        r is None ==> code_len(node@) > usize::MAX,
    decreases node,
{
    match node {
        AstNode::Wildcard => Some(4),
        AstNode::Recurse => Some(5),
        AstNode::Alternatives { choices } => {
            let ghost cs = choices_view(choices@);
            proof {
                lemma_choices_view(choices@);
            }
            let heads: usize = if choices.len() == 0 {
                0
            } else {
                choices.len() - 1
            };
            let mut total: usize = heads;
            let mut i: usize = 0;
            while i < choices.len()
                invariant
                    i <= choices@.len(),
                    cs == choices_view(choices@),
                    *node == (AstNode::Alternatives { choices: *choices }),
                    heads == heads_len(cs),
                    total == heads + choices_len(choices_view(choices@.take(i as int))),
                decreases choices@.len() - i,
            {
                proof {
                    lemma_choices_view_take(choices@, i as int);
                    lemma_choices_push(
                        choices_view(choices@.take(i as int)),
                        nodes_view(choices@[i as int].nodes@),
                        0,
                        0,
                        0,
                    );
                    lemma_choices_prefix(choices@, i + 1);
                    assert(decreases_to!(*choices => choices[i as int]));
                }
                let n = match code_len_nodes(&choices[i].nodes) {
                    Some(n) => n,
                    None => {
                        assert(node@ == Node::Alternatives(cs));
                        assert(code_len(node@) == heads + choices_len(cs));
                        return None;
                    },
                };
                total = match total.checked_add(n) {
                    Some(t) => t,
                    None => return None,
                };
                total = match total.checked_add(1) {
                    Some(t) => t,
                    None => return None,
                };
                i = i + 1;
            }
            proof {
                assert(choices@.take(i as int) =~= choices@);
            }
            Some(total)
        },
        AstNode::Repeat { min, max, pattern } => {
            let extra: usize = if *max > *min {
                5
            } else {
                2
            };
            match code_len_nodes(&pattern.nodes) {
                Some(n) => n.checked_add(extra),
                None => None,
            }
        },
        _ => Some(1),
    }
}

pub open spec fn bytes_view(o: Option<Vec<u8>>) -> Option<Seq<u8>> {
    match o {
        Some(v) => Some(v@),
        None => None,
    }
}

impl Program {
    fn here(&self) -> (r: ProgramOffset)
        ensures
            r.0 == self.instructions@.len(),
    {
        ProgramOffset(self.instructions.len())
    }

    /// Appends one instruction.
    fn push(&mut self, i: Instruction)
        ensures
            final(self).instructions@ == old(self).instructions@.push(i),
            final(self).instrs() == old(self).instrs().push(i@),
            final(self).counters == old(self).counters,
            final(self).absolute_prefix == old(self).absolute_prefix,
    {
        self.instructions.push(i);
        assert(self.instrs() =~= old(self).instrs().push(i@));
    }
}

pub proof fn lemma_choices_view_prefix(s: Seq<Pattern>, k: int)
    requires
        0 <= k <= s.len(),
    ensures
        choices_view(s.take(k)) == choices_view(s).take(k),
{
    lemma_choices_view(s);
    lemma_choices_view(s.take(k));
    assert(choices_view(s.take(k)) =~= choices_view(s).take(k));
}

proof fn lemma_emit_heads_len(cs: Seq<Seq<Node>>, base: nat, k: nat)
    ensures
        emit_heads(cs, base, k).len() == k,
    decreases k,
{
    if k > 0 {
        lemma_emit_heads_len(cs, base, (k - 1) as nat);
    }
}

/// The wildcard gadget: a loop that forks between leaving and taking one more character.
fn append_wildcard_gadget(out: &mut Program)
    requires
        old(out).instructions@.len() + 4 <= usize::MAX,
    ensures
        final(out).instrs() == old(out).instrs() + emit(
            Node::Wildcard,
            old(out).instructions@.len(),
            old(out).counters as nat,
        ),
        final(out).counters == old(out).counters,
        final(out).absolute_prefix == old(out).absolute_prefix,
{
    let start = out.here();
    out.push(Instruction::Alternative(ProgramOffset(start.0 + 2)));
    out.push(Instruction::Jump(ProgramOffset(start.0 + 4)));  // the non-alternative target
    out.push(Instruction::AnyCharacter);  // alternative target
    out.push(Instruction::Jump(start));
    assert(out.instrs() =~= old(out).instrs() + emit(
        Node::Wildcard,
        old(out).instructions@.len(),
        old(out).counters as nat,
    ));
}

/// The recurse gadget: a loop that forks between leaving and taking one more component.
fn append_recurse_gadget(out: &mut Program)
    requires
        old(out).instructions@.len() + 5 <= usize::MAX,
    ensures
        final(out).instrs() == old(out).instrs() + emit(
            Node::Recurse,
            old(out).instructions@.len(),
            old(out).counters as nat,
        ),
        final(out).counters == old(out).counters,
        final(out).absolute_prefix == old(out).absolute_prefix,
{
    let start = out.here();
    out.push(Instruction::Alternative(ProgramOffset(start.0 + 2)));
    out.push(Instruction::Jump(ProgramOffset(start.0 + 5)));  // the non-alternative target
    out.push(Instruction::AnyString);
    out.push(Instruction::Separator);
    out.push(Instruction::Jump(start));
    assert(out.instrs() =~= old(out).instrs() + emit(
        Node::Recurse,
        old(out).instructions@.len(),
        old(out).counters as nat,
    ));
}

/// Appends the code of each node in turn.
fn append_nodes(out: &mut Program, nodes: &Vec<AstNode>) -> (r: Result<(), CompileError>)
    requires
        old(out).instructions@.len() + code_len_seq(nodes_view(nodes@)) <= usize::MAX,
    ensures
        r is Ok <==> old(out).counters as int + repeats_seq(nodes_view(nodes@)) <= MAX_COUNTERS as int,
        r is Ok ==> final(out).instrs() == old(out).instrs() + emit_seq(
            nodes_view(nodes@),
            old(out).instructions@.len(),
            old(out).counters as nat,
        ) && final(out).counters == old(out).counters as int + repeats_seq(nodes_view(nodes@))
            && final(out).instructions@.len() == old(out).instructions@.len() + code_len_seq(
            nodes_view(nodes@),
        ),
        final(out).absolute_prefix == old(out).absolute_prefix,
    decreases nodes,
{
    let ghost at = old(out).instructions@.len();
    let ghost ctr = old(out).counters as nat;
    let ghost all = nodes_view(nodes@);
    let mut i: usize = 0;
    assert(out.instrs() =~= old(out).instrs() + emit_seq(nodes_view(nodes@.take(0)), at, ctr));
    while i < nodes.len()
        invariant
            i <= nodes@.len(),
            at == old(out).instructions@.len(),
            ctr == old(out).counters,
            at + code_len_seq(all) <= usize::MAX,
            all == nodes_view(nodes@),
            out.instructions@.len() == at + code_len_seq(nodes_view(nodes@.take(i as int))),
            out.counters == ctr + repeats_seq(nodes_view(nodes@.take(i as int))),
            out.instrs() == old(out).instrs() + emit_seq(
                nodes_view(nodes@.take(i as int)),
                at,
                ctr,
            ),
            out.absolute_prefix == old(out).absolute_prefix,
        decreases nodes@.len() - i,
    {
        let ghost prev = nodes_view(nodes@.take(i as int));
        proof {
            lemma_nodes_view_take(nodes@, i as int);
            lemma_seq_push(prev, nodes@[i as int].view(), at, ctr);
            lemma_nodes_prefix(nodes@, i + 1);
            assert(decreases_to!(*nodes => nodes[i as int]));
        }
        let ghost before = out.instrs();
        match append_program(out, &nodes[i]) {
            Ok(()) => {},
            Err(e) => {
                assert(repeats_seq(nodes_view(nodes@.take(i + 1))) == repeats_seq(prev) + repeats(
                    nodes@[i as int].view(),
                ));
                let r: Result<(), CompileError> = Err(e);
                assert(!(r is Ok));
                return r;
            },
        }
        assert(out.instrs() =~= old(out).instrs() + emit_seq(
            nodes_view(nodes@.take(i + 1)),
            at,
            ctr,
        ));
        i = i + 1;
    }
    assert(nodes@.take(i as int) =~= nodes@);
    Ok(())
}

fn append_program(out: &mut Program, node: &AstNode) -> (r: Result<(), CompileError>)
    requires
        old(out).instructions@.len() + code_len(node@) <= usize::MAX,
    ensures
        r is Ok <==> old(out).counters as int + repeats(node@) <= MAX_COUNTERS as int,
        r is Ok ==> final(out).instrs() == old(out).instrs() + emit(
            node@,
            old(out).instructions@.len(),
            old(out).counters as nat,
        ) && final(out).counters == old(out).counters as int + repeats(node@)
            && final(out).instructions@.len() == old(out).instructions@.len() + code_len(node@),
        final(out).absolute_prefix == old(out).absolute_prefix,
    decreases node,
{
    let ghost at = old(out).instructions@.len();
    let ghost ctr = old(out).counters as nat;
    match node {
        AstNode::Separator => {
            out.push(Instruction::Separator);
        },
        AstNode::Prefix(prefix) => {
            out.push(Instruction::Prefix(slice_to_vec(prefix.as_slice())));
        },
        AstNode::RootDir => {
            out.push(Instruction::RootDir);
        },
        AstNode::CurDir => {
            out.push(Instruction::CurDir);
        },
        AstNode::ParentDir => {
            out.push(Instruction::ParentDir);
        },
        AstNode::LiteralString(string) => {
            out.push(Instruction::LiteralString(slice_to_vec(string.as_slice())));
        },
        AstNode::AnyCharacter => {
            out.push(Instruction::AnyCharacter);
        },
        AstNode::Characters(character_classes) => {
            out.push(Instruction::Characters(slice_to_vec(character_classes.as_slice())));
        },
        AstNode::Wildcard => {
            append_wildcard_gadget(out);
        },
        AstNode::Recurse => {
            append_recurse_gadget(out);
        },
        AstNode::Alternatives { choices } => {
            return append_alternatives(out, choices);
        },
        AstNode::Repeat { min, max, pattern } => {
            return append_repeat(out, *min, *max, pattern);
        },
    }
    assert(out.instrs() =~= old(out).instrs() + emit(node@, at, ctr));
    Ok(())
}

fn append_alternatives(out: &mut Program, choices: &Vec<Pattern>) -> (r: Result<(), CompileError>)
    requires
        old(out).instructions@.len() + code_len(Node::Alternatives(choices_view(choices@)))
            <= usize::MAX,
    ensures
        r is Ok <==> old(out).counters as int + repeats_choices(choices_view(choices@)) <= MAX_COUNTERS as int,
        r is Ok ==> final(out).instrs() == old(out).instrs() + emit(
            Node::Alternatives(choices_view(choices@)),
            old(out).instructions@.len(),
            old(out).counters as nat,
        ) && final(out).counters == old(out).counters as int + repeats_choices(choices_view(choices@))
            && final(out).instructions@.len() == old(out).instructions@.len() + code_len(
            Node::Alternatives(choices_view(choices@)),
        ),
        final(out).absolute_prefix == old(out).absolute_prefix,
    decreases choices,
{
    let ghost cs = choices_view(choices@);
    let ghost at = old(out).instructions@.len();
    let ghost ctr = old(out).counters as nat;
    proof {
        lemma_choices_view(choices@);
    }
    // First one Alternative instruction for each choice after the first
    let n = choices.len();
    let heads: usize = if n == 0 {
        0
    } else {
        n - 1
    };
    let base: usize = out.instructions.len() + heads;
    let mut sum: usize = 0;
    let mut k: usize = 0;
    while k < heads
        invariant
            n == choices@.len(),
            cs == choices_view(choices@),
            cs.len() == n,
            heads == heads_len(cs),
            base == at + heads,
            at + heads_len(cs) + choices_len(cs) <= usize::MAX,
            k <= heads,
            out.instructions@.len() == at + k,
            sum == choices_len(cs.take(k as int)),
            out.instrs() == old(out).instrs() + emit_heads(cs, base as nat, k as nat),
            out.counters == old(out).counters,
            out.absolute_prefix == old(out).absolute_prefix,
        decreases heads - k,
    {
        proof {
            lemma_choices_view_prefix(choices@, k as int);
            lemma_choices_view_prefix(choices@, k + 1);
            lemma_choices_view_take(choices@, k as int);
            lemma_choices_push(
                choices_view(choices@.take(k as int)),
                nodes_view(choices@[k as int].nodes@),
                0,
                0,
                0,
            );
            lemma_choices_prefix(choices@, k + 1);
        }
        let len = match code_len_nodes(&choices[k].nodes) {
            Some(len) => len,
            None => {
                return Err(CompileError::ProgramTooLarge);
            },
        };
        sum = sum + len + 1;
        out.push(Instruction::Alternative(ProgramOffset(base + sum)));
        k = k + 1;
    }
    // The code of the last choice ends where the jumps at the end of each choice go
    let mut end: usize = base + sum;
    if n > 0 {
        proof {
            lemma_choices_view_prefix(choices@, k as int);
            lemma_choices_view_take(choices@, k as int);
            lemma_choices_push(
                choices_view(choices@.take(k as int)),
                nodes_view(choices@[k as int].nodes@),
                0,
                0,
                0,
            );
            assert(choices@.take(n as int) =~= choices@);
        }
        let len = match code_len_nodes(&choices[k].nodes) {
            Some(len) => len,
            None => {
                return Err(CompileError::ProgramTooLarge);
            },
        };
        end = end + len + 1;
    }
    assert(end == at + heads_len(cs) + choices_len(cs));
    let ghost head_code = out.instrs();
    proof {
        lemma_emit_heads_len(cs, base as nat, heads as nat);
    }
    let mut i: usize = 0;
    assert(out.instrs() =~= head_code + emit_choices(choices_view(choices@.take(0)), base as nat, ctr, end as nat));
    while i < n
        invariant
            n == choices@.len(),
            cs == choices_view(choices@),
            cs.len() == n,
            base == at + heads,
            heads == heads_len(cs),
            end == at + heads_len(cs) + choices_len(cs),
            end <= usize::MAX,
            i <= n,
            at == old(out).instructions@.len(),
            ctr == old(out).counters,
            head_code.len() == at + heads,
            out.instructions@.len() == base + choices_len(choices_view(choices@.take(i as int))),
            out.counters == ctr + repeats_choices(choices_view(choices@.take(i as int))),
            out.instrs() == head_code + emit_choices(
                choices_view(choices@.take(i as int)),
                base as nat,
                ctr,
                end as nat,
            ),
            head_code == old(out).instrs() + emit_heads(cs, base as nat, heads as nat),
            out.absolute_prefix == old(out).absolute_prefix,
        decreases n - i,
    {
        let ghost prev = choices_view(choices@.take(i as int));
        proof {
            lemma_choices_view_take(choices@, i as int);
            lemma_choices_push(prev, nodes_view(choices@[i as int].nodes@), base as nat, ctr, end as nat);
            lemma_choices_prefix(choices@, i + 1);
            assert(decreases_to!(*choices => choices[i as int]));
        }
        match append_nodes(out, &choices[i].nodes) {
            Ok(()) => {},
            Err(e) => {
                assert(repeats_choices(choices_view(choices@.take(i + 1))) == repeats_choices(prev)
                    + repeats_seq(nodes_view(choices@[i as int].nodes@)));
                return Err(e);
            },
        }
        // Each choice ends with a jump past the last one
        out.push(Instruction::Jump(ProgramOffset(end)));
        assert(out.instrs() =~= head_code + emit_choices(
            choices_view(choices@.take(i + 1)),
            base as nat,
            ctr,
            end as nat,
        ));
        i = i + 1;
    }
    assert(choices@.take(n as int) =~= choices@);
    assert(out.instrs() =~= old(out).instrs() + emit(
        Node::Alternatives(choices_view(choices@)),
        at,
        ctr,
    ));
    Ok(())
}

fn append_repeat(out: &mut Program, min: u32, max: u32, pattern: &Pattern) -> (r: Result<
    (),
    CompileError,
>)
    requires
        old(out).instructions@.len() + code_len(Node::Repeat(min, max, nodes_view(pattern.nodes@)))
            <= usize::MAX,
    ensures
        r is Ok <==> old(out).counters as int + 1 + repeats_seq(nodes_view(pattern.nodes@))
            <= MAX_COUNTERS as int,
        r is Ok ==> final(out).instrs() == old(out).instrs() + emit(
            Node::Repeat(min, max, nodes_view(pattern.nodes@)),
            old(out).instructions@.len(),
            old(out).counters as nat,
        ) && final(out).counters == old(out).counters as int + 1 + repeats_seq(
            nodes_view(pattern.nodes@),
        ) && final(out).instructions@.len() == old(out).instructions@.len() + code_len(
            Node::Repeat(min, max, nodes_view(pattern.nodes@)),
        ),
        old(out).counters >= MAX_COUNTERS ==> r is Err && final(out).instructions@ == old(
            out,
        ).instructions@ && final(out).counters == old(out).counters,
        final(out).absolute_prefix == old(out).absolute_prefix,
    decreases pattern,
{
    let ghost at = old(out).instructions@.len();
    let ghost ctr = old(out).counters as nat;
    let ghost body = nodes_view(pattern.nodes@);
    if out.counters >= MAX_COUNTERS {
        return Err(CompileError::TooManyRepeats);
    }
    let counter_id = CounterId(out.counters);
    out.counters = out.counters + 1;
    let start = out.here();
    // This is the loop start - increase the counter
    out.push(Instruction::Increment(counter_id));
    let ghost after_inc = out.instrs();
    match append_nodes(out, &pattern.nodes) {
        Ok(()) => {},
        Err(e) => {
            return Err(e);
        },
    }
    // If we have less than the minimum, another loop is required
    out.push(Instruction::BranchIfLessThan(start, counter_id, min));
    if max > min {
        // If the counter is still below the maximum, set up an alternative with the start of the
        // loop
        let here = out.here();
        out.push(Instruction::BranchIfLessThan(ProgramOffset(here.0 + 2), counter_id, max));
        out.push(Instruction::Jump(ProgramOffset(here.0 + 3)));
        out.push(Instruction::Alternative(start));
    }
    assert(out.instrs() =~= old(out).instrs() + emit(Node::Repeat(min, max, body), at, ctr));
    Ok(())
}

/// The path that the leading root and prefix nodes of `nodes` stand for, where there are some.
fn absolute_prefix(nodes: &Vec<AstNode>) -> (r: Option<Vec<u8>>)
    ensures
        bytes_view(r) == absolute_prefix_of(nodes_view(nodes@)),
{
    let ghost ns = nodes_view(nodes@);
    proof {
        lemma_nodes_view(nodes@);
    }
    let n = nodes.len();
    if n == 0 || !(matches!(nodes[0], AstNode::Prefix(_)) || matches!(nodes[0], AstNode::RootDir)) {
        return None;
    }
    let mut out: Vec<u8> = Vec::new();
    let mut i: usize = 0;
    assert(ns.skip(0) =~= ns);
    while i < n
        invariant
            n == nodes@.len(),
            ns == nodes_view(nodes@),
            ns.len() == n,
            n > 0 && (ns[0] is Prefix || ns[0] is RootDir),
            forall|k: int| 0 <= k < n ==> #[trigger] ns[k] == nodes@[k].view(),
            i <= n,
            out@ + head_path(ns.skip(i as int)) == head_path(ns),
        decreases n - i,
    {
        assert(ns.skip(i as int)[0] == ns[i as int]);
        assert(ns.skip(i as int).skip(1) =~= ns.skip(i + 1));
        match &nodes[i] {
            AstNode::Prefix(t) => {
                let mut bytes = slice_to_vec(t.as_slice());
                out.append(&mut bytes);
                assert(out@ + head_path(ns.skip(i + 1)) =~= head_path(ns));
            },
            AstNode::RootDir => {
                out.push(0x2F);
                assert(out@ + head_path(ns.skip(i + 1)) =~= head_path(ns));
            },
            _ => {
                assert(out@ =~= head_path(ns));
                return Some(out);
            },
        }
        i = i + 1;
    }
    assert(out@ =~= head_path(ns));
    Some(out)
}

/// One more than the most counters a program can use: counts of repetitions stop there.
pub const REPEAT_CAP: usize = 0x1_0000;

/// `n`, or `REPEAT_CAP` where `n` is larger.
pub open spec fn capped(n: nat) -> nat {
    if n < REPEAT_CAP {
        n
    } else {
        REPEAT_CAP as nat
    }
}

/// The number of repetitions in `nodes`, counted up to `REPEAT_CAP`.
fn count_repeats_nodes(nodes: &Vec<AstNode>) -> (r: usize)
    ensures
        r == capped(repeats_seq(nodes_view(nodes@))),
    decreases nodes,
{
    let mut total: usize = 0;
    let mut i: usize = 0;
    while i < nodes.len()
        invariant
            i <= nodes@.len(),
            total == capped(repeats_seq(nodes_view(nodes@.take(i as int)))),
        decreases nodes@.len() - i,
    {
        proof {
            lemma_nodes_view_take(nodes@, i as int);
            lemma_seq_push(nodes_view(nodes@.take(i as int)), nodes@[i as int].view(), 0, 0);
            assert(decreases_to!(*nodes => nodes[i as int]));
        }
        let n = count_repeats_node(&nodes[i]);
        total = if total + n < REPEAT_CAP {
            total + n
        } else {
            REPEAT_CAP
        };
        i = i + 1;
    }
    proof {
        assert(nodes@.take(i as int) =~= nodes@);
    }
    total
}

/// The number of repetitions in the choices, counted up to `REPEAT_CAP`.
fn count_repeats_choices(choices: &Vec<Pattern>) -> (r: usize)
    ensures
        r == capped(repeats_choices(choices_view(choices@))),
    decreases choices,
{
    let mut total: usize = 0;
    let mut i: usize = 0;
    while i < choices.len()
        invariant
            i <= choices@.len(),
            total == capped(repeats_choices(choices_view(choices@.take(i as int)))),
        decreases choices@.len() - i,
    {
        proof {
            lemma_choices_view_take(choices@, i as int);
            lemma_choices_push(
                choices_view(choices@.take(i as int)),
                nodes_view(choices@[i as int].nodes@),
                0,
                0,
                0,
            );
            assert(decreases_to!(*choices => choices[i as int]));
        }
        let n = count_repeats_nodes(&choices[i].nodes);
        total = if total + n < REPEAT_CAP {
            total + n
        } else {
            REPEAT_CAP
        };
        i = i + 1;
    }
    proof {
        assert(choices@.take(i as int) =~= choices@);
    }
    total
}

/// The number of repetitions in `node`, counted up to `REPEAT_CAP`.
fn count_repeats_node(node: &AstNode) -> (r: usize)
    ensures
        r == capped(repeats(node@)),
    decreases node,
{
    match node {
        AstNode::Alternatives { choices } => count_repeats_choices(choices),
        AstNode::Repeat { pattern, .. } => {
            let n = count_repeats_nodes(&pattern.nodes);
            if n + 1 < REPEAT_CAP {
                n + 1
            } else {
                REPEAT_CAP
            }
        },
        _ => 0,
    }
}

/// Compiles a pattern into a program that ends with `Complete`. It fails where the pattern
/// holds more repetitions than there are counters, and otherwise only where the program would
/// hold more instructions than a `usize` counts.
pub fn compile(pattern: &Pattern) -> (r: Result<Program, CompileError>)
    ensures
        r == Err::<Program, CompileError>(CompileError::TooManyRepeats) <==> repeats_seq(pattern@)
            > MAX_COUNTERS as int,
        r == Err::<Program, CompileError>(CompileError::ProgramTooLarge) <==> repeats_seq(
            pattern@,
        ) <= MAX_COUNTERS as int && code_len_seq(pattern@) >= usize::MAX,
        r is Ok <==> repeats_seq(pattern@) <= MAX_COUNTERS as int && code_len_seq(pattern@)
            < usize::MAX,
        r matches Ok(p) ==> p.instrs() == emit_seq(pattern@, 0, 0).push(Instr::Complete)
            && p.counters == repeats_seq(pattern@) && bytes_view(p.absolute_prefix)
            == absolute_prefix_of(pattern@),
{
    if count_repeats_nodes(&pattern.nodes) > MAX_COUNTERS as usize {
        return Err(CompileError::TooManyRepeats);
    }
    match code_len_nodes(&pattern.nodes) {
        Some(n) => {
            if n == usize::MAX {
                return Err(CompileError::ProgramTooLarge);
            }
        },
        None => {
            return Err(CompileError::ProgramTooLarge);
        },
    }
    let mut program = Program {
        instructions: Vec::new(),
        counters: 0,
        absolute_prefix: absolute_prefix(&pattern.nodes),
    };
    assert(program.instrs() =~= Seq::empty());
    match append_nodes(&mut program, &pattern.nodes) {
        Ok(()) => {},
        Err(_) => {
            return Err(CompileError::TooManyRepeats);
        },
    }
    assert(program.instrs() =~= emit_seq(pattern@, 0, 0));
    program.push(Instruction::Complete);
    Ok(program)
}

} // verus!
