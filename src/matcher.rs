//! The backtracking machine that runs a compiled glob on a path.
use vstd::prelude::*;

use crate::compiler::{Instr, Instruction, Program};
use crate::parser::CharacterClass;
use crate::path::{components, components_of, comps_view, Comp, PathComponent};
use crate::utf8::{
    code_point, first_char_len, first_scalar, first_scalar_exec, length_of_first_char, scalar_len,
};

verus! {

/// The most steps that one match takes.
pub const STEP_LIMIT: u64 = 0xFFFF_FFFF_FFFF_FFFF;

/// What a match reports of a path.
#[derive(Debug, Clone, Copy, PartialEq, Eq)]
pub struct MatchResult {
    /// True if the match could be made valid with more path components.
    ///
    /// A complete match may not be valid as a prefix if there's no way the pattern could accept
    /// any more path components.
    pub valid_as_prefix: bool,
    /// True if the match is completely valid as a match for the glob.
    pub valid_as_complete_match: bool,
}

impl MatchResult {
    pub fn none() -> (r: MatchResult)
        ensures
            !r.valid_as_prefix,
            !r.valid_as_complete_match,
    {
        MatchResult { valid_as_prefix: false, valid_as_complete_match: false }
    }
}

/// One line of the search: where it is in the program and in the path.
pub struct Thread {
    pub pc: nat,
    /// How many components have been taken from the path.
    pub component: nat,
    /// The byte offset reached in the last normal component taken, while its bytes are being
    /// consumed.
    pub current: Option<nat>,
    /// Whether a component was taken and none of its bytes consumed yet.
    pub fresh: bool,
    pub counters: Seq<u32>,
}

/// The whole search: the running thread, the threads saved for backtracking, the two result
/// bits, and whether it has stopped.
pub struct Machine {
    pub thread: Thread,
    pub stack: Seq<Thread>,
    pub prefix: bool,
    pub complete: bool,
    pub halted: bool,
}

/// The bytes of the current component that are not consumed yet; empty where there is none.
pub open spec fn current_rest(path: Seq<Comp>, t: Thread) -> Seq<u8> {
    match t.current {
        Some(o) => if 1 <= t.component <= path.len() {
            match path[t.component - 1] {
                Comp::Normal(b) => if o <= b.len() {
                    b.subrange(o as int, b.len() as int)
                } else {
                    Seq::empty()
                },
                _ => Seq::empty(),
            }
        } else {
            Seq::empty()
        },
        None => Seq::empty(),
    }
}

pub open spec fn has_string(path: Seq<Comp>, t: Thread) -> bool {
    current_rest(path, t).len() > 0
}

/// The outcome of asking for bytes to consume.
pub enum Pull {
    /// The thread, now bound to a component, and the bytes of it left to consume.
    Bytes(Thread, Seq<u8>),
    /// The next component is not a normal one.
    NotNormal,
    /// The path has no more components.
    EndOfInput,
}

/// Bytes to consume: those of the current component, or else those of the next component where
/// it is a normal one.
pub open spec fn pull(path: Seq<Comp>, t: Thread) -> Pull {
    if t.current is Some {
        Pull::Bytes(t, current_rest(path, t))
    } else if t.component < path.len() {
        match path[t.component as int] {
            Comp::Normal(b) => Pull::Bytes(
                Thread { component: t.component + 1, current: Some(0), fresh: true, ..t },
                b,
            ),
            _ => Pull::NotNormal,
        }
    } else {
        Pull::EndOfInput
    }
}

/// The thread after it consumed `n` more bytes of its current component.
pub open spec fn consumed(t: Thread, n: nat) -> Thread {
    Thread { pc: t.pc + 1, current: Some(t.current.unwrap() + n), fresh: false, ..t }
}

pub open spec fn entry_matches(e: CharacterClass, c: char) -> bool {
    match e {
        CharacterClass::Single(x) => x == c,
        CharacterClass::Range(lo, hi) => code_point(lo) <= code_point(c) <= code_point(hi),
    }
}

pub open spec fn class_matches(cls: Seq<CharacterClass>, c: char) -> bool {
    exists|i: int| 0 <= i < cls.len() && #[trigger] entry_matches(cls[i], c)
}

/// Whether a structural instruction accepts a component. No component of a path on this
/// platform is a prefix.
pub open spec fn structural_accepts(i: Instr, c: Comp) -> bool {
    match i {
        Instr::RootDir => c is RootDir,
        Instr::CurDir => c is CurDir,
        Instr::ParentDir => c is ParentDir,
        _ => false,
    }
}

/// What one instruction does to a thread.
pub enum Effect {
    /// Go on with this thread.
    Next(Thread),
    /// Save the first thread for backtracking and go on with the second.
    Fork(Thread, Thread),
    /// The thread fails.
    Fail,
    /// The thread fails for want of input: the path is valid as a prefix.
    Exhausted,
    /// The path is valid as a prefix, and the thread goes on.
    ExhaustedThen(Thread),
    /// The path is a complete match.
    Accept,
}

pub open spec fn structural(ins: Instr, path: Seq<Comp>, t: Thread) -> Effect {
    if has_string(path, t) {
        Effect::Fail
    } else if t.component < path.len() {
        if structural_accepts(ins, path[t.component as int]) {
            Effect::Next(
                Thread { pc: t.pc + 1, component: t.component + 1, current: None, ..t },
            )
        } else {
            Effect::Fail
        }
    } else {
        Effect::Exhausted
    }
}

pub open spec fn sat_inc(x: u32) -> u32 {
    if x < u32::MAX {
        (x + 1) as u32
    } else {
        x
    }
}

/// What the instruction at the thread's program counter does. A separator at the end of the
/// path records that the path is valid as a prefix and lets the thread go on, so that a `**`
/// after it can match no component; an instruction that needs a component where there is none
/// records the prefix and fails; `Complete` accepts where the whole path is consumed.
pub open spec fn effect(prog: Seq<Instr>, path: Seq<Comp>, t: Thread) -> Effect {
    if t.pc >= prog.len() {
        Effect::Fail
    } else {
        let next = Thread { pc: t.pc + 1, ..t };
        let ins = prog[t.pc as int];
        match ins {
            Instr::Separator => if !has_string(path, t) {
                let u = Thread { pc: t.pc + 1, current: None, ..t };
                if t.component < path.len() {
                    Effect::Next(u)
                } else {
                    Effect::ExhaustedThen(u)
                }
            } else if t.fresh {
                Effect::Next(next)
            } else {
                Effect::Fail
            },
            Instr::Prefix(_) => structural(ins, path, t),
            Instr::RootDir => structural(ins, path, t),
            Instr::CurDir => structural(ins, path, t),
            Instr::ParentDir => structural(ins, path, t),
            Instr::LiteralString(b) => match pull(path, t) {
                Pull::Bytes(u, r) => if b.len() <= r.len() && r.subrange(0, b.len() as int)
                    == b {
                    Effect::Next(consumed(u, b.len()))
                } else {
                    Effect::Fail
                },
                Pull::NotNormal => Effect::Fail,
                Pull::EndOfInput => Effect::Exhausted,
            },
            Instr::AnyCharacter => match pull(path, t) {
                Pull::Bytes(u, r) => match first_char_len(r) {
                    Some(n) => Effect::Next(consumed(u, n)),
                    None => Effect::Fail,
                },
                Pull::NotNormal => Effect::Fail,
                Pull::EndOfInput => Effect::Exhausted,
            },
            Instr::AnyString => match pull(path, t) {
                Pull::Bytes(u, r) => Effect::Next(consumed(u, r.len())),
                Pull::NotNormal => Effect::Fail,
                Pull::EndOfInput => Effect::Exhausted,
            },
            Instr::Characters(cls) => match pull(path, t) {
                Pull::Bytes(u, r) => match first_scalar(r) {
                    Some(c) => if class_matches(cls, c) {
                        Effect::Next(consumed(u, scalar_len(r)))
                    } else {
                        Effect::Fail
                    },
                    None => Effect::Fail,
                },
                Pull::NotNormal => Effect::Fail,
                Pull::EndOfInput => Effect::Exhausted,
            },
            Instr::Jump(o) => Effect::Next(Thread { pc: o, ..t }),
            Instr::Alternative(o) => Effect::Fork(Thread { pc: o, ..t }, next),
            Instr::Increment(c) => if c < t.counters.len() {
                Effect::Next(
                    Thread {
                        pc: t.pc + 1,
                        counters: t.counters.update(c as int, sat_inc(t.counters[c as int])),
                        ..t
                    },
                )
            } else {
                Effect::Fail
            },
            Instr::BranchIfLessThan(o, c, v) => if c < t.counters.len() {
                if t.counters[c as int] < v {
                    Effect::Next(Thread { pc: o, ..t })
                } else {
                    Effect::Next(next)
                }
            } else {
                Effect::Fail
            },
            Instr::Complete => if !has_string(path, t) && t.component >= path.len() {
                Effect::Accept
            } else {
                Effect::Fail
            },
        }
    }
}

/// Resume the last saved thread, or stop where none is left.
pub open spec fn backtrack(m: Machine) -> Machine {
    if m.stack.len() == 0 {
        Machine { halted: true, ..m }
    } else {
        Machine { thread: m.stack.last(), stack: m.stack.drop_last(), ..m }
    }
}

/// The search after the running thread had the effect `e`.
pub open spec fn apply(e: Effect, m: Machine) -> Machine {
    match e {
        Effect::Next(u) => Machine { thread: u, ..m },
        Effect::Fork(s, u) => Machine { thread: u, stack: m.stack.push(s), ..m },
        Effect::Fail => backtrack(m),
        Effect::Exhausted => backtrack(Machine { prefix: true, ..m }),
        Effect::ExhaustedThen(u) => Machine { thread: u, prefix: true, ..m },
        Effect::Accept => backtrack(Machine { complete: true, ..m }),
    }
}

/// One step of the search. It stops once both result bits are set.
pub open spec fn step(prog: Seq<Instr>, path: Seq<Comp>, m: Machine) -> Machine {
    let r = apply(effect(prog, path, m.thread), m);
    if r.prefix && r.complete {
        Machine { halted: true, ..r }
    } else {
        r
    }
}

/// The search after at most `fuel` steps.
pub open spec fn run(prog: Seq<Instr>, path: Seq<Comp>, m: Machine, fuel: nat) -> Machine
    decreases fuel,
{
    if m.halted || fuel == 0 {
        m
    } else {
        run(prog, path, step(prog, path, m), (fuel - 1) as nat)
    }
}

/// The search before its first step.
pub open spec fn initial(counters: nat) -> Machine {
    Machine {
        thread: Thread {
            pc: 0,
            component: 0,
            current: None,
            fresh: false,
            counters: Seq::new(counters, |i: int| 0u32),
        },
        stack: Seq::empty(),
        prefix: false,
        complete: false,
        halted: false,
    }
}

/// The search of `prog` on the components `path`, as it stands when it stops.
pub open spec fn search(prog: Seq<Instr>, counters: nat, path: Seq<Comp>) -> Machine {
    run(prog, path, initial(counters), STEP_LIMIT as nat)
}

/// What a match of `program` on the path `path` reports.
pub open spec fn match_of(program: Program, path: Seq<u8>) -> MatchResult {
    let m = search(program.instrs(), program.counters as nat, components(path));
    MatchResult { valid_as_prefix: m.prefix, valid_as_complete_match: m.complete }
}

struct ProgramState {
    pc: usize,
    component: usize,
    current: Option<usize>,
    fresh: bool,
    counters: Vec<u32>,
}

impl ProgramState {
    spec fn view(&self) -> Thread {
        Thread {
            pc: self.pc as nat,
            component: self.component as nat,
            current: match self.current {
                Some(o) => Some(o as nat),
                None => None,
            },
            fresh: self.fresh,
            counters: self.counters@,
        }
    }

    fn new(num_counters: u16) -> (r: ProgramState)
        ensures
            r@ == initial(num_counters as nat).thread,
    {
        let mut counters: Vec<u32> = Vec::new();
        let mut i: u16 = 0;
        while i < num_counters
            invariant
                i <= num_counters,
                counters@ =~= Seq::new(i as nat, |k: int| 0u32),
            decreases num_counters - i,
        {
            counters.push(0);
            i = i + 1;
        }
        ProgramState { pc: 0, component: 0, current: None, fresh: false, counters }
    }

    /// A copy of this state with the program counter at `pc`.
    fn with_pc(&self, pc: usize) -> (r: ProgramState)
        ensures
            r@ == (Thread { pc: pc as nat, ..self@ }),
    {
        let mut counters: Vec<u32> = Vec::new();
        let mut i: usize = 0;
        while i < self.counters.len()
            invariant
                i <= self.counters@.len(),
                counters@ =~= self.counters@.subrange(0, i as int),
            decreases self.counters@.len() - i,
        {
            counters.push(self.counters[i]);
            i = i + 1;
        }
        assert(counters@ =~= self.counters@);
        ProgramState {
            pc,
            component: self.component,
            current: self.current,
            fresh: self.fresh,
            counters,
        }
    }
}

/// The bytes of the current component that are left to consume.
fn rest_of<'a>(path: &'a Vec<PathComponent>, t: &ProgramState) -> (r: &'a [u8])
    ensures
        r@ == current_rest(comps_view(path@), t@),
{
    match t.current {
        Some(o) => {
            if 1 <= t.component && t.component <= path.len() {
                match &path[t.component - 1] {
                    PathComponent::Normal(b) => {
                        if o <= b.len() {
                            vstd::slice::slice_subrange(b.as_slice(), o, b.len())
                        } else {
                            &[]
                        }
                    },
                    _ => &[],
                }
            } else {
                &[]
            }
        },
        None => &[],
    }
}

/// What taking bytes to consume found.
enum NextString {
    Normal,
    NotNormal,
    EndOfInput,
}

/// Binds the state to bytes to consume where there are some, as `pull` says.
fn next_string(path: &Vec<PathComponent>, state: &mut ProgramState) -> (r: NextString)
    ensures
        match pull(comps_view(path@), old(state)@) {
            Pull::Bytes(u, b) => r is Normal && final(state)@ == u && final(state).current is Some
                && current_rest(comps_view(path@), u) == b,
            Pull::NotNormal => r is NotNormal && final(state)@ == old(state)@,
            Pull::EndOfInput => r is EndOfInput && final(state)@ == old(state)@,
        },
{
    if state.current.is_some() {
        NextString::Normal
    } else if state.component < path.len() {
        match &path[state.component] {
            PathComponent::Normal(b) => {
                proof {
                    assert(b@.subrange(0, b@.len() as int) =~= b@);
                }
                state.component = state.component + 1;
                state.current = Some(0);
                state.fresh = true;
                NextString::Normal
            },
            _ => NextString::NotNormal,
        }
    } else {
        NextString::EndOfInput
    }
}

/// Whether the first character of `string` is in the class.
fn class_contains(cls: &Vec<CharacterClass>, c: char) -> (r: bool)
    ensures
        r == class_matches(cls@, c),
{
    let mut i: usize = 0;
    while i < cls.len()
        invariant
            i <= cls@.len(),
            forall|k: int| 0 <= k < i ==> !entry_matches(#[trigger] cls@[k], c),
        decreases cls@.len() - i,
    {
        let hit = match cls[i] {
            CharacterClass::Single(x) => x == c,
            CharacterClass::Range(lo, hi) => (lo as u32) <= (c as u32) && (c as u32) <= (hi as u32),
        };
        if hit {
            assert(entry_matches(cls@[i as int], c));
            return true;
        }
        i = i + 1;
    }
    false
}

/// Whether `string` starts with `bytes`.
fn starts_with(string: &[u8], bytes: &[u8]) -> (r: bool)
    ensures
        r == (bytes@.len() <= string@.len() && string@.subrange(0, bytes@.len() as int) == bytes@),
{
    if bytes.len() > string.len() {
        return false;
    }
    let mut i: usize = 0;
    while i < bytes.len()
        invariant
            bytes@.len() <= string@.len(),
            i <= bytes@.len(),
            forall|k: int| 0 <= k < i ==> string@[k] == bytes@[k],
        decreases bytes@.len() - i,
    {
        if string[i] != bytes[i] {
            assert(string@.subrange(0, bytes@.len() as int)[i as int] != bytes@[i as int]);
            return false;
        }
        i = i + 1;
    }
    assert(string@.subrange(0, bytes@.len() as int) =~= bytes@);
    true
}

/// The machine `s` is where the search `m` is while it runs, and reports what `m` reports once
/// it has stopped.
pub open spec fn follows(s: Machine, running: bool, m: Machine) -> bool {
    if running {
        s == m
    } else {
        m.halted && s.prefix == m.prefix && s.complete == m.complete
    }
}

struct Matcher {
    state: ProgramState,
    alternatives: Vec<ProgramState>,
    result: MatchResult,
}

impl Matcher {
    spec fn view_as(&self, halted: bool) -> Machine {
        Machine {
            thread: self.state@,
            stack: self.alternatives@.map_values(|s: ProgramState| s@),
            prefix: self.result.valid_as_prefix,
            complete: self.result.valid_as_complete_match,
            halted,
        }
    }

    /// Runs one instruction; false once the search has stopped.
    fn advance(&mut self, program: &Program, path: &Vec<PathComponent>) -> (r: bool)
        ensures
            follows(
                final(self).view_as(false),
                r,
                step(program.instrs(), comps_view(path@), old(self).view_as(false)),
            ),
    {
        let running = self.execute(program, path);
        if running && self.result.valid_as_prefix && self.result.valid_as_complete_match {
            false
        } else {
            running
        }
    }

    /// Runs the instruction at the program counter.
    fn execute(&mut self, program: &Program, path: &Vec<PathComponent>) -> (r: bool)
        ensures
            follows(
                final(self).view_as(false),
                r,
                apply(
                    effect(program.instrs(), comps_view(path@), old(self).state@),
                    old(self).view_as(false),
                ),
            ),
    {
        let ghost prog = program.instrs();
        let ghost p = comps_view(path@);
        let ghost m = self.view_as(false);
        let pc = self.state.pc;
        if pc >= program.instructions.len() {
            return self.try_alternative();
        }
        assert(prog[pc as int] == program.instructions@[pc as int]@);
        match &program.instructions[pc] {
            Instruction::Separator => {
                if !self.has_string(path) {
                    self.state.current = None;
                    if self.state.component < path.len() {
                        self.next()
                    } else {
                        self.result.valid_as_prefix = true;
                        self.next()
                    }
                } else if self.state.fresh {
                    self.next()
                } else {
                    self.try_alternative()
                }
            },
            Instruction::Prefix(_) => {
                self.structural(path, &program.instructions[pc])
            },
            Instruction::RootDir => {
                self.structural(path, &program.instructions[pc])
            },
            Instruction::CurDir => {
                self.structural(path, &program.instructions[pc])
            },
            Instruction::ParentDir => {
                self.structural(path, &program.instructions[pc])
            },
            Instruction::LiteralString(bytes) => {
                match next_string(path, &mut self.state) {
                    NextString::Normal => {
                        let rest = rest_of(path, &self.state);
                        if bytes.len() <= rest.len() && starts_with(rest, bytes.as_slice()) {
                            self.consume(path, bytes.len())
                        } else {
                            self.try_alternative()
                        }
                    },
                    NextString::NotNormal => self.try_alternative(),
                    NextString::EndOfInput => self.end_of_input(),
                }
            },
            Instruction::AnyCharacter => {
                match next_string(path, &mut self.state) {
                    NextString::Normal => {
                        let rest = rest_of(path, &self.state);
                        match length_of_first_char(rest) {
                            Some(length) => {
                                self.consume(path, length)
                            },
                            None => self.try_alternative(),
                        }
                    },
                    NextString::NotNormal => self.try_alternative(),
                    NextString::EndOfInput => self.end_of_input(),
                }
            },
            Instruction::AnyString => {
                match next_string(path, &mut self.state) {
                    NextString::Normal => {
                        let rest = rest_of(path, &self.state);
                        self.consume(path, rest.len())
                    },
                    NextString::NotNormal => self.try_alternative(),
                    NextString::EndOfInput => self.end_of_input(),
                }
            },
            Instruction::Characters(classes) => {
                match next_string(path, &mut self.state) {
                    NextString::Normal => {
                        let rest = rest_of(path, &self.state);
                        match first_scalar_exec(rest) {
                            Some((c, length)) => {
                                if class_contains(classes, c) {
                                    self.consume(path, length)
                                } else {
                                    self.try_alternative()
                                }
                            },
                            None => self.try_alternative(),
                        }
                    },
                    NextString::NotNormal => self.try_alternative(),
                    NextString::EndOfInput => self.end_of_input(),
                }
            },
            Instruction::Jump(index) => {
                self.state.pc = index.0;
                true
            },
            Instruction::Alternative(index) => {
                // Save a snapshot so we can try it later
                let saved = self.state.with_pc(index.0);
                self.alternatives.push(saved);
                proof {
                    assert(self.alternatives@.map_values(|s: ProgramState| s@) =~= m.stack.push(
                        saved@,
                    ));
                }
                self.next()
            },
            Instruction::Increment(counter_id) => {
                let c = counter_id.0 as usize;
                if c < self.state.counters.len() {
                    let v = self.state.counters[c];
                    let nv = if v < u32::MAX {
                        v + 1
                    } else {
                        v
                    };
                    self.state.counters[c] = nv;
                    self.next()
                } else {
                    self.try_alternative()
                }
            },
            Instruction::BranchIfLessThan(index, counter_id, value) => {
                let c = counter_id.0 as usize;
                if c < self.state.counters.len() {
                    if self.state.counters[c] < *value {
                        self.state.pc = index.0;
                        true
                    } else {
                        self.next()
                    }
                } else {
                    self.try_alternative()
                }
            },
            Instruction::Complete => {
                self.complete(path)
            },
        }
    }

    fn has_string(&self, path: &Vec<PathComponent>) -> (r: bool)
        ensures
            r == has_string(comps_view(path@), self.state@),
    {
        rest_of(path, &self.state).len() > 0
    }

    fn next(&mut self) -> (r: bool)
        requires
            old(self).state.pc < usize::MAX,
        ensures
            r,
            final(self).view_as(false) == (Machine {
                thread: Thread { pc: old(self).state@.pc + 1, ..old(self).state@ },
                ..old(self).view_as(false)
            }),
    {
        self.state.pc = self.state.pc + 1;
        true
    }

    fn try_alternative(&mut self) -> (r: bool)
        ensures
            final(self).view_as(!r) == backtrack(old(self).view_as(false)),
    {
        let ghost old_stack = self.alternatives@;
        match self.alternatives.pop() {
            Some(alternative_state) => {
                proof {
                    assert(self.alternatives@.map_values(|s: ProgramState| s@) =~= old_stack.map_values(
                        |s: ProgramState| s@,
                    ).drop_last());
                }
                self.state = alternative_state;
                true
            },
            None => false,
        }
    }

    fn end_of_input(&mut self) -> (r: bool)
        ensures
            final(self).view_as(!r) == backtrack(
                Machine { prefix: true, ..old(self).view_as(false) },
            ),
    {
        self.result.valid_as_prefix = true;
        self.try_alternative()
    }

    /// Consumes `n` bytes of the current component.
    fn consume(&mut self, path: &Vec<PathComponent>, n: usize) -> (r: bool)
        requires
            old(self).state.current is Some,
            n <= current_rest(comps_view(path@), old(self).state@).len(),
            old(self).state.pc < usize::MAX,
        ensures
            r,
            final(self).view_as(false) == (Machine {
                thread: consumed(old(self).state@, n as nat),
                ..old(self).view_as(false)
            }),
    {
        let ghost p = comps_view(path@);
        let o = match self.state.current {
            Some(o) => o,
            None => 0,
        };
        proof {
            if n > 0 {
                let b = p[self.state.component - 1]->Normal_0;
                assert(p[self.state.component - 1] == path@[self.state.component - 1]@);
                assert(b.len() == path@[self.state.component - 1]->Normal_0@.len());
                assert(path@[self.state.component - 1]->Normal_0.len() <= usize::MAX);
            }
        }
        self.state.current = Some(o + n);
        self.state.fresh = false;
        self.state.pc = self.state.pc + 1;
        true
    }

    /// Takes a root, current or parent component, as the instruction `ins` asks.
    fn structural(&mut self, path: &Vec<PathComponent>, ins: &Instruction) -> (r: bool)
        requires
            old(self).state.pc < usize::MAX,
        ensures
            final(self).view_as(!r) == apply(
                structural(ins@, comps_view(path@), old(self).state@),
                old(self).view_as(false),
            ),
    {
        if self.has_string(path) {
            return self.try_alternative();
        }
        if self.state.component < path.len() {
            let ok = match (ins, &path[self.state.component]) {
                (Instruction::RootDir, PathComponent::RootDir) => true,
                (Instruction::CurDir, PathComponent::CurDir) => true,
                (Instruction::ParentDir, PathComponent::ParentDir) => true,
                _ => false,
            };
            if ok {
                self.state.component = self.state.component + 1;
                self.state.current = None;
                self.next()
            } else {
                self.try_alternative()
            }
        } else {
            self.end_of_input()
        }
    }

    fn complete(&mut self, path: &Vec<PathComponent>) -> (r: bool)
        ensures
            final(self).view_as(!r) == apply(
                if !has_string(comps_view(path@), old(self).state@) && old(self).state@.component
                    >= path@.len() {
                    Effect::Accept
                } else {
                    Effect::Fail
                },
                old(self).view_as(false),
            ),
    {
        if !self.has_string(path) && self.state.component >= path.len() {
            self.result.valid_as_complete_match = true;
        }
        self.try_alternative()
    }
}

/// Matches `path` against `program`. The search explores the program's alternatives depth
/// first, the preferred one first; it stops once the path is known to be both a complete match
/// and a prefix, or when no saved alternative is left, or after `STEP_LIMIT` steps.
pub fn path_matches(path: &[u8], program: &Program) -> (r: MatchResult)
    ensures
        r == match_of(*program, path@),
{
    let comps = components_of(path);
    let ghost prog = program.instrs();
    let ghost p = comps_view(comps@);
    let ghost init = initial(program.counters as nat);
    let mut matcher = Matcher {
        state: ProgramState::new(program.counters),
        alternatives: Vec::new(),
        result: MatchResult::none(),
    };
    assert(matcher.alternatives@.map_values(|s: ProgramState| s@) =~= Seq::<Thread>::empty());
    assert(matcher.view_as(false) == init);
    let mut steps: u64 = 0;
    let mut running = true;
    while running && steps < STEP_LIMIT
        invariant
            steps <= STEP_LIMIT,
            p == components(path@),
            p == comps_view(comps@),
            prog == program.instrs(),
            running ==> run(prog, p, init, STEP_LIMIT as nat) == run(
                prog,
                p,
                matcher.view_as(false),
                (STEP_LIMIT - steps) as nat,
            ),
            !running ==> run(prog, p, init, STEP_LIMIT as nat).prefix
                == matcher.result.valid_as_prefix && run(prog, p, init, STEP_LIMIT as nat).complete
                == matcher.result.valid_as_complete_match,
        decreases STEP_LIMIT - steps,
    {
        let ghost before = matcher.view_as(false);
        running = matcher.advance(program, &comps);
        steps = steps + 1;
        proof {
            let after = step(prog, p, before);
            assert(run(prog, p, before, (STEP_LIMIT - (steps - 1)) as nat) == run(
                prog,
                p,
                after,
                (STEP_LIMIT - steps) as nat,
            ));
            if !running {
                assert(run(prog, p, after, (STEP_LIMIT - steps) as nat) == after);
            }
        }
    }
    matcher.result
}

} // verus!
