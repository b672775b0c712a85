//! Parsing glob text into a syntax tree.
use vstd::prelude::*;

use vstd::slice::{slice_subrange, slice_to_vec};

use crate::path::{components, components_of, comps_view, Comp, PathComponent};
use crate::utf8::{first_scalar, first_scalar_exec, lemma_scalar_value_is_scalar, scalar_len};

verus! {

broadcast use vstd::seq::group_seq_axioms, vstd::std_specs::vec::group_vec_axioms;

/// One entry of a character class.
#[derive(Debug, Clone, Copy, PartialEq, Eq)]
pub enum CharacterClass {
    Single(char),
    Range(char, char),
}

/// A parsed glob: a sequence of nodes.
#[derive(Debug, PartialEq, Eq)]
pub struct Pattern {
    pub nodes: Vec<AstNode>,
}

/// A node of the syntax tree.
#[derive(Debug, PartialEq, Eq)]
pub enum AstNode {
    Separator,
    Prefix(Vec<u8>),
    RootDir,
    CurDir,
    ParentDir,
    Recurse,
    LiteralString(Vec<u8>),
    AnyCharacter,
    Wildcard,
    Characters(Vec<CharacterClass>),
    Alternatives { choices: Vec<Pattern> },
    Repeat { min: u32, max: u32, pattern: Pattern },
}

/// What an `AstNode` holds, with sequences in place of vectors.
pub enum Node {
    Separator,
    Prefix(Seq<u8>),
    RootDir,
    CurDir,
    ParentDir,
    Recurse,
    LiteralString(Seq<u8>),
    AnyCharacter,
    Wildcard,
    Characters(Seq<CharacterClass>),
    Alternatives(Seq<Seq<Node>>),
    Repeat(u32, u32, Seq<Node>),
}

pub open spec fn nodes_view(s: Seq<AstNode>) -> Seq<Node>
    decreases s,
{
    if s.len() == 0 {
        Seq::empty()
    } else {
        nodes_view(s.drop_last()).push(s.last().view())
    }
}

pub open spec fn choices_view(s: Seq<Pattern>) -> Seq<Seq<Node>>
    decreases s,
{
    if s.len() == 0 {
        Seq::empty()
    } else {
        choices_view(s.drop_last()).push(nodes_view(s.last().nodes@))
    }
}

impl AstNode {
    pub open spec fn view(self) -> Node
        decreases self,
    {
        match self {
            AstNode::Separator => Node::Separator,
            AstNode::Prefix(t) => Node::Prefix(t@),
            AstNode::RootDir => Node::RootDir,
            AstNode::CurDir => Node::CurDir,
            AstNode::ParentDir => Node::ParentDir,
            AstNode::Recurse => Node::Recurse,
            AstNode::LiteralString(b) => Node::LiteralString(b@),
            AstNode::AnyCharacter => Node::AnyCharacter,
            AstNode::Wildcard => Node::Wildcard,
            AstNode::Characters(c) => Node::Characters(c@),
            AstNode::Alternatives { choices } => Node::Alternatives(choices_view(choices@)),
            AstNode::Repeat { min, max, pattern } => Node::Repeat(
                min,
                max,
                nodes_view(pattern.nodes@),
            ),
        }
    }
}

impl Pattern {
    pub open spec fn view(self) -> Seq<Node> {
        nodes_view(self.nodes@)
    }
}

/// A node that stands inside a pattern: no root or prefix, a character class with at least one
/// entry, alternatives with at least one choice, a repetition whose bounds are in order; and the
/// same of every node within it.
pub open spec fn inner_wf(n: Node) -> bool
    decreases n,
{
    match n {
        Node::Prefix(_) => false,
        Node::RootDir => false,
        Node::Characters(c) => c.len() > 0,
        Node::Alternatives(cs) => cs.len() > 0 && choices_wf(cs),
        Node::Repeat(min, max, body) => min <= max && inner_seq_wf(body),
        _ => true,
    }
}

pub open spec fn inner_seq_wf(ns: Seq<Node>) -> bool
    decreases ns,
{
    ns.len() == 0 || (inner_seq_wf(ns.drop_last()) && inner_wf(ns.last()))
}

pub open spec fn choices_wf(cs: Seq<Seq<Node>>) -> bool
    decreases cs,
{
    cs.len() == 0 || (choices_wf(cs.drop_last()) && inner_seq_wf(cs.last()))
}

pub open spec fn is_head(n: Node) -> bool {
    n is Prefix || n is RootDir
}

/// A well-formed pattern: roots and prefixes only in a run at its head, and every other node
/// well formed.
pub open spec fn pattern_wf(ns: Seq<Node>) -> bool {
    &&& forall|i: int| 0 <= i < ns.len() ==> is_head(#[trigger] ns[i]) || inner_wf(ns[i])
    &&& forall|i: int, j: int|
        0 <= j < i < ns.len() && is_head(#[trigger] ns[i]) ==> is_head(#[trigger] ns[j])
}

/// A copy of `v`, node by node.
pub fn clone_nodes(v: &Vec<AstNode>) -> (r: Vec<AstNode>)
    ensures
        nodes_view(r@) == nodes_view(v@),
    decreases v,
{
    let mut out: Vec<AstNode> = Vec::new();
    let mut i: usize = 0;
    assert(v@.take(0) =~= out@);
    while i < v.len()
        invariant
            i <= v@.len(),
            nodes_view(out@) == nodes_view(v@.take(i as int)),
        decreases v@.len() - i,
    {
        proof {
            assert(decreases_to!(*v => v[i as int]));
            lemma_nodes_view_take(v@, i as int);
        }
        let n = clone_node(&v[i]);
        proof {
            lemma_nodes_view_push(out@, n);
        }
        out.push(n);
        i = i + 1;
    }
    assert(v@.take(i as int) =~= v@);
    out
}

/// A copy of the choices `v`, choice by choice.
fn clone_choices(v: &Vec<Pattern>) -> (r: Vec<Pattern>)
    ensures
        choices_view(r@) == choices_view(v@),
    decreases v,
{
    let mut out: Vec<Pattern> = Vec::new();
    let mut i: usize = 0;
    assert(choices_view(v@.take(0)) =~= choices_view(out@));
    while i < v.len()
        invariant
            i <= v@.len(),
            choices_view(out@) == choices_view(v@.take(i as int)),
        decreases v@.len() - i,
    {
        proof {
            assert(decreases_to!(*v => v[i as int]));
            lemma_choices_view_take(v@, i as int);
        }
        let nodes = clone_nodes(&v[i].nodes);
        let ghost before = out@;
        out.push(Pattern { nodes });
        assert(out@.drop_last() =~= before);
        i = i + 1;
    }
    assert(v@.take(i as int) =~= v@);
    out
}

/// A copy of `n`, with every node within it copied too.
pub fn clone_node(n: &AstNode) -> (r: AstNode)
    ensures
        r@ == n@,
    decreases n,
{
    match n {
        AstNode::Separator => AstNode::Separator,
        AstNode::Prefix(t) => AstNode::Prefix(slice_to_vec(t.as_slice())),
        AstNode::RootDir => AstNode::RootDir,
        AstNode::CurDir => AstNode::CurDir,
        AstNode::ParentDir => AstNode::ParentDir,
        AstNode::Recurse => AstNode::Recurse,
        AstNode::LiteralString(b) => AstNode::LiteralString(slice_to_vec(b.as_slice())),
        AstNode::AnyCharacter => AstNode::AnyCharacter,
        AstNode::Wildcard => AstNode::Wildcard,
        AstNode::Characters(c) => AstNode::Characters(slice_to_vec(c.as_slice())),
        AstNode::Alternatives { choices } => AstNode::Alternatives {
            choices: clone_choices(choices),
        },
        AstNode::Repeat { min, max, pattern } => AstNode::Repeat {
            min: *min,
            max: *max,
            pattern: Pattern { nodes: clone_nodes(&pattern.nodes) },
        },
    }
}

impl Clone for AstNode {
    fn clone(&self) -> Self {
        clone_node(self)
    }
}

impl Clone for Pattern {
    fn clone(&self) -> Self {
        Pattern { nodes: clone_nodes(&self.nodes) }
    }
}

pub proof fn lemma_nodes_view(s: Seq<AstNode>)
    ensures
        nodes_view(s).len() == s.len(),
        forall|i: int| 0 <= i < s.len() ==> #[trigger] nodes_view(s)[i] == s[i].view(),
    decreases s.len(),
{
    if s.len() > 0 {
        lemma_nodes_view(s.drop_last());
    }
}

pub proof fn lemma_choices_view(s: Seq<Pattern>)
    ensures
        choices_view(s).len() == s.len(),
        forall|i: int|
            0 <= i < s.len() ==> #[trigger] choices_view(s)[i] == nodes_view(s[i].nodes@),
    decreases s.len(),
{
    if s.len() > 0 {
        lemma_choices_view(s.drop_last());
    }
}

pub proof fn lemma_nodes_view_take(s: Seq<AstNode>, i: int)
    requires
        0 <= i < s.len(),
    ensures
        nodes_view(s.take(i + 1)) == nodes_view(s.take(i)).push(s[i].view()),
{
    assert(s.take(i + 1).drop_last() =~= s.take(i));
}

pub proof fn lemma_choices_view_take(s: Seq<Pattern>, i: int)
    requires
        0 <= i < s.len(),
    ensures
        choices_view(s.take(i + 1)) == choices_view(s.take(i)).push(nodes_view(s[i].nodes@)),
{
    assert(s.take(i + 1).drop_last() =~= s.take(i));
}

pub proof fn lemma_nodes_view_push(v: Seq<AstNode>, a: AstNode)
    ensures
        nodes_view(v.push(a)) == nodes_view(v).push(a.view()),
{
    assert(v.push(a).drop_last() =~= v);
}

/// Where a run of nodes stops: at the end of the input only, or also before a byte that closes
/// the construct around it.
#[derive(Debug, Clone, Copy, PartialEq, Eq)]
pub enum Stop {
    /// Parse to the end of the input.
    Never,
    /// Stop before `,` or `}`, which end a choice of alternatives.
    ChoiceEnd,
    /// Stop before `:`, which ends the body of a repetition.
    RepeatBody,
}

pub open spec fn stops(stop: Stop, s: Seq<u8>) -> bool {
    s.len() > 0 && match stop {
        Stop::Never => false,
        Stop::ChoiceEnd => s[0] == COMMA || s[0] == CLOSE_BRACE,
        Stop::RepeatBody => s[0] == COLON,
    }
}

pub const SLASH: u8 = 0x2F;
pub const QUESTION: u8 = 0x3F;
pub const STAR: u8 = 0x2A;
pub const OPEN_BRACE: u8 = 0x7B;
pub const CLOSE_BRACE: u8 = 0x7D;
pub const OPEN_BRACKET: u8 = 0x5B;
pub const CLOSE_BRACKET: u8 = 0x5D;
pub const OPEN_ANGLE: u8 = 0x3C;
pub const CLOSE_ANGLE: u8 = 0x3E;
pub const COMMA: u8 = 0x2C;
pub const COLON: u8 = 0x3A;
pub const DOT: u8 = 0x2E;
pub const DASH: u8 = 0x2D;
pub const BACKSLASH: u8 = 0x5C;

/// Bytes that can start or end a construct other than a literal.
pub open spec fn is_meaningful(b: u8) -> bool {
    b == STAR || b == QUESTION || b == OPEN_BRACKET || b == CLOSE_BRACKET || b == OPEN_BRACE
        || b == CLOSE_BRACE || b == OPEN_ANGLE || b == CLOSE_ANGLE || b == COMMA || b == COLON
        || b == SLASH || b == BACKSLASH
}

/// Whether a `.` or `..` here stands alone: nothing before it in its run of nodes, or a root or
/// a separator.
pub open spec fn at_boundary(acc: Seq<Node>) -> bool {
    acc.len() == 0 || acc.last() is RootDir || acc.last() is Separator
}

/// The end of the input, or a separator.
pub open spec fn starts_at_boundary(s: Seq<u8>) -> bool {
    s.len() == 0 || s[0] == SLASH
}

/// The index of the first meaningful byte of `s` at or after `i`, or the length of `s`.
pub open spec fn literal_end(s: Seq<u8>, i: int) -> int
    decreases s.len() - i,
{
    if i >= s.len() {
        s.len() as int
    } else if is_meaningful(s[i]) {
        i
    } else {
        literal_end(s, i + 1)
    }
}

pub proof fn lemma_literal_end_bound(s: Seq<u8>, i: int)
    requires
        0 <= i,
    ensures
        i <= s.len() ==> i <= literal_end(s, i) <= s.len(),
        i > s.len() ==> literal_end(s, i) == s.len(),
    decreases s.len() - i,
{
    if i < s.len() && !is_meaningful(s[i]) {
        lemma_literal_end_bound(s, i + 1);
    }
}

/// The index of the first `b` in `s` at or after `i`.
pub open spec fn find_byte(s: Seq<u8>, b: u8, i: int) -> Option<int>
    decreases s.len() - i,
{
    if i >= s.len() {
        None
    } else if s[i] == b {
        Some(i)
    } else {
        find_byte(s, b, i + 1)
    }
}

pub open spec fn is_digit(b: u8) -> bool {
    0x30 <= b <= 0x39
}

/// The value of a string of decimal digits.
pub open spec fn digits_value(d: Seq<u8>) -> int
    decreases d.len(),
{
    if d.len() == 0 {
        0
    } else {
        digits_value(d.drop_last()) * 10 + (d.last() - 0x30)
    }
}

/// A count of a repetition: one or more ASCII digits whose value fits in a `u32`.
pub open spec fn decimal(d: Seq<u8>) -> Option<u32> {
    if d.len() > 0 && (forall|i: int| 0 <= i < d.len() ==> is_digit(#[trigger] d[i]))
        && digits_value(d) <= u32::MAX {
        Some(digits_value(d) as u32)
    } else {
        None
    }
}

/// The bounds that the text between `:` and `>` of a repetition gives: `N`, or `M,N`.
pub open spec fn repeat_counts(params: Seq<u8>) -> Option<(u32, u32)> {
    match find_byte(params, COMMA, 0) {
        Some(c) => match (decimal(params.take(c)), decimal(params.skip(c + 1))) {
            (Some(min), Some(max)) => Some((min, max)),
            _ => None,
        },
        None => match decimal(params) {
            Some(n) => Some((n, n)),
            None => None,
        },
    }
}

/// The entries of a character class from `s` on, after the entries `acc` that took `used`
/// bytes, with the bytes taken up to and including the closing `]`.
pub open spec fn spec_class_items(s: Seq<u8>, acc: Seq<CharacterClass>, used: nat) -> Option<
    (Seq<CharacterClass>, nat),
>
    decreases s.len(),
{
    match first_scalar(s) {
        None => None,
        Some(c) => {
            let n = scalar_len(s);
            let s1 = s.skip(n as int);
            let (entry, m) = if s1.len() > 0 && s1[0] == DASH {
                match first_scalar(s1.skip(1)) {
                    Some(e) => (Some(CharacterClass::Range(c, e)), n + 1 + scalar_len(s1.skip(1))),
                    None => (None, 0nat),
                }
            } else {
                (Some(CharacterClass::Single(c)), n)
            };
            match entry {
                None => None,
                Some(en) => {
                    let rest = s.skip(m as int);
                    if rest.len() == 0 {
                        None
                    } else if rest[0] == CLOSE_BRACKET {
                        Some((acc.push(en), used + m + 1))
                    } else {
                        spec_class_items(rest, acc.push(en), used + m)
                    }
                },
            }
        },
    }
}

/// A separator at the start of `s`.
pub open spec fn spec_separator(s: Seq<u8>) -> Option<(Node, nat)> {
    if s.len() > 0 && s[0] == SLASH {
        Some((Node::Separator, 1))
    } else {
        None
    }
}

/// A `?` at the start of `s`.
pub open spec fn spec_any_character(s: Seq<u8>) -> Option<(Node, nat)> {
    if s.len() > 0 && s[0] == QUESTION {
        Some((Node::AnyCharacter, 1))
    } else {
        None
    }
}

/// A `**` at the start of `s`.
pub open spec fn spec_recurse(s: Seq<u8>) -> Option<(Node, nat)> {
    if s.len() >= 2 && s[0] == STAR && s[1] == STAR {
        Some((Node::Recurse, 2))
    } else {
        None
    }
}

/// A `*` at the start of `s`.
pub open spec fn spec_wildcard(s: Seq<u8>) -> Option<(Node, nat)> {
    if s.len() > 0 && s[0] == STAR {
        Some((Node::Wildcard, 1))
    } else {
        None
    }
}

/// A character class `[...]` at the start of `s`, with the bytes it takes.
pub open spec fn spec_class(s: Seq<u8>) -> Option<(Node, nat)> {
    if s.len() > 0 && s[0] == OPEN_BRACKET {
        match spec_class_items(s.skip(1), Seq::empty(), 1) {
            Some((cls, k)) => Some((Node::Characters(cls), k)),
            None => None,
        }
    } else {
        None
    }
}

/// The literal at the start of `s`: its first byte, and the bytes after it up to the next
/// meaningful byte.
pub open spec fn spec_literal(s: Seq<u8>) -> (Node, nat) {
    let e = literal_end(s, 1);
    (Node::LiteralString(s.take(e)), e as nat)
}

/// A `.` or `..` that stands alone at the start of `s`.
pub open spec fn spec_dot(s: Seq<u8>, boundary: bool) -> Option<(Node, nat)> {
    if !boundary {
        None
    } else if s.len() >= 2 && s[0] == DOT && s[1] == DOT && starts_at_boundary(s.skip(2)) {
        Some((Node::ParentDir, 2))
    } else if s.len() >= 1 && s[0] == DOT && starts_at_boundary(s.skip(1)) {
        Some((Node::CurDir, 1))
    } else {
        None
    }
}

/// The nodes of `s` up to its end or a stop, appended to `acc`, with the bytes taken added to
/// `used`.
pub open spec fn spec_parse_nodes(s: Seq<u8>, stop: Stop, acc: Seq<Node>, used: nat) -> (
    Seq<Node>,
    nat,
)
    decreases s.len(), 3nat,
{
    if s.len() == 0 || stops(stop, s) {
        (acc, used)
    } else {
        let (n, k) = spec_next_node(s, at_boundary(acc));
        let k1: nat = if 1 <= k <= s.len() {
            k
        } else {
            1
        };
        spec_parse_nodes(s.skip(k1 as int), stop, acc.push(n), used + k1)
    }
}

/// The node at the start of the non-empty `s`, with the bytes it takes: the first of the
/// recognisers, in order, that accepts.
pub open spec fn spec_next_node(s: Seq<u8>, boundary: bool) -> (Node, nat)
    decreases s.len(), 2nat,
{
    if s.len() == 0 {
        (Node::LiteralString(s), 0)
    } else if spec_separator(s) is Some {
        spec_separator(s).unwrap()
    } else if spec_any_character(s) is Some {
        spec_any_character(s).unwrap()
    } else if spec_recurse(s) is Some {
        spec_recurse(s).unwrap()
    } else if spec_wildcard(s) is Some {
        spec_wildcard(s).unwrap()
    } else if spec_alternatives(s) is Some {
        spec_alternatives(s).unwrap()
    } else if spec_class(s) is Some {
        spec_class(s).unwrap()
    } else if spec_repeat(s) is Some {
        spec_repeat(s).unwrap()
    } else if spec_dot(s, boundary) is Some {
        spec_dot(s, boundary).unwrap()
    } else {
        spec_literal(s)
    }
}

/// The choices of alternatives from `s` on, after the choices `acc` that took `used` bytes,
/// with the bytes taken up to and including the closing `}`.
pub open spec fn spec_choices(s: Seq<u8>, acc: Seq<Seq<Node>>, used: nat) -> Option<
    (Seq<Seq<Node>>, nat),
>
    decreases s.len(), 4nat,
{
    let (ns, k) = spec_parse_nodes(s, Stop::ChoiceEnd, Seq::empty(), 0);
    if k >= s.len() {
        None
    } else if s[k as int] == COMMA {
        spec_choices(s.skip(k + 1 as int), acc.push(ns), used + k + 1)
    } else if s[k as int] == CLOSE_BRACE {
        Some((acc.push(ns), used + k + 1))
    } else {
        None
    }
}

/// Alternatives `{a,b,...}` at the start of `s`, with the bytes they take.
pub open spec fn spec_alternatives(s: Seq<u8>) -> Option<(Node, nat)>
    decreases s.len(), 1nat,
{
    if s.len() > 0 && s[0] == OPEN_BRACE {
        match spec_choices(s.skip(1), Seq::empty(), 1) {
            Some((cs, k)) => Some((Node::Alternatives(cs), k)),
            None => None,
        }
    } else {
        None
    }
}

/// A repetition `<body:N>` or `<body:M,N>` with `M <= N` at the start of `s`, with the bytes
/// it takes.
pub open spec fn spec_repeat(s: Seq<u8>) -> Option<(Node, nat)>
    decreases s.len(), 1nat,
{
    if s.len() > 0 && s[0] == OPEN_ANGLE {
        let (body, k) = spec_parse_nodes(s.skip(1), Stop::RepeatBody, Seq::empty(), 0);
        let t = s.skip(1 + k as int);
        if 1 + k >= s.len() || t[0] != COLON {
            None
        } else {
            let u = t.skip(1);
            match find_byte(u, CLOSE_ANGLE, 0) {
                None => None,
                Some(e) => match repeat_counts(u.take(e)) {
                    Some((min, max)) => if min <= max {
                        Some((Node::Repeat(min, max, body), 1 + k + 1 + e as nat + 1))
                    } else {
                        None
                    },
                    None => None,
                },
            }
        }
    } else {
        None
    }
}

/// The text of a path component.
pub open spec fn render(c: Comp) -> Seq<u8> {
    match c {
        Comp::RootDir => seq![SLASH],
        Comp::CurDir => seq![DOT],
        Comp::ParentDir => seq![DOT, DOT],
        Comp::Normal(b) => b,
    }
}

/// The path whose components are `cs`, written with one separator between each two.
pub open spec fn join(cs: Seq<Comp>) -> Seq<u8>
    decreases cs.len(),
{
    if cs.len() == 0 {
        Seq::empty()
    } else if cs.len() == 1 {
        render(cs[0])
    } else {
        join(cs.drop_last()) + seq![SLASH] + render(cs.last())
    }
}

/// The syntax tree of a glob: a root where the path starts with one, then the nodes of the rest
/// of the path, written anew from its components.
pub open spec fn spec_parse(s: Seq<u8>) -> Seq<Node> {
    let cs = components(s);
    if cs.len() > 0 && cs[0] is RootDir {
        spec_parse_nodes(join(cs.skip(1)), Stop::Never, seq![Node::RootDir], 0).0
    } else {
        spec_parse_nodes(join(cs), Stop::Never, Seq::empty(), 0).0
    }
}

/// The recogniser that gave `res` on `s` pushed its node on `before`, giving `after`, and
/// returned the input after the bytes it took; or it took nothing.
pub open spec fn recognised(
    s: Seq<u8>,
    res: Option<(Node, nat)>,
    before: Seq<AstNode>,
    after: Seq<AstNode>,
    rest: Option<Seq<u8>>,
) -> bool {
    match res {
        Some((n, k)) => 1 <= k <= s.len() && rest == Some(s.skip(k as int)) && nodes_view(after)
            == nodes_view(before).push(n),
        None => rest is None && after == before,
    }
}

pub open spec fn rest_view(r: Option<&[u8]>) -> Option<Seq<u8>> {
    match r {
        Some(x) => Some(x@),
        None => None,
    }
}

fn tail(s: &[u8], k: usize) -> (r: &[u8])
    requires
        k <= s@.len(),
    ensures
        r@ == s@.skip(k as int),
{
    slice_subrange(s, k, s.len())
}

fn push_node(out: &mut Vec<AstNode>, n: AstNode)
    ensures
        final(out)@ == old(out)@.push(n),
        nodes_view(final(out)@) == nodes_view(old(out)@).push(n.view()),
{
    proof {
        lemma_nodes_view_push(out@, n);
    }
    out.push(n);
}

fn node_separator<'a>(string: &'a [u8], out: &mut Vec<AstNode>) -> (r: Option<&'a [u8]>)
    ensures
        recognised(string@, spec_separator(string@), old(out)@, final(out)@, rest_view(r)),
{
    if string.len() > 0 && string[0] == SLASH {
        push_node(out, AstNode::Separator);
        Some(tail(string, 1))
    } else {
        None
    }
}

fn node_any_character<'a>(string: &'a [u8], out: &mut Vec<AstNode>) -> (r: Option<&'a [u8]>)
    ensures
        recognised(string@, spec_any_character(string@), old(out)@, final(out)@, rest_view(r)),
{
    if string.len() > 0 && string[0] == QUESTION {
        push_node(out, AstNode::AnyCharacter);
        Some(tail(string, 1))
    } else {
        None
    }
}

fn node_recurse<'a>(string: &'a [u8], out: &mut Vec<AstNode>) -> (r: Option<&'a [u8]>)
    ensures
        recognised(string@, spec_recurse(string@), old(out)@, final(out)@, rest_view(r)),
{
    if string.len() >= 2 && string[0] == STAR && string[1] == STAR {
        push_node(out, AstNode::Recurse);
        Some(tail(string, 2))
    } else {
        None
    }
}

fn node_wildcard<'a>(string: &'a [u8], out: &mut Vec<AstNode>) -> (r: Option<&'a [u8]>)
    ensures
        recognised(string@, spec_wildcard(string@), old(out)@, final(out)@, rest_view(r)),
{
    if string.len() > 0 && string[0] == STAR {
        push_node(out, AstNode::Wildcard);
        Some(tail(string, 1))
    } else {
        None
    }
}

/// The first character of `string` where it starts with a well-formed UTF-8 sequence, and the
/// bytes after it.
fn get_utf8_char(string: &[u8]) -> (r: Option<(char, &[u8])>)
    ensures
        match r {
            Some((c, rest)) => first_scalar(string@) == Some(c) && scalar_len(string@) >= 1
                && rest@ == string@.skip(scalar_len(string@) as int),
            None => first_scalar(string@) is None,
        },
{
    match first_scalar_exec(string) {
        Some((c, n)) => {
            proof {
                lemma_scalar_value_is_scalar(string@);
            }
            Some((c, tail(string, n)))
        },
        None => None,
    }
}

fn node_character_class<'a>(string: &'a [u8], out: &mut Vec<AstNode>) -> (r: Option<&'a [u8]>)
    ensures
        recognised(string@, spec_class(string@), old(out)@, final(out)@, rest_view(r)),
{
    if string.len() == 0 || string[0] != OPEN_BRACKET {
        return None;
    }
    let ghost target = spec_class_items(string@.skip(1), Seq::empty(), 1);
    let mut s = tail(string, 1);
    let mut classes: Vec<CharacterClass> = Vec::new();
    let ghost mut used: nat = 1;
    assert(classes@ =~= Seq::<CharacterClass>::empty());
    loop
        invariant
            spec_class_items(s@, classes@, used) == target,
            target == spec_class_items(string@.skip(1), Seq::empty(), 1),
            1 <= used <= string@.len(),
            s@ == string@.skip(used as int),
            out@ == old(out)@,
            string@.len() > 0 && string@[0] == OPEN_BRACKET,
        decreases s@.len(),
    {
        let (start_char, next_string) = match get_utf8_char(s) {
            Some(p) => p,
            None => {
                return None;
            },
        };
        let ghost n = scalar_len(s@);
        let (entry, after) = if next_string.len() > 0 && next_string[0] == DASH {
            // This is a range, due to the - char
            let n2 = tail(next_string, 1);
            match get_utf8_char(n2) {
                Some((end_char, n3)) => {
                    assert(n3@ =~= s@.skip((n + 1 + scalar_len(n2@)) as int));
                    (CharacterClass::Range(start_char, end_char), n3)
                },
                None => {
                    return None;
                },
            }
        } else {
            // It's a single char
            (CharacterClass::Single(start_char), next_string)
        };
        let ghost m = (s@.len() - after@.len()) as nat;
        assert(after@ =~= s@.skip(m as int));
        classes.push(entry);
        if after.len() == 0 {
            return None;
        }
        if after[0] == CLOSE_BRACKET {
            let rest = tail(after, 1);
            assert(rest@ =~= string@.skip((used + m + 1) as int));
            push_node(out, AstNode::Characters(classes));
            return Some(rest);
        }
        proof {
            used = used + m;
            assert(s@.skip(m as int) =~= string@.skip(used as int));
        }
        s = after;
    }
}

/// Whether `string` is at its end or at a separator.
fn starts_at_path_component_boundary(string: &[u8]) -> (r: bool)
    ensures
        r == starts_at_boundary(string@),
{
    string.len() == 0 || string[0] == SLASH
}

/// Whether the last node of `out` leaves a `.` or `..` after it standing alone.
fn at_boundary_exec(out: &Vec<AstNode>) -> (r: bool)
    ensures
        r == at_boundary(nodes_view(out@)),
{
    proof {
        lemma_nodes_view(out@);
    }
    if out.len() == 0 {
        true
    } else {
        match &out[out.len() - 1] {
            AstNode::RootDir => true,
            AstNode::Separator => true,
            _ => false,
        }
    }
}

fn node_cur_or_parent_dir<'a>(string: &'a [u8], out: &mut Vec<AstNode>) -> (r: Option<&'a [u8]>)
    ensures
        recognised(
            string@,
            spec_dot(string@, at_boundary(nodes_view(old(out)@))),
            old(out)@,
            final(out)@,
            rest_view(r),
        ),
{
    // We have to look behind and ahead to make sure this is an isolated node
    if !at_boundary_exec(out) {
        return None;
    }
    if string.len() >= 2 && string[0] == DOT && string[1] == DOT {
        let next_string = tail(string, 2);
        if starts_at_path_component_boundary(next_string) {
            push_node(out, AstNode::ParentDir);
            return Some(next_string);
        }
    }
    if string.len() >= 1 && string[0] == DOT {
        let next_string = tail(string, 1);
        if starts_at_path_component_boundary(next_string) {
            push_node(out, AstNode::CurDir);
            return Some(next_string);
        }
    }
    None
}

fn node_literal_string<'a>(string: &'a [u8], out: &mut Vec<AstNode>) -> (r: Option<&'a [u8]>)
    requires
        string@.len() > 0,
    ensures
        recognised(string@, Some(spec_literal(string@)), old(out)@, final(out)@, rest_view(r)),
{
    // Take at least one byte, but if we find a meaningful byte, leave that alone for further
    // parsing
    let mut i: usize = 1;
    while i < string.len() && !is_meaningful_exec(string[i])
        invariant
            1 <= i <= string@.len(),
            literal_end(string@, 1) == literal_end(string@, i as int),
        decreases string@.len() - i,
    {
        i = i + 1;
    }
    let literal = slice_to_vec(slice_subrange(string, 0, i));
    assert(literal@ =~= string@.take(i as int));
    push_node(out, AstNode::LiteralString(literal));
    Some(tail(string, i))
}

fn is_meaningful_exec(b: u8) -> (r: bool)
    ensures
        r == is_meaningful(b),
{
    b == STAR || b == QUESTION || b == OPEN_BRACKET || b == CLOSE_BRACKET || b == OPEN_BRACE || b
        == CLOSE_BRACE || b == OPEN_ANGLE || b == CLOSE_ANGLE || b == COMMA || b == COLON || b
        == SLASH || b == BACKSLASH
}

fn stop_here(stop: Stop, string: &[u8]) -> (r: bool)
    ensures
        r == stops(stop, string@),
{
    string.len() > 0 && match stop {
        Stop::Never => false,
        Stop::ChoiceEnd => string[0] == COMMA || string[0] == CLOSE_BRACE,
        Stop::RepeatBody => string[0] == COLON,
    }
}

/// Parses nodes from `string` onto `out` until the input ends or `stop` says to stop, and
/// returns the input that is left.
pub fn parse_nodes<'a>(string: &'a [u8], stop: Stop, out: &mut Vec<AstNode>) -> (r: &'a [u8])
    ensures
        nodes_view(final(out)@) == spec_parse_nodes(string@, stop, nodes_view(old(out)@), 0).0,
        spec_parse_nodes(string@, stop, nodes_view(old(out)@), 0).1 <= string@.len(),
        r@ == string@.skip(spec_parse_nodes(string@, stop, nodes_view(old(out)@), 0).1 as int),
    decreases string@.len(), 3nat,
{
    let ghost target = spec_parse_nodes(string@, stop, nodes_view(old(out)@), 0);
    let ghost mut used: nat = 0;
    let mut s = string;
    assert(s@ =~= string@.skip(0));
    while s.len() > 0 && !stop_here(stop, s)
        invariant
            spec_parse_nodes(s@, stop, nodes_view(out@), used) == target,
            target == spec_parse_nodes(string@, stop, nodes_view(old(out)@), 0),
            used <= string@.len(),
            s@ == string@.skip(used as int),
        decreases s@.len(),
    {
        let ghost before = nodes_view(out@);
        s = next_node(s, out);
        proof {
            let k = spec_next_node(string@.skip(used as int), at_boundary(before)).1;
            assert(s@ =~= string@.skip((used + k) as int));
            used = used + k;
        }
    }
    s
}

/// Parses one node from the start of `string` onto `out`, and returns the input that is left.
pub fn next_node<'a>(string: &'a [u8], out: &mut Vec<AstNode>) -> (r: &'a [u8])
    requires
        string@.len() > 0,
    ensures
        ({
            let (n, k) = spec_next_node(string@, at_boundary(nodes_view(old(out)@)));
            1 <= k <= string@.len() && r@ == string@.skip(k as int) && nodes_view(final(out)@)
                == nodes_view(old(out)@).push(n)
        }),
    decreases string@.len(), 2nat,
{
    if let Some(r) = node_separator(string, out) {
        return r;
    }
    if let Some(r) = node_any_character(string, out) {
        return r;
    }
    if let Some(r) = node_recurse(string, out) {
        return r;
    }
    if let Some(r) = node_wildcard(string, out) {
        return r;
    }
    if let Some(r) = node_alternatives(string, out) {
        return r;
    }
    if let Some(r) = node_character_class(string, out) {
        return r;
    }
    if let Some(r) = node_repeat(string, out) {
        return r;
    }
    if let Some(r) = node_cur_or_parent_dir(string, out) {
        return r;
    }
    match node_literal_string(string, out) {
        Some(r) => r,
        None => string,
    }
}

fn node_alternatives<'a>(string: &'a [u8], out: &mut Vec<AstNode>) -> (r: Option<&'a [u8]>)
    ensures
        recognised(string@, spec_alternatives(string@), old(out)@, final(out)@, rest_view(r)),
    decreases string@.len(), 1nat,
{
    if string.len() == 0 || string[0] != OPEN_BRACE {
        return None;
    }
    let ghost target = spec_choices(string@.skip(1), Seq::empty(), 1);
    let mut s = tail(string, 1);
    let mut choices: Vec<Pattern> = Vec::new();
    let ghost mut used: nat = 1;
    assert(choices_view(choices@) =~= Seq::<Seq<Node>>::empty());
    loop
        invariant
            spec_choices(s@, choices_view(choices@), used) == target,
            target == spec_choices(string@.skip(1), Seq::empty(), 1),
            1 <= used <= string@.len(),
            s@ == string@.skip(used as int),
            out@ == old(out)@,
            string@.len() > 0 && string@[0] == OPEN_BRACE,
        decreases s@.len(),
    {
        let mut current_out: Vec<AstNode> = Vec::new();
        assert(nodes_view(current_out@) =~= Seq::<Node>::empty());
        let rest = parse_nodes(s, Stop::ChoiceEnd, &mut current_out);
        let ghost k = spec_parse_nodes(s@, Stop::ChoiceEnd, Seq::empty(), 0).1;
        if rest.len() == 0 {
            return None;
        }
        assert(rest@[0] == s@[k as int]);
        let ghost prev = choices_view(choices@);
        proof {
            assert(choices@.push(Pattern { nodes: current_out }).drop_last() =~= choices@);
        }
        if rest[0] == COMMA {
            choices.push(Pattern { nodes: current_out });
            let next = tail(rest, 1);
            proof {
                assert(next@ =~= string@.skip((used + k + 1) as int));
                assert(s@.skip(k + 1 as int) =~= next@);
                used = used + k + 1;
            }
            s = next;
        } else if rest[0] == CLOSE_BRACE {
            choices.push(Pattern { nodes: current_out });
            let next = tail(rest, 1);
            assert(next@ =~= string@.skip((used + k + 1) as int));
            push_node(out, AstNode::Alternatives { choices });
            return Some(next);
        } else {
            return None;
        }
    }
}

/// The index of the first `b` in `string`.
fn position_of(string: &[u8], b: u8) -> (r: Option<usize>)
    ensures
        match r {
            Some(i) => find_byte(string@, b, 0) == Some(i as int),
            None => find_byte(string@, b, 0) is None,
        },
{
    let mut i: usize = 0;
    while i < string.len()
        invariant
            i <= string@.len(),
            find_byte(string@, b, 0) == find_byte(string@, b, i as int),
        decreases string@.len() - i,
    {
        if string[i] == b {
            return Some(i);
        }
        i = i + 1;
    }
    None
}

proof fn lemma_digits_prefix(d: Seq<u8>, j: int)
    requires
        0 <= j <= d.len(),
        forall|i: int| 0 <= i < d.len() ==> is_digit(#[trigger] d[i]),
    ensures
        0 <= digits_value(d.take(j)) <= digits_value(d),
    decreases d.len(),
{
    if j == d.len() {
        assert(d.take(j) =~= d);
        if d.len() > 0 {
            lemma_digits_prefix(d.drop_last(), 0);
        }
    } else {
        assert(d.drop_last().take(j) =~= d.take(j));
        lemma_digits_prefix(d.drop_last(), j);
    }
}

/// The value of a string of decimal digits that fits in a `u32`.
fn parse_decimal(d: &[u8]) -> (r: Option<u32>)
    ensures
        r == decimal(d@),
{
    if d.len() == 0 {
        return None;
    }
    let mut v: u32 = 0;
    let mut i: usize = 0;
    while i < d.len()
        invariant
            i <= d@.len(),
            d@.len() > 0,
            forall|k: int| 0 <= k < i ==> is_digit(#[trigger] d@[k]),
            v == digits_value(d@.take(i as int)),
        decreases d@.len() - i,
    {
        let b = d[i];
        if !(0x30 <= b && b <= 0x39) {
            assert(!is_digit(d@[i as int]));
            return None;
        }
        assert(d@.take(i + 1).drop_last() =~= d@.take(i as int));
        let next = match v.checked_mul(10) {
            Some(t) => t.checked_add((b - 0x30) as u32),
            None => None,
        };
        match next {
            Some(t) => {
                v = t;
            },
            None => {
                proof {
                    if forall|k: int| 0 <= k < d@.len() ==> is_digit(#[trigger] d@[k]) {
                        lemma_digits_prefix(d@, i + 1);
                    }
                }
                return None;
            },
        }
        i = i + 1;
    }
    assert(d@.take(i as int) =~= d@);
    Some(v)
}

/// The bounds of a repetition from the text between `:` and `>`.
fn parse_counts(params: &[u8]) -> (r: Option<(u32, u32)>)
    ensures
        r == repeat_counts(params@),
{
    match position_of(params, COMMA) {
        Some(c) => {
            proof {
                lemma_find_byte_bound(params@, COMMA, 0);
                assert(find_byte(params@, COMMA, 0) == Some(c as int));
                assert(c < params@.len());
            }
            let len = params.len();
            let min = parse_decimal(slice_subrange(params, 0, c));
            let max = parse_decimal(slice_subrange(params, c + 1, len));
            assert(params@.subrange(0, c as int) =~= params@.take(c as int));
            assert(params@.subrange(c + 1, params@.len() as int) =~= params@.skip(c + 1));
            match (min, max) {
                (Some(min), Some(max)) => Some((min, max)),
                _ => None,
            }
        },
        None => match parse_decimal(params) {
            Some(n) => Some((n, n)),
            None => None,
        },
    }
}

proof fn lemma_find_byte_bound(s: Seq<u8>, b: u8, i: int)
    requires
        0 <= i,
    ensures
        match find_byte(s, b, i) {
            Some(k) => i <= k < s.len() && s[k] == b,
            None => true,
        },
    decreases s.len() - i,
{
    if i < s.len() && s[i] != b {
        lemma_find_byte_bound(s, b, i + 1);
    }
}

fn node_repeat<'a>(string: &'a [u8], out: &mut Vec<AstNode>) -> (r: Option<&'a [u8]>)
    ensures
        recognised(string@, spec_repeat(string@), old(out)@, final(out)@, rest_view(r)),
    decreases string@.len(), 1nat,
{
    if string.len() == 0 || string[0] != OPEN_ANGLE {
        return None;
    }
    let mut current_out: Vec<AstNode> = Vec::new();
    assert(nodes_view(current_out@) =~= Seq::<Node>::empty());
    let body = tail(string, 1);
    let rest = parse_nodes(body, Stop::RepeatBody, &mut current_out);
    let ghost k = spec_parse_nodes(string@.skip(1), Stop::RepeatBody, Seq::empty(), 0).1;
    assert(rest@ =~= string@.skip((1 + k) as int));
    if rest.len() == 0 || rest[0] != COLON {
        return None;
    }
    let u = tail(rest, 1);
    let end_index = match position_of(u, CLOSE_ANGLE) {
        Some(e) => e,
        None => {
            return None;
        },
    };
    proof {
        lemma_find_byte_bound(u@, CLOSE_ANGLE, 0);
    }
    let params = slice_subrange(u, 0, end_index);
    assert(params@ =~= u@.take(end_index as int));
    let (min, max) = match parse_counts(params) {
        Some(p) => p,
        None => {
            return None;
        },
    };
    if min > max {
        return None;
    }
    let next = tail(u, end_index + 1);
    assert(next@ =~= string@.skip(1 + k + 1 + end_index + 1));
    push_node(out, AstNode::Repeat { min, max, pattern: Pattern { nodes: current_out } });
    Some(next)
}

/// The bytes of the components of `cs` from `start` on, with a separator between each two.
fn join_components(cs: &Vec<PathComponent>, start: usize) -> (r: Vec<u8>)
    requires
        start <= cs@.len(),
    ensures
        r@ == join(comps_view(cs@).skip(start as int)),
{
    let ghost v = comps_view(cs@);
    let mut out: Vec<u8> = Vec::new();
    let mut i: usize = start;
    assert(v.subrange(start as int, start as int) =~= Seq::<Comp>::empty());
    while i < cs.len()
        invariant
            start <= i <= cs@.len(),
            v == comps_view(cs@),
            v.len() == cs@.len(),
            out@ == join(v.subrange(start as int, i as int)),
        decreases cs@.len() - i,
    {
        let ghost before = v.subrange(start as int, i as int);
        assert(v.subrange(start as int, i + 1).drop_last() =~= before);
        assert(v[i as int] == cs@[i as int]@);
        if i > start {
            out.push(SLASH);
        }
        match &cs[i] {
            PathComponent::RootDir => {
                out.push(SLASH);
            },
            PathComponent::CurDir => {
                out.push(DOT);
            },
            PathComponent::ParentDir => {
                out.push(DOT);
                out.push(DOT);
            },
            PathComponent::Normal(b) => {
                let mut bytes = slice_to_vec(b.as_slice());
                out.append(&mut bytes);
            },
        }
        assert(out@ =~= join(v.subrange(start as int, i + 1)));
        i = i + 1;
    }
    assert(v.subrange(start as int, i as int) =~= v.skip(start as int));
    out
}

/// Parses a glob. Leading root components of the path become nodes of their own; the rest of
/// the path is parsed into nodes. Parsing never fails: a construct that is not closed or not well
/// formed is read as literal bytes.
pub fn parse(string: &[u8]) -> (r: Pattern)
    ensures
        r@ == spec_parse(string@),
        pattern_wf(r@),
{
    proof {
        lemma_parse_wf(string@);
    }
    let comps = components_of(string);
    let ghost cs = comps_view(comps@);
    let mut nodes: Vec<AstNode> = Vec::new();
    assert(nodes_view(nodes@) =~= Seq::<Node>::empty());
    let mut start: usize = 0;
    if comps.len() > 0 {
        assert(cs[0] == comps@[0]@);
        if let PathComponent::RootDir = &comps[0] {
            push_node(&mut nodes, AstNode::RootDir);
            assert(nodes_view(nodes@) =~= seq![Node::RootDir]);
            start = 1;
        }
    }
    let relative = join_components(&comps, start);
    assert(cs.skip(0) =~= cs);
    parse_nodes(relative.as_slice(), Stop::Never, &mut nodes);
    Pattern { nodes }
}

proof fn lemma_push_wf(acc: Seq<Node>, n: Node)
    requires
        inner_wf(n),
    ensures
        pattern_wf(acc) ==> pattern_wf(acc.push(n)),
        inner_seq_wf(acc) ==> inner_seq_wf(acc.push(n)),
{
    let r = acc.push(n);
    assert(!is_head(n));
    if pattern_wf(acc) {
        assert forall|i: int| 0 <= i < r.len() implies is_head(#[trigger] r[i]) || inner_wf(r[i]) by {
            if i < acc.len() {
                assert(r[i] == acc[i]);
            }
        }
        assert forall|i: int, j: int|
            0 <= j < i < r.len() && is_head(#[trigger] r[i]) implies is_head(#[trigger] r[j]) by {
            assert(r[i] == acc[i]);
            assert(r[j] == acc[j]);
        }
    }
    assert(r.drop_last() =~= acc);
}

proof fn lemma_class_items_nonempty(s: Seq<u8>, acc: Seq<CharacterClass>, used: nat)
    ensures
        spec_class_items(s, acc, used) matches Some((cls, _)) ==> cls.len() > acc.len(),
    decreases s.len(),
{
    match first_scalar(s) {
        None => {},
        Some(c) => {
            let n = scalar_len(s);
            let s1 = s.skip(n as int);
            let (entry, m) = if s1.len() > 0 && s1[0] == DASH {
                match first_scalar(s1.skip(1)) {
                    Some(e) => (Some(CharacterClass::Range(c, e)), n + 1 + scalar_len(s1.skip(1))),
                    None => (None, 0nat),
                }
            } else {
                (Some(CharacterClass::Single(c)), n)
            };
            match entry {
                None => {},
                Some(en) => {
                    let rest = s.skip(m as int);
                    if rest.len() > 0 && rest[0] != CLOSE_BRACKET {
                        lemma_class_items_nonempty(rest, acc.push(en), used + m);
                    }
                },
            }
        },
    }
}

proof fn lemma_parse_nodes_wf(s: Seq<u8>, stop: Stop, acc: Seq<Node>, used: nat)
    ensures
        pattern_wf(acc) ==> pattern_wf(spec_parse_nodes(s, stop, acc, used).0),
        inner_seq_wf(acc) ==> inner_seq_wf(spec_parse_nodes(s, stop, acc, used).0),
    decreases s.len(), 3nat,
{
    if s.len() == 0 || stops(stop, s) {
    } else {
        let (n, k) = spec_next_node(s, at_boundary(acc));
        let k1: nat = if 1 <= k <= s.len() {
            k
        } else {
            1
        };
        lemma_next_node_wf(s, at_boundary(acc));
        lemma_push_wf(acc, n);
        lemma_parse_nodes_wf(s.skip(k1 as int), stop, acc.push(n), used + k1);
    }
}

proof fn lemma_next_node_wf(s: Seq<u8>, boundary: bool)
    ensures
        inner_wf(spec_next_node(s, boundary).0),
    decreases s.len(), 2nat,
{
    if s.len() > 0 {
        lemma_alternatives_wf(s);
        lemma_repeat_wf(s);
        if s[0] == OPEN_BRACKET {
            lemma_class_items_nonempty(s.skip(1), Seq::empty(), 1);
        }
    }
}

proof fn lemma_choices_wf(s: Seq<u8>, acc: Seq<Seq<Node>>, used: nat)
    requires
        choices_wf(acc),
    ensures
        spec_choices(s, acc, used) matches Some((cs, _)) ==> cs.len() > 0 && choices_wf(cs),
    decreases s.len(), 4nat,
{
    let (ns, k) = spec_parse_nodes(s, Stop::ChoiceEnd, Seq::empty(), 0);
    lemma_parse_nodes_wf(s, Stop::ChoiceEnd, Seq::empty(), 0);
    assert(inner_seq_wf(Seq::<Node>::empty()));
    let next = acc.push(ns);
    assert(next.drop_last() =~= acc);
    if k < s.len() && s[k as int] == COMMA {
        lemma_choices_wf(s.skip(k + 1 as int), next, used + k + 1);
    }
}

proof fn lemma_alternatives_wf(s: Seq<u8>)
    ensures
        spec_alternatives(s) matches Some((n, _)) ==> inner_wf(n),
    decreases s.len(), 1nat,
{
    if s.len() > 0 && s[0] == OPEN_BRACE {
        assert(choices_wf(Seq::<Seq<Node>>::empty()));
        lemma_choices_wf(s.skip(1), Seq::empty(), 1);
        match spec_choices(s.skip(1), Seq::empty(), 1) {
            Some((cs, k)) => {
                assert(spec_alternatives(s) == Some((Node::Alternatives(cs), k)));
            },
            None => {},
        }
    }
}

proof fn lemma_repeat_wf(s: Seq<u8>)
    ensures
        spec_repeat(s) matches Some((n, _)) ==> inner_wf(n),
    decreases s.len(), 1nat,
{
    if s.len() > 0 && s[0] == OPEN_ANGLE {
        lemma_parse_nodes_wf(s.skip(1), Stop::RepeatBody, Seq::empty(), 0);
        assert(inner_seq_wf(Seq::<Node>::empty()));
    }
}

/// Every pattern that the parser gives is well formed.
pub proof fn lemma_parse_wf(s: Seq<u8>)
    ensures
        pattern_wf(spec_parse(s)),
{
    let cs = components(s);
    if cs.len() > 0 && cs[0] is RootDir {
        assert(pattern_wf(seq![Node::RootDir]));
        lemma_parse_nodes_wf(join(cs.skip(1)), Stop::Never, seq![Node::RootDir], 0);
    } else {
        assert(pattern_wf(Seq::<Node>::empty()));
        lemma_parse_nodes_wf(join(cs), Stop::Never, Seq::empty(), 0);
    }
}

} // verus!
