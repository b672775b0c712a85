//! Splitting a path into typed components, with the separator `/`.
use vstd::prelude::*;
use vstd::slice::{slice_subrange, slice_to_vec};

verus! {

/// The path separator.
pub const SEPARATOR: u8 = 0x2F;

/// One component of a path.
#[derive(Debug, Clone, PartialEq, Eq)]
pub enum PathComponent {
    RootDir,
    CurDir,
    ParentDir,
    Normal(Vec<u8>),
}

/// What a `PathComponent` holds.
pub enum Comp {
    RootDir,
    CurDir,
    ParentDir,
    Normal(Seq<u8>),
}

impl PathComponent {
    pub open spec fn view(&self) -> Comp {
        match self {
            PathComponent::RootDir => Comp::RootDir,
            PathComponent::CurDir => Comp::CurDir,
            PathComponent::ParentDir => Comp::ParentDir,
            PathComponent::Normal(b) => Comp::Normal(b@),
        }
    }
}

pub open spec fn comps_view(v: Seq<PathComponent>) -> Seq<Comp> {
    v.map_values(|c: PathComponent| c@)
}

/// The component that a piece between two separators stands for: none for an empty piece or
/// `.`, which a path does not keep past its start.
pub open spec fn piece_comp(piece: Seq<u8>) -> Seq<Comp> {
    if piece.len() == 0 || piece =~= seq![0x2Eu8] {
        Seq::empty()
    } else if piece =~= seq![0x2Eu8, 0x2Eu8] {
        seq![Comp::ParentDir]
    } else {
        seq![Comp::Normal(piece)]
    }
}

/// The components of `p` from index `i` on, where the current piece began at `start`.
pub open spec fn split_from(p: Seq<u8>, start: int, i: int) -> Seq<Comp>
    decreases p.len() - i,
{
    if i >= p.len() {
        piece_comp(p.subrange(start, p.len() as int))
    } else if p[i] == SEPARATOR {
        piece_comp(p.subrange(start, i)) + split_from(p, i + 1, i + 1)
    } else {
        split_from(p, start, i + 1)
    }
}

/// Whether `p` starts with a `.` that is a component of its own.
pub open spec fn starts_with_cur_dir(p: Seq<u8>) -> bool {
    p.len() > 0 && p[0] == 0x2Eu8 && (p.len() == 1 || p[1] == SEPARATOR)
}

/// The components of a path: a root where it starts with `/`, a `.` kept only at its start,
/// `..` as a parent reference, and every other non-empty piece between separators as a normal
/// component.
pub open spec fn components(p: Seq<u8>) -> Seq<Comp> {
    if p.len() > 0 && p[0] == SEPARATOR {
        seq![Comp::RootDir] + split_from(p, 1, 1)
    } else if starts_with_cur_dir(p) {
        seq![Comp::CurDir] + split_from(p, 1, 1)
    } else {
        split_from(p, 0, 0)
    }
}

fn push_piece(out: &mut Vec<PathComponent>, p: &[u8], start: usize, end: usize)
    requires
        start <= end <= p@.len(),
    ensures
        comps_view(final(out)@) == comps_view(old(out)@) + piece_comp(p@.subrange(
            start as int,
            end as int,
        )),
{
    let ghost piece = p@.subrange(start as int, end as int);
    let n = end - start;
    if n == 0 || (n == 1 && p[start] == 0x2E) {
        assert(piece_comp(piece) =~= Seq::empty());
        assert(comps_view(out@) + piece_comp(piece) =~= comps_view(out@));
    } else if n == 2 && p[start] == 0x2E && p[start + 1] == 0x2E {
        assert(piece =~= seq![0x2Eu8, 0x2Eu8]);
        out.push(PathComponent::ParentDir);
        assert(comps_view(out@) =~= comps_view(old(out)@) + piece_comp(piece));
    } else {
        assert(!(piece =~= seq![0x2Eu8])) by {
            if piece =~= seq![0x2Eu8] {
                assert(piece[0] == p@[start as int]);
            }
        }
        assert(!(piece =~= seq![0x2Eu8, 0x2Eu8])) by {
            if piece =~= seq![0x2Eu8, 0x2Eu8] {
                assert(piece[0] == p@[start as int]);
                assert(piece[1] == p@[start + 1]);
            }
        }
        let bytes = slice_to_vec(slice_subrange(p, start, end));
        out.push(PathComponent::Normal(bytes));
        assert(comps_view(out@) =~= comps_view(old(out)@) + piece_comp(piece));
    }
}

/// Splits `path` into its components.
pub fn components_of(path: &[u8]) -> (r: Vec<PathComponent>)
    ensures
        comps_view(r@) == components(path@),
{
    let mut out: Vec<PathComponent> = Vec::new();
    let len = path.len();
    let mut start: usize = 0;
    if len > 0 && path[0] == SEPARATOR {
        out.push(PathComponent::RootDir);
        start = 1;
    } else if len > 0 && path[0] == 0x2E && (len == 1 || path[1] == SEPARATOR) {
        out.push(PathComponent::CurDir);
        start = 1;
    }
    assert(comps_view(out@) + split_from(path@, start as int, start as int) =~= components(
        path@,
    ));
    let mut i: usize = start;
    while i < len
        invariant
            len == path@.len(),
            start <= i <= len,
            comps_view(out@) + split_from(path@, start as int, i as int) == components(path@),
        decreases len - i,
    {
        if path[i] == SEPARATOR {
            let ghost before = comps_view(out@);
            push_piece(&mut out, path, start, i);
            assert(comps_view(out@) + split_from(path@, (i + 1) as int, (i + 1) as int) =~= before
                + split_from(path@, start as int, i as int));
            start = i + 1;
        }
        i = i + 1;
    }
    let ghost before = comps_view(out@);
    push_piece(&mut out, path, start, len);
    assert(comps_view(out@) =~= before + split_from(path@, start as int, len as int));
    out
}

} // verus!
