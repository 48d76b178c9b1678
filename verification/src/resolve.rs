//! The walk that resolves a path inside a root, as mathematics.
//!
//! The walk starts at the root and takes one component at a time. After each
//! move it looks at what the host shows at the place it has reached; what the
//! host showed, sighting by sighting, is an argument of the model, so every
//! statement about a walk holds whatever the disk held.

use crate::error::{not_unicode, Refusal};
use crate::host::Sighting;
use crate::path::{absolute_text, is_absolute, is_dot_dot, names, parts, relative_text, solid, Part};
use vstd::prelude::*;

verus! {

/// Containment: `path` passes through every name of `root`, in order and
/// from the start. Names are compared whole, so `/a/bb` is not within `/a/b`.
pub open spec fn within(root: Seq<Seq<char>>, path: Seq<Seq<char>>) -> bool {
    root.is_prefix_of(path)
}

/// The path one level up; the top has nothing above it.
pub open spec fn parent(path: Seq<Seq<char>>) -> Seq<Seq<char>> {
    if path.len() == 0 {
        path
    } else {
        path.drop_last()
    }
}

/// The containment check on a canonical path: its names if they lie within
/// the root, else a refusal that carries `attempted`, the path that the
/// caller asked about.
pub open spec fn confine(
    root: Seq<Seq<char>>,
    attempted: Seq<char>,
    canonical: Seq<char>,
) -> Result<Seq<Seq<char>>, Refusal> {
    if within(root, names(canonical)) {
        Ok(names(canonical))
    } else {
        Err(Refusal::EscapedRoot { attempted, root: absolute_text(root) })
    }
}

/// Where a move along one component leads, before the host is asked.
pub enum Move {
    /// The component is refused.
    Refuse(Refusal),
    /// The walk stays where it is and asks nothing.
    Stay,
    /// The walk goes to this place and asks the host about it.
    Visit(Seq<Seq<char>>),
}

/// The move along one component from `cursor`. `input` is the path being
/// resolved; a step above the root reports it.
pub open spec fn enter(
    root: Seq<Seq<char>>,
    input: Seq<char>,
    cursor: Seq<Seq<char>>,
    part: Part,
) -> Move {
    match part {
        Part::Normal(name) => Move::Visit(cursor.push(name)),
        Part::ParentDir => {
            if within(root, parent(cursor)) {
                Move::Visit(parent(cursor))
            } else {
                Move::Refuse(Refusal::EscapedRoot { attempted: input, root: absolute_text(root) })
            }
        },
        Part::CurDir => Move::Stay,
        Part::RootDir => Move::Refuse(Refusal::InvalidPath("absolute components not allowed"@)),
    }
}

/// Where the walk stands after the host has shown `seen` at `place`. An
/// escape is reported with `input`, the path being resolved; a broken link
/// with the place where it stands.
pub open spec fn settle(
    root: Seq<Seq<char>>,
    input: Seq<char>,
    place: Seq<Seq<char>>,
    seen: Sighting,
) -> Result<Seq<Seq<char>>, Refusal> {
    match seen {
        Sighting::Canonical(canonical) => confine(root, input, canonical),
        Sighting::NotUnicode(_) => Err(not_unicode()),
        Sighting::BrokenLink => Err(Refusal::BrokenSymlink(absolute_text(place))),
        Sighting::Absent => Ok(place),
        Sighting::Failed(cause) => Err(Refusal::Io(cause)),
    }
}

/// The `k`-th thing the host showed; beyond the record, nothing.
pub open spec fn sighting_at(seen: Seq<Sighting>, k: int) -> Sighting {
    if 0 <= k < seen.len() {
        seen[k]
    } else {
        Sighting::Absent
    }
}

/// The walk along `parts` from `cursor`, when `k` sightings have been used.
pub open spec fn walk(
    root: Seq<Seq<char>>,
    input: Seq<char>,
    cursor: Seq<Seq<char>>,
    parts: Seq<Part>,
    seen: Seq<Sighting>,
    k: int,
) -> Result<Seq<Seq<char>>, Refusal>
    decreases parts.len(),
{
    if parts.len() == 0 {
        Ok(cursor)
    } else {
        match enter(root, input, cursor, parts.first()) {
            Move::Refuse(refusal) => Err(refusal),
            Move::Stay => walk(root, input, cursor, parts.drop_first(), seen, k),
            Move::Visit(place) => match settle(root, input, place, sighting_at(seen, k)) {
                Err(refusal) => Err(refusal),
                Ok(next) => walk(root, input, next, parts.drop_first(), seen, k + 1),
            },
        }
    }
}

/// The place that `input` resolves to inside `root`, given what the host
/// showed along the way.
pub open spec fn resolve(root: Seq<Seq<char>>, input: Seq<char>, seen: Seq<Sighting>) -> Result<
    Seq<Seq<char>>,
    Refusal,
> {
    if input.contains('\0') {
        Err(Refusal::InvalidPath("null bytes not allowed"@))
    } else if is_absolute(input) {
        Err(Refusal::InvalidPath("absolute paths not allowed"@))
    } else {
        walk(root, input, root, parts(input), seen, 0)
    }
}

/// The decision on a root, from its canonical path and whether the host
/// shows a directory there: a root must pass through a name, so that it has
/// a parent, and be a directory.
pub open spec fn found_root(canonical: Seq<char>, is_dir: bool) -> Result<Seq<Seq<char>>, Refusal> {
    if names(canonical).len() > 0 && is_dir {
        Ok(names(canonical))
    } else {
        Err(Refusal::InvalidRoot(canonical))
    }
}

/// The path from the root to a place within it; a place outside has none.
pub open spec fn below(root: Seq<Seq<char>>, attempted: Seq<char>, place: Seq<Seq<char>>) -> Result<
    Seq<char>,
    Refusal,
> {
    if within(root, place) {
        Ok(relative_text(place.skip(root.len() as int)))
    } else {
        Err(Refusal::EscapedRoot { attempted, root: absolute_text(root) })
    }
}

/// The path from the root to where a resolution ended.
pub open spec fn relative_of(
    root: Seq<Seq<char>>,
    attempted: Seq<char>,
    resolved: Result<Seq<Seq<char>>, Refusal>,
) -> Result<Seq<char>, Refusal> {
    match resolved {
        Ok(place) => below(root, attempted, place),
        Err(refusal) => Err(refusal),
    }
}

/// A segment that cannot be one name: it holds a null character or a
/// separator of either kind, or is `..`.
pub open spec fn is_faulty(segment: Seq<char>) -> bool {
    segment.contains('\0') || segment.contains('/') || segment.contains('\\') || is_dot_dot(
        segment,
    )
}

/// What is wrong with a segment, if anything: a segment is one name, so it
/// holds no null character and no separator of either kind, and is not `..`.
pub open spec fn segment_fault(segment: Seq<char>) -> Option<Seq<char>> {
    if segment.contains('\0') {
        Some("segment contains a null byte"@)
    } else if segment.contains('/') || segment.contains('\\') {
        Some("segment contains a path separator"@)
    } else if is_dot_dot(segment) {
        Some("segment is a parent reference"@)
    } else {
        None
    }
}

/// What is wrong with the first segment that has a fault.
pub open spec fn first_fault(segments: Seq<Seq<char>>) -> Option<Seq<char>>
    decreases segments.len(),
{
    if segments.len() == 0 {
        None
    } else if segment_fault(segments.first()) is Some {
        segment_fault(segments.first())
    } else {
        first_fault(segments.drop_first())
    }
}

/// The fragment that a list of segments spells: the segments that are not
/// empty, with a separator between each two. A fault in any segment refuses
/// the whole list.
pub open spec fn composed(segments: Seq<Seq<char>>) -> Result<Seq<char>, Refusal> {
    match first_fault(segments) {
        Some(reason) => Err(Refusal::InvalidPath(reason)),
        None => Ok(relative_text(solid(segments))),
    }
}

/// The place that a list of segments resolves to inside `root`.
pub open spec fn resolve_segments(
    root: Seq<Seq<char>>,
    segments: Seq<Seq<char>>,
    seen: Seq<Sighting>,
) -> Result<Seq<Seq<char>>, Refusal> {
    match composed(segments) {
        Ok(fragment) => resolve(root, fragment, seen),
        Err(refusal) => Err(refusal),
    }
}

} // verus!
