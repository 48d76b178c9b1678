//! What holds of every walk, whatever the host showed.

use crate::error::{not_unicode, Refusal};
use crate::host::Sighting;
use crate::jail::Jail;
use crate::path::{
    absolute_text, all_names, as_normal, is_absolute, is_dot_dot, is_name, joined,
    lemma_joined_holds_only_names, lemma_names_are_names, lemma_names_of_absolute_text,
    lemma_no_segments_in_nothing, lemma_parts_of_relative_text, lemma_pieces_hold_no_separator,
    lemma_pieces_lack, lemma_pieces_plain, lemma_segments_are_plain, lemma_solid_keeps, names,
    parts, pieces, relative_text, segments, solid, Part,
};
use crate::resolve::{
    below, composed, confine, enter, first_fault, found_root, is_faulty, parent, resolve,
    resolve_segments, segment_fault, settle, sighting_at, walk, within, Move,
};
use vstd::prelude::*;

verus! {

/// A component that appends nothing to a path, or a name.
pub open spec fn appends_name(part: Part) -> bool {
    part matches Part::Normal(name) ==> is_name(name)
}

/// Every component that a walk is to append is a name.
pub open spec fn appends_names(parts: Seq<Part>) -> bool {
    forall|i: int| 0 <= i < parts.len() ==> appends_name(#[trigger] parts[i])
}

/// The components that a path is cut into append names only.
pub proof fn lemma_parts_append_names(s: Seq<char>)
    ensures
        appends_names(parts(s)),
{
    lemma_segments_are_plain(s);
    assert forall|i: int| 0 <= i < parts(s).len() implies appends_name(
        #[trigger] parts(s)[i],
    ) by {
        let shift: int = if is_absolute(s) { 1 } else { 0 };
        if i >= shift {
            let piece = segments(s)[i - shift];
            assert(piece.len() > 0 && !piece.contains('/'));
        }
    }
}

/// A walk that starts within the root ends within the root, if it ends at
/// all; and if it starts from names and appends names, it ends at names.
pub proof fn lemma_walk_stays_within(
    root: Seq<Seq<char>>,
    input: Seq<char>,
    cursor: Seq<Seq<char>>,
    parts: Seq<Part>,
    seen: Seq<Sighting>,
    k: int,
)
    requires
        within(root, cursor),
    ensures
        walk(root, input, cursor, parts, seen, k) matches Ok(place) ==> within(root, place),
        all_names(cursor) && appends_names(parts) ==> (walk(
            root,
            input,
            cursor,
            parts,
            seen,
            k,
        ) matches Ok(place) ==> all_names(place)),
    decreases parts.len(),
{
    if parts.len() > 0 {
        let rest = parts.drop_first();
        assert(appends_names(parts) ==> appends_names(rest)) by {
            if appends_names(parts) {
                assert forall|i: int| 0 <= i < rest.len() implies appends_name(
                    #[trigger] rest[i],
                ) by {
                    assert(rest[i] == parts[i + 1]);
                }
            }
        }
        match enter(root, input, cursor, parts.first()) {
            Move::Refuse(_) => {},
            Move::Stay => {
                lemma_walk_stays_within(root, input, cursor, rest, seen, k);
            },
            Move::Visit(place) => {
                match settle(root, input, place, sighting_at(seen, k)) {
                    Err(_) => {},
                    Ok(next) => {
                        assert(within(root, next)) by {
                            match parts.first() {
                                Part::Normal(name) => {
                                    assert(cursor.push(name).subrange(0, root.len() as int)
                                        =~= cursor.subrange(0, root.len() as int));
                                },
                                _ => {},
                            }
                        }
                        assert(all_names(cursor) && appends_names(parts) ==> all_names(next)) by {
                            if all_names(cursor) && appends_names(parts) {
                                assert(parts[0] == parts.first());
                                match sighting_at(seen, k) {
                                    Sighting::Canonical(canonical) => {
                                        lemma_names_are_names(canonical);
                                    },
                                    _ => {},
                                }
                            }
                        }
                        lemma_walk_stays_within(root, input, next, rest, seen, k + 1);
                    },
                }
            },
        }
    }
}

/// Containment: whatever the host showed, a path that resolves at all
/// resolves to a place within the root, and the text of that place, read
/// back, passes through the root's names first.
pub proof fn lemma_resolved_lies_within(root: Seq<Seq<char>>, input: Seq<char>, seen: Seq<Sighting>)
    requires
        all_names(root),
    ensures
        resolve(root, input, seen) matches Ok(place) ==> within(root, place) && all_names(place)
            && within(root, names(absolute_text(place))),
{
    assert(root.subrange(0, root.len() as int) =~= root);
    lemma_parts_append_names(input);
    lemma_walk_stays_within(root, input, root, parts(input), seen, 0);
    match resolve(root, input, seen) {
        Ok(place) => {
            lemma_names_of_absolute_text(place);
        },
        Err(_) => {},
    }
}

/// A walk never refuses a path as an invalid root. It refuses a path as
/// invalid only at a root marker, or where the host shows a path that is not
/// Unicode; and it reports an escape with the path it was given.
pub proof fn lemma_walk_refusals(
    root: Seq<Seq<char>>,
    input: Seq<char>,
    cursor: Seq<Seq<char>>,
    parts: Seq<Part>,
    seen: Seq<Sighting>,
    k: int,
)
    ensures
        walk(root, input, cursor, parts, seen, k) matches Err(refusal) ==> {
            &&& !(refusal is InvalidRoot)
            &&& refusal is InvalidPath ==> refusal == not_unicode() || exists|i: int|
                0 <= i < parts.len() && #[trigger] parts[i] == Part::RootDir
            &&& refusal matches Refusal::EscapedRoot { attempted, root: reported } ==> attempted
                == input && reported == absolute_text(root)
        },
    decreases parts.len(),
{
    if parts.len() > 0 {
        let rest = parts.drop_first();
        assert forall|i: int| 0 <= i < rest.len() && #[trigger] rest[i]
            == Part::RootDir implies parts[i + 1] == Part::RootDir by {}
        match enter(root, input, cursor, parts.first()) {
            Move::Refuse(_) => {
                assert(parts.first() is RootDir ==> parts[0] == Part::RootDir);
            },
            Move::Stay => {
                lemma_walk_refusals(root, input, cursor, rest, seen, k);
            },
            Move::Visit(place) => {
                match settle(root, input, place, sighting_at(seen, k)) {
                    Err(_) => {},
                    Ok(next) => {
                        lemma_walk_refusals(root, input, next, rest, seen, k + 1);
                    },
                }
            },
        }
        if walk(root, input, cursor, parts, seen, k) matches Err(refusal) && refusal
            is InvalidPath && refusal != not_unicode() {
            if !(parts.first() is RootDir) {
                let i = choose|i: int| 0 <= i < rest.len() && #[trigger] rest[i] == Part::RootDir;
                assert(parts[i + 1] == Part::RootDir);
            }
        }
    }
}

/// A path that holds a null character or is absolute is refused as invalid,
/// whatever the host shows. Any other path is refused as invalid only where
/// the host shows a path that is not Unicode. No path is refused as an
/// invalid root, and an escape is reported with the path as it was given.
pub proof fn lemma_invalid_paths(root: Seq<Seq<char>>, input: Seq<char>, seen: Seq<Sighting>)
    ensures
        input.contains('\0') || is_absolute(input) ==> (resolve(root, input, seen) matches Err(
            refusal,
        ) && refusal is InvalidPath),
        (resolve(root, input, seen) matches Err(refusal) && refusal is InvalidPath)
            ==> input.contains('\0') || is_absolute(input) || resolve(root, input, seen) == Err::<
            Seq<Seq<char>>,
            Refusal,
        >(not_unicode()),
        !(resolve(root, input, seen) matches Err(refusal) && refusal is InvalidRoot),
        resolve(root, input, seen) matches Err(Refusal::EscapedRoot { attempted, root: reported })
            ==> attempted == input && reported == absolute_text(root),
{
    if !input.contains('\0') && !is_absolute(input) {
        lemma_walk_refusals(root, input, root, parts(input), seen, 0);
        assert forall|i: int| 0 <= i < parts(input).len() implies #[trigger] parts(input)[i]
            != Part::RootDir by {}
    }
}

/// The number of components that make a walk ask the host.
pub open spec fn visits(parts: Seq<Part>) -> int
    decreases parts.len(),
{
    if parts.len() == 0 {
        0
    } else {
        let asks: int = if parts.first() is Normal || parts.first() is ParentDir {
            1
        } else {
            0
        };
        asks + visits(parts.drop_first())
    }
}

/// A walk can be taken in two legs: the first components from the start,
/// then the others from where the first leg ended, with the sightings that
/// the first leg left unused. A refusal on the first leg is the refusal of the
/// whole.
pub proof fn lemma_walk_in_two_legs(
    root: Seq<Seq<char>>,
    input: Seq<char>,
    cursor: Seq<Seq<char>>,
    parts: Seq<Part>,
    seen: Seq<Sighting>,
    k: int,
    i: int,
)
    requires
        0 <= i <= parts.len(),
    ensures
        walk(root, input, cursor, parts, seen, k) == (match walk(
            root,
            input,
            cursor,
            parts.take(i),
            seen,
            k,
        ) {
            Ok(mid) => walk(root, input, mid, parts.skip(i), seen, k + visits(parts.take(i))),
            Err(refusal) => Err(refusal),
        }),
    decreases i,
{
    if i == 0 {
        assert(parts.take(0) =~= Seq::<Part>::empty());
        assert(parts.skip(0) =~= parts);
    } else {
        let rest = parts.drop_first();
        let leg = parts.take(i);
        assert(leg.first() == parts.first());
        assert(leg.drop_first() =~= rest.take(i - 1));
        assert(rest.skip(i - 1) =~= parts.skip(i));
        match enter(root, input, cursor, parts.first()) {
            Move::Refuse(_) => {},
            Move::Stay => {
                lemma_walk_in_two_legs(root, input, cursor, rest, seen, k, i - 1);
            },
            Move::Visit(place) => {
                match settle(root, input, place, sighting_at(seen, k)) {
                    Err(_) => {},
                    Ok(next) => {
                        lemma_walk_in_two_legs(root, input, next, rest, seen, k + 1, i - 1);
                    },
                }
            },
        }
    }
}

/// A walk ends where its first refusal occurs: if it has come to `mid` by
/// component `i`, and the move along that component, with what the host
/// shows then, is refused, the whole walk is refused in the same way.
pub proof fn lemma_walk_ends_at_refusal(
    root: Seq<Seq<char>>,
    input: Seq<char>,
    parts: Seq<Part>,
    seen: Seq<Sighting>,
    i: int,
    mid: Seq<Seq<char>>,
    refusal: Refusal,
)
    requires
        0 <= i < parts.len(),
        walk(root, input, root, parts.take(i), seen, 0) == Ok::<Seq<Seq<char>>, Refusal>(mid),
        match enter(root, input, mid, parts[i]) {
            Move::Refuse(given) => given == refusal,
            Move::Stay => false,
            Move::Visit(place) => settle(
                root,
                input,
                place,
                sighting_at(seen, visits(parts.take(i))),
            ) == Err::<Seq<Seq<char>>, Refusal>(refusal),
        },
    ensures
        walk(root, input, root, parts, seen, 0) == Err::<Seq<Seq<char>>, Refusal>(refusal),
{
    lemma_walk_in_two_legs(root, input, root, parts, seen, 0, i);
    assert(parts.skip(i).first() == parts[i]);
}

/// Escapes are refused: if the walk moves to a place which the host shows to
/// resolve to somewhere outside the root, the walk ends with `EscapedRoot`,
/// and reports the path it was given.
pub proof fn lemma_escape_is_refused(
    root: Seq<Seq<char>>,
    input: Seq<char>,
    parts: Seq<Part>,
    seen: Seq<Sighting>,
    i: int,
    mid: Seq<Seq<char>>,
    place: Seq<Seq<char>>,
    canonical: Seq<char>,
)
    requires
        0 <= i < parts.len(),
        walk(root, input, root, parts.take(i), seen, 0) == Ok::<Seq<Seq<char>>, Refusal>(mid),
        enter(root, input, mid, parts[i]) == Move::Visit(place),
        sighting_at(seen, visits(parts.take(i))) == Sighting::Canonical(canonical),
        !within(root, names(canonical)),
    ensures
        walk(root, input, root, parts, seen, 0) == Err::<Seq<Seq<char>>, Refusal>(
            Refusal::EscapedRoot { attempted: input, root: absolute_text(root) },
        ),
{
    lemma_walk_ends_at_refusal(
        root,
        input,
        parts,
        seen,
        i,
        mid,
        Refusal::EscapedRoot { attempted: input, root: absolute_text(root) },
    );
}

/// A step above the root is refused: if the walk stands at `mid` and the
/// next component is `..`, and the place above `mid` is not within the root,
/// the walk ends with `EscapedRoot`, and reports the path it was given.
pub proof fn lemma_step_above_root_is_refused(
    root: Seq<Seq<char>>,
    input: Seq<char>,
    parts: Seq<Part>,
    seen: Seq<Sighting>,
    i: int,
    mid: Seq<Seq<char>>,
)
    requires
        0 <= i < parts.len(),
        walk(root, input, root, parts.take(i), seen, 0) == Ok::<Seq<Seq<char>>, Refusal>(mid),
        parts[i] == Part::ParentDir,
        !within(root, parent(mid)),
    ensures
        walk(root, input, root, parts, seen, 0) == Err::<Seq<Seq<char>>, Refusal>(
            Refusal::EscapedRoot { attempted: input, root: absolute_text(root) },
        ),
{
    lemma_walk_ends_at_refusal(
        root,
        input,
        parts,
        seen,
        i,
        mid,
        Refusal::EscapedRoot { attempted: input, root: absolute_text(root) },
    );
}

/// Broken links are refused: if the walk moves to a place where the host
/// shows a symbolic link without a target, the walk ends with
/// `BrokenSymlink`, and reports the place.
pub proof fn lemma_broken_link_is_refused(
    root: Seq<Seq<char>>,
    input: Seq<char>,
    parts: Seq<Part>,
    seen: Seq<Sighting>,
    i: int,
    mid: Seq<Seq<char>>,
    place: Seq<Seq<char>>,
)
    requires
        0 <= i < parts.len(),
        walk(root, input, root, parts.take(i), seen, 0) == Ok::<Seq<Seq<char>>, Refusal>(mid),
        enter(root, input, mid, parts[i]) == Move::Visit(place),
        sighting_at(seen, visits(parts.take(i))) == Sighting::BrokenLink,
    ensures
        walk(root, input, root, parts, seen, 0) == Err::<Seq<Seq<char>>, Refusal>(
            Refusal::BrokenSymlink(absolute_text(place)),
        ),
{
    lemma_walk_ends_at_refusal(
        root,
        input,
        parts,
        seen,
        i,
        mid,
        Refusal::BrokenSymlink(absolute_text(place)),
    );
}

/// `..` at the root is refused: a walk whose first component is `..` ends
/// with `EscapedRoot`, since the root has a name that the place above it
/// lacks.
pub proof fn lemma_parent_of_root_is_refused(
    root: Seq<Seq<char>>,
    input: Seq<char>,
    parts: Seq<Part>,
    seen: Seq<Sighting>,
)
    requires
        root.len() > 0,
        parts.len() > 0,
        parts[0] == Part::ParentDir,
    ensures
        walk(root, input, root, parts, seen, 0) == Err::<Seq<Seq<char>>, Refusal>(
            Refusal::EscapedRoot { attempted: input, root: absolute_text(root) },
        ),
{
    assert(parts.take(0) =~= Seq::<Part>::empty());
    lemma_step_above_root_is_refused(root, input, parts, seen, 0, root);
}

/// The path `..` is refused by every jail.
pub proof fn lemma_dot_dot_is_refused(root: Seq<Seq<char>>, seen: Seq<Sighting>)
    requires
        root.len() > 0,
    ensures
        resolve(root, seq!['.', '.'], seen) == Err::<Seq<Seq<char>>, Refusal>(
            Refusal::EscapedRoot { attempted: seq!['.', '.'], root: absolute_text(root) },
        ),
{
    let input = seq!['.', '.'];
    lemma_pieces_plain(input);
    assert(segments(input) =~= seq![input]) by {
        let one = seq![input];
        assert(pieces(input) == one);
        assert(one.last().len() > 0);
        assert(one.drop_last() =~= Seq::<Seq<char>>::empty());
        assert(solid(one.drop_last()) =~= Seq::<Seq<char>>::empty());
        assert(solid(one) =~= one);
    }
    assert(parts(input)[0] == Part::ParentDir);
    assert(!input.contains('\0'));
    lemma_parent_of_root_is_refused(root, input, parts(input), seen);
}

/// The empty path resolves to the root itself, and the host is not asked.
pub proof fn lemma_empty_path_is_root(root: Seq<Seq<char>>, seen: Seq<Sighting>)
    ensures
        resolve(root, Seq::<char>::empty(), seen) == Ok::<Seq<Seq<char>>, Refusal>(root),
{
    lemma_no_segments_in_nothing();
}

/// `.` components are ignored: a walk with a `.` among its components is the
/// walk without it.
pub proof fn lemma_cur_dir_is_ignored(
    root: Seq<Seq<char>>,
    input: Seq<char>,
    cursor: Seq<Seq<char>>,
    parts: Seq<Part>,
    seen: Seq<Sighting>,
    k: int,
    i: int,
)
    requires
        0 <= i < parts.len(),
        parts[i] == Part::CurDir,
    ensures
        walk(root, input, cursor, parts, seen, k) == walk(
            root,
            input,
            cursor,
            parts.remove(i),
            seen,
            k,
        ),
    decreases i,
{
    let rest = parts.drop_first();
    if i == 0 {
        assert(parts.remove(0) =~= rest);
    } else {
        let fewer = parts.remove(i);
        assert(fewer.first() == parts.first());
        assert(fewer.drop_first() =~= rest.remove(i - 1));
        assert(rest[i - 1] == parts[i]);
        match enter(root, input, cursor, parts.first()) {
            Move::Refuse(_) => {},
            Move::Stay => {
                lemma_cur_dir_is_ignored(root, input, cursor, rest, seen, k, i - 1);
            },
            Move::Visit(place) => {
                match settle(root, input, place, sighting_at(seen, k)) {
                    Err(_) => {},
                    Ok(next) => {
                        lemma_cur_dir_is_ignored(root, input, next, rest, seen, k + 1, i - 1);
                    },
                }
            },
        }
    }
}

/// A name that can stand in a path handed to a jail: a name that is not `..`
/// and holds no null character.
pub open spec fn is_plain(name: Seq<char>) -> bool {
    is_name(name) && !is_dot_dot(name) && !name.contains('\0')
}

/// The host shows the places from the root down to `place` at rest: each is
/// absent, or is its own canonical form.
pub open spec fn at_rest(root: Seq<Seq<char>>, place: Seq<Seq<char>>, seen: Seq<Sighting>) -> bool {
    forall|j: int|
        0 <= j < place.len() - root.len() ==> match #[trigger] sighting_at(seen, j) {
            Sighting::Absent => true,
            Sighting::Canonical(canonical) => names(canonical) == place.take(root.len() + j + 1),
            _ => false,
        }
}

/// The walk down a list of plain names, at rest, ends at the last of them.
proof fn lemma_walk_down(
    root: Seq<Seq<char>>,
    input: Seq<char>,
    place: Seq<Seq<char>>,
    seen: Seq<Sighting>,
    j: int,
)
    requires
        within(root, place),
        at_rest(root, place, seen),
        0 <= j <= place.len() - root.len(),
    ensures
        walk(
            root,
            input,
            place.take(root.len() + j),
            as_normal(place.skip(root.len() as int)).skip(j),
            seen,
            j,
        ) == Ok::<Seq<Seq<char>>, Refusal>(place),
    decreases place.len() - root.len() - j,
{
    let tail = place.skip(root.len() as int);
    let left = as_normal(tail).skip(j);
    let cursor = place.take(root.len() + j);
    if j == place.len() - root.len() {
        assert(cursor =~= place);
        assert(left =~= Seq::<Part>::empty());
    } else {
        let name = tail[j];
        assert(left.first() == Part::Normal(name));
        assert(left.drop_first() =~= as_normal(tail).skip(j + 1));
        let target = place.take(root.len() + j + 1);
        assert(cursor.push(name) =~= target);
        assert(within(root, target)) by {
            assert(target.subrange(0, root.len() as int) =~= place.subrange(0, root.len() as int));
        }
        let sight = sighting_at(seen, j);
        assert(settle(root, input, target, sight) == Ok::<Seq<Seq<char>>, Refusal>(target));
        lemma_walk_down(root, input, place, seen, j + 1);
    }
}

/// The inverse law: let `place` lie within the root, by plain names below
/// it. Then the path from the root to `place` is a relative path which, with
/// the places on the way at rest, resolves to `place` again.
pub proof fn lemma_relative_undoes_join(
    root: Seq<Seq<char>>,
    attempted: Seq<char>,
    place: Seq<Seq<char>>,
    seen: Seq<Sighting>,
)
    requires
        within(root, place),
        forall|i: int| root.len() <= i < place.len() ==> is_plain(#[trigger] place[i]),
        at_rest(root, place, seen),
    ensures
        below(root, attempted, place) == Ok::<Seq<char>, Refusal>(
            relative_text(place.skip(root.len() as int)),
        ),
        resolve(root, relative_text(place.skip(root.len() as int)), seen) == Ok::<
            Seq<Seq<char>>,
            Refusal,
        >(place),
{
    let tail = place.skip(root.len() as int);
    let text = relative_text(tail);
    assert forall|i: int| 0 <= i < tail.len() implies is_plain(#[trigger] tail[i]) by {
        assert(tail[i] == place[root.len() + i]);
    }
    assert(all_names(tail));
    lemma_parts_of_relative_text(tail);
    assert(!text.contains('\0')) by {
        if text.contains('\0') {
            let k = choose|k: int| 0 <= k < text.len() && text[k] == '\0';
            assert(joined(tail)[k + 1] == '\0');
            lemma_joined_holds_only_names(tail, '\0');
        }
    }
    assert(place.take(root.len() as int) =~= root);
    assert(as_normal(tail).skip(0) =~= as_normal(tail));
    lemma_walk_down(root, text, place, seen, 0);
}

/// Every entry of the list is a plain name.
pub open spec fn all_plain(list: Seq<Seq<char>>) -> bool {
    forall|i: int| 0 <= i < list.len() ==> is_plain(#[trigger] list[i])
}

/// The names of a place below the root are plain.
pub open spec fn plain_below(root: Seq<Seq<char>>, place: Seq<Seq<char>>) -> bool {
    forall|i: int| root.len() <= i < place.len() ==> is_plain(#[trigger] place[i])
}

/// The host shows canonical forms: no canonical path in the record passes
/// through `..` or holds a null character.
pub open spec fn shows_canonical_forms(seen: Seq<Sighting>) -> bool {
    forall|k: int|
        0 <= k < seen.len() ==> (#[trigger] seen[k] matches Sighting::Canonical(canonical)
            ==> all_plain(names(canonical)))
}

/// A component that appends nothing to a path, or a plain name.
pub open spec fn appends_plain_name(part: Part) -> bool {
    part matches Part::Normal(name) ==> is_plain(name)
}

/// Every component that a walk is to append is a plain name.
pub open spec fn appends_plain_names(parts: Seq<Part>) -> bool {
    forall|i: int| 0 <= i < parts.len() ==> appends_plain_name(#[trigger] parts[i])
}

/// The components of a path without a null character append plain names
/// only.
pub proof fn lemma_parts_append_plain_names(s: Seq<char>)
    requires
        !s.contains('\0'),
    ensures
        appends_plain_names(parts(s)),
{
    lemma_pieces_hold_no_separator(s);
    lemma_pieces_lack(s, '\0');
    lemma_solid_keeps(
        pieces(s),
        |piece: Seq<char>| !piece.contains('/') && !piece.contains('\0'),
    );
    assert forall|i: int| 0 <= i < parts(s).len() implies appends_plain_name(
        #[trigger] parts(s)[i],
    ) by {
        let shift: int = if is_absolute(s) { 1 } else { 0 };
        if i >= shift {
            let piece = segments(s)[i - shift];
            assert(piece.len() > 0 && !piece.contains('/') && !piece.contains('\0'));
        }
    }
}

/// Where the host shows canonical forms, a walk that appends plain names
/// from a place with plain names below the root ends at such a place.
pub proof fn lemma_walk_keeps_names_plain(
    root: Seq<Seq<char>>,
    input: Seq<char>,
    cursor: Seq<Seq<char>>,
    parts: Seq<Part>,
    seen: Seq<Sighting>,
    k: int,
)
    requires
        plain_below(root, cursor),
        appends_plain_names(parts),
        shows_canonical_forms(seen),
        0 <= k,
    ensures
        walk(root, input, cursor, parts, seen, k) matches Ok(place) ==> plain_below(root, place),
    decreases parts.len(),
{
    if parts.len() > 0 {
        let rest = parts.drop_first();
        assert(appends_plain_names(rest)) by {
            assert forall|i: int| 0 <= i < rest.len() implies appends_plain_name(
                #[trigger] rest[i],
            ) by {
                assert(rest[i] == parts[i + 1]);
            }
        }
        assert(parts[0] == parts.first());
        match enter(root, input, cursor, parts.first()) {
            Move::Refuse(_) => {},
            Move::Stay => {
                lemma_walk_keeps_names_plain(root, input, cursor, rest, seen, k);
            },
            Move::Visit(place) => {
                assert(plain_below(root, place)) by {
                    assert forall|i: int| root.len() <= i < place.len() implies is_plain(
                        #[trigger] place[i],
                    ) by {
                        if i < cursor.len() {
                            assert(place[i] == cursor[i]);
                        }
                    }
                }
                match settle(root, input, place, sighting_at(seen, k)) {
                    Err(_) => {},
                    Ok(next) => {
                        assert(plain_below(root, next)) by {
                            match sighting_at(seen, k) {
                                Sighting::Canonical(canonical) => {
                                    assert(seen[k] == Sighting::Canonical(canonical));
                                    assert(all_plain(names(canonical)));
                                },
                                _ => {},
                            }
                        }
                        lemma_walk_keeps_names_plain(root, input, next, rest, seen, k + 1);
                    },
                }
            },
        }
    }
}

/// The inverse law: let a path resolve to `place` while the host shows
/// canonical forms. Then the path from the root to `place` is a relative
/// path of names alone, without `.` and `..`, and with the places on the way
/// at rest it resolves to `place` again.
pub proof fn lemma_relative_inverts_join(
    root: Seq<Seq<char>>,
    input: Seq<char>,
    seen: Seq<Sighting>,
    place: Seq<Seq<char>>,
    again: Seq<Sighting>,
)
    requires
        all_names(root),
        shows_canonical_forms(seen),
        resolve(root, input, seen) == Ok::<Seq<Seq<char>>, Refusal>(place),
        at_rest(root, place, again),
    ensures
        below(root, input, place) == Ok::<Seq<char>, Refusal>(
            relative_text(place.skip(root.len() as int)),
        ),
        !is_absolute(relative_text(place.skip(root.len() as int))),
        parts(relative_text(place.skip(root.len() as int))) == as_normal(
            place.skip(root.len() as int),
        ),
        resolve(root, relative_text(place.skip(root.len() as int)), again) == Ok::<
            Seq<Seq<char>>,
            Refusal,
        >(place),
{
    lemma_resolved_lies_within(root, input, seen);
    lemma_parts_append_plain_names(input);
    lemma_walk_keeps_names_plain(root, input, root, parts(input), seen, 0);
    lemma_relative_undoes_join(root, input, place, again);
    let tail = place.skip(root.len() as int);
    assert forall|i: int| 0 <= i < tail.len() implies is_plain(#[trigger] tail[i]) by {
        assert(tail[i] == place[root.len() + i]);
    }
    lemma_parts_of_relative_text(tail);
}

/// Construction rejection: the top of the filesystem is no root for a jail,
/// whatever the host shows there, and neither is anything that is not a
/// directory.
pub proof fn lemma_unfit_roots_are_refused(canonical: Seq<char>, is_dir: bool)
    ensures
        found_root(seq!['/'], is_dir) == Err::<Seq<Seq<char>>, Refusal>(
            Refusal::InvalidRoot(seq!['/']),
        ),
        !is_dir ==> found_root(canonical, is_dir) == Err::<Seq<Seq<char>>, Refusal>(
            Refusal::InvalidRoot(canonical),
        ),
        found_root(canonical, is_dir) matches Ok(root) ==> root.len() > 0 && all_names(root),
{
    lemma_names_of_absolute_text(Seq::<Seq<char>>::empty());
    lemma_names_are_names(canonical);
}

/// Segment safety: a list of segments in which any segment holds a
/// separator of either kind or a null character, or is `..`, is refused as
/// an invalid path; the host is not asked.
pub proof fn lemma_faulty_segment_is_refused(
    root: Seq<Seq<char>>,
    segments: Seq<Seq<char>>,
    seen: Seq<Sighting>,
    i: int,
)
    requires
        0 <= i < segments.len(),
        is_faulty(segments[i]),
    ensures
        first_fault(segments) is Some,
        composed(segments) is Err,
        resolve_segments(root, segments, seen) matches Err(refusal) && refusal is InvalidPath,
    decreases i,
{
    if i > 0 && segment_fault(segments.first()) is None {
        assert(segments.drop_first()[i - 1] == segments[i]);
        lemma_faulty_segment_is_refused(root, segments.drop_first(), seen, i - 1);
    }
}

/// Root immutability: a copy of a jail has the root of the jail it was made
/// from, so the two resolve every path alike, whatever the host shows.
pub proof fn lemma_copy_resolves_alike(jail: Jail, copy: Jail)
    requires
        copy@ == jail@,
    ensures
        forall|input: Seq<char>, seen: Seq<Sighting>| #[trigger]
            resolve(copy@, input, seen) == resolve(jail@, input, seen),
        forall|segments: Seq<Seq<char>>, seen: Seq<Sighting>| #[trigger]
            resolve_segments(copy@, segments, seen) == resolve_segments(jail@, segments, seen),
        forall|attempted: Seq<char>, canonical: Seq<char>| #[trigger]
            confine(copy@, attempted, canonical) == confine(jail@, attempted, canonical),
        forall|attempted: Seq<char>, place: Seq<Seq<char>>| #[trigger]
            below(copy@, attempted, place) == below(jail@, attempted, place),
{
}

} // verus!
