//! The jail: a canonical root, and the operations that keep paths inside it.

use crate::error::{not_unicode, JailError, Refusal};
use crate::host::{canonicalize, inspect, is_dir, sightings, Probe, Resolved, Sighting};
use crate::jailed_path::JailedPath;
use crate::laws::{
    lemma_empty_path_is_root, lemma_faulty_segment_is_refused, lemma_invalid_paths,
    lemma_resolved_lies_within,
};
use crate::path::{
    absolute_string, absolute_text, all_names, begins_at_root, components, has_nul, holds_char,
    is_absolute, lemma_names_are_names, lemma_names_of_absolute_text, names, parts_view,
    path_names, piece_is_dot_dot, relative_string, solid, texts, Component, Part,
};
use crate::resolve::{
    below, composed, confine, enter, first_fault, found_root, is_faulty, parent, relative_of,
    resolve, resolve_segments, segment_fault, settle, sighting_at, walk, within, Move,
};
use vstd::prelude::*;

verus! {

/// A filesystem sandbox that restricts paths to a root directory.
///
/// The root is held in canonical form, as the names it passes through, and
/// never changes.
#[derive(Debug)]
pub struct Jail {
    root: Vec<String>,
}

impl View for Jail {
    type V = Seq<Seq<char>>;

    /// The names that the root passes through.
    closed spec fn view(&self) -> Seq<Seq<char>> {
        texts(self.root@)
    }
}

/// An outcome in names and the outcome that the model gives are the same.
spec fn names_agree(
    got: Result<Vec<String>, JailError>,
    model: Result<Seq<Seq<char>>, Refusal>,
) -> bool {
    match (got, model) {
        (Ok(found), Ok(place)) => texts(found@) == place,
        (Err(error), Err(refusal)) => error@ == refusal,
        _ => false,
    }
}

/// An outcome in text and the outcome that the model gives are the same: the
/// text is the absolute path through the model's names.
pub open spec fn text_agrees(
    got: Result<String, JailError>,
    model: Result<Seq<Seq<char>>, Refusal>,
) -> bool {
    match (got, model) {
        (Ok(found), Ok(place)) => found@ == absolute_text(place),
        (Err(error), Err(refusal)) => error@ == refusal,
        _ => false,
    }
}

/// A jail and the outcome that the model gives for its root are the same.
pub open spec fn root_agrees(
    got: Result<Jail, JailError>,
    model: Result<Seq<Seq<char>>, Refusal>,
) -> bool {
    match (got, model) {
        (Ok(jail), Ok(root)) => jail@ == root,
        (Err(error), Err(refusal)) => error@ == refusal,
        _ => false,
    }
}

/// A relative path and the outcome that the model gives are the same.
pub open spec fn relative_agrees(
    got: Result<String, JailError>,
    model: Result<Seq<char>, Refusal>,
) -> bool {
    match (got, model) {
        (Ok(found), Ok(text)) => found@ == text,
        (Err(error), Err(refusal)) => error@ == refusal,
        _ => false,
    }
}

/// A validated path and the outcome that the model gives are the same.
pub open spec fn typed_agrees(
    got: Result<JailedPath, JailError>,
    model: Result<Seq<Seq<char>>, Refusal>,
) -> bool {
    match (got, model) {
        (Ok(found), Ok(place)) => found@ == absolute_text(place),
        (Err(error), Err(refusal)) => error@ == refusal,
        _ => false,
    }
}

/// The text of every string in a list.
pub open spec fn strs(list: Seq<&str>) -> Seq<Seq<char>> {
    list.map_values(|text: &str| text@)
}

/// A copy of a list of names.
fn copy_names(list: &Vec<String>) -> (out: Vec<String>)
    ensures
        texts(out@) == texts(list@),
{
    let mut out: Vec<String> = Vec::new();
    let mut i: usize = 0;
    while i < list.len()
        invariant
            i <= list.len(),
            texts(out@) == texts(list@).take(i as int),
        decreases list.len() - i,
    {
        let ghost before = texts(out@);
        let name = list[i].clone();
        out.push(name);
        assert(texts(out@) =~= before.push(name@));
        assert(texts(list@).take(i + 1) =~= texts(list@).take(i as int).push(list@[i as int]@));
        i += 1;
    }
    assert(texts(list@).take(list.len() as int) =~= texts(list@));
    out
}

/// What one move yields: the place the walk keeps, or the place to ask the
/// host about.
enum Step {
    Stay(Vec<String>),
    Visit(Vec<String>),
}

spec fn step_agrees(got: Result<Step, JailError>, cursor: Seq<Seq<char>>, model: Move) -> bool {
    match (got, model) {
        (Ok(Step::Stay(kept)), Move::Stay) => texts(kept@) == cursor,
        (Ok(Step::Visit(place)), Move::Visit(target)) => texts(place@) == target,
        (Err(error), Move::Refuse(refusal)) => error@ == refusal,
        _ => false,
    }
}

/// A record of sightings agrees with the first of them that are known.
spec fn begins_with(seen: Seq<Sighting>, known: Seq<Sighting>) -> bool {
    forall|j: int| 0 <= j < known.len() ==> sighting_at(seen, j) == #[trigger] known[j]
}

/// Checks one segment.
pub fn check_segment(segment: &str) -> (got: Result<(), JailError>)
    ensures
        match segment_fault(segment@) {
            Some(reason) => got matches Err(error) && error@ == Refusal::InvalidPath(reason),
            None => got is Ok,
        },
{
    if has_nul(segment) {
        return Err(JailError::InvalidPath(String::from_str("segment contains a null byte")));
    }
    if holds_char(segment, '/') || holds_char(segment, '\\') {
        return Err(
            JailError::InvalidPath(String::from_str("segment contains a path separator")),
        );
    }
    if piece_is_dot_dot(segment) {
        return Err(JailError::InvalidPath(String::from_str("segment is a parent reference")));
    }
    Ok(())
}

/// Puts a list of segments together into one fragment, after checking each.
pub fn compose(segments: &[&str]) -> (got: Result<String, JailError>)
    ensures
        relative_agrees(got, composed(strs(segments@))),
{
    let ghost all = strs(segments@);
    let mut kept: Vec<String> = Vec::new();
    let mut i: usize = 0;
    assert(all.skip(0) =~= all);
    assert(all.take(0) =~= Seq::<Seq<char>>::empty());
    assert(texts(kept@) =~= Seq::<Seq<char>>::empty());
    while i < segments.len()
        invariant
            i <= segments.len(),
            all == strs(segments@),
            first_fault(all) == first_fault(all.skip(i as int)),
            texts(kept@) == solid(all.take(i as int)),
        decreases segments.len() - i,
    {
        let segment = segments[i];
        proof {
            assert(all.skip(i as int).first() == segment@);
            assert(all.skip(i as int).drop_first() =~= all.skip(i + 1));
            assert(all.take(i + 1).drop_last() =~= all.take(i as int));
            assert(all.take(i + 1).last() == segment@);
        }
        match check_segment(segment) {
            Err(error) => {
                return Err(error);
            },
            Ok(_) => {},
        }
        if !segment.is_empty() {
            let ghost before = texts(kept@);
            kept.push(String::from_str(segment));
            assert(texts(kept@) =~= before.push(segment@));
        }
        i += 1;
    }
    proof {
        assert(all.take(segments.len() as int) =~= all);
        assert(all.skip(segments.len() as int) =~= Seq::<Seq<char>>::empty());
    }
    Ok(relative_string(&kept))
}

impl Jail {
    #[verifier::type_invariant]
    spec fn well_formed(self) -> bool {
        self.root@.len() > 0 && all_names(texts(self.root@))
    }

    /// Decides on a root, from its canonical path and from whether the host
    /// shows a directory there.
    pub fn from_canonical(canonical: &str, is_dir: bool) -> (got: Result<Jail, JailError>)
        ensures
            root_agrees(got, found_root(canonical@, is_dir)),
    {
        let root = path_names(canonical);
        proof {
            lemma_names_are_names(canonical@);
        }
        if root.len() > 0 && is_dir {
            Ok(Jail { root })
        } else {
            Err(JailError::InvalidRoot(String::from_str(canonical)))
        }
    }

    /// Creates a jail rooted at the given directory.
    ///
    /// The host resolves the root at once. A root that the host cannot
    /// resolve is reported with the host's error; one that resolves to the top
    /// of the filesystem, or to anything but a directory, is refused as an
    /// invalid root, and one that resolves to a path that is not Unicode as
    /// an invalid path.
    pub fn new(root: &str) -> (got: Result<Jail, JailError>)
        ensures
            (got matches Err(error) && (error@ is Io || error@ == not_unicode())) || exists|
                canonical: Seq<char>,
                is_dir: bool,
            |
                root_agrees(got, #[trigger] found_root(canonical, is_dir)),
            got matches Ok(jail) ==> jail@.len() > 0 && all_names(jail@),
            got matches Err(error) ==> error@ is Io || error@ is InvalidRoot || error@
                == not_unicode(),
    {
        match canonicalize(root) {
            Err(cause) => Err(JailError::Io(cause)),
            Ok(Resolved::NotUnicode(_)) => Err(JailError::not_unicode()),
            Ok(Resolved::Text(canonical)) => {
                let found = is_dir(canonical.as_str());
                let got = Jail::from_canonical(canonical.as_str(), found);
                proof {
                    assert(root_agrees(got, found_root(canonical@, found)));
                    lemma_names_are_names(canonical@);
                }
                got
            },
        }
    }

    /// The canonical root, as text: an absolute path that passes through at
    /// least one name, and that reads back as the root.
    pub fn root(&self) -> (text: String)
        ensures
            text@ == absolute_text(self@),
            self@.len() > 0,
            all_names(self@),
            is_absolute(text@),
            names(text@) == self@,
    {
        proof {
            use_type_invariant(self);
            lemma_names_of_absolute_text(self@);
        }
        absolute_string(&self.root)
    }

    /// Whether a path lies within the root.
    fn holds(&self, path: &Vec<String>) -> (inside: bool)
        ensures
            inside == within(self@, texts(path@)),
    {
        if path.len() < self.root.len() {
            return false;
        }
        let mut i: usize = 0;
        while i < self.root.len()
            invariant
                i <= self.root.len(),
                self.root.len() <= path.len(),
                forall|k: int| 0 <= k < i ==> self.root@[k]@ == path@[k]@,
            decreases self.root.len() - i,
        {
            if self.root[i] != path[i] {
                assert(texts(self.root@)[i as int] != texts(path@).subrange(
                    0,
                    self.root.len() as int,
                )[i as int]);
                return false;
            }
            i += 1;
        }
        assert(texts(self.root@) =~= texts(path@).subrange(0, self.root.len() as int));
        true
    }

    /// The containment check on a canonical path.
    fn confine_names(&self, attempted: String, canonical: &str) -> (got: Result<
        Vec<String>,
        JailError,
    >)
        ensures
            names_agree(got, confine(self@, attempted@, canonical@)),
    {
        let found = path_names(canonical);
        if self.holds(&found) {
            Ok(found)
        } else {
            Err(JailError::EscapedRoot { attempted, root: self.root() })
        }
    }

    /// Where the walk stands after the host has answered for `place`.
    fn settle_names(&self, input: &str, place: Vec<String>, probe: Probe) -> (got: Result<
        Vec<String>,
        JailError,
    >)
        ensures
            names_agree(got, settle(self@, input@, texts(place@), probe@)),
    {
        match probe {
            Probe::Canonical(canonical) => {
                self.confine_names(String::from_str(input), canonical.as_str())
            },
            Probe::NotUnicode(_) => Err(JailError::not_unicode()),
            Probe::BrokenLink => Err(JailError::BrokenSymlink(absolute_string(&place))),
            Probe::Absent => Ok(place),
            Probe::Failed(cause) => Err(JailError::Io(cause)),
        }
    }

    /// The move along one component.
    fn enter_names(&self, input: &str, cursor: Vec<String>, component: &Component) -> (got:
        Result<Step, JailError>)
        ensures
            step_agrees(got, texts(cursor@), enter(self@, input@, texts(cursor@), component@)),
    {
        let mut cursor = cursor;
        let ghost before = texts(cursor@);
        match component {
            Component::Normal(name) => {
                let name = name.clone();
                cursor.push(name);
                assert(texts(cursor@) =~= before.push(name@));
                Ok(Step::Visit(cursor))
            },
            Component::ParentDir => {
                cursor.pop();
                assert(texts(cursor@) =~= parent(before));
                if self.holds(&cursor) {
                    Ok(Step::Visit(cursor))
                } else {
                    Err(
                        JailError::EscapedRoot {
                            attempted: String::from_str(input),
                            root: self.root(),
                        },
                    )
                }
            },
            Component::CurDir => Ok(Step::Stay(cursor)),
            Component::RootDir => Err(
                JailError::InvalidPath(String::from_str("absolute components not allowed")),
            ),
        }
    }

    /// Walks the components from the root. With a record, the walk looks
    /// sightings up in it, in order; without one it asks the host. The ghost
    /// result is what the walk saw.
    fn walk_names(
        &self,
        input: &str,
        parts: &Vec<Component>,
        recorded: Option<Vec<Probe>>,
    ) -> (out: (Result<Vec<String>, JailError>, Ghost<Seq<Sighting>>))
        ensures
            names_agree(out.0, walk(self@, input@, self@, parts_view(parts@), out.1@, 0)),
            recorded matches Some(list) ==> out.1@ == sightings(list@),
    {
        let ghost all = parts_view(parts@);
        let ghost record = if recorded is Some {
            sightings(recorded->Some_0@)
        } else {
            Seq::empty()
        };
        let live = recorded.is_none();
        let mut list: Vec<Probe> = match recorded {
            Some(list) => list,
            None => Vec::new(),
        };
        let mut cursor = copy_names(&self.root);
        let mut known: Ghost<Seq<Sighting>> = Ghost(Seq::empty());
        let mut i: usize = 0;
        let mut k: usize = 0;
        assert(all.skip(0) =~= all);
        while i < parts.len()
            invariant
                i <= parts.len(),
                k <= i,
                known@.len() == k,
                all == parts_view(parts@),
                live == (recorded is None),
                recorded matches Some(given) ==> record == sightings(given@),
                list@.len() == record.len(),
                forall|j: int| k <= j < list@.len() ==> (#[trigger] list@[j])@ == record[j],
                !live ==> begins_with(record, known@),
                forall|seen: Seq<Sighting>| #[trigger]
                    begins_with(seen, known@) ==> walk(self@, input@, self@, all, seen, 0) == walk(
                        self@,
                        input@,
                        texts(cursor@),
                        all.skip(i as int),
                        seen,
                        k as int,
                    ),
            decreases parts.len() - i,
        {
            let ghost rest = all.skip(i as int);
            proof {
                assert(rest.first() == parts@[i as int]@);
                assert(rest.drop_first() =~= all.skip(i + 1));
            }
            match self.enter_names(input, cursor, &parts[i]) {
                Err(error) => {
                    let ghost saw = if live { known@ } else { record };
                    proof {
                        assert(begins_with(saw, known@));
                    }
                    return (Err(error), Ghost(saw));
                },
                Ok(Step::Stay(kept)) => {
                    cursor = kept;
                },
                Ok(Step::Visit(place)) => {
                    let probe = if live {
                        let text = absolute_string(&place);
                        inspect(text.as_str())
                    } else if k < list.len() {
                        let mut taken = Probe::Absent;
                        std::mem::swap(&mut taken, &mut list[k]);
                        taken
                    } else {
                        Probe::Absent
                    };
                    let ghost sight = probe@;
                    let ghost earlier = known@;
                    proof {
                        known@ = earlier.push(sight);
                        assert(!live ==> sight == sighting_at(record, k as int));
                        assert forall|seen: Seq<Sighting>| #[trigger]
                            begins_with(seen, known@) implies begins_with(seen, earlier)
                            && sighting_at(seen, k as int) == sight by {
                            assert forall|j: int| 0 <= j < earlier.len() implies sighting_at(
                                seen,
                                j,
                            ) == #[trigger] earlier[j] by {
                                assert(known@[j] == earlier[j]);
                            }
                            assert(known@[k as int] == sight);
                        }
                    }
                    match self.settle_names(input, place, probe) {
                        Err(error) => {
                            let ghost saw = if live { known@ } else { record };
                            proof {
                                assert(begins_with(saw, known@));
                            }
                            return (Err(error), Ghost(saw));
                        },
                        Ok(next) => {
                            cursor = next;
                            k += 1;
                        },
                    }
                },
            }
            i += 1;
        }
        let ghost saw = if live { known@ } else { record };
        proof {
            assert(begins_with(saw, known@));
            assert(all.skip(parts.len() as int) =~= Seq::<Part>::empty());
        }
        (Ok(cursor), Ghost(saw))
    }

    /// The containment check on a canonical path: the path, written through
    /// its names, if it lies within the root; else a refusal that carries
    /// `attempted`.
    pub fn confine(&self, attempted: &str, canonical: &str) -> (got: Result<String, JailError>)
        ensures
            text_agrees(got, confine(self@, attempted@, canonical@)),
    {
        match self.confine_names(String::from_str(attempted), canonical) {
            Ok(place) => Ok(absolute_string(&place)),
            Err(error) => Err(error),
        }
    }

    /// Has the host resolve a path, and checks that the result lies within
    /// the root.
    fn verify_inside(&self, path: &str) -> (got: Result<Vec<String>, JailError>)
        ensures
            (got matches Err(error) && (error@ is Io || error@ == not_unicode())) || exists|
                canonical: Seq<char>,
            |
                names_agree(got, #[trigger] confine(self@, path@, canonical)),
    {
        match canonicalize(path) {
            Err(cause) => Err(JailError::Io(cause)),
            Ok(Resolved::NotUnicode(_)) => Err(JailError::not_unicode()),
            Ok(Resolved::Text(canonical)) => {
                let got = self.confine_names(String::from_str(path), canonical.as_str());
                assert(names_agree(got, confine(self@, path@, canonical@)));
                got
            },
        }
    }

    /// Verifies that an absolute path, which must exist, lies within the
    /// root, and returns its canonical form.
    pub fn contains(&self, absolute: &str) -> (got: Result<String, JailError>)
        ensures
            !is_absolute(absolute@) ==> (got matches Err(error) && error@ == Refusal::InvalidPath(
                "path must be absolute"@,
            )),
            is_absolute(absolute@) ==> (got matches Err(error) && (error@ is Io || error@
                == not_unicode())) || exists|canonical: Seq<char>|
                text_agrees(got, #[trigger] confine(self@, absolute@, canonical)),
    {
        if !begins_at_root(absolute) {
            return Err(JailError::InvalidPath(String::from_str("path must be absolute")));
        }
        match self.verify_inside(absolute) {
            Ok(place) => Ok(absolute_string(&place)),
            Err(error) => Err(error),
        }
    }

    /// The path from the root to a place.
    fn below_names(&self, attempted: &str, place: Vec<String>) -> (got: Result<String, JailError>)
        ensures
            relative_agrees(got, below(self@, attempted@, texts(place@))),
    {
        if !self.holds(&place) {
            return Err(
                JailError::EscapedRoot {
                    attempted: String::from_str(attempted),
                    root: self.root(),
                },
            );
        }
        let mut place = place;
        let ghost all = texts(place@);
        let start = self.root.len();
        let mut rest: Vec<String> = Vec::new();
        let mut i: usize = start;
        assert(all.subrange(start as int, start as int) =~= Seq::<Seq<char>>::empty());
        assert(texts(rest@) =~= Seq::<Seq<char>>::empty());
        while i < place.len()
            invariant
                start <= i <= place.len(),
                place@.len() == all.len(),
                forall|k: int| i <= k < place@.len() ==> (#[trigger] place@[k])@ == all[k],
                texts(rest@) == all.subrange(start as int, i as int),
            decreases place.len() - i,
        {
            let mut name = String::new();
            std::mem::swap(&mut name, &mut place[i]);
            let ghost before = texts(rest@);
            rest.push(name);
            proof {
                assert(texts(rest@) =~= before.push(name@));
                assert(all.subrange(start as int, i + 1) =~= all.subrange(
                    start as int,
                    i as int,
                ).push(all[i as int]));
            }
            i += 1;
        }
        assert(all.subrange(start as int, all.len() as int) =~= all.skip(start as int));
        Ok(relative_string(&rest))
    }

    /// The path from the root to `resolved`, which is taken by its names; a
    /// place outside the root is refused with a report that carries
    /// `attempted`.
    pub fn below(&self, attempted: &str, resolved: &str) -> (got: Result<String, JailError>)
        ensures
            relative_agrees(got, below(self@, attempted@, names(resolved@))),
    {
        self.below_names(attempted, path_names(resolved))
    }

    /// The path from the root to the place that `path` denotes.
    ///
    /// An absolute path must exist: the host resolves it, and the result must
    /// lie within the root. A relative path is joined to the root and need
    /// not exist. This undoes [`Jail::join`].
    pub fn relative(&self, path: &str) -> (got: Result<String, JailError>)
        ensures
            is_absolute(path@) ==> (got matches Err(error) && (error@ is Io || error@
                == not_unicode())) || exists|canonical: Seq<char>|
                relative_agrees(
                    got,
                    relative_of(self@, path@, #[trigger] confine(self@, path@, canonical)),
                ),
            !is_absolute(path@) ==> exists|seen: Seq<Sighting>|
                relative_agrees(
                    got,
                    relative_of(self@, path@, #[trigger] resolve(self@, path@, seen)),
                ),
    {
        if begins_at_root(path) {
            match self.verify_inside(path) {
                Ok(place) => self.below_names(path, place),
                Err(error) => Err(error),
            }
        } else {
            let (resolved, saw) = self.resolve_names(path, None);
            assert(names_agree(resolved, resolve(self@, path@, saw@)));
            match resolved {
                Ok(place) => self.below_names(path, place),
                Err(error) => Err(error),
            }
        }
    }

    /// Resolves a list of segments to names.
    fn segments_names(&self, segments: &[&str]) -> (out: (
        Result<Vec<String>, JailError>,
        Ghost<Seq<Sighting>>,
    ))
        ensures
            names_agree(out.0, resolve_segments(self@, strs(segments@), out.1@)),
            (exists|i: int| 0 <= i < segments@.len() && is_faulty(#[trigger] strs(segments@)[i]))
                ==> (out.0 matches Err(error) && error@ is InvalidPath),
            out.0 matches Ok(place) ==> within(self@, texts(place@)) && all_names(texts(place@))
                && within(self@, names(absolute_text(texts(place@)))),
    {
        proof {
            if exists|i: int| 0 <= i < segments@.len() && is_faulty(#[trigger] strs(segments@)[i]) {
                let i = choose|i: int|
                    0 <= i < segments@.len() && is_faulty(#[trigger] strs(segments@)[i]);
                lemma_faulty_segment_is_refused(self@, strs(segments@), Seq::empty(), i);
            }
        }
        match compose(segments) {
            Err(error) => (Err(error), Ghost(Seq::empty())),
            Ok(fragment) => {
                let out = self.resolve_names(fragment.as_str(), None);
                proof {
                    use_type_invariant(self);
                    lemma_resolved_lies_within(self@, fragment@, out.1@);
                }
                out
            },
        }
    }

    /// Joins a list of segments to the root, each of which is to be one
    /// name. Every segment is checked on its own before any is put together
    /// with the others, so that no segment can bring in a separator or a step
    /// upward; empty segments are dropped.
    pub fn join_segments(&self, segments: &[&str]) -> (got: Result<String, JailError>)
        ensures
            exists|seen: Seq<Sighting>|
                text_agrees(got, #[trigger] resolve_segments(self@, strs(segments@), seen)),
            (exists|i: int| 0 <= i < segments@.len() && is_faulty(#[trigger] strs(segments@)[i]))
                ==> (got matches Err(error) && error@ is InvalidPath),
            got matches Ok(found) ==> within(self@, names(found@)),
    {
        let (resolved, saw) = self.segments_names(segments);
        match resolved {
            Ok(place) => {
                let got = Ok(absolute_string(&place));
                assert(text_agrees(got, resolve_segments(self@, strs(segments@), saw@)));
                got
            },
            Err(error) => {
                assert(text_agrees(Err(error), resolve_segments(self@, strs(segments@), saw@)));
                Err(error)
            },
        }
    }

    /// [`Jail::join`], with the result marked as validated.
    pub fn join_typed(&self, relative: &str) -> (got: Result<JailedPath, JailError>)
        ensures
            exists|seen: Seq<Sighting>|
                typed_agrees(got, #[trigger] resolve(self@, relative@, seen)),
            got matches Ok(found) ==> within(self@, names(found@)),
    {
        let (resolved, saw) = self.resolve_names(relative, None);
        proof {
            use_type_invariant(self);
            lemma_resolved_lies_within(self@, relative@, saw@);
        }
        match resolved {
            Ok(place) => {
                let got = Ok(JailedPath::new(place));
                assert(typed_agrees(got, resolve(self@, relative@, saw@)));
                got
            },
            Err(error) => {
                assert(typed_agrees(Err(error), resolve(self@, relative@, saw@)));
                Err(error)
            },
        }
    }

    /// [`Jail::join_segments`], with the result marked as validated.
    pub fn segments(&self, segments: &[&str]) -> (got: Result<JailedPath, JailError>)
        ensures
            exists|seen: Seq<Sighting>|
                typed_agrees(got, #[trigger] resolve_segments(self@, strs(segments@), seen)),
            (exists|i: int| 0 <= i < segments@.len() && is_faulty(#[trigger] strs(segments@)[i]))
                ==> (got matches Err(error) && error@ is InvalidPath),
            got matches Ok(found) ==> within(self@, names(found@)),
    {
        let (resolved, saw) = self.segments_names(segments);
        match resolved {
            Ok(place) => {
                let got = Ok(JailedPath::new(place));
                assert(typed_agrees(got, resolve_segments(self@, strs(segments@), saw@)));
                got
            },
            Err(error) => {
                assert(typed_agrees(Err(error), resolve_segments(self@, strs(segments@), saw@)));
                Err(error)
            },
        }
    }

    /// Resolves a path to names: the two checks on the text, then the walk.
    fn resolve_names(&self, relative: &str, recorded: Option<Vec<Probe>>) -> (out: (
        Result<Vec<String>, JailError>,
        Ghost<Seq<Sighting>>,
    ))
        ensures
            names_agree(out.0, resolve(self@, relative@, out.1@)),
            recorded matches Some(list) ==> out.1@ == sightings(list@),
    {
        let ghost record = if recorded is Some {
            sightings(recorded->Some_0@)
        } else {
            Seq::empty()
        };
        if has_nul(relative) {
            return (
                Err(JailError::InvalidPath(String::from_str("null bytes not allowed"))),
                Ghost(record),
            );
        }
        if begins_at_root(relative) {
            return (
                Err(JailError::InvalidPath(String::from_str("absolute paths not allowed"))),
                Ghost(record),
            );
        }
        let parts = components(relative);
        self.walk_names(relative, &parts, recorded)
    }

    /// Resolves a path to text.
    fn resolve_text(&self, relative: &str, recorded: Option<Vec<Probe>>) -> (out: (
        Result<String, JailError>,
        Ghost<Seq<Sighting>>,
    ))
        ensures
            text_agrees(out.0, resolve(self@, relative@, out.1@)),
            recorded matches Some(list) ==> out.1@ == sightings(list@),
    {
        let (got, saw) = self.resolve_names(relative, recorded);
        match got {
            Ok(place) => (Ok(absolute_string(&place)), saw),
            Err(error) => (Err(error), saw),
        }
    }

    /// Safely joins a relative path to the root.
    ///
    /// The path is walked one component at a time from the root; after every
    /// move the host is asked what stands at the place reached, so that
    /// symbolic links are followed and checked as deep as the path exists.
    /// The result is what the model gives for what the host showed. An escape
    /// is reported with the path as it was given.
    pub fn join(&self, relative: &str) -> (got: Result<String, JailError>)
        ensures
            exists|seen: Seq<Sighting>|
                text_agrees(got, #[trigger] resolve(self@, relative@, seen)),
            relative@.contains('\0') ==> (got matches Err(error) && error@
                == Refusal::InvalidPath("null bytes not allowed"@)),
            !relative@.contains('\0') && is_absolute(relative@) ==> (got matches Err(error)
                && error@ == Refusal::InvalidPath("absolute paths not allowed"@)),
            relative@.len() == 0 ==> (got matches Ok(found) && found@ == absolute_text(self@)),
            got matches Ok(found) ==> within(self@, names(found@)),
            got matches Err(error) ==> (error@ is InvalidPath ==> relative@.contains('\0')
                || is_absolute(relative@) || error@ == not_unicode()),
            !(got matches Err(error) && error@ is InvalidRoot),
            got matches Err(JailError::EscapedRoot { attempted, root }) ==> attempted@
                == relative@ && root@ == absolute_text(self@),
    {
        let (got, saw) = self.resolve_text(relative, None);
        proof {
            use_type_invariant(self);
            assert(text_agrees(got, resolve(self@, relative@, saw@)));
            lemma_resolved_lies_within(self@, relative@, saw@);
            lemma_invalid_paths(self@, relative@, saw@);
            if relative@.len() == 0 {
                assert(relative@ =~= Seq::<char>::empty());
                lemma_empty_path_is_root(self@, saw@);
            }
        }
        got
    }

    /// Joins a relative path to the root against a record of what the host
    /// showed: the first sighting answers for the first place the walk asks
    /// about, and so on; where the record has run out, nothing is there.
    pub fn join_observed(&self, relative: &str, seen: Vec<Probe>) -> (got: Result<
        String,
        JailError,
    >)
        ensures
            text_agrees(got, resolve(self@, relative@, sightings(seen@))),
    {
        self.resolve_text(relative, Some(seen)).0
    }
}

impl Clone for Jail {
    fn clone(&self) -> (copy: Jail)
        ensures
            copy@ == self@,
    {
        proof {
            use_type_invariant(self);
        }
        let root = copy_names(&self.root);
        assert(texts(root@).len() == texts(self.root@).len());
        Jail { root }
    }
}

} // verus!
