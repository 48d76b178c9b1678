//! The lexical structure of POSIX paths.
//!
//! A path is text cut into pieces by `/`. Empty pieces carry no meaning, so
//! doubled and trailing separators vanish; `.` and `..` are the two pieces
//! that are not names.

use vstd::prelude::*;

verus! {

/// One component of a path, as a mathematical value.
pub enum Part {
    /// The leading separator of an absolute path.
    RootDir,
    /// The piece `.`.
    CurDir,
    /// The piece `..`.
    ParentDir,
    /// Any other non-empty piece.
    Normal(Seq<char>),
}

/// One component of a path.
#[derive(Debug, PartialEq, Eq)]
pub enum Component {
    /// The leading separator of an absolute path.
    RootDir,
    /// The piece `.`.
    CurDir,
    /// The piece `..`.
    ParentDir,
    /// Any other non-empty piece.
    Normal(String),
}

impl View for Component {
    type V = Part;

    open spec fn view(&self) -> Part {
        match self {
            Component::RootDir => Part::RootDir,
            Component::CurDir => Part::CurDir,
            Component::ParentDir => Part::ParentDir,
            Component::Normal(name) => Part::Normal(name@),
        }
    }
}

impl Clone for Component {
    fn clone(&self) -> (copy: Component)
        ensures
            copy@ == self@,
    {
        match self {
            Component::RootDir => Component::RootDir,
            Component::CurDir => Component::CurDir,
            Component::ParentDir => Component::ParentDir,
            Component::Normal(name) => Component::Normal(name.clone()),
        }
    }
}

/// The text of every name in a list.
pub open spec fn texts(names: Seq<String>) -> Seq<Seq<char>> {
    names.map_values(|name: String| name@)
}

/// The value of every component in a list.
pub open spec fn parts_view(components: Seq<Component>) -> Seq<Part> {
    components.map_values(|component: Component| component@)
}

/// A path is absolute when it begins with a separator.
pub open spec fn is_absolute(s: Seq<char>) -> bool {
    s.len() > 0 && s[0] == '/'
}

/// The pieces of `s` between its separators, empty ones included. There is
/// always one piece more than there are separators.
pub open spec fn pieces(s: Seq<char>) -> Seq<Seq<char>>
    decreases s.len(),
{
    if s.len() == 0 {
        seq![Seq::empty()]
    } else {
        let before = pieces(s.drop_last());
        if s.last() == '/' {
            before.push(Seq::empty())
        } else {
            before.drop_last().push(before.last().push(s.last()))
        }
    }
}

/// The pieces of a list that are not empty, in order.
pub open spec fn solid(ps: Seq<Seq<char>>) -> Seq<Seq<char>>
    decreases ps.len(),
{
    if ps.len() == 0 {
        Seq::empty()
    } else if ps.last().len() == 0 {
        solid(ps.drop_last())
    } else {
        solid(ps.drop_last()).push(ps.last())
    }
}

/// The non-empty pieces of a path.
pub open spec fn segments(s: Seq<char>) -> Seq<Seq<char>> {
    solid(pieces(s))
}

/// The piece `.`, which stands for the place one is at.
pub open spec fn is_dot(piece: Seq<char>) -> bool {
    piece == seq!['.']
}

/// The piece `..`, which stands for the place one level up.
pub open spec fn is_dot_dot(piece: Seq<char>) -> bool {
    piece == seq!['.', '.']
}

/// What a non-empty piece stands for.
pub open spec fn classify(piece: Seq<char>) -> Part {
    if is_dot(piece) {
        Part::CurDir
    } else if is_dot_dot(piece) {
        Part::ParentDir
    } else {
        Part::Normal(piece)
    }
}

/// What each piece of a list stands for.
pub open spec fn classified(ps: Seq<Seq<char>>) -> Seq<Part> {
    ps.map_values(|piece: Seq<char>| classify(piece))
}

/// The components of a path: a root marker if it is absolute, then one
/// component for each non-empty piece.
pub open spec fn parts(s: Seq<char>) -> Seq<Part> {
    if is_absolute(s) {
        seq![Part::RootDir] + classified(segments(s))
    } else {
        classified(segments(s))
    }
}

/// The pieces of a list other than `.`, in order.
pub open spec fn undotted(ps: Seq<Seq<char>>) -> Seq<Seq<char>>
    decreases ps.len(),
{
    if ps.len() == 0 {
        Seq::empty()
    } else if is_dot(ps.last()) {
        undotted(ps.drop_last())
    } else {
        undotted(ps.drop_last()).push(ps.last())
    }
}

/// The names that a path passes through: its non-empty pieces other than
/// `.`. Two paths with the same names denote the same place.
pub open spec fn names(s: Seq<char>) -> Seq<Seq<char>> {
    undotted(segments(s))
}

/// Each name preceded by a separator, one after the other.
pub open spec fn joined(names: Seq<Seq<char>>) -> Seq<char>
    decreases names.len(),
{
    if names.len() == 0 {
        Seq::empty()
    } else {
        joined(names.drop_last()) + seq!['/'] + names.last()
    }
}

/// The text of the absolute path that passes through `names`.
pub open spec fn absolute_text(names: Seq<Seq<char>>) -> Seq<char> {
    if names.len() == 0 {
        seq!['/']
    } else {
        joined(names)
    }
}

/// The text of the relative path that passes through `names`.
pub open spec fn relative_text(names: Seq<Seq<char>>) -> Seq<char> {
    if names.len() == 0 {
        Seq::empty()
    } else {
        joined(names).skip(1)
    }
}

/// A name that survives being written into a path and read back.
pub open spec fn is_name(piece: Seq<char>) -> bool {
    piece.len() > 0 && !piece.contains('/') && !is_dot(piece)
}

/// Every entry of the list is a name.
pub open spec fn all_names(names: Seq<Seq<char>>) -> bool {
    forall|i: int| 0 <= i < names.len() ==> is_name(#[trigger] names[i])
}

/// The characters of a string, in order.
pub fn chars_of(text: &str) -> (out: Vec<char>)
    ensures
        out@ == text@,
{
    broadcast use vstd::string::group_string_axioms;
    let mut out: Vec<char> = Vec::new();
    for c in it: text.chars()
        invariant
            it.seq() == text@,
            out@ == it.seq().take(it.index()),
    {
        out.push(c);
    }
    assert(out@ =~= text@);
    out
}

/// Whether the text holds the character.
pub fn holds_char(text: &str, sought: char) -> (found: bool)
    ensures
        found == text@.contains(sought),
{
    let chars = chars_of(text);
    let mut i: usize = 0;
    while i < chars.len()
        invariant
            i <= chars.len(),
            chars@ == text@,
            forall|k: int| 0 <= k < i ==> chars@[k] != sought,
        decreases chars.len() - i,
    {
        if chars[i] == sought {
            assert(text@[i as int] == sought);
            return true;
        }
        i += 1;
    }
    false
}

/// Whether the text holds a null character.
pub fn has_nul(text: &str) -> (found: bool)
    ensures
        found == text@.contains('\0'),
{
    holds_char(text, '\0')
}

/// Whether the path is absolute.
pub fn begins_at_root(text: &str) -> (rooted: bool)
    ensures
        rooted == is_absolute(text@),
{
    let chars = chars_of(text);
    chars.len() > 0 && chars[0] == '/'
}

/// Cuts a path into its non-empty pieces.
pub fn split_segments(text: &str) -> (out: Vec<String>)
    ensures
        texts(out@) == segments(text@),
{
    let chars = chars_of(text);
    let mut done: Vec<String> = Vec::new();
    let mut piece = String::new();
    let mut i: usize = 0;
    assert(chars@.take(0) =~= Seq::<char>::empty());
    assert(pieces(Seq::<char>::empty()).drop_last() =~= Seq::<Seq<char>>::empty());
    assert(texts(done@) =~= Seq::<Seq<char>>::empty());
    while i < chars.len()
        invariant
            i <= chars.len(),
            texts(done@) == solid(pieces(chars@.take(i as int)).drop_last()),
            piece@ == pieces(chars@.take(i as int)).last(),
        decreases chars.len() - i,
    {
        let c = chars[i];
        let ghost before = chars@.take(i as int);
        let ghost after = chars@.take(i + 1);
        proof {
            assert(after.drop_last() =~= before);
            assert(after.last() == c);
            lemma_pieces_nonempty(before);
        }
        if c == '/' {
            proof {
                assert(pieces(after).drop_last() =~= pieces(before));
                assert(pieces(before) =~= pieces(before).drop_last().push(pieces(before).last()));
            }
            if !piece.as_str().is_empty() {
                let ghost old_done = done@;
                done.push(piece);
                assert(texts(done@) =~= texts(old_done).push(piece@));
            }
            piece = String::new();
        } else {
            piece.push(c);
            proof {
                assert(pieces(after).drop_last() =~= pieces(before).drop_last());
            }
        }
        i += 1;
    }
    proof {
        assert(chars@.take(chars.len() as int) =~= chars@);
        lemma_pieces_nonempty(chars@);
        assert(pieces(chars@) =~= pieces(chars@).drop_last().push(pieces(chars@).last()));
    }
    if !piece.as_str().is_empty() {
        let ghost old_done = done@;
        done.push(piece);
        assert(texts(done@) =~= texts(old_done).push(piece@));
    }
    done
}

/// Whether a piece is `.`.
pub fn piece_is_dot(piece: &str) -> (dot: bool)
    ensures
        dot == is_dot(piece@),
{
    let chars = chars_of(piece);
    let dot = chars.len() == 1 && chars[0] == '.';
    assert(dot ==> piece@ =~= seq!['.']);
    assert(is_dot(piece@) ==> piece@.len() == 1 && piece@[0] == '.');
    dot
}

/// Whether a piece is `..`.
pub fn piece_is_dot_dot(piece: &str) -> (dots: bool)
    ensures
        dots == is_dot_dot(piece@),
{
    let chars = chars_of(piece);
    let dots = chars.len() == 2 && chars[0] == '.' && chars[1] == '.';
    assert(dots ==> piece@ =~= seq!['.', '.']);
    assert(is_dot_dot(piece@) ==> piece@.len() == 2 && piece@[0] == '.' && piece@[1] == '.');
    dots
}

/// Says what a non-empty piece stands for.
pub fn classify_piece(piece: String) -> (component: Component)
    ensures
        component@ == classify(piece@),
{
    if piece_is_dot(piece.as_str()) {
        Component::CurDir
    } else if piece_is_dot_dot(piece.as_str()) {
        Component::ParentDir
    } else {
        Component::Normal(piece)
    }
}

/// Cuts a path into its components. Empty pieces yield none, so doubled and
/// trailing separators leave no trace.
pub fn components(text: &str) -> (out: Vec<Component>)
    ensures
        parts_view(out@) == parts(text@),
{
    let mut pieces = split_segments(text);
    let ghost all = texts(pieces@);
    let mut out: Vec<Component> = Vec::new();
    if begins_at_root(text) {
        out.push(Component::RootDir);
    }
    let ghost lead = parts_view(out@);
    let n = pieces.len();
    let mut i: usize = 0;
    while i < n
        invariant
            i <= n,
            n == pieces.len(),
            texts(pieces@).len() == all.len(),
            forall|k: int| i <= k < n ==> (#[trigger] pieces@[k])@ == all[k],
            all == segments(text@),
            parts_view(out@) == lead + classified(all.take(i as int)),
        decreases n - i,
    {
        let mut piece = String::new();
        std::mem::swap(&mut piece, &mut pieces[i]);
        let ghost before = parts_view(out@);
        let component = classify_piece(piece);
        out.push(component);
        proof {
            assert(parts_view(out@) =~= before.push(component@));
            assert(all.take(i + 1) =~= all.take(i as int).push(all[i as int]));
            assert(classified(all.take(i + 1)) =~= classified(all.take(i as int)).push(
                classify(all[i as int]),
            ));
        }
        i += 1;
    }
    proof {
        assert(all.take(n as int) =~= all);
        assert(lead.len() == 0 ==> lead + classified(all) =~= classified(all));
        assert(lead.len() > 0 ==> lead =~= seq![Part::RootDir]);
    }
    out
}

/// Cuts a path into the names it passes through.
pub fn path_names(text: &str) -> (out: Vec<String>)
    ensures
        texts(out@) == names(text@),
{
    let mut pieces = split_segments(text);
    let ghost all = texts(pieces@);
    let mut out: Vec<String> = Vec::new();
    let n = pieces.len();
    let mut i: usize = 0;
    assert(all.take(0) =~= Seq::<Seq<char>>::empty());
    assert(texts(out@) =~= Seq::<Seq<char>>::empty());
    while i < n
        invariant
            i <= n,
            n == pieces.len(),
            n == all.len(),
            forall|k: int| i <= k < n ==> (#[trigger] pieces@[k])@ == all[k],
            all == segments(text@),
            texts(out@) == undotted(all.take(i as int)),
        decreases n - i,
    {
        let mut piece = String::new();
        std::mem::swap(&mut piece, &mut pieces[i]);
        proof {
            assert(all.take(i + 1).drop_last() =~= all.take(i as int));
            assert(all.take(i + 1).last() == all[i as int]);
        }
        if !piece_is_dot(piece.as_str()) {
            let ghost before = texts(out@);
            out.push(piece);
            assert(texts(out@) =~= before.push(piece@));
        }
        i += 1;
    }
    assert(all.take(n as int) =~= all);
    out
}

/// Writes the absolute path that passes through the given names.
pub fn absolute_string(names: &Vec<String>) -> (out: String)
    ensures
        out@ == absolute_text(texts(names@)),
{
    let mut out = String::new();
    if names.len() == 0 {
        out.push('/');
        assert(out@ =~= seq!['/']);
        return out;
    }
    let mut i: usize = 0;
    assert(texts(names@).take(0) =~= Seq::<Seq<char>>::empty());
    while i < names.len()
        invariant
            i <= names.len(),
            out@ == joined(texts(names@).take(i as int)),
        decreases names.len() - i,
    {
        let ghost before = out@;
        out.push('/');
        out.append(names[i].as_str());
        proof {
            let upto = texts(names@).take(i + 1);
            assert(upto.drop_last() =~= texts(names@).take(i as int));
            assert(upto.last() == names@[i as int]@);
            assert(out@ =~= before + seq!['/'] + names@[i as int]@);
        }
        i += 1;
    }
    assert(texts(names@).take(names.len() as int) =~= texts(names@));
    out
}

/// Writes the relative path that passes through the given names.
pub fn relative_string(names: &Vec<String>) -> (out: String)
    ensures
        out@ == relative_text(texts(names@)),
{
    let mut out = String::new();
    let mut i: usize = 0;
    assert(texts(names@).take(0) =~= Seq::<Seq<char>>::empty());
    while i < names.len()
        invariant
            i <= names.len(),
            out@ == relative_text(texts(names@).take(i as int)),
            i > 0 ==> joined(texts(names@).take(i as int)).len() > 0,
        decreases names.len() - i,
    {
        let ghost before = out@;
        let ghost shown = joined(texts(names@).take(i as int));
        if i > 0 {
            out.push('/');
        }
        out.append(names[i].as_str());
        proof {
            let upto = texts(names@).take(i + 1);
            assert(upto.drop_last() =~= texts(names@).take(i as int));
            assert(upto.last() == names@[i as int]@);
            assert(joined(upto) == shown + seq!['/'] + names@[i as int]@);
            assert(out@ =~= relative_text(upto));
        }
        i += 1;
    }
    assert(texts(names@).take(names.len() as int) =~= texts(names@));
    out
}

/// A path always has at least one piece.
pub proof fn lemma_pieces_nonempty(s: Seq<char>)
    ensures
        pieces(s).len() >= 1,
    decreases s.len(),
{
    if s.len() > 0 {
        lemma_pieces_nonempty(s.drop_last());
    }
}

/// A separator cuts a path in two: the pieces of the whole are the pieces of
/// what stands before it, then the pieces of what stands after it.
pub proof fn lemma_pieces_concat(a: Seq<char>, b: Seq<char>)
    ensures
        pieces(a + seq!['/'] + b) == pieces(a) + pieces(b),
    decreases b.len(),
{
    let whole = a + seq!['/'] + b;
    lemma_pieces_nonempty(a);
    if b.len() == 0 {
        assert(whole.drop_last() =~= a);
        assert(pieces(a).push(Seq::<char>::empty()) =~= pieces(a) + pieces(b));
    } else {
        let shorter = b.drop_last();
        lemma_pieces_concat(a, shorter);
        lemma_pieces_nonempty(shorter);
        assert(whole.drop_last() =~= a + seq!['/'] + shorter);
        assert(whole.last() == b.last());
        let before = pieces(a) + pieces(shorter);
        if b.last() == '/' {
            assert(before.push(Seq::<char>::empty()) =~= pieces(a) + pieces(b));
        } else {
            assert(before.drop_last().push(before.last().push(b.last())) =~= pieces(a) + pieces(
                b,
            ));
        }
    }
}

/// Dropping the empty pieces of two lists and of the two put together comes
/// to the same.
pub proof fn lemma_solid_concat(x: Seq<Seq<char>>, y: Seq<Seq<char>>)
    ensures
        solid(x + y) == solid(x) + solid(y),
    decreases y.len(),
{
    if y.len() == 0 {
        assert(x + y =~= x);
        assert(solid(x) + solid(y) =~= solid(x));
    } else {
        lemma_solid_concat(x, y.drop_last());
        assert((x + y).drop_last() =~= x + y.drop_last());
        assert((x + y).last() == y.last());
        if y.last().len() > 0 {
            assert(solid(x) + solid(y) =~= (solid(x) + solid(y.drop_last())).push(y.last()));
        }
    }
}

/// Text without a separator is one piece.
pub proof fn lemma_pieces_plain(name: Seq<char>)
    requires
        !name.contains('/'),
    ensures
        pieces(name) == seq![name],
    decreases name.len(),
{
    if name.len() == 0 {
        assert(name =~= Seq::<char>::empty());
    } else {
        let shorter = name.drop_last();
        assert forall|i: int| 0 <= i < shorter.len() implies shorter[i] != '/' by {
            assert(name[i] == shorter[i]);
            assert(name.contains(name[i]));
        }
        assert(!shorter.contains('/'));
        lemma_pieces_plain(shorter);
        assert(name.contains(name.last()));
        assert(shorter.push(name.last()) =~= name);
        assert(seq![shorter].drop_last().push(seq![shorter].last().push(name.last())) =~= seq![
            name,
        ]);
    }
}

/// No piece holds a separator.
pub proof fn lemma_pieces_hold_no_separator(s: Seq<char>)
    ensures
        forall|i: int| 0 <= i < pieces(s).len() ==> !(#[trigger] pieces(s)[i]).contains('/'),
    decreases s.len(),
{
    if s.len() > 0 {
        let before = pieces(s.drop_last());
        lemma_pieces_hold_no_separator(s.drop_last());
        lemma_pieces_nonempty(s.drop_last());
        if s.last() != '/' {
            let grown = before.last().push(s.last());
            assert forall|j: int| 0 <= j < grown.len() implies grown[j] != '/' by {
                if j < before.last().len() {
                    assert(before.last().contains(before.last()[j]));
                }
            }
        }
    }
}

/// A character that a path lacks, each of its pieces lacks.
pub proof fn lemma_pieces_lack(s: Seq<char>, c: char)
    requires
        !s.contains(c),
    ensures
        forall|i: int| 0 <= i < pieces(s).len() ==> !(#[trigger] pieces(s)[i]).contains(c),
    decreases s.len(),
{
    if s.len() > 0 {
        let shorter = s.drop_last();
        let before = pieces(shorter);
        assert forall|j: int| 0 <= j < shorter.len() implies shorter[j] != c by {
            assert(s[j] == shorter[j]);
            assert(s.contains(s[j]));
        }
        lemma_pieces_lack(shorter, c);
        lemma_pieces_nonempty(shorter);
        assert(s.contains(s.last()));
        if s.last() != '/' {
            let grown = before.last().push(s.last());
            assert forall|j: int| 0 <= j < grown.len() implies grown[j] != c by {
                if j < before.last().len() {
                    assert(before.last().contains(before.last()[j]));
                }
            }
        }
    }
}

/// Whatever holds of every piece of a list holds of every one that is left
/// when the empty ones are dropped, and those are not empty.
pub proof fn lemma_solid_keeps(ps: Seq<Seq<char>>, holds: spec_fn(Seq<char>) -> bool)
    requires
        forall|i: int| 0 <= i < ps.len() ==> holds(#[trigger] ps[i]),
    ensures
        forall|i: int|
            0 <= i < solid(ps).len() ==> holds(#[trigger] solid(ps)[i]) && solid(ps)[i].len() > 0,
    decreases ps.len(),
{
    if ps.len() > 0 {
        assert forall|i: int| 0 <= i < ps.drop_last().len() implies holds(
            #[trigger] ps.drop_last()[i],
        ) by {
            assert(ps.drop_last()[i] == ps[i]);
        }
        lemma_solid_keeps(ps.drop_last(), holds);
        assert(holds(ps[ps.len() - 1]));
        assert forall|i: int| 0 <= i < solid(ps).len() implies holds(#[trigger] solid(ps)[i])
            && solid(ps)[i].len() > 0 by {
            if i < solid(ps.drop_last()).len() {
                assert(solid(ps)[i] == solid(ps.drop_last())[i]);
            }
        }
    }
}

/// Whatever holds of every piece of a list holds of every one that is left
/// when the `.` pieces are dropped, and none of those is `.`.
pub proof fn lemma_undotted_keeps(ps: Seq<Seq<char>>, holds: spec_fn(Seq<char>) -> bool)
    requires
        forall|i: int| 0 <= i < ps.len() ==> holds(#[trigger] ps[i]),
    ensures
        forall|i: int|
            0 <= i < undotted(ps).len() ==> holds(#[trigger] undotted(ps)[i]) && !is_dot(
                undotted(ps)[i],
            ),
    decreases ps.len(),
{
    if ps.len() > 0 {
        assert forall|i: int| 0 <= i < ps.drop_last().len() implies holds(
            #[trigger] ps.drop_last()[i],
        ) by {
            assert(ps.drop_last()[i] == ps[i]);
        }
        lemma_undotted_keeps(ps.drop_last(), holds);
        assert(holds(ps[ps.len() - 1]));
        assert forall|i: int| 0 <= i < undotted(ps).len() implies holds(
            #[trigger] undotted(ps)[i],
        ) && !is_dot(undotted(ps)[i]) by {
            if i < undotted(ps.drop_last()).len() {
                assert(undotted(ps)[i] == undotted(ps.drop_last())[i]);
            }
        }
    }
}

/// Every segment of a path is non-empty and free of separators.
pub proof fn lemma_segments_are_plain(s: Seq<char>)
    ensures
        forall|i: int|
            0 <= i < segments(s).len() ==> (#[trigger] segments(s)[i]).len() > 0
                && !segments(s)[i].contains('/'),
{
    lemma_pieces_hold_no_separator(s);
    lemma_solid_keeps(pieces(s), |piece: Seq<char>| !piece.contains('/'));
}

/// What a path passes through are names: non-empty, free of separators, and
/// none of them `.`.
pub proof fn lemma_names_are_names(s: Seq<char>)
    ensures
        all_names(names(s)),
{
    lemma_segments_are_plain(s);
    lemma_undotted_keeps(segments(s), |piece: Seq<char>| piece.len() > 0 && !piece.contains('/'));
}

/// A list of names is left as it is when empty and `.` pieces are dropped.
pub proof fn lemma_names_survive(list: Seq<Seq<char>>)
    requires
        all_names(list),
    ensures
        solid(list) == list,
        undotted(list) == list,
    decreases list.len(),
{
    if list.len() > 0 {
        assert forall|i: int| 0 <= i < list.drop_last().len() implies is_name(
            #[trigger] list.drop_last()[i],
        ) by {
            assert(list.drop_last()[i] == list[i]);
        }
        lemma_names_survive(list.drop_last());
        assert(is_name(list[list.len() - 1]));
        assert(list.drop_last().push(list.last()) =~= list);
    } else {
        assert(list =~= Seq::<Seq<char>>::empty());
    }
}

/// The pieces of names written one after the other, each behind a separator:
/// one empty piece, then the names.
pub proof fn lemma_pieces_of_joined(list: Seq<Seq<char>>)
    requires
        all_names(list),
    ensures
        pieces(joined(list)) == seq![Seq::<char>::empty()] + list,
    decreases list.len(),
{
    if list.len() == 0 {
        assert(seq![Seq::<char>::empty()] + list =~= seq![Seq::<char>::empty()]);
    } else {
        let shorter = list.drop_last();
        assert forall|i: int| 0 <= i < shorter.len() implies is_name(#[trigger] shorter[i]) by {
            assert(shorter[i] == list[i]);
        }
        lemma_pieces_of_joined(shorter);
        assert(is_name(list[list.len() - 1]));
        lemma_pieces_concat(joined(shorter), list.last());
        lemma_pieces_plain(list.last());
        assert(seq![Seq::<char>::empty()] + shorter + seq![list.last()] =~= seq![
            Seq::<char>::empty(),
        ] + list);
    }
}

/// Writing names as an absolute path and reading the path back gives the
/// same names.
pub proof fn lemma_names_of_absolute_text(list: Seq<Seq<char>>)
    requires
        all_names(list),
    ensures
        names(absolute_text(list)) == list,
        is_absolute(absolute_text(list)),
{
    let nothing = Seq::<char>::empty();
    let lead = seq![nothing];
    assert(solid(lead) =~= Seq::<Seq<char>>::empty()) by {
        assert(lead.drop_last() =~= Seq::<Seq<char>>::empty());
        assert(solid(lead.drop_last()) =~= Seq::<Seq<char>>::empty());
    }
    if list.len() == 0 {
        let top = seq!['/'];
        assert(nothing + top + nothing =~= top);
        lemma_pieces_concat(nothing, nothing);
        lemma_solid_concat(lead, lead);
        assert(solid(lead) + solid(lead) =~= Seq::<Seq<char>>::empty());
        assert(names(top) =~= list);
    } else {
        lemma_pieces_of_joined(list);
        lemma_solid_concat(lead, list);
        lemma_names_survive(list);
        assert(solid(lead) + list =~= list);
        lemma_joined_begins_with_separator(list);
    }
}

/// Names written one after the other, each behind a separator, begin with a
/// separator.
pub proof fn lemma_joined_begins_with_separator(list: Seq<Seq<char>>)
    requires
        list.len() > 0,
    ensures
        joined(list).len() > 0,
        joined(list)[0] == '/',
    decreases list.len(),
{
    if list.len() > 1 {
        lemma_joined_begins_with_separator(list.drop_last());
    } else {
        assert(joined(list.drop_last()) =~= Seq::<char>::empty());
    }
}

/// The segments of a path cut at a separator are the segments of what
/// stands before it, then those of what stands after it.
pub proof fn lemma_segments_concat(a: Seq<char>, b: Seq<char>)
    ensures
        segments(a + seq!['/'] + b) == segments(a) + segments(b),
{
    lemma_pieces_concat(a, b);
    lemma_solid_concat(pieces(a), pieces(b));
}

/// The empty path has no segments.
pub proof fn lemma_no_segments_in_nothing()
    ensures
        segments(Seq::<char>::empty()).len() == 0,
        parts(Seq::<char>::empty()).len() == 0,
{
    let lead = seq![Seq::<char>::empty()];
    assert(lead.drop_last() =~= Seq::<Seq<char>>::empty());
    assert(solid(lead.drop_last()) =~= Seq::<Seq<char>>::empty());
}

/// Doubled separators normalize away: a second separator behind a first
/// changes no component.
pub proof fn lemma_doubled_separator_vanishes(a: Seq<char>, b: Seq<char>)
    ensures
        parts(a + seq!['/', '/'] + b) == parts(a + seq!['/'] + b),
{
    let nothing = Seq::<char>::empty();
    let tail = seq!['/'] + b;
    assert(a + seq!['/', '/'] + b =~= a + seq!['/'] + tail);
    assert(tail =~= nothing + seq!['/'] + b);
    lemma_segments_concat(a, tail);
    lemma_segments_concat(nothing, b);
    lemma_segments_concat(a, b);
    lemma_no_segments_in_nothing();
    assert(segments(nothing) + segments(b) =~= segments(b));
    assert(is_absolute(a + seq!['/', '/'] + b) == is_absolute(a + seq!['/'] + b));
}

/// Trailing separators normalize away: a separator at the end of a path
/// that is not empty changes no component.
pub proof fn lemma_trailing_separator_vanishes(a: Seq<char>)
    requires
        a.len() > 0,
    ensures
        parts(a + seq!['/']) == parts(a),
{
    let nothing = Seq::<char>::empty();
    assert(a + seq!['/'] =~= a + seq!['/'] + nothing);
    lemma_segments_concat(a, nothing);
    lemma_no_segments_in_nothing();
    assert(segments(a) + segments(nothing) =~= segments(a));
    assert(is_absolute(a + seq!['/']) == is_absolute(a));
}

/// A name other than `.` and `..` is a path of one component, itself. That
/// makes `...` a file name like any other.
pub proof fn lemma_name_is_one_component(name: Seq<char>)
    requires
        is_name(name),
        !is_dot_dot(name),
    ensures
        parts(name) == seq![Part::Normal(name)],
{
    lemma_pieces_plain(name);
    lemma_names_survive(seq![name]);
    assert(name.contains(name[0]));
    assert(classified(segments(name)) =~= seq![Part::Normal(name)]);
}

/// Each name as a component.
pub open spec fn as_normal(list: Seq<Seq<char>>) -> Seq<Part> {
    list.map_values(|name: Seq<char>| Part::Normal(name))
}

/// A character of names written one after the other is a separator or
/// stands in one of the names.
pub proof fn lemma_joined_holds_only_names(list: Seq<Seq<char>>, c: char)
    requires
        joined(list).contains(c),
        c != '/',
    ensures
        exists|i: int| 0 <= i < list.len() && (#[trigger] list[i]).contains(c),
    decreases list.len(),
{
    if list.len() > 0 {
        let shorter = list.drop_last();
        let k = choose|k: int| 0 <= k < joined(list).len() && joined(list)[k] == c;
        if k < joined(shorter).len() {
            assert(joined(shorter)[k] == c);
            lemma_joined_holds_only_names(shorter, c);
            let i = choose|i: int| 0 <= i < shorter.len() && (#[trigger] shorter[i]).contains(c);
            assert(list[i] == shorter[i]);
        } else {
            assert(list.last()[k - joined(shorter).len() - 1] == c);
            assert(list[list.len() - 1].contains(c));
        }
    }
}

/// Writing names other than `..` as a relative path and reading the path
/// back gives one component for each name.
pub proof fn lemma_parts_of_relative_text(list: Seq<Seq<char>>)
    requires
        all_names(list),
        forall|i: int| 0 <= i < list.len() ==> !is_dot_dot(#[trigger] list[i]),
    ensures
        parts(relative_text(list)) == as_normal(list),
        !is_absolute(relative_text(list)),
{
    if list.len() == 0 {
        lemma_no_segments_in_nothing();
        assert(parts(relative_text(list)) =~= as_normal(list));
    } else {
        let nothing = Seq::<char>::empty();
        let text = relative_text(list);
        lemma_joined_begins_with_separator(list);
        assert(joined(list) =~= nothing + seq!['/'] + text);
        lemma_pieces_concat(nothing, text);
        lemma_pieces_of_joined(list);
        let lead = seq![nothing];
        assert(pieces(nothing) =~= lead);
        assert(pieces(text) =~= list) by {
            assert(lead + pieces(text) == lead + list);
            assert((lead + pieces(text)).len() == (lead + list).len());
            assert(pieces(text).len() == list.len());
            assert forall|i: int| 0 <= i < list.len() implies pieces(text)[i] == list[i] by {
                assert((lead + pieces(text))[i + 1] == (lead + list)[i + 1]);
            }
        }
        lemma_names_survive(list);
        assert(is_name(list[0]));
        lemma_first_of_joined(list);
        assert(list[0].contains(list[0][0]));
        assert(classified(segments(text)) =~= as_normal(list)) by {
            assert forall|i: int| 0 <= i < list.len() implies classify(list[i]) == Part::Normal(
                list[i],
            ) by {
                assert(is_name(list[i]));
            }
        }
    }
}

/// Names written one after the other begin with a separator and then the
/// first character of the first name.
pub proof fn lemma_first_of_joined(list: Seq<Seq<char>>)
    requires
        list.len() > 0,
        list[0].len() > 0,
    ensures
        joined(list).len() > 1,
        joined(list)[1] == list[0][0],
    decreases list.len(),
{
    if list.len() > 1 {
        assert(list.drop_last()[0] == list[0]);
        lemma_first_of_joined(list.drop_last());
    } else {
        assert(joined(list.drop_last()) =~= Seq::<char>::empty());
    }
}

} // verus!
