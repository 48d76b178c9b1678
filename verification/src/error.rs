//! The ways in which a path can be refused.

use crate::host::is_dir;
use crate::path::{begins_at_root, is_absolute, names, path_names, segments, split_segments};
use vstd::prelude::*;
use vstd::string::to_string_from_display_ensures;

verus! {

/// Why a root or a path was refused.
#[derive(Debug)]
pub enum JailError {
    /// The path would leave the jail. `attempted` is the path as the caller
    /// gave it, `root` the root of the jail.
    EscapedRoot { attempted: String, root: String },
    /// The path runs into a symbolic link whose target does not exist, so
    /// nothing can be said of where it leads.
    BrokenSymlink(String),
    /// The path is malformed; the text says how.
    InvalidPath(String),
    /// The directory cannot serve as the root of a jail.
    InvalidRoot(String),
    /// The host reported an error.
    Io(std::io::Error),
}

/// A [`JailError`] as a mathematical value.
pub enum Refusal {
    EscapedRoot { attempted: Seq<char>, root: Seq<char> },
    BrokenSymlink(Seq<char>),
    InvalidPath(Seq<char>),
    InvalidRoot(Seq<char>),
    Io(std::io::Error),
}

impl View for JailError {
    type V = Refusal;

    open spec fn view(&self) -> Refusal {
        match self {
            JailError::EscapedRoot { attempted, root } => Refusal::EscapedRoot {
                attempted: attempted@,
                root: root@,
            },
            JailError::BrokenSymlink(path) => Refusal::BrokenSymlink(path@),
            JailError::InvalidPath(reason) => Refusal::InvalidPath(reason@),
            JailError::InvalidRoot(path) => Refusal::InvalidRoot(path@),
            JailError::Io(cause) => Refusal::Io(*cause),
        }
    }
}

impl From<std::io::Error> for JailError {
    fn from(cause: std::io::Error) -> (error: JailError) {
        JailError::Io(cause)
    }
}

impl vstd::std_specs::convert::FromSpecImpl<std::io::Error> for JailError {
    open spec fn obeys_from_spec() -> bool {
        true
    }

    open spec fn from_spec(cause: std::io::Error) -> JailError {
        JailError::Io(cause)
    }
}

/// The refusal of a path that is not Unicode. The library holds paths as
/// text, so it can say nothing of such a path.
pub open spec fn not_unicode() -> Refusal {
    Refusal::InvalidPath("path is not valid Unicode"@)
}

/// Whether a path has a parent: an absolute path passes through a name, a
/// relative one has a non-empty piece.
pub open spec fn has_parent(path: Seq<char>) -> bool {
    if is_absolute(path) {
        names(path).len() > 0
    } else {
        segments(path).len() > 0
    }
}

/// Why a root was refused, given whether the host shows a directory there.
pub open spec fn root_fault(path: Seq<char>, is_dir: bool) -> Seq<char> {
    if !has_parent(path) {
        "cannot use filesystem root"@
    } else if !is_dir {
        "not a directory"@
    } else {
        "invalid"@
    }
}

/// The message of a refusal. `is_dir` says whether the host shows a directory
/// at a refused root, `cause` is the text of the host's error; each matters to
/// one kind of refusal only.
pub open spec fn message_of(refusal: Refusal, is_dir: bool, cause: Seq<char>) -> Seq<char> {
    match refusal {
        Refusal::EscapedRoot { attempted, root } => "path '"@ + attempted
            + "' escapes jail root '"@ + root + "'"@,
        Refusal::BrokenSymlink(path) => "broken symlink at '"@ + path
            + "' (cannot verify target)"@,
        Refusal::InvalidPath(reason) => "invalid path: "@ + reason,
        Refusal::InvalidRoot(path) => "invalid jail root '"@ + path + "' ("@ + root_fault(
            path,
            is_dir,
        ) + ")"@,
        Refusal::Io(_) => "io error: "@ + cause,
    }
}

/// Whether a path has a parent.
pub fn path_has_parent(path: &str) -> (found: bool)
    ensures
        found == has_parent(path@),
{
    if begins_at_root(path) {
        path_names(path).len() > 0
    } else {
        split_segments(path).len() > 0
    }
}

impl JailError {
    /// The refusal of a path that is not Unicode.
    pub fn not_unicode() -> (error: JailError)
        ensures
            error@ == not_unicode(),
    {
        JailError::InvalidPath(String::from_str("path is not valid Unicode"))
    }

    /// Writes the message, from what the host said.
    pub fn render(&self, is_dir: bool, cause: &str) -> (text: String)
        ensures
            text@ == message_of(self@, is_dir, cause@),
    {
        match self {
            JailError::EscapedRoot { attempted, root } => {
                let mut text = String::from_str("path '");
                text.append(attempted.as_str());
                text.append("' escapes jail root '");
                text.append(root.as_str());
                text.append("'");
                text
            },
            JailError::BrokenSymlink(path) => {
                let mut text = String::from_str("broken symlink at '");
                text.append(path.as_str());
                text.append("' (cannot verify target)");
                text
            },
            JailError::InvalidPath(reason) => {
                let mut text = String::from_str("invalid path: ");
                text.append(reason.as_str());
                text
            },
            JailError::InvalidRoot(path) => {
                let mut text = String::from_str("invalid jail root '");
                text.append(path.as_str());
                text.append("' (");
                if !path_has_parent(path.as_str()) {
                    text.append("cannot use filesystem root");
                } else if !is_dir {
                    text.append("not a directory");
                } else {
                    text.append("invalid");
                }
                text.append(")");
                text
            },
            JailError::Io(_) => {
                let mut text = String::from_str("io error: ");
                text.append(cause);
                text
            },
        }
    }

    /// The message of this error. For a refused root the host is asked
    /// whether a directory stands there now.
    pub fn message(&self) -> (text: String)
        ensures
            !(self@ is InvalidRoot) && !(self@ is Io) ==> text@ == message_of(
                self@,
                false,
                Seq::empty(),
            ),
            self@ is InvalidRoot ==> exists|is_dir: bool|
                text@ == message_of(self@, is_dir, Seq::empty()),
            self@ is Io ==> exists|cause: String|
                to_string_from_display_ensures::<std::io::Error>(&self@->Io_0, cause) && text@
                    == message_of(self@, false, cause@),
    {
        proof {
            reveal_strlit("");
            assert(""@ =~= Seq::<char>::empty());
        }
        match self {
            JailError::InvalidRoot(path) => {
                let found = is_dir(path.as_str());
                let text = self.render(found, "");
                assert(text@ == message_of(self@, found, Seq::empty()));
                text
            },
            JailError::Io(cause) => {
                let said = cause.to_string();
                let text = self.render(false, said.as_str());
                assert(to_string_from_display_ensures::<std::io::Error>(&self@->Io_0, said)
                    && text@ == message_of(self@, false, said@));
                text
            },
            _ => self.render(false, ""),
        }
    }
}

} // verus!
