//! What the library learns from the host, and takes from it on trust.
//!
//! The answers depend on what is on disk at the moment of asking, so nothing
//! is claimed of them: every function that asks is proved for whatever comes
//! back.

use vstd::prelude::*;

verus! {

/// The host's error type. Nothing is known of a value of it.
#[verifier::external_type_specification]
#[verifier::external_body]
pub struct ExIoError(std::io::Error);

/// `String::push` appends one character to the end of the string.
pub assume_specification[ String::push ](s: &mut String, c: char)
    ensures
        final(s)@ == old(s)@.push(c),
;

/// `Path::exists`: whether the host now shows anything at `path`, following
/// symbolic links. Nothing is claimed of the answer.
#[verifier::external_body]
pub(crate) fn path_exists(path: &str) -> (answer: bool) {
    std::path::Path::new(path).exists()
}

/// `Path::is_symlink`: whether the host now shows a symbolic link at `path`
/// itself. Nothing is claimed of the answer.
#[verifier::external_body]
pub(crate) fn is_symlink(path: &str) -> (answer: bool) {
    std::path::Path::new(path).is_symlink()
}

/// `Path::is_dir`: whether the host now shows a directory at `path`,
/// following symbolic links. Nothing is claimed of the answer.
#[verifier::external_body]
pub(crate) fn is_dir(path: &str) -> (answer: bool) {
    std::path::Path::new(path).is_dir()
}

/// A path as the host gave it: as text where it is Unicode, else as the
/// bytes it is made of.
#[derive(Debug)]
pub enum Resolved {
    /// The path, where it is Unicode.
    Text(String),
    /// The bytes of a path that is not Unicode.
    NotUnicode(Vec<u8>),
}

/// `Path::canonicalize`: the path that the host now resolves `path` to, or
/// the host's error. The path is converted with `OsString::into_string`,
/// and with `OsString::into_encoded_bytes` where that fails. Nothing is
/// claimed of the answer.
#[verifier::external_body]
pub(crate) fn canonicalize(path: &str) -> (answer: Result<Resolved, std::io::Error>) {
    match std::path::Path::new(path).canonicalize() {
        Ok(found) => match found.into_os_string().into_string() {
            Ok(text) => Ok(Resolved::Text(text)),
            Err(raw) => Ok(Resolved::NotUnicode(raw.into_encoded_bytes())),
        },
        Err(cause) => Err(cause),
    }
}

/// What the host shows at one path.
#[derive(Debug)]
pub enum Probe {
    /// Something is there; the text is its canonical path.
    Canonical(String),
    /// Something is there, and its canonical path is not Unicode; the bytes
    /// are that path.
    NotUnicode(Vec<u8>),
    /// A symbolic link is there, and its target is not.
    BrokenLink,
    /// Nothing is there.
    Absent,
    /// Something is there, but the host failed to resolve it.
    Failed(std::io::Error),
}

/// A [`Probe`] as a mathematical value.
pub enum Sighting {
    Canonical(Seq<char>),
    NotUnicode(Seq<u8>),
    BrokenLink,
    Absent,
    Failed(std::io::Error),
}

impl View for Probe {
    type V = Sighting;

    open spec fn view(&self) -> Sighting {
        match self {
            Probe::Canonical(text) => Sighting::Canonical(text@),
            Probe::NotUnicode(bytes) => Sighting::NotUnicode(bytes@),
            Probe::BrokenLink => Sighting::BrokenLink,
            Probe::Absent => Sighting::Absent,
            Probe::Failed(cause) => Sighting::Failed(*cause),
        }
    }
}

/// The value of every probe in a list.
pub open spec fn sightings(probes: Seq<Probe>) -> Seq<Sighting> {
    probes.map_values(|probe: Probe| probe@)
}

impl Probe {
    /// What a place shows at which something is: the canonical path that the
    /// host resolved it to, as text or as bytes, or the error that the host
    /// gave instead.
    pub fn present(resolved: Result<Resolved, std::io::Error>) -> (probe: Probe)
        ensures
            probe@ == (match resolved {
                Ok(Resolved::Text(text)) => Sighting::Canonical(text@),
                Ok(Resolved::NotUnicode(bytes)) => Sighting::NotUnicode(bytes@),
                Err(cause) => Sighting::Failed(cause),
            }),
    {
        match resolved {
            Ok(Resolved::Text(text)) => Probe::Canonical(text),
            Ok(Resolved::NotUnicode(bytes)) => Probe::NotUnicode(bytes),
            Err(cause) => Probe::Failed(cause),
        }
    }

    /// What a place shows at which nothing is: a link without a target, if a
    /// symbolic link stands there, else nothing.
    pub fn missing(is_symlink: bool) -> (probe: Probe)
        ensures
            probe@ == (if is_symlink {
                Sighting::BrokenLink
            } else {
                Sighting::Absent
            }),
    {
        if is_symlink {
            Probe::BrokenLink
        } else {
            Probe::Absent
        }
    }
}

/// Asks the host what stands at `path`: whether anything is there, and then
/// either what it resolves to or whether a symbolic link is there. The disk
/// decides each answer, so every probe can come back and nothing is claimed
/// of the one that does; [`Probe::present`] and [`Probe::missing`] say which
/// probe each answer makes.
pub(crate) fn inspect(path: &str) -> (probe: Probe) {
    if path_exists(path) {
        Probe::present(canonicalize(path))
    } else {
        Probe::missing(is_symlink(path))
    }
}

} // verus!
