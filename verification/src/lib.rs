//! A filesystem sandbox: paths are confined to a root directory.
//!
//! A [`Jail`] holds the canonical form of a root directory. Joining a
//! fragment to it walks the fragment one component at a time, asks the host
//! about every place it passes through, and refuses any fragment whose
//! target would lie outside the root. That blocks traversal with `..`,
//! absolute paths, null characters, and symbolic links that lead out of the
//! root or nowhere, while paths that do not exist yet are still accepted.
//!
//! Paths are POSIX paths, held as text: `/` separates, and `\` is a
//! character like any other. A path that is not Unicode cannot be held, and
//! is refused as invalid wherever one turns up.
//!
//! ```no_run
//! use path_jail::Jail;
//!
//! let jail = Jail::new("/var/uploads")?;
//! let report = jail.join("2025/report.pdf")?;
//! assert!(jail.join("../../etc/passwd").is_err());
//! # Ok::<(), path_jail::JailError>(())
//! ```
//!
//! What the host shows while a path is resolved is an argument of the model
//! in [`resolve`], so the contracts of [`Jail`] hold whatever is on disk, and
//! [`Jail::join_observed`] resolves a path against a record of sightings
//! without touching the disk at all. The proofs of what holds of every walk
//! are in [`laws`].

pub mod error;
pub mod host;
pub mod jail;
pub mod jailed_path;
pub mod laws;
pub mod open;
pub mod path;
pub mod resolve;

pub use error::JailError;
pub use host::Probe;
pub use jail::Jail;
pub use jailed_path::JailedPath;
pub use path::Component;

use crate::error::not_unicode;
use crate::host::Sighting;
use crate::jail::text_agrees;
use crate::path::all_names;
use crate::resolve::resolve;
use vstd::prelude::*;

verus! {

/// Validates a path in one shot: makes a jail at `root` and joins `path` to
/// it. To validate several paths against one root, make a [`Jail`] and keep
/// it.
pub fn join(root: &str, path: &str) -> (got: Result<String, JailError>)
    ensures
        (got matches Err(error) && (error@ is Io || error@ is InvalidRoot || error@
            == not_unicode())) || exists|
            jail: Seq<Seq<char>>,
            seen: Seq<Sighting>,
        |
            jail.len() > 0 && all_names(jail) && text_agrees(
                got,
                #[trigger] resolve(jail, path@, seen),
            ),
{
    match Jail::new(root) {
        Err(error) => Err(error),
        Ok(jail) => jail.join(path),
    }
}

} // verus!
