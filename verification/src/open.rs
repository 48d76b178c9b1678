//! How the hardened open layer opens a file.
//!
//! The layer resolves a path inside a jail and then opens it with a flag
//! that makes the host refuse a symbolic link as the last component. That
//! closes the gap between the check and the use for the last component, and
//! for it alone. This module decides what each operation opens, and how; the
//! caller hands the request to the host.

use crate::error::{JailError, Refusal};
use crate::host::Sighting;
use crate::jail::{text_agrees, Jail};
use crate::jailed_path::JailedPath;
use crate::path::{absolute_text, names};
use crate::resolve::{resolve, within};
use vstd::prelude::*;

verus! {

/// The families of hosts that the layer knows.
#[derive(Debug, Clone, Copy, PartialEq, Eq)]
pub enum Platform {
    /// Linux.
    Linux,
    /// macOS, FreeBSD, OpenBSD, NetBSD and DragonFly.
    Bsd,
    /// Any other Unix.
    OtherUnix,
}

/// The operations of the layer.
#[derive(Debug, Clone, Copy, PartialEq, Eq)]
pub enum OpenMode {
    /// Open for reading.
    Open,
    /// Create a file that must not exist yet, for writing.
    Create,
    /// Open for writing; create the file if it is absent, empty it if not.
    CreateOrTruncate,
    /// Open for appending; create the file if it is absent.
    OpenAppend,
}

/// How to open a file: the switches of the host's open call, and the flags
/// to hand it on top of them.
#[derive(Debug, Clone, Copy, PartialEq, Eq)]
pub struct OpenPlan {
    pub read: bool,
    pub write: bool,
    pub append: bool,
    pub create: bool,
    pub create_new: bool,
    pub truncate: bool,
    pub custom_flags: i32,
}

/// The flag that makes the host refuse to follow a link at the last
/// component. The numbers are those of the hosts' own headers; where the
/// family is not known the flag is 0, which hardens nothing.
pub open spec fn no_follow(platform: Platform) -> i32 {
    match platform {
        Platform::Linux => 0o400000,
        Platform::Bsd => 0x100,
        Platform::OtherUnix => 0,
    }
}

/// How an operation opens its file on a platform.
pub open spec fn plan_of(mode: OpenMode, platform: Platform) -> OpenPlan {
    let flags = no_follow(platform);
    match mode {
        OpenMode::Open => OpenPlan {
            read: true,
            write: false,
            append: false,
            create: false,
            create_new: false,
            truncate: false,
            custom_flags: flags,
        },
        OpenMode::Create => OpenPlan {
            read: false,
            write: true,
            append: false,
            create: false,
            create_new: true,
            truncate: false,
            custom_flags: flags,
        },
        OpenMode::CreateOrTruncate => OpenPlan {
            read: false,
            write: true,
            append: false,
            create: true,
            create_new: false,
            truncate: true,
            custom_flags: flags,
        },
        OpenMode::OpenAppend => OpenPlan {
            read: false,
            write: false,
            append: true,
            create: true,
            create_new: false,
            truncate: false,
            custom_flags: flags,
        },
    }
}

/// The no-follow flag of a platform.
pub fn no_follow_flag(platform: Platform) -> (flag: i32)
    ensures
        flag == no_follow(platform),
{
    match platform {
        Platform::Linux => 0o400000,
        Platform::Bsd => 0x100,
        Platform::OtherUnix => 0,
    }
}

/// Whether opens are hardened on a platform at all.
pub fn is_hardened(platform: Platform) -> (hardened: bool)
    ensures
        hardened == (no_follow(platform) != 0),
        hardened == !(platform is OtherUnix),
{
    no_follow_flag(platform) != 0
}

/// Plans how an operation opens its file on a platform.
pub fn open_plan(mode: OpenMode, platform: Platform) -> (plan: OpenPlan)
    ensures
        plan == plan_of(mode, platform),
{
    let flags = no_follow_flag(platform);
    match mode {
        OpenMode::Open => OpenPlan {
            read: true,
            write: false,
            append: false,
            create: false,
            create_new: false,
            truncate: false,
            custom_flags: flags,
        },
        OpenMode::Create => OpenPlan {
            read: false,
            write: true,
            append: false,
            create: false,
            create_new: true,
            truncate: false,
            custom_flags: flags,
        },
        OpenMode::CreateOrTruncate => OpenPlan {
            read: false,
            write: true,
            append: false,
            create: true,
            create_new: false,
            truncate: true,
            custom_flags: flags,
        },
        OpenMode::OpenAppend => OpenPlan {
            read: false,
            write: false,
            append: true,
            create: true,
            create_new: false,
            truncate: false,
            custom_flags: flags,
        },
    }
}

/// What to open, and how.
#[derive(Debug)]
pub struct OpenRequest {
    /// The resolved path of the file.
    pub path: String,
    /// How to open it.
    pub plan: OpenPlan,
}

/// A request and the outcome that the model gives are the same: the request
/// is for the place that the path resolved to, opened as planned.
pub open spec fn request_agrees(
    got: Result<OpenRequest, JailError>,
    model: Result<Seq<Seq<char>>, Refusal>,
    plan: OpenPlan,
) -> bool {
    match (got, model) {
        (Ok(request), Ok(place)) => request.path@ == absolute_text(place) && request.plan == plan,
        (Err(error), Err(refusal)) => error@ == refusal,
        _ => false,
    }
}

impl Jail {
    /// Resolves a path and plans how to open it.
    pub fn request(&self, relative: &str, mode: OpenMode, platform: Platform) -> (got: Result<
        OpenRequest,
        JailError,
    >)
        ensures
            exists|seen: Seq<Sighting>|
                request_agrees(
                    got,
                    #[trigger] resolve(self@, relative@, seen),
                    plan_of(mode, platform),
                ),
            got matches Ok(request) ==> within(self@, names(request.path@)),
    {
        let joined = self.join(relative);
        let ghost seen = choose|seen: Seq<Sighting>|
            text_agrees(joined, #[trigger] resolve(self@, relative@, seen));
        match joined {
            Ok(path) => {
                let got = Ok(OpenRequest { path, plan: open_plan(mode, platform) });
                assert(request_agrees(
                    got,
                    resolve(self@, relative@, seen),
                    plan_of(mode, platform),
                ));
                got
            },
            Err(error) => {
                assert(request_agrees(
                    Err(error),
                    resolve(self@, relative@, seen),
                    plan_of(mode, platform),
                ));
                Err(error)
            },
        }
    }

    /// A request to open a file for reading.
    pub fn open(&self, relative: &str, platform: Platform) -> (got: Result<
        OpenRequest,
        JailError,
    >)
        ensures
            exists|seen: Seq<Sighting>|
                request_agrees(
                    got,
                    #[trigger] resolve(self@, relative@, seen),
                    plan_of(OpenMode::Open, platform),
                ),
            got matches Ok(request) ==> within(self@, names(request.path@)),
    {
        self.request(relative, OpenMode::Open, platform)
    }

    /// A request to create a file that must not exist yet.
    pub fn create(&self, relative: &str, platform: Platform) -> (got: Result<
        OpenRequest,
        JailError,
    >)
        ensures
            exists|seen: Seq<Sighting>|
                request_agrees(
                    got,
                    #[trigger] resolve(self@, relative@, seen),
                    plan_of(OpenMode::Create, platform),
                ),
            got matches Ok(request) ==> within(self@, names(request.path@)),
    {
        self.request(relative, OpenMode::Create, platform)
    }

    /// A request to open a file for writing, and to empty it if it exists.
    pub fn create_or_truncate(&self, relative: &str, platform: Platform) -> (got: Result<
        OpenRequest,
        JailError,
    >)
        ensures
            exists|seen: Seq<Sighting>|
                request_agrees(
                    got,
                    #[trigger] resolve(self@, relative@, seen),
                    plan_of(OpenMode::CreateOrTruncate, platform),
                ),
            got matches Ok(request) ==> within(self@, names(request.path@)),
    {
        self.request(relative, OpenMode::CreateOrTruncate, platform)
    }

    /// A request to open a file for appending.
    pub fn open_append(&self, relative: &str, platform: Platform) -> (got: Result<
        OpenRequest,
        JailError,
    >)
        ensures
            exists|seen: Seq<Sighting>|
                request_agrees(
                    got,
                    #[trigger] resolve(self@, relative@, seen),
                    plan_of(OpenMode::OpenAppend, platform),
                ),
            got matches Ok(request) ==> within(self@, names(request.path@)),
    {
        self.request(relative, OpenMode::OpenAppend, platform)
    }
}

impl JailedPath {
    /// A request to open this path for reading.
    pub fn open(&self, platform: Platform) -> (request: OpenRequest)
        ensures
            request.path@ == self@,
            request.plan == plan_of(OpenMode::Open, platform),
    {
        OpenRequest {
            path: String::from_str(self.as_path()),
            plan: open_plan(OpenMode::Open, platform),
        }
    }

    /// A request to create a file at this path, which must not exist yet.
    pub fn create(&self, platform: Platform) -> (request: OpenRequest)
        ensures
            request.path@ == self@,
            request.plan == plan_of(OpenMode::Create, platform),
    {
        OpenRequest {
            path: String::from_str(self.as_path()),
            plan: open_plan(OpenMode::Create, platform),
        }
    }
}

} // verus!
