use path_jail::open::{is_hardened, no_follow_flag, open_plan, OpenMode, OpenPlan, Platform};
use path_jail::{Jail, JailError};

#[test]
fn no_follow_flags_by_platform() {
    assert_eq!(no_follow_flag(Platform::Linux), 0o0400000);
    assert_eq!(no_follow_flag(Platform::Linux), 131072);
    assert_eq!(no_follow_flag(Platform::Bsd), 0x0100);
    assert_eq!(no_follow_flag(Platform::Bsd), 256);
    assert_eq!(no_follow_flag(Platform::OtherUnix), 0);
}

#[test]
fn hardening_is_off_only_where_the_flag_is_unknown() {
    assert!(is_hardened(Platform::Linux));
    assert!(is_hardened(Platform::Bsd));
    assert!(!is_hardened(Platform::OtherUnix));
}

#[test]
fn plan_for_open() {
    assert_eq!(
        open_plan(OpenMode::Open, Platform::Linux),
        OpenPlan {
            read: true,
            write: false,
            append: false,
            create: false,
            create_new: false,
            truncate: false,
            custom_flags: 131072,
        }
    );
}

#[test]
fn plan_for_create() {
    assert_eq!(
        open_plan(OpenMode::Create, Platform::Bsd),
        OpenPlan {
            read: false,
            write: true,
            append: false,
            create: false,
            create_new: true,
            truncate: false,
            custom_flags: 256,
        }
    );
}

#[test]
fn plan_for_create_or_truncate() {
    assert_eq!(
        open_plan(OpenMode::CreateOrTruncate, Platform::Linux),
        OpenPlan {
            read: false,
            write: true,
            append: false,
            create: true,
            create_new: false,
            truncate: true,
            custom_flags: 131072,
        }
    );
}

#[test]
fn plan_for_open_append() {
    assert_eq!(
        open_plan(OpenMode::OpenAppend, Platform::OtherUnix),
        OpenPlan {
            read: false,
            write: false,
            append: true,
            create: true,
            create_new: false,
            truncate: false,
            custom_flags: 0,
        }
    );
}

fn flags_only(plan: OpenPlan) -> (bool, bool, bool, bool, bool, bool) {
    (plan.read, plan.write, plan.append, plan.create, plan.create_new, plan.truncate)
}

#[test]
fn requests_resolve_and_plan() {
    let jail = Jail::from_canonical("/no/such/root/at/all", true).unwrap();

    let request = jail.open("config.txt", Platform::Linux).unwrap();
    assert_eq!(request.path, "/no/such/root/at/all/config.txt");
    assert_eq!(request.plan, open_plan(OpenMode::Open, Platform::Linux));

    let request = jail.create("a/new.txt", Platform::Bsd).unwrap();
    assert_eq!(request.path, "/no/such/root/at/all/a/new.txt");
    assert_eq!(request.plan, open_plan(OpenMode::Create, Platform::Bsd));
    assert_eq!(flags_only(request.plan), (false, true, false, false, true, false));

    let request = jail.create_or_truncate("data.txt", Platform::Linux).unwrap();
    assert_eq!(request.plan, open_plan(OpenMode::CreateOrTruncate, Platform::Linux));

    let request = jail.open_append("log.txt", Platform::OtherUnix).unwrap();
    assert_eq!(request.plan, open_plan(OpenMode::OpenAppend, Platform::OtherUnix));
    assert_eq!(request.plan.custom_flags, 0);

    let request = jail.request("x", OpenMode::Open, Platform::Bsd).unwrap();
    assert_eq!(request.plan.custom_flags, 256);
}

#[test]
fn requests_refuse_what_join_refuses() {
    let jail = Jail::from_canonical("/no/such/root/at/all", true).unwrap();
    assert!(matches!(
        jail.open("../secret", Platform::Linux),
        Err(JailError::EscapedRoot { .. })
    ));
    assert!(matches!(jail.create("/etc/passwd", Platform::Linux), Err(JailError::InvalidPath(_))));
    assert!(matches!(
        jail.create_or_truncate("a\0b", Platform::Linux),
        Err(JailError::InvalidPath(_))
    ));
    assert!(matches!(
        jail.open_append("x/../..", Platform::Linux),
        Err(JailError::EscapedRoot { .. })
    ));
}

#[test]
fn validated_paths_make_requests() {
    let jail = Jail::from_canonical("/no/such/root/at/all", true).unwrap();
    let path = jail.join_typed("file.txt").unwrap();
    let request = path.open(Platform::Linux);
    assert_eq!(request.path, "/no/such/root/at/all/file.txt");
    assert_eq!(request.plan, open_plan(OpenMode::Open, Platform::Linux));
    let request = path.create(Platform::Bsd);
    assert_eq!(request.path, path.as_path());
    assert_eq!(request.plan, open_plan(OpenMode::Create, Platform::Bsd));
}
