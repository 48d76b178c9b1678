use path_jail::{Jail, JailError};
use rustix::fs::symlink;
use std::path::Path;
use tempfile::{tempdir, Builder, NamedTempFile, TempDir};

fn text(path: &Path) -> &str {
    path.to_str().unwrap()
}

fn make_dir(parent: &Path, name: &str) -> TempDir {
    Builder::new().prefix(name).rand_bytes(0).tempdir_in(parent).unwrap()
}

fn make_file(parent: &Path, name: &str) -> NamedTempFile {
    Builder::new().prefix(name).rand_bytes(0).tempfile_in(parent).unwrap()
}

#[test]
fn rejects_filesystem_root() {
    // Cannot use filesystem root as jail (defeats the purpose)
    let err = Jail::new("/").unwrap_err();
    assert!(matches!(err, JailError::InvalidRoot(_)));
    let msg = err.message();
    assert!(msg.contains("filesystem root"));
}

#[test]
fn invalid_root_captures_path() {
    // The error captures the canonicalized path
    let err = Jail::new("/").unwrap_err();
    if let JailError::InvalidRoot(path) = err {
        assert_eq!(Path::new(&path), Path::new("/"));
        assert_eq!(path, "/");
    } else {
        panic!("Expected InvalidRoot error");
    }
}

#[test]
fn rejects_root_variations() {
    // Various ways to spell filesystem root should all be rejected
    assert!(Jail::new("/").is_err());
    assert!(Jail::new("//").is_err());
    assert!(Jail::new("/.").is_err());
    assert!(Jail::new("/./").is_err());
}

#[test]
fn join_function_rejects_root() {
    // The convenience function should also reject filesystem root
    let err = path_jail::join("/", "file.txt");
    assert!(err.is_err());
    assert!(matches!(err, Err(JailError::InvalidRoot(_))));
}

#[test]
fn catches_proc_self_root_escape() {
    // /proc/self/root is a symlink to / on Linux
    if !Path::new("/proc/self/root").exists() {
        return;
    }

    let jail = Jail::new("/proc").unwrap();
    let result = jail.join("self/root/etc/passwd");

    // Should be caught as symlink escape
    assert!(result.is_err());
}

#[test]
fn rejects_file_as_root() {
    let dir = tempdir().unwrap();
    let file = make_file(dir.path(), "not_a_dir.txt");

    // Cannot use a file as jail root
    let err = Jail::new(text(file.path())).unwrap_err();
    assert!(matches!(err, JailError::InvalidRoot(_)));
    let msg = err.message();
    assert!(msg.contains("not a directory"));
}

#[test]
fn join_function_works() {
    let dir = tempdir().unwrap();
    let root = text(dir.path());

    // Should work for valid paths
    let path = path_jail::join(root, "file.txt").unwrap();
    assert!(Path::new(&path).ends_with("file.txt"));

    // Should block traversal
    assert!(path_jail::join(root, "../secret").is_err());

    // Should block absolute paths
    assert!(path_jail::join(root, "/etc/passwd").is_err());
}

#[test]
fn blocks_traversal() {
    let dir = tempdir().unwrap();
    let jail = Jail::new(text(dir.path())).unwrap();

    // Try to escape
    assert!(jail.join("../secret").is_err());
    assert!(jail.join("../../etc/passwd").is_err());
    assert!(jail.join("foo/../../secret").is_err());
}

#[test]
fn allows_safe_new_files() {
    let dir = tempdir().unwrap();
    let jail = Jail::new(text(dir.path())).unwrap();

    // "new_file.txt" doesn't exist yet, but should be valid
    let path = jail.join("subdir/new_file.txt").unwrap();

    // It should be absolute and start with the jail root (which is canonicalized)
    assert!(Path::new(&path).starts_with(jail.root()));
    assert!(Path::new(&path).ends_with("new_file.txt"));
    assert_eq!(path, format!("{}/subdir/new_file.txt", jail.root()));
}

#[test]
fn blocks_absolute_input() {
    let dir = tempdir().unwrap();
    let jail = Jail::new(text(dir.path())).unwrap();

    let err = jail.join("/etc/passwd");
    assert!(err.is_err());
}

#[test]
fn allows_internal_parent_navigation() {
    let dir = tempdir().unwrap();
    let jail = Jail::new(text(dir.path())).unwrap();

    // Create a/b directory structure
    let a = make_dir(dir.path(), "a");
    let _b = make_dir(a.path(), "b");

    // Navigate with .. but stay inside jail
    let path = jail.join("a/b/../c").unwrap();
    assert!(Path::new(&path).starts_with(jail.root()));
    assert!(Path::new(&path).ends_with("a/c"));
    assert_eq!(path, format!("{}/a/c", jail.root()));
}

#[test]
fn catches_symlink_escape() {
    let dir = tempdir().unwrap();
    let jail = Jail::new(text(dir.path())).unwrap();

    // Create a symlink pointing outside the jail
    let link = dir.path().join("evil");
    symlink("/etc", &link).unwrap();

    // Attempting to traverse through the symlink should fail
    assert!(jail.join("evil/passwd").is_err());
    match jail.join("evil/passwd") {
        Err(JailError::EscapedRoot { attempted, root }) => {
            assert_eq!(attempted, "evil/passwd");
            assert_eq!(root, jail.root());
        }
        other => panic!("expected EscapedRoot, got {:?}", other),
    }
}

#[test]
fn rejects_broken_symlinks() {
    let dir = tempdir().unwrap();
    let jail = Jail::new(text(dir.path())).unwrap();

    // Create a broken symlink (target doesn't exist)
    let link = dir.path().join("broken");
    symlink("/nonexistent/target", &link).unwrap();

    // Broken symlinks should be rejected (can't verify they're safe)
    assert!(jail.join("broken").is_err());
    match jail.join("broken") {
        Err(JailError::BrokenSymlink(path)) => {
            assert_eq!(path, format!("{}/broken", jail.root()));
        }
        other => panic!("expected BrokenSymlink, got {:?}", other),
    }
}

#[test]
fn allows_internal_symlinks() {
    let dir = tempdir().unwrap();
    let jail = Jail::new(text(dir.path())).unwrap();

    // Create a real directory and a symlink pointing to it (inside jail)
    let real = make_dir(dir.path(), "real");
    symlink(real.path(), dir.path().join("link")).unwrap();

    // Symlink inside jail should be allowed
    let path = jail.join("link").unwrap();
    assert!(Path::new(&path).starts_with(jail.root()));
    assert_eq!(path, format!("{}/real", jail.root()));
}

#[test]
fn blocks_dot_dot_at_root() {
    let dir = tempdir().unwrap();
    let jail = Jail::new(text(dir.path())).unwrap();

    // Even a single .. at root should fail
    assert!(jail.join("..").is_err());
    assert!(matches!(jail.join(".."), Err(JailError::EscapedRoot { .. })));
}

#[test]
fn handles_dot_components() {
    let dir = tempdir().unwrap();
    let jail = Jail::new(text(dir.path())).unwrap();

    // Current dir components should be ignored
    let path = jail.join("./foo/./bar").unwrap();
    assert!(Path::new(&path).ends_with("foo/bar"));
    assert_eq!(path, jail.join("foo/bar").unwrap());
}

#[test]
fn relative_extracts_path() {
    let dir = tempdir().unwrap();
    let jail = Jail::new(text(dir.path())).unwrap();

    // Create the file first (relative requires existence for absolute paths)
    let abs = jail.join("2025/report.pdf").unwrap();
    let year = make_dir(dir.path(), "2025");
    let _report = make_file(year.path(), "report.pdf");

    // Now get relative - should round-trip
    let rel = jail.relative(&abs).unwrap();
    assert_eq!(Path::new(&rel), Path::new("2025/report.pdf"));
    assert_eq!(rel, "2025/report.pdf");
}

#[test]
fn relative_rejects_outside_paths() {
    let dir = tempdir().unwrap();
    let jail = Jail::new(text(dir.path())).unwrap();

    // Path outside jail should fail
    assert!(jail.relative("/etc/passwd").is_err());
}

#[test]
fn relative_works_with_relative_input() {
    let dir = tempdir().unwrap();
    let jail = Jail::new(text(dir.path())).unwrap();

    // Can also pass a relative path directly
    let rel = jail.relative("subdir/file.txt").unwrap();
    assert_eq!(Path::new(&rel), Path::new("subdir/file.txt"));
    assert_eq!(rel, "subdir/file.txt");
}

#[test]
fn relative_normalizes_path() {
    let dir = tempdir().unwrap();
    let jail = Jail::new(text(dir.path())).unwrap();

    // Create directory structure
    let _foo = make_dir(dir.path(), "foo");

    // foo/../bar should normalize to bar
    let rel = jail.relative("foo/../bar").unwrap();
    assert_eq!(Path::new(&rel), Path::new("bar"));

    // ./subdir/./file should normalize to subdir/file
    let rel = jail.relative("./subdir/./file").unwrap();
    assert_eq!(Path::new(&rel), Path::new("subdir/file"));
}

#[test]
fn handles_empty_path() {
    let dir = tempdir().unwrap();
    let jail = Jail::new(text(dir.path())).unwrap();

    // Empty path should return the root
    let path = jail.join("").unwrap();
    assert_eq!(path, jail.root());
}

#[test]
fn handles_double_slashes() {
    let dir = tempdir().unwrap();
    let jail = Jail::new(text(dir.path())).unwrap();

    // Double slashes should be normalized
    let path = jail.join("foo//bar").unwrap();
    assert!(Path::new(&path).ends_with("foo/bar"));
    assert_eq!(path, format!("{}/foo/bar", jail.root()));
}

#[test]
fn handles_trailing_slash() {
    let dir = tempdir().unwrap();
    let jail = Jail::new(text(dir.path())).unwrap();

    let path = jail.join("subdir/").unwrap();
    assert!(Path::new(&path).ends_with("subdir"));
    assert_eq!(path, format!("{}/subdir", jail.root()));
}

#[test]
fn catches_symlink_chain_escape() {
    let dir = tempdir().unwrap();
    let jail = Jail::new(text(dir.path())).unwrap();

    // Create a chain: link1 -> link2 -> /etc
    let link2 = dir.path().join("link2");
    symlink("/etc", &link2).unwrap();

    let link1 = dir.path().join("link1");
    symlink(&link2, &link1).unwrap();

    // Following the chain should still be caught
    assert!(jail.join("link1/passwd").is_err());
    assert!(matches!(jail.join("link1/passwd"), Err(JailError::EscapedRoot { .. })));
}

#[test]
fn jail_root_can_be_symlink() {
    let dir = tempdir().unwrap();
    let real_dir = make_dir(dir.path(), "real");

    let link = dir.path().join("link");
    symlink(real_dir.path(), &link).unwrap();

    // Jail root as symlink should work (resolved on creation)
    let jail = Jail::new(text(&link)).unwrap();

    // Root should be the resolved path, not the symlink
    assert_eq!(Path::new(&jail.root()), real_dir.path().canonicalize().unwrap());

    // Should still work normally
    let path = jail.join("file.txt").unwrap();
    assert!(Path::new(&path).starts_with(jail.root()));
}

#[test]
fn contains_verifies_paths() {
    let dir = tempdir().unwrap();
    let jail = Jail::new(text(dir.path())).unwrap();

    // Create a file inside
    let file = make_file(dir.path(), "test.txt");

    // contains() should accept paths inside
    assert!(jail.contains(text(file.path())).is_ok());

    // contains() should reject paths outside
    assert!(jail.contains("/etc/passwd").is_err());

    // contains() should reject relative paths
    assert!(jail.contains("relative/path").is_err());
}

#[test]
fn rejects_triple_dots() {
    let dir = tempdir().unwrap();
    let jail = Jail::new(text(dir.path())).unwrap();

    // "..." is a valid filename, should be allowed
    let path = jail.join("...").unwrap();
    assert!(Path::new(&path).ends_with("..."));

    // But it shouldn't enable any escapes
    let path = jail.join(".../foo").unwrap();
    assert!(Path::new(&path).starts_with(jail.root()));
}

#[test]
fn relative_rejects_nonexistent_absolute() {
    let dir = tempdir().unwrap();
    let jail = Jail::new(text(dir.path())).unwrap();

    // Non-existent absolute paths should fail
    let abs = jail.join("does/not/exist.txt").unwrap();
    assert!(jail.relative(&abs).is_err());
    assert!(matches!(jail.relative(&abs), Err(JailError::Io(_))));
}

#[test]
fn handles_null_bytes() {
    let dir = tempdir().unwrap();
    let jail = Jail::new(text(dir.path())).unwrap();

    // Null bytes in paths are invalid on Unix (C string terminator)
    let result = jail.join("file\x00.txt");
    // Should error (invalid path), not silently truncate
    assert!(result.is_err());
    match result {
        Err(JailError::InvalidPath(reason)) => assert_eq!(reason, "null bytes not allowed"),
        other => panic!("expected InvalidPath, got {:?}", other),
    }
}

#[test]
fn backslash_is_valid_filename_on_unix() {
    let dir = tempdir().unwrap();
    let jail = Jail::new(text(dir.path())).unwrap();

    // On Unix, backslash is NOT a path separator - it's a valid filename char
    let path = jail.join(r"foo\bar").unwrap();
    assert!(Path::new(&path).ends_with(r"foo\bar"));

    // It should NOT be interpreted as a subdirectory
    assert!(!Path::new(&path).ends_with("bar"));
}

#[test]
fn handles_control_characters() {
    let dir = tempdir().unwrap();
    let jail = Jail::new(text(dir.path())).unwrap();

    // Control characters are valid in filenames on Unix (except null and slash)
    let _ = jail.join("file\n.txt");
    let _ = jail.join("file\t.txt");
}

#[test]
fn handles_spaces() {
    let dir = tempdir().unwrap();
    let jail = Jail::new(text(dir.path())).unwrap();

    // Leading/trailing spaces are valid filenames
    let path1 = jail.join(" file.txt").unwrap();
    let path2 = jail.join("file.txt ").unwrap();
    let path3 = jail.join("file.txt").unwrap();

    // These are all different files
    assert_ne!(path1, path3);
    assert_ne!(path2, path3);
}

#[test]
fn handles_hidden_files() {
    let dir = tempdir().unwrap();
    let jail = Jail::new(text(dir.path())).unwrap();

    // Leading dot is valid (Unix hidden files)
    let path = jail.join(".hidden").unwrap();
    assert!(Path::new(&path).ends_with(".hidden"));

    // .hidden should not be confused with . or ..
    assert!(Path::new(&path).starts_with(jail.root()));
}

#[test]
fn handles_unicode_attacks() {
    let dir = tempdir().unwrap();
    let jail = Jail::new(text(dir.path())).unwrap();

    // Right-to-left override: displays "exe.txt" but is actually "txt.exe"
    let rtl = "\u{202E}txt.exe";
    let path = jail.join(rtl).unwrap();
    assert!(Path::new(&path).ends_with(rtl));

    // BOM as filename prefix
    let bom = "\u{FEFF}file.txt";
    let path = jail.join(bom).unwrap();
    assert!(Path::new(&path).ends_with(bom));
}

#[test]
fn rejects_absolute_in_path_components() {
    let dir = tempdir().unwrap();
    let jail = Jail::new(text(dir.path())).unwrap();

    // Absolute paths should be rejected
    assert!(jail.join("/etc/passwd").is_err());
    match jail.join("/etc/passwd") {
        Err(JailError::InvalidPath(reason)) => assert_eq!(reason, "absolute paths not allowed"),
        other => panic!("expected InvalidPath, got {:?}", other),
    }
}

#[test]
fn empty_root_fails() {
    // Empty string should fail
    assert!(Jail::new("").is_err());
}

#[test]
fn dot_as_root() {
    // Current directory as jail - valid if CWD exists
    let result = Jail::new(".");
    // Should succeed (canonicalizes to absolute path)
    assert!(result.is_ok());
    // Root should be absolute, not "."
    assert!(Path::new(&result.unwrap().root()).is_absolute());
}

#[test]
fn tilde_not_expanded() {
    // ~ is not expanded: it is treated as a literal filename
    let result = Jail::new("~");
    // Will fail unless there's a directory literally named "~"
    assert!(result.is_err());
}

#[test]
fn contains_normalizes_paths() {
    let dir = tempdir().unwrap();
    let subdir = make_dir(dir.path(), "subdir");
    let _file = make_file(subdir.path(), "file.txt");

    let jail = Jail::new(text(dir.path())).unwrap();

    // Non-canonical path should still work (gets canonicalized)
    let non_canonical = format!("{}/subdir/../subdir/file.txt", dir.path().display());
    let result = jail.contains(&non_canonical);
    assert!(result.is_ok());
    assert_eq!(result.unwrap(), format!("{}/subdir/file.txt", jail.root()));
}

#[test]
fn join_function_reports_the_path_it_was_given() {
    let dir = tempdir().unwrap();
    symlink("/etc", dir.path().join("evil")).unwrap();
    let root = dir.path().canonicalize().unwrap();

    match path_jail::join(text(dir.path()), "evil/passwd") {
        Err(JailError::EscapedRoot { attempted, root: reported }) => {
            assert_eq!(attempted, "evil/passwd");
            assert_eq!(Path::new(&reported), root);
        }
        other => panic!("expected EscapedRoot, got {:?}", other),
    }
}

#[test]
fn catches_a_link_to_the_parent_of_the_root() {
    let dir = tempdir().unwrap();
    let inner = make_dir(dir.path(), "inner");
    symlink("..", inner.path().join("up")).unwrap();
    let jail = Jail::new(text(inner.path())).unwrap();

    match jail.join("up/secret") {
        Err(JailError::EscapedRoot { attempted, root }) => {
            assert_eq!(attempted, "up/secret");
            assert_eq!(root, jail.root());
        }
        other => panic!("expected EscapedRoot, got {:?}", other),
    }
}

#[test]
fn rejects_a_broken_symlink_on_the_way() {
    let dir = tempdir().unwrap();
    let jail = Jail::new(text(dir.path())).unwrap();
    let sub = make_dir(dir.path(), "sub");
    symlink("nowhere", sub.path().join("dead")).unwrap();

    match jail.join("sub/dead/file.txt") {
        Err(JailError::BrokenSymlink(path)) => {
            assert_eq!(path, format!("{}/sub/dead", jail.root()));
        }
        other => panic!("expected BrokenSymlink, got {:?}", other),
    }
}

#[test]
fn relative_follows_links_inside_the_jail() {
    let dir = tempdir().unwrap();
    let jail = Jail::new(text(dir.path())).unwrap();
    let real = make_dir(dir.path(), "real");
    let _file = make_file(real.path(), "x.txt");
    symlink(real.path(), dir.path().join("link")).unwrap();

    let found = jail.join("link/x.txt").unwrap();
    assert_eq!(found, format!("{}/real/x.txt", jail.root()));
    let relative = jail.relative(&found).unwrap();
    assert_eq!(relative, "real/x.txt");
    assert_eq!(jail.join(&relative).unwrap(), found);
}
