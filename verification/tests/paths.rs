use std::path::{Path, PathBuf};

use par2rust::paths::{apply_long_path_prefix, derive_volume_filename, display_name_for};

/// What the platform says of the path goes into the call.
fn prefixed(path: &Path, cwd: &Path) -> Vec<u8> {
    apply_long_path_prefix(
        path.as_os_str().as_encoded_bytes(),
        path.is_relative(),
        cwd.join(path).as_os_str().as_encoded_bytes(),
    )
}

fn text(bytes: &[u8]) -> String {
    String::from_utf8_lossy(bytes).into_owned()
}

#[test]
fn apply_long_path_prefix_leaves_verbatim_paths_unchanged() {
    let cwd = Path::new("/cwd/should/be/ignored");
    let p = Path::new(r"\\?\C:\foo\bar");
    assert_eq!(text(&prefixed(p, cwd)), r"\\?\C:\foo\bar");
}

#[test]
fn apply_long_path_prefix_leaves_device_paths_unchanged() {
    let cwd = Path::new("/cwd");
    let p = Path::new(r"\\.\PhysicalDrive0");
    assert_eq!(text(&prefixed(p, cwd)), r"\\.\PhysicalDrive0");
}

#[test]
fn apply_long_path_prefix_absolutises_relative_path_against_cwd() {
    let cwd = Path::new("/work/dir");
    let out = prefixed(Path::new("sub/file.par2"), cwd);
    let s = text(&out);
    assert!(s.starts_with(r"\\?\"), "missing \\\\?\\ prefix: {s}");
    assert!(s.contains("work"), "cwd not appended: {s}");
    assert!(s.contains("dir"), "cwd not appended: {s}");
    assert!(s.contains("sub"), "relative path not appended: {s}");
    assert!(s.contains("file.par2"), "relative path not appended: {s}");
}

#[test]
fn apply_long_path_prefix_does_not_touch_cwd_for_absolute_path() {
    let cwd = Path::new("/should/not/appear");
    let p = Path::new("/some/dir/file.par2");
    let s = text(&prefixed(p, cwd));
    assert!(s.starts_with(r"\\?\"));
    assert!(!s.contains("should/not/appear"), "cwd leaked into absolute path: {s}");
}

#[test]
fn apply_long_path_prefix_is_idempotent() {
    let cwd = Path::new("/cwd");
    let first = prefixed(Path::new("a/b/c.par2"), cwd);
    let second = prefixed(Path::new(&text(&first)), cwd);
    assert_eq!(first, second);
}

#[test]
fn apply_long_path_prefix_handles_paths_longer_than_max_path() {
    let cwd = Path::new("/base");
    // A 300-char path component, well past Win32's 260-char MAX_PATH.
    let long_segment: String = "a".repeat(300);
    let p = PathBuf::from(format!("dir/{long_segment}.par2"));
    let s = text(&prefixed(&p, cwd));
    assert!(s.starts_with(r"\\?\"), "missing prefix: {s}");
    assert!(s.len() > 260, "expected >260 chars, got {}", s.len());
}

#[test]
fn short_paths_are_prefixed() {
    assert_eq!(apply_long_path_prefix(b"", true, b""), br"\\?\".to_vec());
    assert_eq!(apply_long_path_prefix(br"\\?", true, b"x"), br"\\?\x".to_vec());
}

#[test]
fn only_relative_paths_are_joined() {
    assert_eq!(apply_long_path_prefix(b"a", true, br"C:\d\a"), br"\\?\C:\d\a".to_vec());
    assert_eq!(apply_long_path_prefix(br"C:\a", false, br"D:\d\a"), br"\\?\C:\a".to_vec());
    for relative in [false, true] {
        assert_eq!(apply_long_path_prefix(br"\\?\a", relative, b"x"), br"\\?\a".to_vec());
        assert_eq!(apply_long_path_prefix(br"\\.\a", relative, b"x"), br"\\.\a".to_vec());
    }
}

#[test]
fn volume_names() {
    assert_eq!(
        derive_volume_filename(Some("recovery"), Some("par2"), 0, 4),
        "recovery.vol0+4.par2"
    );
    assert_eq!(
        derive_volume_filename(Some("a.b"), Some("PAR2"), 65535, 4294967295),
        "a.b.vol65535+4294967295.PAR2"
    );
    assert_eq!(derive_volume_filename(None, None, 10, 20), "par2rust.vol10+20.par2");
    // Different first exponents give different names.
    assert_ne!(
        derive_volume_filename(Some("x"), Some("par2"), 1, 11),
        derive_volume_filename(Some("x"), Some("par2"), 11, 1)
    );
}

#[test]
fn display_names() {
    assert_eq!(display_name_for(Some(b"x.bin"), b"/home/me/x.bin"), b"x.bin".to_vec());
    assert_eq!(display_name_for(None, b".."), b"..".to_vec());
}
