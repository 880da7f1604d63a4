use webgen_files::meta::{
    human_size, info_from, mode_to_rwx, permissions_line, perms_octal, resolve, FileKind,
};

#[test]
fn modes_print_as_ls_does() {
    assert_eq!(mode_to_rwx(0o40755), "drwxr-xr-x");
    assert_eq!(mode_to_rwx(0o100644), "-rw-r--r--");
    assert_eq!(mode_to_rwx(0o120777), "lrwxrwxrwx");
    assert_eq!(mode_to_rwx(0o60660), "brw-rw----");
    assert_eq!(mode_to_rwx(0o20620), "crw--w----");
    assert_eq!(mode_to_rwx(0o10600), "prw-------");
    assert_eq!(mode_to_rwx(0o140755), "srwxr-xr-x");
    assert_eq!(mode_to_rwx(0o104755), "-rwxr-xr-x");
    assert_eq!(perms_octal(0o104755), "4755");
    assert_eq!(perms_octal(0o40700), "0700");
    assert_eq!(perms_octal(0), "0000");
}

/// The dialog's size line as the float arithmetic prints it.
fn float_size(bytes: u64) -> String {
    const UNITS: [&str; 6] = ["B", "KB", "MB", "GB", "TB", "PB"];
    if bytes < 1024 {
        return format!("{bytes} bytes");
    }
    let mut v = bytes as f64;
    let mut i = 0;
    while v >= 1024.0 && i < UNITS.len() - 1 {
        v /= 1024.0;
        i += 1;
    }
    format!("{v:.1} {} ({bytes} bytes)", UNITS[i])
}

#[test]
fn the_info_size_line_prints_as_the_float_arithmetic_does() {
    assert_eq!(human_size(1023), "1023 bytes");
    assert_eq!(human_size(1536), "1.5 KB (1536 bytes)");
    let mut x: u64 = 0x2545_f491_4f6c_dd1d;
    let mut samples = vec![1024, 1280, 1331, 10240, 1048576, u64::MAX, 9007199254740993];
    for _ in 0..20000 {
        x ^= x << 13;
        x ^= x >> 7;
        x ^= x << 17;
        samples.push(x >> (x % 60));
    }
    for b in samples {
        assert_eq!(human_size(b), float_size(b), "{b} bytes");
    }
}

const PASSWD: &str = "root:x:0:0:root:/root:/bin/bash\npiers:x:1000:1000:Piers:/home/piers:/bin/bash\n";

#[test]
fn ids_resolve_to_name_and_number() {
    assert_eq!(resolve(1000, PASSWD), "piers (1000)");
    assert_eq!(resolve(0, PASSWD), "root (0)");
    assert_eq!(resolve(42, PASSWD), "42");
    assert_eq!(resolve(42, ""), "42");
}

#[test]
fn the_info_dialog_from_metadata() {
    let i = info_from(
        "/home/piers/notes.txt",
        FileKind::File,
        2048,
        None,
        0o100644,
        1000,
        1000,
        PASSWD,
        "piers:x:1000:\n",
        "2026-01-02 03:04".to_string(),
        "2026-01-03 04:05".to_string(),
        None,
    );
    assert_eq!(i.name, "notes.txt");
    assert_eq!(i.location, "/home/piers");
    assert_eq!(i.kind, "File");
    assert_eq!(i.size, "2.0 KB (2048 bytes)");
    assert_eq!(i.perms_octal, "0644");
    assert_eq!(i.perms_rwx, "-rw-r--r--");
    assert_eq!(i.owner, "piers (1000)");
    assert_eq!(i.group, "piers (1000)");
    assert_eq!(i.modified, "2026-01-02 03:04");
    assert_eq!(i.created, "\u{2014}");
    assert_eq!(permissions_line(&i), "0644  (-rw-r--r--)");

    let d = info_from("/home/piers", FileKind::Folder, 4096, Some(1), 0o40755, 0, 0, "", "", String::new(), String::new(), Some("2025".into()));
    assert_eq!(d.size, "1 item");
    assert_eq!(d.kind, "Folder");
    assert_eq!(d.owner, "0");
    assert_eq!(d.created, "2025");
    let e = info_from("/", FileKind::Folder, 4096, None, 0o40755, 0, 0, "", "", String::new(), String::new(), None);
    assert_eq!(e.size, "\u{2014}");
    assert_eq!(e.name, "/");
    assert_eq!(e.location, "");
    let l = info_from("/tmp/l", FileKind::Symlink, 7, Some(3), 0o120777, 0, 0, "", "", String::new(), String::new(), None);
    assert_eq!(l.kind, "Symbolic link");
    assert_eq!(l.size, "7 bytes");
}
