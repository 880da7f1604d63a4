use webgen_files::entry::{
    already_in, copy_name, free_target, human_size, is_archive, list_dir, sort_by, ChildInfo, Entry, IdMap,
    Search, SortKey,
};

fn e(name: &str, is_dir: bool, size: Option<u64>, owner: &str, group: &str) -> Entry {
    Entry {
        name: name.into(),
        path: name.into(),
        is_dir,
        subtitle: String::new(),
        size,
        owner: owner.into(),
        group: group.into(),
    }
}

fn names(v: &[Entry]) -> Vec<&str> {
    v.iter().map(|x| x.name.as_str()).collect()
}

#[test]
fn folders_stay_first_whatever_the_sort() {
    let mut v = vec![
        e("zeta.txt", false, Some(10), "piers", "users"),
        e("alpha", true, None, "root", "root"),
    ];
    for key in [SortKey::Name, SortKey::Size, SortKey::Owner] {
        for desc in [false, true] {
            sort_by(&mut v, key, desc);
            assert!(v[0].is_dir, "folders must lead for {key:?} desc={desc}");
        }
    }
}

#[test]
fn size_sorts_numerically_not_as_text() {
    let mut v = vec![
        e("big", false, Some(9000), "a", "a"),
        e("small", false, Some(100), "a", "a"),
        e("mid", false, Some(1000), "a", "a"),
    ];
    sort_by(&mut v, SortKey::Size, false);
    assert_eq!(names(&v), ["small", "mid", "big"]);
    sort_by(&mut v, SortKey::Size, true);
    assert_eq!(names(&v), ["big", "mid", "small"]);
}

#[test]
fn owner_sorts_then_group_then_name() {
    let mut v = vec![
        e("c", false, Some(1), "bob", "staff"),
        e("a", false, Some(1), "alice", "users"),
        e("b", false, Some(1), "alice", "admin"),
    ];
    sort_by(&mut v, SortKey::Owner, false);
    assert_eq!(names(&v), ["b", "a", "c"]);
}

#[test]
fn name_is_the_tie_break_so_order_is_stable() {
    let mut v = vec![
        e("b.txt", false, Some(5), "u", "g"),
        e("a.txt", false, Some(5), "u", "g"),
    ];
    sort_by(&mut v, SortKey::Size, false);
    assert_eq!(v[0].name, "a.txt");
}

#[test]
fn folders_show_a_dash_not_a_size() {
    assert_eq!(human_size(None), "\u{2014}");
    assert_eq!(human_size(Some(0)), "0 B");
    assert_eq!(human_size(Some(1024)), "1.0 KB");
    assert_eq!(human_size(Some(1024 * 1024 * 5)), "5.0 MB");
}

fn child(name: &str, is_dir: bool, hidden: bool, size: u64, uid: u32, gid: u32) -> ChildInfo {
    ChildInfo {
        name: name.into(),
        display_name: name.into(),
        is_dir,
        hidden,
        size,
        uid,
        gid,
    }
}

fn children() -> Vec<ChildInfo> {
    vec![
        child("notes.txt", false, false, 120, 1000, 1000),
        child(".cache", true, true, 4096, 1000, 1000),
        child("Projects", true, false, 4096, 1000, 100),
        child("etc", true, false, 4096, 0, 0),
        child("a.out", false, false, 9000, 0, 0),
    ]
}

const PASSWD: &str = "root:x:0:0:root:/root:/bin/bash\npiers:x:1000:1000:Piers:/home/piers:/bin/bash\n";
const GROUP: &str = "root:x:0:\nusers:x:100:\npiers:x:1000:\n";

#[test]
fn listing_without_details_carries_no_size_or_owner() {
    for entry in list_dir("/home/piers", &children(), false, None) {
        assert!(entry.size.is_none());
        assert!(entry.owner.is_empty() && entry.group.is_empty());
    }
}

#[test]
fn listing_with_details_populates_owner_and_file_sizes() {
    let ids = IdMap::load(PASSWD, GROUP);
    let entries = list_dir("/home/piers", &children(), false, Some(&ids));
    assert!(!entries.is_empty(), "/ should list something");
    for entry in &entries {
        assert!(!entry.owner.is_empty(), "{} has no owner", entry.name);
        assert!(!entry.group.is_empty(), "{} has no group", entry.name);
        if entry.is_dir {
            assert!(entry.size.is_none(), "{} is a folder and must have no size", entry.name);
        }
    }
}

#[test]
fn ids_resolve_to_names_and_fall_back_to_the_number() {
    let ids = IdMap::load(PASSWD, GROUP);
    assert_eq!(ids.user(0), "root", "uid 0 should resolve from /etc/passwd");
    assert_eq!(ids.user(4_294_967_294), "4294967294");
}

// ---- further cases --------------------------------------------------------------------------------

#[test]
fn a_listing_hides_dotfiles_and_sorts_folders_first() {
    let ids = IdMap::load(PASSWD, GROUP);
    let entries = list_dir("/home/piers", &children(), false, Some(&ids));
    assert_eq!(names(&entries), ["etc", "Projects", "a.out", "notes.txt"]);
    let p = entries.iter().find(|x| x.name == "Projects").unwrap();
    assert_eq!(p.path, "/home/piers/Projects");
    assert_eq!(p.owner, "piers");
    assert_eq!(p.group, "users");
    let n = entries.iter().find(|x| x.name == "notes.txt").unwrap();
    assert_eq!(n.size, Some(120));
    let shown = list_dir("/home/piers", &children(), true, None);
    assert_eq!(names(&shown), [".cache", "etc", "Projects", "a.out", "notes.txt"]);
}

#[test]
fn the_first_line_for_an_id_wins_and_bad_lines_are_skipped() {
    let ids = IdMap::load("broken line\nalpha:x:5:\nbeta:x:5:\ngamma:x:notanumber:\n", "");
    assert_eq!(ids.user(5), "alpha");
    assert_eq!(ids.group(5), "5");
}

#[test]
fn descending_reverses_the_name_order_but_not_the_folders() {
    let mut v = vec![
        e("b", false, None, "", ""),
        e("A", false, None, "", ""),
        e("z", true, None, "", ""),
        e("c", false, None, "", ""),
    ];
    sort_by(&mut v, SortKey::Name, true);
    assert_eq!(names(&v), ["z", "c", "b", "A"]);
    sort_by(&mut v, SortKey::Name, false);
    assert_eq!(names(&v), ["z", "A", "b", "c"]);
}

/// The size column as the float arithmetic prints it.
fn float_size(bytes: u64) -> String {
    const UNIT: f64 = 1024.0;
    if (bytes as f64) < UNIT {
        return format!("{bytes} B");
    }
    let units = ["KB", "MB", "GB", "TB", "PB"];
    let (mut v, mut i) = (bytes as f64 / UNIT, 0);
    while v >= UNIT && i < units.len() - 1 {
        v /= UNIT;
        i += 1;
    }
    if v >= 100.0 { format!("{v:.0} {}", units[i]) } else { format!("{v:.1} {}", units[i]) }
}

#[test]
fn sizes_print_as_the_float_arithmetic_does() {
    let mut samples: Vec<u64> = vec![
        0, 1, 1023, 1024, 1075, 1126, 1127, 1280, 1331, 1536, 10239, 10240, 102348, 102349,
        102400, 1048575, 1048576, 1572864, 5 * 1024 * 1024, 1073741824, 1099511627776,
        1125899906842624, 9007199254740991, 9007199254740992, 9007199254740993,
        18014398509481985, u64::MAX, u64::MAX - 1024,
    ];
    // Every tie and near-tie of the tenths in the first few units.
    for unit in [1u64 << 10, 1 << 20, 1 << 30] {
        for k in 0..2000u64 {
            samples.push(unit + k * unit / 20);
            samples.push(unit + k * unit / 20 + 1);
            samples.push(unit + k * unit / 20 - 1);
        }
    }
    let mut x: u64 = 0x9e37_79b9_7f4a_7c15;
    for _ in 0..20000 {
        x ^= x << 13;
        x ^= x >> 7;
        x ^= x << 17;
        samples.push(x >> (x % 60));
    }
    for b in samples {
        assert_eq!(human_size(Some(b)), float_size(b), "{b} bytes");
    }
}

#[test]
fn size_column_examples() {
    assert_eq!(human_size(Some(1023)), "1023 B");
    assert_eq!(human_size(Some(1536)), "1.5 KB");
    assert_eq!(human_size(Some(102400)), "100 KB");
    assert_eq!(human_size(Some(1099511627776)), "1.0 TB");
    assert_eq!(human_size(Some(u64::MAX)), "16384 PB");
}

#[test]
fn archives_are_recognised_by_their_ending_in_any_case() {
    for n in ["a.zip", "b.TAR.GZ", "c.tgz", "d.7z", "e.iso", "f.cpio", "g.tar.lzma", "h.Jar"] {
        assert!(is_archive(n), "{n}");
    }
    for n in ["a.txt", "zip", "archive", "x.tar.", "photo.png"] {
        assert!(!is_archive(n), "{n}");
    }
}

#[test]
fn copies_get_numbered_names_that_keep_the_extension() {
    assert_eq!(copy_name("/d", "report.txt", 0), "/d/report.txt");
    assert_eq!(copy_name("/d", "report.txt", 1), "/d/report (copy).txt");
    assert_eq!(copy_name("/d", "report.txt", 2), "/d/report (copy 2).txt");
    assert_eq!(copy_name("/d", "archive.tar.gz", 1), "/d/archive.tar (copy).gz");
    assert_eq!(copy_name("/d/", ".bashrc", 1), "/d/.bashrc (copy)");
    assert_eq!(copy_name("/d", "Makefile", 3), "/d/Makefile (copy 3)");
}

#[test]
fn a_copy_never_overwrites() {
    let taken = ["/d/report.txt", "/d/report (copy).txt", "/d/report (copy 2).txt"];
    let t = free_target("/d", "report.txt", |p: &String| taken.contains(&p.as_str()));
    assert_eq!(t.as_deref(), Some("/d/report (copy 3).txt"));
    let free = free_target("/d", "new.txt", |p: &String| taken.contains(&p.as_str()));
    assert_eq!(free.as_deref(), Some("/d/new.txt"));
}

#[test]
fn a_search_finds_nearer_matches_first() {
    let mut s = Search::new("/r", "NOTE", false);
    let mut visited = Vec::new();
    while let Some(dir) = s.next_dir() {
        let kids = match dir.as_str() {
            "/r" => vec![
                child("Notes", true, false, 0, 0, 0),
                child("b-note.txt", false, false, 1, 0, 0),
                child(".note", false, true, 1, 0, 0),
                child("other", false, false, 1, 0, 0),
            ],
            "/r/Notes" => vec![child("a-note.md", false, false, 1, 0, 0)],
            _ => Vec::new(),
        };
        s.visit(&dir, &kids, None);
        visited.push(dir);
    }
    assert_eq!(visited, ["/r", "/r/Notes"]);
    let (found, capped) = s.finish();
    assert!(!capped);
    // Breadth first: everything directly in /r, in the order read, before what is in /r/Notes.
    assert_eq!(names(&found), ["Notes", "b-note.txt", "a-note.md"]);
    let a = found.iter().find(|x| x.name == "a-note.md").unwrap();
    assert_eq!(a.subtitle, "Notes");
    assert_eq!(a.path, "/r/Notes/a-note.md");
}

#[test]
fn a_deeper_match_never_comes_before_a_nearer_one() {
    let mut s = Search::new("/r", "z", false);
    while let Some(dir) = s.next_dir() {
        let kids = match dir.as_str() {
            "/r" => vec![child("a", true, false, 0, 0, 0), child("zz-top", false, false, 1, 0, 0)],
            "/r/a" => vec![child("b", true, false, 0, 0, 0), child("aaa-z", false, false, 1, 0, 0)],
            "/r/a/b" => vec![child("a-z", false, false, 1, 0, 0)],
            _ => Vec::new(),
        };
        s.visit(&dir, &kids, None);
    }
    let (found, _) = s.finish();
    assert_eq!(names(&found), ["zz-top", "aaa-z", "a-z"]);
    let subtitles: Vec<&str> = found.iter().map(|e| e.subtitle.as_str()).collect();
    assert_eq!(subtitles, ["", "a", "a/b"]);
}

#[test]
fn a_search_stops_at_the_cap() {
    let mut s = Search::new("/r", "x", false);
    let kids: Vec<ChildInfo> = (0..2500).map(|i| child(&format!("x{i}"), false, false, 0, 0, 0)).collect();
    let dir = s.next_dir().unwrap();
    s.visit(&dir, &kids, None);
    assert!(s.next_dir().is_none(), "a capped search looks no further");
    let (found, capped) = s.finish();
    assert!(capped);
    assert_eq!(found.len(), 2000);
}

#[test]
fn moving_into_the_folder_it_is_in_is_no_move() {
    assert!(already_in("/d/a.txt", "/d"));
    assert!(already_in("/d/a.txt", "/d/"));
    assert!(!already_in("/d/a.txt", "/e"));
    assert!(!already_in("/", "/"));
}
