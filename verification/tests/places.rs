use webgen_files::places::{
    block_sources, fingerprint, host_of, icon_for, is_local, is_network, local_drives,
    mount_text_ok, network_hosts, places_from, removable_flag_paths, removable_from, rename_key,
    umount_argv_for, unescape, unescape_would_split, Kind, Place,
};

fn net(name: &str, target: &str, host: &str, fstype: &str) -> Place {
    Place {
        name: name.into(),
        path: target.into(),
        kind: Kind::Network,
        fstype: fstype.into(),
        host: Some(host.into()),
    }
}

#[test]
fn host_is_extracted_from_every_source_shape() {
    assert_eq!(host_of("webgen:/home/data").as_deref(), Some("webgen"));
    assert_eq!(host_of("//webgen/share").as_deref(), Some("webgen"));
    assert_eq!(host_of("piers@webgen:/home/backup").as_deref(), Some("webgen"));
    assert_eq!(host_of("192.168.1.10:/export").as_deref(), Some("192.168.1.10"));
}

#[test]
fn one_machine_reached_three_ways_groups_into_one_entry() {
    let places = vec![
        net("data", "/mnt/data", "webgen", "nfs4"),
        net("www", "/mnt/www", "webgen", "nfs4"),
        net("backup", "/mnt/backup", "webgen", "fuse.sshfs"),
    ];
    let hosts = network_hosts(&places, |_: &String| None);
    assert_eq!(hosts.len(), 1, "three mounts on one host must be one entry");
    let h = &hosts[0];
    assert_eq!(h.host, "webgen");
    assert_eq!(h.display, "webgen", "no rename set, so the host name shows");
    assert_eq!(h.mounts.len(), 3);
    assert_eq!(
        h.mounts.iter().map(|m| m.name.as_str()).collect::<Vec<_>>(),
        ["backup", "data", "www"]
    );
}

#[test]
fn a_renamed_host_shows_its_friendly_name() {
    let places = vec![net("data", "/mnt/data", "webgen", "nfs4")];
    let hosts = network_hosts(&places, |h: &String| {
        if h == "webgen" { Some("WebGen NFS Server".to_string()) } else { None }
    });
    assert_eq!(hosts[0].display, "WebGen NFS Server");
    assert_eq!(hosts[0].host, "webgen", "the real host is kept as the key");
}

#[test]
fn user_at_host_groups_with_the_bare_host() {
    let mut backup = net("backup", "/mnt/backup", "webgen", "fuse.sshfs");
    backup.host = host_of("piers@webgen:/home/backup");
    let places = vec![net("data", "/mnt/data", "webgen", "nfs4"), backup];
    assert_eq!(network_hosts(&places, |_: &String| None).len(), 1);
}

#[test]
fn removable_drives_sort_before_fixed_ones() {
    let p = |name: &str, kind| Place {
        name: name.into(),
        path: format!("/media/{name}"),
        kind,
        fstype: "vfat".into(),
        host: None,
    };
    let v = local_drives(&vec![p("archive", Kind::Local), p("USB STICK", Kind::Removable)]);
    assert_eq!(v[0].name, "USB STICK", "the drive you just plugged in comes first");
}

#[test]
fn network_types_are_recognised_including_sshfs() {
    for fs in ["nfs", "nfs4", "cifs", "fuse.sshfs", "sshfs"] {
        assert!(is_network(fs), "{fs} should count as network");
    }
    for fs in ["ext4", "vfat", "btrfs"] {
        assert!(!is_network(fs));
    }
}

#[test]
fn escaped_mount_points_are_decoded() {
    assert!(!unescape_would_split(r"/media/My\040Stick"));
    assert_eq!(unescape(r"/media/My\040Stick"), "/media/My Stick");
}

/// A mount table as `/proc/mounts` has it, with the root filesystem, plumbing, a USB stick, a
/// second internal disk, the ESP and two network mounts.
const MOUNTS: &str = "sysfs /sys sysfs rw,nosuid 0 0\n\
proc /proc proc rw 0 0\n\
/dev/nvme0n1p3 / ext4 rw,relatime 0 0\n\
/dev/nvme0n1p1 /boot/efi vfat rw 0 0\n\
tmpfs /run tmpfs rw 0 0\n\
/dev/sdb1 /run/media/x ext4 rw 0 0\n\
/dev/sda1 /media/My\\040Stick vfat rw 0 0\n\
/dev/sdc1 /data btrfs rw 0 0\n\
webgen:/home/data /mnt/data nfs4 rw 0 0\n\
piers@webgen:/home/backup /mnt/backup fuse.sshfs rw 0 0\n\
/dev/sdc1 /data btrfs rw 0 0\n\
overlay /var/lib/docker overlay rw 0 0\n";

#[test]
fn the_root_filesystem_and_plumbing_are_not_places() {
    assert!(mount_text_ok(MOUNTS));
    let removable = vec!["/dev/sda1".to_string()];
    for p in places_from(MOUNTS, &removable) {
        assert_ne!(p.path, "/", "root has its own Computer entry");
        assert!(!p.path.starts_with("/proc") && !p.path.starts_with("/sys"));
        assert!(!p.path.starts_with("/boot"), "the ESP is not a place");
    }
}

// ---- further cases --------------------------------------------------------------------------------

#[test]
fn places_are_read_exactly_from_the_mount_table() {
    let removable = vec!["/dev/sda1".to_string()];
    let ps = places_from(MOUNTS, &removable);
    let summary: Vec<(String, String, Kind, Option<String>)> = ps
        .iter()
        .map(|p| (p.name.clone(), p.path.clone(), p.kind, p.host.clone()))
        .collect();
    assert_eq!(
        summary,
        vec![
            ("My Stick".to_string(), "/media/My Stick".to_string(), Kind::Removable, None),
            ("data".to_string(), "/data".to_string(), Kind::Local, None),
            ("data".to_string(), "/mnt/data".to_string(), Kind::Network, Some("webgen".to_string())),
            ("backup".to_string(), "/mnt/backup".to_string(), Kind::Network, Some("webgen".to_string())),
        ]
    );
    let sources = block_sources(MOUNTS);
    assert_eq!(sources, ["/dev/nvme0n1p3", "/dev/nvme0n1p1", "/dev/sdb1", "/dev/sda1", "/dev/sdc1", "/dev/sdc1"]);
}

#[test]
fn local_filesystems_that_count_as_drives() {
    for fs in ["ext4", "vfat", "exfat", "ntfs3", "iso9660", "hfsplus"] {
        assert!(is_local(fs), "{fs}");
    }
    for fs in ["tmpfs", "proc", "overlay", "squashfs"] {
        assert!(!is_local(fs), "{fs}");
    }
}

#[test]
fn icons_and_unmount_commands_follow_the_kind() {
    let n = net("backup", "/mnt/backup", "webgen", "fuse.sshfs");
    assert_eq!(icon_for(&n), "folder-remote-symbolic");
    let (argv, root) = umount_argv_for(&n);
    assert_eq!(argv, vec!["fusermount3", "-u", "/mnt/backup"]);
    assert!(!root);
    let d = net("data", "/mnt/data", "webgen", "nfs4");
    let (argv, root) = umount_argv_for(&d);
    assert_eq!(argv, vec!["umount", "/mnt/data"]);
    assert!(root);
    assert_eq!(rename_key("webgen"), "hostname:webgen");
}

#[test]
fn the_fingerprint_changes_only_with_the_mounts() {
    let a = vec![net("data", "/mnt/data", "webgen", "nfs4")];
    let b = vec![net("data", "/mnt/data", "webgen", "nfs4"), net("www", "/mnt/www", "webgen", "nfs4")];
    assert_eq!(fingerprint(&a), "/mnt/data\u{1}nfs4");
    assert_eq!(fingerprint(&b), "/mnt/data\u{1}nfs4\u{2}/mnt/www\u{1}nfs4");
}

#[test]
fn removable_disks_are_read_from_sysfs_flags() {
    let (whole, own) = removable_flag_paths("/dev/sda1").unwrap();
    assert_eq!(whole, "/sys/class/block/sda1/../removable");
    assert_eq!(own, "/sys/class/block/sda1/removable");
    assert!(removable_flag_paths("webgen:/x").is_none());
    assert!(removable_from(&vec![None, Some("1\n".to_string())]));
    assert!(!removable_from(&vec![Some("0\n".to_string()), None]));
}

#[test]
fn a_backslash_before_a_split_character_is_caught() {
    // The three bytes after a backslash must end on a character boundary.
    assert!(unescape_would_split("\\12\u{e9}"));
    assert!(!unescape_would_split("\\12x\u{e9}"));
}

#[test]
fn every_escape_the_kernel_writes_is_decoded() {
    assert_eq!(unescape(r"/mnt/a\011b\012c\134d\040e"), "/mnt/a\tb\nc\\d e");
    assert_eq!(unescape(r"/mnt/plain"), "/mnt/plain");
    // A backslash not followed by three octal digits is kept as it is.
    assert_eq!(unescape(r"/mnt/x\9zz"), r"/mnt/x\9zz");
    assert_eq!(unescape(r"/mnt/x\04"), r"/mnt/x\04");
}

#[test]
fn names_beyond_ascii_pass_through_unchanged() {
    assert!(!unescape_would_split("/media/Café"));
    assert_eq!(unescape("/media/Café"), "/media/Café");
    assert_eq!(unescape(r"/media/Ünïcødé\040disk"), "/media/Ünïcødé disk");
    // An octal escape stands for the character with that code.
    assert_eq!(unescape(r"/media/Caf\303"), "/media/Caf\u{c3}");
}

#[test]
fn a_user_in_front_of_the_host_does_not_change_the_machine() {
    for rest in ["webgen:/home/data", "192.168.1.10:/export", "nas"] {
        assert_eq!(host_of(&format!("piers@{rest}")), host_of(rest), "{rest}");
    }
}
