use webgen_files::blockdev::{from_nodes, Node, Volume};

/// Real `lsblk --json` output from the dev box, trimmed: a USB stick, the internal NVMe with
/// ESP + an UNMOUNTED 747 GB NTFS partition + root, and a snap loop device.
const SAMPLE: &str = r#"{
  "blockdevices": [
    {"name":"loop0","fstype":"squashfs","label":null,"size":"66.8M","mountpoint":"/snap/core24/1587","rm":false,"type":"loop","tran":null},
    {"name":"sda","fstype":null,"label":null,"size":"7.5G","mountpoint":null,"rm":true,"type":"disk","tran":"usb",
      "children":[
        {"name":"sda1","fstype":"vfat","label":"WGDIAG","size":"7.5G","mountpoint":null,"rm":true,"type":"part","tran":null}
      ]},
    {"name":"nvme0n1","fstype":null,"label":null,"size":"953.9G","mountpoint":null,"rm":false,"type":"disk","tran":"nvme",
      "children":[
        {"name":"nvme0n1p1","fstype":"vfat","label":"ESP","size":"250M","mountpoint":"/boot/efi","rm":false,"type":"part","tran":null},
        {"name":"nvme0n1p2","fstype":"ntfs","label":"OS","size":"747.4G","mountpoint":null,"rm":false,"type":"part","tran":null},
        {"name":"nvme0n1p3","fstype":"ext4","label":null,"size":"206.1G","mountpoint":"/","rm":false,"type":"part","tran":null}
      ]}
  ]}"#;

fn text(v: &serde_json::Value, key: &str) -> Option<String> {
    v.get(key).and_then(|x| x.as_str()).map(|s| s.to_string())
}

/// One lsblk device, built field by field from the JSON value.
fn node(v: &serde_json::Value) -> Node {
    Node {
        name: text(v, "name").unwrap_or_default(),
        fstype: text(v, "fstype"),
        label: text(v, "label"),
        size: text(v, "size"),
        mountpoint: text(v, "mountpoint"),
        rm: v.get("rm").and_then(|x| x.as_bool()),
        kind: text(v, "type"),
        tran: text(v, "tran"),
        children: v
            .get("children")
            .and_then(|c| c.as_array())
            .map(|a| a.iter().map(node).collect())
            .unwrap_or_default(),
    }
}

/// What `lsblk --json` text comes to: its device trees, nothing when it does not parse.
fn parse(json: &str) -> Vec<Volume> {
    let roots: Vec<Node> = match serde_json::from_str::<serde_json::Value>(json) {
        Ok(v) => v
            .get("blockdevices")
            .and_then(|b| b.as_array())
            .map(|a| a.iter().map(node).collect())
            .unwrap_or_default(),
        Err(_) => Vec::new(),
    };
    from_nodes(&roots)
}

fn vols() -> Vec<Volume> {
    parse(SAMPLE)
}

fn get<'a>(v: &'a [Volume], name: &str) -> &'a Volume {
    v.iter().find(|x| x.name == name).unwrap_or_else(|| panic!("{name} missing"))
}

#[test]
fn the_unmounted_ntfs_partition_is_found() {
    let v = vols();
    let ntfs = get(&v, "nvme0n1p2");
    assert_eq!(ntfs.fstype, "ntfs");
    assert_eq!(ntfs.label.as_deref(), Some("OS"));
    assert_eq!(ntfs.size, "747.4G");
    assert!(!ntfs.is_mounted());
    assert!(!ntfs.is_system(), "an unmounted data partition is not system-critical");
}

#[test]
fn an_unmounted_usb_stick_is_found_and_inherits_its_transport() {
    let v = vols();
    let usb = get(&v, "sda1");
    assert!(usb.removable);
    assert!(!usb.is_mounted());
    assert_eq!(usb.display_name(), "WGDIAG", "the label is what people recognise");
    assert_eq!(usb.transport.as_deref(), Some("usb"));
}

#[test]
fn loop_devices_and_bare_disks_are_excluded() {
    let v = vols();
    assert!(!v.iter().any(|x| x.name.starts_with("loop")), "snap loops would swamp the list");
    assert!(!v.iter().any(|x| x.name == "sda"), "a bare disk is not a volume");
    assert!(!v.iter().any(|x| x.name == "nvme0n1"));
    assert_eq!(v.len(), 4, "sda1, ESP, ntfs, root");
}

#[test]
fn root_and_boot_are_system_and_must_not_offer_unmount() {
    let v = vols();
    assert!(get(&v, "nvme0n1p3").is_system(), "/ is system");
    assert!(get(&v, "nvme0n1p1").is_system(), "/boot/efi is system");
    assert!(!get(&v, "sda1").is_system());
}

#[test]
fn removable_and_unmounted_sort_first() {
    assert_eq!(vols()[0].name, "sda1");
}

#[test]
fn ownerless_filesystems_get_uid_options_and_others_do_not() {
    let v = vols();
    let vfat = get(&v, "sda1").mount_argv(1000, 1000).join(" ");
    assert!(vfat.contains("uid=1000"), "vfat carries no ownership: {vfat}");
    assert!(vfat.contains("nosuid,nodev"), "removable media must be nosuid,nodev");

    let mut ext = get(&v, "nvme0n1p3").clone();
    ext.mountpoint = None;
    let a = ext.mount_argv(1000, 1000).join(" ");
    assert!(!a.contains("uid="), "ext4 must not be given uid options: {a}");
    assert!(a.contains("nosuid,nodev"));
}

#[test]
fn mount_target_uses_the_label_and_stays_a_safe_path() {
    let v = vols();
    assert_eq!(get(&v, "sda1").mount_target(), "/media/WGDIAG");
    assert_eq!(get(&v, "nvme0n1p2").mount_target(), "/media/OS");

    let mut odd = get(&v, "sda1").clone();
    for label in ["../etc", ".hidden", "a/b", "..", "  ", "/"] {
        odd.label = Some(label.to_string());
        let target = odd.mount_target();
        let rest = target.strip_prefix("/media/").expect("must stay under /media");
        assert!(!rest.is_empty(), "{label:?} produced an empty mount point");
        assert!(!rest.contains('/'), "{label:?} escaped its component: {target}");
        assert!(!rest.starts_with('.'), "{label:?} produced a hidden mount point: {target}");
        assert!(!target.contains(".."), "{label:?} left a traversal in: {target}");
    }
    odd.label = None;
    assert_eq!(odd.mount_target(), "/media/sda1");
}

#[test]
fn unmount_uses_the_mount_point_when_there_is_one() {
    let v = vols();
    let mut m = get(&v, "sda1").clone();
    m.mountpoint = Some("/media/WGDIAG".into());
    assert_eq!(m.umount_argv(), vec!["umount", "/media/WGDIAG"]);
}

#[test]
fn broken_lsblk_output_yields_nothing_rather_than_panicking() {
    assert!(parse("not json").is_empty());
    assert!(parse(r#"{"blockdevices":[]}"#).is_empty());
}

// ---- further cases --------------------------------------------------------------------------------

#[test]
fn the_whole_order_of_the_sample() {
    let names: Vec<String> = vols().into_iter().map(|v| v.name).collect();
    // Removable first; then unmounted before mounted; then by device name.
    assert_eq!(names, ["sda1", "nvme0n1p2", "nvme0n1p1", "nvme0n1p3"]);
}

#[test]
fn the_vfat_mount_command_is_exact() {
    let v = vols();
    assert_eq!(
        get(&v, "sda1").mount_argv(1000, 1001),
        vec![
            "mount",
            "-o",
            "nosuid,nodev,uid=1000,gid=1001,fmask=0133,dmask=0022",
            "/dev/sda1",
            "/media/WGDIAG",
        ]
    );
    assert_eq!(get(&v, "sda1").device(), "/dev/sda1");
    assert_eq!(get(&v, "sda1").umount_argv(), vec!["umount", "/dev/sda1"]);
}

#[test]
fn odd_labels_become_exact_safe_components() {
    let mut odd = vols()[0].clone();
    for (label, target) in [
        ("../etc", "/media/-etc"),
        (".hidden", "/media/hidden"),
        ("a/b", "/media/a-b"),
        ("..", "/media/sda1"),
        ("  ", "/media/sda1"),
        ("/", "/media/-"),
        ("back\\slash", "/media/back-slash"),
        ("  My Stick ", "/media/My Stick"),
    ] {
        odd.label = Some(label.to_string());
        assert_eq!(odd.mount_target(), target, "label {label:?}");
    }
}

#[test]
fn a_blank_label_shows_the_device_name() {
    let mut v = vols()[0].clone();
    v.label = Some("   ".into());
    assert_eq!(v.display_name(), "sda1");
}

#[test]
fn usr_and_var_are_system_too() {
    let mut v = vols()[0].clone();
    for (m, sys) in [("/usr", true), ("/var", true), ("/boot", true), ("/media/x", false), ("/usr/local", false)] {
        v.mountpoint = Some(m.into());
        assert_eq!(v.is_system(), sys, "{m}");
    }
}
