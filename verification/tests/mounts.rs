use webgen_files::mounts::{
    command_line, credentials_path, credentials_text, failure_text, forget, load, mkdir_args,
    save, vault_add_args, vault_add_input, vault_entry, vault_get_args, vault_password_from,
    Credentials, MountDef, Transport,
};
use webgen_files::places::{mount_scan_ok, mounted_at};
use webgen_files::registry::MemoryRegistry;

const HOME: &str = "/home/piers";

fn ssh() -> MountDef {
    MountDef {
        name: "webgen-site".into(),
        transport: Transport::Sshfs,
        host: "webgen.com.au".into(),
        port: 2222,
        user: "piers".into(),
        remote: "/var/www".into(),
        writable: false,
    }
}

fn d(writable: bool) -> MountDef {
    MountDef {
        name: "share".into(),
        transport: Transport::Sshfs,
        host: "webgen.com.au".into(),
        port: 2222,
        user: String::new(),
        remote: "/var/www".into(),
        writable,
    }
}

fn smb() -> MountDef {
    MountDef {
        name: "tv".into(),
        transport: Transport::Cifs,
        host: "192.168.1.200".into(),
        port: 445,
        user: "webgen".into(),
        remote: "share".into(),
        writable: true,
    }
}

#[test]
fn a_definition_survives_a_round_trip() {
    let d = ssh();
    assert_eq!(MountDef::decode(&d.name, &d.encode()).as_ref(), Some(&d));
}

#[test]
fn garbage_decodes_to_nothing_rather_than_a_broken_entry() {
    assert!(MountDef::decode("x", "").is_none());
    assert!(MountDef::decode("x", "sshfs\thost").is_none());
    assert!(MountDef::decode("x", "carrier-pigeon\th\t22\tu\t/p").is_none());
}

#[test]
fn sshfs_needs_no_root_but_nfs_does() {
    assert!(!Transport::Sshfs.needs_root());
    assert!(Transport::Nfs.needs_root());
}

#[test]
fn ssh_mounts_land_in_the_users_own_directory() {
    let t = ssh().target(HOME);
    assert!(t.starts_with(HOME), "sshfs must not need /mnt");
    assert!(t.ends_with("webgen-site"));
    let mut n = ssh();
    n.transport = Transport::Nfs;
    assert_eq!(n.target(HOME), "/mnt/webgen-site");
}

#[test]
fn the_sshfs_command_carries_port_user_and_reconnect() {
    let argv = ssh().mount_argv(HOME, 1000, 1000);
    assert_eq!(argv[0], "sshfs");
    assert!(argv.contains(&"2222".to_string()), "non-default port must be passed");
    assert!(argv.iter().any(|a| a.contains("piers@webgen.com.au:/var/www")));
    assert!(argv.iter().any(|a| a.contains("reconnect")));
}

#[test]
fn a_blank_user_means_the_local_one() {
    let mut d = ssh();
    d.user = "  ".into();
    assert_eq!(d.host_spec(), "webgen.com.au");
    assert!(d.mount_argv(HOME, 1000, 1000).iter().any(|a| a == "webgen.com.au:/var/www"));
}

#[test]
fn fuse_is_unmounted_with_fusermount_not_umount() {
    assert_eq!(ssh().umount_argv(HOME)[0], "fusermount3");
    let mut n = ssh();
    n.transport = Transport::Nfs;
    assert_eq!(n.umount_argv(HOME)[0], "umount");
}

#[test]
fn connection_state_is_read_from_the_kernel_not_remembered() {
    // A definition pointing somewhere nothing is mounted reports disconnected, even though the
    // definition itself exists. The mount table here is a captured one.
    let table = "/dev/nvme0n1p3 / ext4 rw,relatime 0 0\n\
                 webgen:/home/data /mnt/data nfs4 rw 0 0\n\
                 webgen:/var/www /home/piers/mnt/webgen-site fuse.sshfs rw 0 0\n";
    let mut d = ssh();
    d.name = "definitely-not-mounted-xyz".into();
    let target = d.target(HOME);
    assert!(mount_scan_ok(table, &target));
    assert!(!mounted_at(table, &target));
    assert!(mounted_at(table, &ssh().target(HOME)));
}

#[test]
fn read_only_is_the_default_and_reaches_the_command() {
    let argv = d(false).mount_argv(HOME, 1000, 1000).join(" ");
    assert!(argv.contains("ro,reconnect"), "read-only must be passed: {argv}");
    assert!(!argv.contains("rw,"), "must not mount writable when not asked");
}

#[test]
fn writable_is_opt_in_and_reaches_the_command() {
    let argv = d(true).mount_argv(HOME, 1000, 1000).join(" ");
    assert!(argv.contains("rw,reconnect"), "read-write must be passed: {argv}");
}

#[test]
fn nfs_carries_the_same_option() {
    let mut m = d(true);
    m.transport = Transport::Nfs;
    let argv = m.mount_argv(HOME, 1000, 1000);
    let i = argv.iter().position(|a| a == "-o").expect("-o must be present");
    assert_eq!(argv[i + 1], "rw");
}

#[test]
fn writability_survives_a_save_and_load() {
    for w in [false, true] {
        let m = d(w);
        assert_eq!(MountDef::decode(&m.name, &m.encode()).unwrap().writable, w);
    }
}

#[test]
fn a_definition_saved_before_this_field_existed_reads_as_read_only() {
    let old = "sshfs\twebgen.com.au\t2222\t\t/var/www";
    let parsed = MountDef::decode("share", old).expect("old records must still load");
    assert!(!parsed.writable);
}

#[test]
fn smb_addresses_a_share_by_name_not_by_server_path() {
    let argv = smb().mount_argv_creds(HOME, 1000, 1000, None);
    assert!(argv.contains(&"//192.168.1.200/share".to_string()), "{argv:?}");
    let mut d = smb();
    d.remote = "/share".into();
    assert!(d.mount_argv_creds(HOME, 1000, 1000, None).contains(&"//192.168.1.200/share".to_string()));
}

#[test]
fn the_password_never_appears_in_argv() {
    let argv = smb().mount_argv_creds(HOME, 1000, 1000, Some("/run/user/1000/creds")).join(" ");
    assert!(argv.contains("credentials=/run/user/1000/creds"), "{argv}");
    assert!(!argv.contains("password"), "{argv}");
}

#[test]
fn smb_mounts_read_only_unless_asked() {
    let mut d = smb();
    d.writable = false;
    let argv = d.mount_argv_creds(HOME, 1000, 1000, None).join(" ");
    assert!(argv.contains("ro,"), "{argv}");
}

#[test]
fn smb_needs_root_and_a_password_ssh_needs_neither() {
    assert!(Transport::Cifs.needs_root());
    assert!(Transport::Cifs.needs_password());
    assert!(!Transport::Sshfs.needs_root());
    assert!(!Transport::Sshfs.needs_password());
    assert!(Transport::Nfs.needs_root());
    assert!(!Transport::Nfs.needs_password());
}

#[test]
fn cifs_survives_a_save_load_round_trip() {
    let d = smb();
    let restored = MountDef::decode("tv", &d.encode()).expect("decodes");
    assert_eq!(restored, d);
}

// ---- further cases --------------------------------------------------------------------------------

#[test]
fn the_smb_command_is_exact() {
    let argv = smb().mount_argv_creds(HOME, 1000, 1001, Some("/run/user/1000/c"));
    assert_eq!(
        argv,
        vec![
            "mount",
            "-t",
            "cifs",
            "-o",
            "rw,uid=1000,gid=1001,iocharset=utf8,file_mode=0664,dir_mode=0775,vers=3.1.1,credentials=/run/user/1000/c",
            "//192.168.1.200/share",
            "/mnt/tv",
        ]
    );
}

#[test]
fn the_nfs_and_sshfs_commands_are_exact() {
    let mut n = d(false);
    n.transport = Transport::Nfs;
    assert_eq!(
        n.mount_argv(HOME, 1000, 1000),
        vec!["mount", "-t", "nfs4", "-o", "ro", "webgen.com.au:/var/www", "/mnt/share"]
    );
    assert_eq!(
        ssh().mount_argv(HOME, 1000, 1000),
        vec![
            "sshfs",
            "-p",
            "2222",
            "-o",
            "ro,reconnect,ServerAliveInterval=15,ServerAliveCountMax=3",
            "piers@webgen.com.au:/var/www",
            "/home/piers/mnt/webgen-site",
        ]
    );
    assert_eq!(ssh().umount_argv(HOME), vec!["fusermount3", "-u", "/home/piers/mnt/webgen-site"]);
    assert_eq!(n.umount_argv(HOME), vec!["umount", "/mnt/share"]);
}

#[test]
fn the_stored_record_is_tab_separated() {
    assert_eq!(ssh().encode(), "sshfs\twebgen.com.au\t2222\tpiers\t/var/www\tro");
    assert_eq!(smb().encode(), "cifs\t192.168.1.200\t445\twebgen\tshare\trw");
}

#[test]
fn a_port_that_is_not_a_number_decodes_to_nothing() {
    assert!(MountDef::decode("x", "nfs\th\tport\tu\t/p").is_none());
    assert!(MountDef::decode("x", "nfs\th\t70000\tu\t/p").is_none());
}

#[test]
fn labels_and_tags_of_the_transports() {
    assert_eq!(Transport::Sshfs.label(), "SSH / SFTP");
    assert_eq!(Transport::Nfs.label(), "NFS");
    assert_eq!(Transport::Cifs.label(), "SMB / CIFS (Windows share)");
    for t in [Transport::Sshfs, Transport::Nfs, Transport::Cifs] {
        assert_eq!(Transport::from_tag(t.tag()), Some(t));
    }
    assert_eq!(Transport::from_tag("smb"), None);
    assert_eq!(d(true).rw_option(), "rw");
    assert_eq!(d(false).rw_option(), "ro");
}

#[test]
fn saved_definitions_load_back_in_order_and_forget_removes_one() {
    let mut reg = Some(MemoryRegistry::new());
    assert!(load(&reg).is_empty());
    save(&mut reg, &ssh());
    save(&mut reg, &smb());
    let back = load(&reg);
    assert_eq!(back, vec![ssh(), smb()]);
    // Saving again replaces, and does not list the name twice.
    let mut changed = ssh();
    changed.writable = true;
    save(&mut reg, &changed);
    assert_eq!(load(&reg), vec![changed.clone(), smb()]);
    forget(&mut reg, "webgen-site");
    assert_eq!(load(&reg), vec![smb()]);
    forget(&mut reg, "tv");
    assert!(load(&reg).is_empty());
}

#[test]
fn saving_replaces_in_place_and_forgetting_keeps_the_rest_in_order() {
    let mut reg = Some(MemoryRegistry::new());
    save(&mut reg, &ssh());
    save(&mut reg, &d(false));
    save(&mut reg, &smb());
    assert_eq!(load(&reg), vec![ssh(), d(false), smb()]);
    // The middle definition changes where it stands.
    save(&mut reg, &d(true));
    assert_eq!(load(&reg), vec![ssh(), d(true), smb()]);
    // Forgetting the middle one keeps the other two in their order.
    forget(&mut reg, "share");
    assert_eq!(load(&reg), vec![ssh(), smb()]);
    // A name saved again after being forgotten goes last.
    save(&mut reg, &d(false));
    assert_eq!(load(&reg), vec![ssh(), smb(), d(false)]);
}

#[test]
fn without_a_registry_nothing_is_saved_or_loaded() {
    let mut reg: Option<MemoryRegistry> = None;
    save(&mut reg, &ssh());
    forget(&mut reg, "webgen-site");
    assert!(reg.is_none());
    assert!(load(&reg).is_empty());
}

#[test]
fn vault_entries_and_commands() {
    assert_eq!(vault_entry("tv"), "files-smb-tv");
    assert_eq!(vault_get_args("files-smb-tv"), vec!["get", "files-smb-tv", "--field", "password"]);
    assert_eq!(vault_add_args("files-smb-tv", "webgen"), vec!["add-login", "--username", "webgen", "files-smb-tv"]);
    assert_eq!(vault_add_input("hunter2"), "hunter2\nhunter2\n");
    assert_eq!(vault_password_from(true, "  hunter2\n"), Some("hunter2".to_string()));
    assert_eq!(vault_password_from(true, " \n"), None);
    assert_eq!(vault_password_from(false, "hunter2"), None);
}

#[test]
fn credentials_go_in_the_runtime_directory() {
    assert_eq!(credentials_path(Some("/run/user/1000"), 4242), "/run/user/1000/webgen-files-smb-4242");
    assert_eq!(credentials_path(None, 7), "/tmp/webgen-files-smb-7");
    assert_eq!(credentials_text("webgen", "hunter2"), "username=webgen\npassword=hunter2\n");
    let c = Credentials::new("/run/user/1000/creds".to_string());
    assert_eq!(c.path(), "/run/user/1000/creds");
}

#[test]
fn root_commands_go_through_sudo_and_an_empty_one_is_refused() {
    let argv = vec!["umount".to_string(), "/mnt/tv".to_string()];
    assert_eq!(command_line(&argv, true).unwrap(), vec!["sudo", "-n", "umount", "/mnt/tv"]);
    assert_eq!(command_line(&argv, false).unwrap(), vec!["umount", "/mnt/tv"]);
    assert_eq!(command_line(&Vec::new(), true), Err("nothing to run".to_string()));
    assert_eq!(mkdir_args("/mnt/tv"), vec!["mkdir", "-p", "/mnt/tv"]);
}

#[test]
fn a_failure_is_reported_by_the_last_line_of_stderr() {
    assert_eq!(failure_text("warning\nmount error(13): Permission denied  \n", "command failed"), "mount error(13): Permission denied");
    assert_eq!(failure_text("", "command failed"), "command failed");
}
