use webgen_files::blockdev::Volume;
use webgen_files::mounts::{MountDef, Transport};
use webgen_files::places::{Kind, Place};
use webgen_files::sidebar::{
    check_form, connect_tooltip, def_from_form, disconnect_tooltip, form_hints, friendly_name,
    mount_question, mount_tooltip, no_password_text, only_hint, place_tooltip, problem_text,
    rename_outcome, save_password_first, transport_choice, typed_password, unmounted,
    volume_detail, FormProblem,
};

fn stick(mounted: bool) -> Volume {
    Volume {
        name: "sda1".into(),
        fstype: "vfat".into(),
        label: Some("WGDIAG".into()),
        size: "7.5G".into(),
        mountpoint: if mounted { Some("/media/WGDIAG".into()) } else { None },
        removable: true,
        transport: Some("usb".into()),
    }
}

#[test]
fn the_form_becomes_a_definition() {
    let d = def_from_form(0, "  my/site ", " webgen.com.au ", " 2222 ", " piers ", " /var/www ", false);
    assert_eq!(
        d,
        MountDef {
            name: "my-site".into(),
            transport: Transport::Sshfs,
            host: "webgen.com.au".into(),
            port: 2222,
            user: "piers".into(),
            remote: "/var/www".into(),
            writable: false,
        }
    );
    let n = def_from_form(1, "n", "h", "", "", "/", true);
    assert_eq!(n.port, 22, "no port typed means SSH's");
    assert_eq!(n.transport, Transport::Nfs);
    assert_eq!(transport_choice(7), Transport::Cifs);
}

#[test]
fn the_form_refuses_what_cannot_connect() {
    let mut d = def_from_form(2, "tv", "192.168.1.200", "", "", "share", false);
    assert_eq!(check_form(&d, "pw", || true), Err(FormProblem::MissingUser));
    d.user = "webgen".into();
    assert_eq!(check_form(&d, "", || false), Err(FormProblem::MissingPassword));
    assert_eq!(check_form(&d, "", || true), Ok(()), "a saved password is enough");
    assert_eq!(check_form(&d, "pw", || false), Ok(()));
    d.host = String::new();
    assert_eq!(check_form(&d, "pw", || true), Err(FormProblem::MissingFields));
    assert_eq!(problem_text(FormProblem::MissingFields), "Name, host and remote path are all needed.");
    assert!(save_password_first(Transport::Cifs, "pw", true));
    assert!(!save_password_first(Transport::Cifs, "pw", false));
    assert!(!save_password_first(Transport::Sshfs, "pw", true));
    assert_eq!(typed_password(String::new()), None);
    assert_eq!(typed_password("pw".into()), Some("pw".to_string()));
    assert!(no_password_text().contains("webgen-vault unlock"));
}

#[test]
fn the_form_asks_each_transport_for_what_it_needs() {
    let ssh = form_hints(0);
    assert!(ssh.port_visible && !ssh.password_visible);
    assert_eq!(ssh.note, "SSH uses your existing key. Nothing secret is stored.");
    let nfs = form_hints(1);
    assert!(!nfs.port_visible && !nfs.password_visible);
    let smb = form_hints(2);
    assert!(smb.password_visible && !smb.port_visible);
    assert_eq!(smb.remote_placeholder, "Share name  (e.g. share \u{2014} not a path)");
}

#[test]
fn rows_say_what_they_do() {
    let v = stick(false);
    assert_eq!(volume_detail(&v), "7.5G  \u{b7}  vfat  \u{b7}  not mounted");
    assert_eq!(mount_tooltip(&v), "Mount /dev/sda1 at /media/WGDIAG");
    let (title, body) = mount_question(&v);
    assert_eq!(title, "Mount WGDIAG?");
    assert_eq!(body, "/dev/sda1 (vfat, 7.5G) will be mounted at /media/WGDIAG.");
    let p = Place { name: "data".into(), path: "/mnt/data".into(), kind: Kind::Network, fstype: "nfs4".into(), host: Some("webgen".into()) };
    assert_eq!(place_tooltip(&p), "/mnt/data  (nfs4)");
    assert_eq!(disconnect_tooltip("data"), "Disconnect data");
    let d = def_from_form(0, "site", "webgen.com.au", "22", "piers", "/var/www", true);
    assert_eq!(connect_tooltip(&d), "Connect to piers@webgen.com.au:/var/www  (read-write)");
}

#[test]
fn only_unmounted_volumes_are_offered_and_the_hint_shows_when_there_is_nothing() {
    let vols = vec![stick(true), stick(false)];
    let u = unmounted(&vols);
    assert_eq!(u.len(), 1);
    assert!(u[0].mountpoint.is_none());
    assert!(!only_hint(0, 0, &vols));
    assert!(only_hint(0, 0, &vec![stick(true)]));
    assert!(!only_hint(1, 0, &vec![]));
}

#[test]
fn friendly_names_and_renaming() {
    assert_eq!(friendly_name(Some("  ".into())), None);
    assert_eq!(friendly_name(Some("WebGen NFS".into())), Some("WebGen NFS".to_string()));
    assert_eq!(friendly_name(None), None);
    assert_eq!(rename_outcome("webgen", "  Server "), ("Server".to_string(), "Server".to_string()));
    assert_eq!(rename_outcome("webgen", "  "), (String::new(), "webgen".to_string()));
}
