//! The Places section of the sidebar: what it shows and what its dialogs decide.
//!
//! The program draws the rows and runs the commands; this module decides what the rows say, which
//! volumes are offered for mounting, and what the Connect to Server form turns into.
use vstd::prelude::*;
use crate::blockdev::{Volume, display_name_of, media_component};
use crate::mounts::{MountDef, MountRecord, Transport, host_spec_of};
use crate::places::Place;
use crate::text::{
    is_blank, owned, parse_unsigned, parse_u16, push_char, push_str, trim, trim_str,
    str_is_blank,
};

verus! {

broadcast use vstd::string::group_string_axioms;

// ---------------------------------------------------------------------------------------------
// The Connect to Server form
// ---------------------------------------------------------------------------------------------

/// The transport at position `selected` of the form's drop-down: SSH, NFS, then SMB.
pub open spec fn transport_at(selected: u32) -> Transport {
    if selected == 0 {
        Transport::Sshfs
    } else if selected == 1 {
        Transport::Nfs
    } else {
        Transport::Cifs
    }
}

pub fn transport_choice(selected: u32) -> (r: Transport)
    ensures
        r == transport_at(selected),
{
    if selected == 0 {
        Transport::Sshfs
    } else if selected == 1 {
        Transport::Nfs
    } else {
        Transport::Cifs
    }
}

/// How the form looks for a transport: the three want different things, and a form that shows
/// all of it asks SSH users for a password they do not have.
pub struct FormHints {
    /// The password field and its "remember" box: SMB only.
    pub password_visible: bool,
    /// The port field: SSH only.
    pub port_visible: bool,
    pub remote_placeholder: &'static str,
    pub user_placeholder: &'static str,
    pub note: &'static str,
}

/// How the form looks with the drop-down at `selected`.
pub fn form_hints(selected: u32) -> (r: FormHints)
    ensures
        r.password_visible == (selected == 2),
        r.port_visible == (selected == 0),
        selected == 0 ==> r.remote_placeholder@ == "Remote path  (e.g. /var/www)"@
            && r.user_placeholder@ == "User  (optional)"@
            && r.note@ == "SSH uses your existing key. Nothing secret is stored."@,
        selected == 1 ==> r.remote_placeholder@ == "Export path  (e.g. / for an fsid=0 export)"@
            && r.user_placeholder@ == "User  (unused for NFS)"@
            && r.note@ == "NFS has no password: the server decides who may mount it, by address."@,
        selected != 0 && selected != 1 ==> r.remote_placeholder@
            == "Share name  (e.g. share \u{2014} not a path)"@ && r.user_placeholder@
            == "User  (the SMB account)"@ && r.note@
            == "The password is stored in webgen-vault, never in the file manager's settings. It is written to a temporary file only while mounting."@,
{
    if selected == 0 {
        FormHints {
            password_visible: false,
            port_visible: true,
            remote_placeholder: "Remote path  (e.g. /var/www)",
            user_placeholder: "User  (optional)",
            note: "SSH uses your existing key. Nothing secret is stored.",
        }
    } else if selected == 1 {
        FormHints {
            password_visible: false,
            port_visible: false,
            remote_placeholder: "Export path  (e.g. / for an fsid=0 export)",
            user_placeholder: "User  (unused for NFS)",
            note: "NFS has no password: the server decides who may mount it, by address.",
        }
    } else {
        FormHints {
            password_visible: selected == 2,
            port_visible: false,
            remote_placeholder: "Share name  (e.g. share \u{2014} not a path)",
            user_placeholder: "User  (the SMB account)",
            note: "The password is stored in webgen-vault, never in the file manager's settings. It is written to a temporary file only while mounting.",
        }
    }
}

/// `s` with every `/` made a `-`, so a name is one path component.
pub open spec fn slashes_dashed(s: Seq<char>) -> Seq<char> {
    s.map_values(|c: char| if c == '/' { '-' } else { c })
}

/// The port typed, as a number; 22 (SSH's) when it is not one.
pub open spec fn port_or_ssh(typed: Seq<char>) -> u16 {
    match parse_unsigned(trim(typed), 10, 65535) {
        Some(p) => p as u16,
        None => 22,
    }
}

/// The definition the form's fields describe: every field trimmed, a `/` in the name made a
/// `-`, and the port 22 unless a number is typed.
pub open spec fn form_record(
    selected: u32,
    name: Seq<char>,
    host: Seq<char>,
    port: Seq<char>,
    user: Seq<char>,
    remote: Seq<char>,
    writable: bool,
) -> MountRecord {
    MountRecord {
        name: slashes_dashed(trim(name)),
        transport: transport_at(selected),
        host: trim(host),
        port: port_or_ssh(port),
        user: trim(user),
        remote: trim(remote),
        writable,
    }
}

/// The definition the form's fields describe.
pub fn def_from_form(
    selected: u32,
    name: &str,
    host: &str,
    port: &str,
    user: &str,
    remote: &str,
    writable: bool,
) -> (r: MountDef)
    ensures
        r@ == form_record(selected, name@, host@, port@, user@, remote@, writable),
{
    let trimmed = trim_str(name);
    let v = crate::text::chars_of(trimmed.as_str());
    let mut safe = String::new();
    let mut i: usize = 0;
    while i < v.len()
        invariant
            0 <= i <= v.len(),
            v@ == trim(name@),
            safe@ == slashes_dashed(v@.subrange(0, i as int)),
        decreases v.len() - i,
    {
        push_char(
            &mut safe,
            if v[i] == '/' {
                '-'
            } else {
                v[i]
            },
        );
        assert(safe@ =~= slashes_dashed(v@.subrange(0, i + 1)));
        i += 1;
    }
    assert(v@.subrange(0, v@.len() as int) =~= v@);
    let typed_port = trim_str(port);
    let p = match parse_u16(typed_port.as_str()) {
        Some(n) => n,
        None => 22,
    };
    MountDef {
        name: safe,
        transport: transport_choice(selected),
        host: trim_str(host),
        port: p,
        user: trim_str(user),
        remote: trim_str(remote),
        writable,
    }
}

/// Why the form cannot connect yet.
#[derive(Clone, Copy, PartialEq, Eq, Debug)]
pub enum FormProblem {
    /// The name, the host or the remote path is empty.
    MissingFields,
    /// An SMB share without the account to connect as.
    MissingUser,
    /// An SMB share with no password typed and none saved.
    MissingPassword,
}

/// What the form says about a problem.
pub fn problem_text(p: FormProblem) -> (r: &'static str)
    ensures
        r@ == match p {
            FormProblem::MissingFields => "Name, host and remote path are all needed."@,
            FormProblem::MissingUser => "An SMB share needs the user it should connect as."@,
            FormProblem::MissingPassword => "This SMB share has no saved password. Enter it once and it will be kept in the vault."@,
        },
{
    match p {
        FormProblem::MissingFields => "Name, host and remote path are all needed.",
        FormProblem::MissingUser => "An SMB share needs the user it should connect as.",
        FormProblem::MissingPassword => "This SMB share has no saved password. Enter it once and it will be kept in the vault.",
    }
}

/// Whether the form's definition `d` is complete, in the order the form checks: the three
/// required fields; for SMB, a user; for SMB with no password typed, one saved in the vault.
/// `has_saved` answers that last question, and is asked only then, since reconnecting a known
/// share should not demand the password again.
pub fn check_form(d: &MountDef, password: &str, has_saved: impl Fn() -> bool) -> (r: Result<
    (),
    FormProblem,
>)
    requires
        has_saved.requires(()),
    ensures
        (d.name@.len() == 0 || d.host@.len() == 0 || d.remote@.len() == 0) ==> r == Err::<
            (),
            FormProblem,
        >(FormProblem::MissingFields),
        !(d.name@.len() == 0 || d.host@.len() == 0 || d.remote@.len() == 0) ==> {
            if d.transport == Transport::Cifs && d.user@.len() == 0 {
                r == Err::<(), FormProblem>(FormProblem::MissingUser)
            } else if d.transport == Transport::Cifs && password@.len() == 0 {
                (r == Err::<(), FormProblem>(FormProblem::MissingPassword) && has_saved.ensures(
                    (),
                    false,
                )) || (r == Ok::<(), FormProblem>(()) && has_saved.ensures((), true))
            } else {
                r == Ok::<(), FormProblem>(())
            }
        },
{
    if d.name.as_str().is_empty() || d.host.as_str().is_empty() || d.remote.as_str().is_empty() {
        return Err(FormProblem::MissingFields);
    }
    let smb = d.transport.needs_password();
    if smb && d.user.as_str().is_empty() {
        return Err(FormProblem::MissingUser);
    }
    if smb && password.is_empty() {
        if !has_saved() {
            return Err(FormProblem::MissingPassword);
        }
    }
    Ok(())
}

/// Whether the password typed is to be saved in the vault before mounting: for SMB, when one was
/// typed and "remember" is ticked. Saving first means a mount that fails for another reason
/// (server down) does not ask for it again.
pub fn save_password_first(t: Transport, password: &str, remember: bool) -> (r: bool)
    ensures
        r == (t == Transport::Cifs && password@.len() > 0 && remember),
{
    t.needs_password() && !password.is_empty() && remember
}

/// The password handed to the mount: the one just typed, if any; otherwise the vault is asked.
pub fn typed_password(password: String) -> (r: Option<String>)
    ensures
        match r {
            Some(p) => p@ == password@ && password@.len() > 0,
            None => password@.len() == 0,
        },
{
    if password.as_str().is_empty() {
        None
    } else {
        Some(password)
    }
}

/// Why an SMB share could not be mounted for want of a password.
pub fn no_password_text() -> (r: &'static str)
    ensures
        r@ == "no password for this share, and the vault did not supply one (is it locked? run `webgen-vault unlock`)"@,
{
    "no password for this share, and the vault did not supply one (is it locked? run `webgen-vault unlock`)"
}

// ---------------------------------------------------------------------------------------------
// Rows
// ---------------------------------------------------------------------------------------------

/// The friendly name stored for a host, when it is one: a blank one counts as none.
pub fn friendly_name(stored: Option<String>) -> (r: Option<String>)
    ensures
        match stored {
            Some(s) => if is_blank(s@) {
                r is None
            } else {
                r == Some(s)
            },
            None => r is None,
        },
{
    match stored {
        Some(s) => if str_is_blank(s.as_str()) {
            None
        } else {
            Some(s)
        },
        None => None,
    }
}

/// What renaming a host to `typed` stores (trimmed; empty clears the override) and then shows
/// (the host itself when cleared).
pub fn rename_outcome(host: &str, typed: &str) -> (r: (String, String))
    ensures
        r.0@ == trim(typed@),
        r.1@ == if trim(typed@).len() == 0 {
            host@
        } else {
            trim(typed@)
        },
{
    let name = trim_str(typed);
    let shown = if name.as_str().is_empty() {
        owned(host)
    } else {
        name.clone()
    };
    (name, shown)
}

/// Whether the section shows only its "nothing mounted" hint: no local drive, no network host,
/// and no volume left unmounted.
pub open spec fn nothing_to_show(drives: nat, hosts: nat, vols: Seq<Volume>) -> bool {
    drives == 0 && hosts == 0 && forall|k: int| 0 <= k < vols.len() ==> (#[trigger] vols[k]).mountpoint is Some
}

pub fn only_hint(drives: usize, hosts: usize, vols: &Vec<Volume>) -> (r: bool)
    ensures
        r == nothing_to_show(drives as nat, hosts as nat, vols@),
{
    if drives != 0 || hosts != 0 {
        return false;
    }
    let mut i: usize = 0;
    while i < vols.len()
        invariant
            0 <= i <= vols@.len(),
            forall|k: int| 0 <= k < i ==> (#[trigger] vols@[k]).mountpoint is Some,
        decreases vols.len() - i,
    {
        if vols[i].mountpoint.is_none() {
            return false;
        }
        i += 1;
    }
    true
}

/// The volumes that are not mounted, in order.
pub open spec fn unmounted_of(vols: Seq<Volume>) -> Seq<Volume>
    decreases vols.len(),
{
    if vols.len() == 0 {
        Seq::empty()
    } else {
        let init = unmounted_of(vols.drop_last());
        if vols.last().mountpoint is None {
            init.push(vols.last())
        } else {
            init
        }
    }
}

/// The volumes to offer for mounting: those the machine sees but has not mounted, in order. A
/// USB stick nobody mounted, or a Windows partition on the internal disk, is usually what the
/// user came looking for, and `/proc/mounts` can never show it.
pub fn unmounted(vols: &Vec<Volume>) -> (r: Vec<Volume>)
    ensures
        r@ == unmounted_of(vols@),
{
    let mut r: Vec<Volume> = Vec::new();
    let mut i: usize = 0;
    while i < vols.len()
        invariant
            0 <= i <= vols@.len(),
            r@ == unmounted_of(vols@.subrange(0, i as int)),
        decreases vols.len() - i,
    {
        let ghost upto = vols@.subrange(0, i + 1);
        assert(upto.drop_last() =~= vols@.subrange(0, i as int));
        assert(upto.last() == vols@[i as int]);
        if vols[i].mountpoint.is_none() {
            let ghost before = r@;
            r.push(vols[i].duplicate());
            assert(r@ =~= before.push(vols@[i as int]));
        }
        i += 1;
    }
    assert(vols@.subrange(0, vols@.len() as int) =~= vols@);
    r
}

/// The second line of an unmounted volume's row: `7.5G  ·  vfat  ·  not mounted`.
pub fn volume_detail(v: &Volume) -> (r: String)
    ensures
        r@ == v.size@ + "  \u{b7}  "@ + v.fstype@ + "  \u{b7}  not mounted"@,
{
    let mut s = v.size.clone();
    push_str(&mut s, "  \u{b7}  ");
    push_str(&mut s, v.fstype.as_str());
    push_str(&mut s, "  \u{b7}  not mounted");
    s
}

/// The tooltip of a volume's mount button: `Mount /dev/sda1 at /media/WGDIAG`.
pub fn mount_tooltip(v: &Volume) -> (r: String)
    ensures
        r@ == "Mount "@ + ("/dev/"@ + v.name@) + " at "@ + ("/media/"@ + media_component(v@)),
{
    let mut s = owned("Mount ");
    push_str(&mut s, v.device().as_str());
    push_str(&mut s, " at ");
    push_str(&mut s, v.mount_target().as_str());
    s
}

/// The confirmation before mounting a volume, as title and body: `Mount WGDIAG?` and
/// `/dev/sda1 (vfat, 7.5G) will be mounted at /media/WGDIAG.`
pub fn mount_question(v: &Volume) -> (r: (String, String))
    ensures
        r.0@ == "Mount "@ + display_name_of(v@) + "?"@,
        r.1@ == ("/dev/"@ + v.name@) + " ("@ + v.fstype@ + ", "@ + v.size@ + ") will be mounted at "@
            + ("/media/"@ + media_component(v@)) + "."@,
{
    let mut title = owned("Mount ");
    push_str(&mut title, v.display_name().as_str());
    push_str(&mut title, "?");
    let mut body = v.device();
    push_str(&mut body, " (");
    push_str(&mut body, v.fstype.as_str());
    push_str(&mut body, ", ");
    push_str(&mut body, v.size.as_str());
    push_str(&mut body, ") will be mounted at ");
    push_str(&mut body, v.mount_target().as_str());
    push_str(&mut body, ".");
    (title, body)
}

/// The tooltip of a place's row: its full path and filesystem type.
pub fn place_tooltip(p: &Place) -> (r: String)
    ensures
        r@ == p.path@ + "  ("@ + p.fstype@ + ")"@,
{
    let mut s = p.path.clone();
    push_str(&mut s, "  (");
    push_str(&mut s, p.fstype.as_str());
    push_str(&mut s, ")");
    s
}

/// The tooltip of a mounted place's eject button.
pub fn disconnect_tooltip(name: &str) -> (r: String)
    ensures
        r@ == "Disconnect "@ + name@,
{
    crate::text::concat("Disconnect ", name)
}

/// The tooltip of a saved connection's connect button: where it goes and how.
pub fn connect_tooltip(d: &MountDef) -> (r: String)
    ensures
        r@ == "Connect to "@ + host_spec_of(d@) + seq![':'] + d.remote@ + "  ("@ + if d.writable {
            "read-write"@
        } else {
            "read-only"@
        } + ")"@,
{
    proof {
        reveal_strlit(":");
    }
    let mut s = owned("Connect to ");
    push_str(&mut s, d.host_spec().as_str());
    push_char(&mut s, ':');
    push_str(&mut s, d.remote.as_str());
    push_str(&mut s, "  (");
    push_str(&mut s, if d.writable {
        "read-write"
    } else {
        "read-only"
    });
    push_str(&mut s, ")");
    s
}

} // verus!
