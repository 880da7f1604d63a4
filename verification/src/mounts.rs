//! Saved mount definitions: how they are stored, read back and forgotten, and the commands that
//! mount and unmount them.
//!
//! A definition is what the user typed once ("the www share on webgen, over SSH"). It lives in
//! the registry as one tab-separated record under `mount:<name>`, listed in the `@mounts` index.
//! Whether it is mounted is the kernel's business (see [`mounted_at`]).
//!
//! SSH mounts are FUSE and need no root; NFS and SMB are in-kernel and do. SMB's password never
//! reaches argv: it goes in a credentials file passed as `credentials=`.
use vstd::prelude::*;
use crate::registry::Store;
use crate::text::{
    chars_of, concat, decimal, fmt_decimal, is_blank, is_digit_in, lemma_decimal_digits,
    lemma_parse_decimal, lemma_split_join, lemma_split_pieces, index_names, index_ready, lemma_index_names_ready,
    lemma_index_of_join, join, join_path, owned, parse_u16, parse_unsigned,
    join_strs, path_join, push_char, push_decimal, push_str, split, split_str, str_eq,
    str_is_blank,
    string_of_range, trim, trim_str, views,
};

verus! {

broadcast use vstd::string::group_string_axioms;

/// The registry namespace of this application.
pub const FILES_NS: &'static str = "com.webgen.Files";

/// Registry key holding the comma-separated list of saved mount names.
pub const INDEX_KEY: &'static str = "@mounts";

/// How a saved location is reached.
#[derive(Clone, Copy, PartialEq, Eq, Debug, Structural)]
pub enum Transport {
    Sshfs,
    Nfs,
    Cifs,
}

pub open spec fn transport_label(t: Transport) -> Seq<char> {
    match t {
        Transport::Sshfs => "SSH / SFTP"@,
        Transport::Nfs => "NFS"@,
        Transport::Cifs => "SMB / CIFS (Windows share)"@,
    }
}

/// The word that names a transport in a stored record.
pub open spec fn transport_tag(t: Transport) -> Seq<char> {
    match t {
        Transport::Sshfs => "sshfs"@,
        Transport::Nfs => "nfs"@,
        Transport::Cifs => "cifs"@,
    }
}

pub open spec fn transport_of_tag(s: Seq<char>) -> Option<Transport> {
    if s == "sshfs"@ {
        Some(Transport::Sshfs)
    } else if s == "nfs"@ {
        Some(Transport::Nfs)
    } else if s == "cifs"@ {
        Some(Transport::Cifs)
    } else {
        None
    }
}

impl Transport {
    pub fn label(self) -> (r: &'static str)
        ensures
            r@ == transport_label(self),
    {
        match self {
            Transport::Sshfs => "SSH / SFTP",
            Transport::Nfs => "NFS",
            Transport::Cifs => "SMB / CIFS (Windows share)",
        }
    }

    pub fn tag(self) -> (r: &'static str)
        ensures
            r@ == transport_tag(self),
    {
        match self {
            Transport::Sshfs => "sshfs",
            Transport::Nfs => "nfs",
            Transport::Cifs => "cifs",
        }
    }

    pub fn from_tag(s: &str) -> (r: Option<Self>)
        ensures
            r == transport_of_tag(s@),
    {
        if str_eq(s, "sshfs") {
            Some(Transport::Sshfs)
        } else if str_eq(s, "nfs") {
            Some(Transport::Nfs)
        } else if str_eq(s, "cifs") {
            Some(Transport::Cifs)
        } else {
            None
        }
    }

    /// Whether mounting this needs root. FUSE does not; the in-kernel filesystems do.
    pub fn needs_root(self) -> (r: bool)
        ensures
            r == (self == Transport::Nfs || self == Transport::Cifs),
    {
        match self {
            Transport::Nfs | Transport::Cifs => true,
            Transport::Sshfs => false,
        }
    }

    /// Whether this transport authenticates with a password: only SMB.
    pub fn needs_password(self) -> (r: bool)
        ensures
            r == (self == Transport::Cifs),
    {
        match self {
            Transport::Cifs => true,
            _ => false,
        }
    }
}

/// A tag read back names the transport it was written for.
pub proof fn lemma_tag_round_trip(t: Transport)
    ensures
        transport_of_tag(transport_tag(t)) == Some(t),
        !transport_tag(t).contains('\t'),
{
    reveal_strlit("sshfs");
    reveal_strlit("nfs");
    reveal_strlit("cifs");
    let tag = transport_tag(t);
    assert(!tag.contains('\t')) by {
        if tag.contains('\t') {
            let k = choose|k: int| 0 <= k < tag.len() && tag[k] == '\t';
        }
    }
    assert("nfs"@ != "sshfs"@) by {
        assert("nfs"@.len() != "sshfs"@.len());
    }
    assert("cifs"@ != "sshfs"@) by {
        assert("cifs"@.len() != "sshfs"@.len());
    }
    assert("cifs"@ != "nfs"@) by {
        assert("cifs"@.len() != "nfs"@.len());
    }
}

/// A saved connection.
#[derive(Clone, Debug, PartialEq, Eq)]
pub struct MountDef {
    /// Short name, also the folder name it mounts into; the registry key.
    pub name: String,
    pub transport: Transport,
    pub host: String,
    pub port: u16,
    /// SSH user. Empty means "whoever I am locally".
    pub user: String,
    pub remote: String,
    /// Mount writable. Defaults to false: a read-only mount cannot damage the far end.
    pub writable: bool,
}

/// The value of a [`MountDef`].
pub struct MountRecord {
    pub name: Seq<char>,
    pub transport: Transport,
    pub host: Seq<char>,
    pub port: u16,
    pub user: Seq<char>,
    pub remote: Seq<char>,
    pub writable: bool,
}

impl View for MountDef {
    type V = MountRecord;

    open spec fn view(&self) -> MountRecord {
        MountRecord {
            name: self.name@,
            transport: self.transport,
            host: self.host@,
            port: self.port,
            user: self.user@,
            remote: self.remote@,
            writable: self.writable,
        }
    }
}

/// The characters of an optional string.
pub open spec fn opt_view(s: Option<&str>) -> Option<Seq<char>> {
    match s {
        Some(c) => Some(c@),
        None => None,
    }
}

/// `ro` or `rw`.
pub open spec fn rw_word(writable: bool) -> Seq<char> {
    if writable {
        "rw"@
    } else {
        "ro"@
    }
}

/// `user@host`, or just `host` when the user is blank.
pub open spec fn host_spec_of(d: MountRecord) -> Seq<char> {
    if is_blank(d.user) {
        d.host
    } else {
        trim(d.user) + seq!['@'] + d.host
    }
}

/// The six tab-separated fields of a stored record.
pub open spec fn record_fields(d: MountRecord) -> Seq<Seq<char>> {
    seq![
        transport_tag(d.transport),
        d.host,
        decimal(d.port as nat),
        d.user,
        d.remote,
        rw_word(d.writable),
    ]
}

/// The stored form of a definition (its name is the key, not part of the record).
pub open spec fn encoded(d: MountRecord) -> Seq<char> {
    join(record_fields(d), seq!['\t'])
}

/// What a stored record reads back as under `name`: at least five tab-separated fields, a known
/// transport and a port that parses; a sixth field of `rw` makes it writable, anything else (or
/// none, as in records older than that field) read-only.
pub open spec fn decoded(name: Seq<char>, s: Seq<char>) -> Option<MountRecord> {
    let f = split(s, '\t');
    if f.len() < 5 {
        None
    } else {
        match (transport_of_tag(f[0]), parse_unsigned(f[2], 10, 65535)) {
            (Some(t), Some(port)) => Some(
                MountRecord {
                    name,
                    transport: t,
                    host: f[1],
                    port: port as u16,
                    user: f[3],
                    remote: f[4],
                    writable: f.len() > 5 && f[5] == "rw"@,
                },
            ),
            _ => None,
        }
    }
}

/// Where a definition mounts, given the user's home directory: SSH under `~/mnt`, the
/// in-kernel filesystems under `/mnt`.
pub open spec fn target_of(d: MountRecord, home: Seq<char>) -> Seq<char> {
    match d.transport {
        Transport::Sshfs => path_join(path_join(home, "mnt"@), d.name),
        _ => path_join("/mnt"@, d.name),
    }
}

/// `s` without its leading `/` characters.
pub open spec fn strip_leading_slashes(s: Seq<char>) -> Seq<char>
    decreases s.len(),
{
    if s.len() > 0 && s[0] == '/' {
        strip_leading_slashes(s.drop_first())
    } else {
        s
    }
}

/// The `-o` options of an SMB mount.
pub open spec fn cifs_options(
    d: MountRecord,
    uid: u32,
    gid: u32,
    creds: Option<Seq<char>>,
) -> Seq<char> {
    let base = rw_word(d.writable) + ",uid="@ + decimal(uid as nat) + ",gid="@ + decimal(
        gid as nat,
    ) + ",iocharset=utf8,file_mode=0664,dir_mode=0775"@ + ",vers=3.1.1"@;
    match creds {
        Some(c) => base + ",credentials="@ + c,
        None => base,
    }
}

/// The command that mounts `d` as the user `uid`/`gid` whose home is `home`.
pub open spec fn mount_command(
    d: MountRecord,
    home: Seq<char>,
    uid: u32,
    gid: u32,
    creds: Option<Seq<char>>,
) -> Seq<Seq<char>> {
    let target = target_of(d, home);
    match d.transport {
        Transport::Sshfs => seq![
            "sshfs"@,
            "-p"@,
            decimal(d.port as nat),
            "-o"@,
            rw_word(d.writable) + ",reconnect,ServerAliveInterval=15,ServerAliveCountMax=3"@,
            host_spec_of(d) + seq![':'] + d.remote,
            target,
        ],
        Transport::Nfs => seq![
            "mount"@,
            "-t"@,
            "nfs4"@,
            "-o"@,
            rw_word(d.writable),
            d.host + seq![':'] + d.remote,
            target,
        ],
        Transport::Cifs => seq![
            "mount"@,
            "-t"@,
            "cifs"@,
            "-o"@,
            cifs_options(d, uid, gid, creds),
            "//"@ + d.host + seq!['/'] + strip_leading_slashes(d.remote),
            target,
        ],
    }
}

/// The command that unmounts `d`: FUSE has its own unprivileged unmounter.
pub open spec fn umount_command(d: MountRecord, home: Seq<char>) -> Seq<Seq<char>> {
    match d.transport {
        Transport::Sshfs => seq!["fusermount3"@, "-u"@, target_of(d, home)],
        _ => seq!["umount"@, target_of(d, home)],
    }
}

fn push_field(s: &mut String, field: &str)
    ensures
        final(s)@ == old(s)@ + seq!['\t'] + field@,
{
    push_char(s, '\t');
    push_str(s, field);
}

fn string_vec7(a: String, b: String, c: String, d: String, e: String, f: String, g: String) -> (r:
    Vec<String>)
    ensures
        views(r@) == seq![a@, b@, c@, d@, e@, f@, g@],
{
    let mut r: Vec<String> = Vec::new();
    r.push(a);
    r.push(b);
    r.push(c);
    r.push(d);
    r.push(e);
    r.push(f);
    r.push(g);
    assert(views(r@) =~= seq![a@, b@, c@, d@, e@, f@, g@]);
    r
}

impl MountDef {
    /// A copy of this definition.
    pub fn duplicate(&self) -> (r: MountDef)
        ensures
            r@ == self@,
    {
        MountDef {
            name: self.name.clone(),
            transport: self.transport,
            host: self.host.clone(),
            port: self.port,
            user: self.user.clone(),
            remote: self.remote.clone(),
            writable: self.writable,
        }
    }

    /// Where it mounts, for a user whose home directory is `home`. SSH mounts land under the
    /// user's own `~/mnt`, because FUSE mounts belong to the user; NFS and SMB are system mounts
    /// and go in `/mnt`.
    pub fn target(&self, home: &str) -> (r: String)
        ensures
            r@ == target_of(self@, home@),
    {
        match self.transport {
            Transport::Sshfs => {
                let mnt = join_path(home, "mnt");
                join_path(mnt.as_str(), self.name.as_str())
            },
            Transport::Nfs | Transport::Cifs => join_path("/mnt", self.name.as_str()),
        }
    }

    /// The mount option controlling writability. Both sshfs and mount(8) take ro/rw.
    pub fn rw_option(&self) -> (r: &'static str)
        ensures
            r@ == rw_word(self.writable),
    {
        if self.writable {
            "rw"
        } else {
            "ro"
        }
    }

    /// `user@host` or just `host`.
    pub fn host_spec(&self) -> (r: String)
        ensures
            r@ == host_spec_of(self@),
    {
        if str_is_blank(self.user.as_str()) {
            self.host.clone()
        } else {
            let mut r = trim_str(self.user.as_str());
            push_char(&mut r, '@');
            push_str(&mut r, self.host.as_str());
            r
        }
    }

    /// The stored form: tag, host, port, user, remote and ro/rw, separated by tabs.
    pub fn encode(&self) -> (r: String)
        ensures
            r@ == encoded(self@),
    {
        let mut r = owned(self.transport.tag());
        push_field(&mut r, self.host.as_str());
        let port = fmt_decimal(self.port as u64);
        push_field(&mut r, port.as_str());
        push_field(&mut r, self.user.as_str());
        push_field(&mut r, self.remote.as_str());
        push_field(&mut r, self.rw_option());
        proof {
            let f = record_fields(self@);
            let tab = seq!['\t'];
            assert(f.drop_last().drop_last().drop_last().drop_last().drop_last() =~= seq![f[0]]);
            assert(f.drop_last().drop_last().drop_last().drop_last() =~= seq![f[0], f[1]]);
            assert(f.drop_last().drop_last().drop_last() =~= seq![f[0], f[1], f[2]]);
            assert(f.drop_last().drop_last() =~= seq![f[0], f[1], f[2], f[3]]);
            assert(f.drop_last() =~= seq![f[0], f[1], f[2], f[3], f[4]]);
            assert(join(seq![f[0]], tab) == f[0]);
            assert(join(seq![f[0], f[1]], tab) == f[0] + tab + f[1]);
            assert(join(seq![f[0], f[1], f[2]], tab) == f[0] + tab + f[1] + tab + f[2]);
            assert(join(seq![f[0], f[1], f[2], f[3]], tab) == f[0] + tab + f[1] + tab + f[2]
                + tab + f[3]);
            assert(join(seq![f[0], f[1], f[2], f[3], f[4]], tab) == f[0] + tab + f[1] + tab
                + f[2] + tab + f[3] + tab + f[4]);
            assert(r@ =~= f[0] + tab + f[1] + tab + f[2] + tab + f[3] + tab + f[4] + tab + f[5]);
        }
        r
    }

    /// Reads a stored record back under `name`; `None` for anything malformed.
    pub fn decode(name: &str, s: &str) -> (r: Option<MountDef>)
        ensures
            r matches Some(d) ==> decoded(name@, s@) == Some(d@),
            r is None ==> decoded(name@, s@) is None,
    {
        let f = split_str(s, '\t');
        if f.len() < 5 {
            return None;
        }
        assert(f@[0]@ == split(s@, '\t')[0]);
        assert(f@[2]@ == split(s@, '\t')[2]);
        let transport = match Transport::from_tag(f[0].as_str()) {
            Some(t) => t,
            None => return None,
        };
        let port = match parse_u16(f[2].as_str()) {
            Some(p) => p,
            None => return None,
        };
        let writable = f.len() > 5 && str_eq(f[5].as_str(), "rw");
        proof {
            if f.len() > 5 {
                assert(f@[5]@ == split(s@, '\t')[5]);
            }
        }
        Some(
            MountDef {
                name: owned(name),
                transport,
                host: f[1].clone(),
                port,
                user: f[3].clone(),
                remote: f[4].clone(),
                writable,
            },
        )
    }

    /// The command that mounts this for the user `uid`/`gid` whose home is `home`, as argv.
    ///
    /// sshfs gets `reconnect` and `ServerAliveInterval` so a dropped link recovers instead of
    /// leaving a hung mount point.
    pub fn mount_argv(&self, home: &str, uid: u32, gid: u32) -> (r: Vec<String>)
        ensures
            views(r@) == mount_command(self@, home@, uid, gid, None),
    {
        self.mount_argv_creds(home, uid, gid, None)
    }

    /// As [`MountDef::mount_argv`], with the path of a CIFS credentials file. SMB takes its
    /// secret only from that file, never from argv; a CIFS mount built without one fails to
    /// authenticate.
    pub fn mount_argv_creds(&self, home: &str, uid: u32, gid: u32, creds: Option<&str>) -> (r:
        Vec<String>)
        ensures
            views(r@) == mount_command(self@, home@, uid, gid, opt_view(creds)),
    {
        let target = self.target(home);
        match self.transport {
            Transport::Sshfs => {
                let mut opts = owned(self.rw_option());
                push_str(&mut opts, ",reconnect,ServerAliveInterval=15,ServerAliveCountMax=3");
                let mut source = self.host_spec();
                push_char(&mut source, ':');
                push_str(&mut source, self.remote.as_str());
                assert(source@ =~= host_spec_of(self@) + seq![':'] + self.remote@);
                let port = fmt_decimal(self.port as u64);
                assert(port@ == decimal(self.port as nat));
                let ghost t = target@;
                let ghost o = opts@;
                assert(o == rw_word(self.writable) + ",reconnect,ServerAliveInterval=15,ServerAliveCountMax=3"@);
                let res = string_vec7(
                    owned("sshfs"),
                    owned("-p"),
                    port,
                    owned("-o"),
                    opts,
                    source,
                    target,
                );
                assert(t == target_of(self@, home@));
                assert(views(res@)[4] == o);
                assert(views(res@) =~= mount_command(self@, home@, uid, gid, opt_view(creds)));
                return res;
            },
            Transport::Nfs => {
                let mut source = self.host.clone();
                push_char(&mut source, ':');
                push_str(&mut source, self.remote.as_str());
                assert(source@ =~= self.host@ + seq![':'] + self.remote@);
                let res = string_vec7(
                    owned("mount"),
                    owned("-t"),
                    owned("nfs4"),
                    owned("-o"),
                    owned(self.rw_option()),
                    source,
                    target,
                );
                assert(views(res@) =~= mount_command(self@, home@, uid, gid, opt_view(creds)));
                res
            },
            Transport::Cifs => {
                let mut o = owned(self.rw_option());
                push_str(&mut o, ",uid=");
                push_decimal(&mut o, uid as u64);
                push_str(&mut o, ",gid=");
                push_decimal(&mut o, gid as u64);
                push_str(&mut o, ",iocharset=utf8,file_mode=0664,dir_mode=0775");
                push_str(&mut o, ",vers=3.1.1");
                match creds {
                    Some(c) => {
                        push_str(&mut o, ",credentials=");
                        push_str(&mut o, c);
                    },
                    None => {},
                }
                let mut source = owned("//");
                push_str(&mut source, self.host.as_str());
                push_char(&mut source, '/');
                let share = strip_slashes(self.remote.as_str());
                push_str(&mut source, share.as_str());
                assert(source@ =~= "//"@ + self.host@ + seq!['/'] + strip_leading_slashes(
                    self.remote@,
                ));
                assert(o@ =~= cifs_options(self@, uid, gid, opt_view(creds)));
                let res = string_vec7(
                    owned("mount"),
                    owned("-t"),
                    owned("cifs"),
                    owned("-o"),
                    o,
                    source,
                    target,
                );
                assert(views(res@) =~= mount_command(self@, home@, uid, gid, opt_view(creds)));
                res
            },
        }
    }

    /// The command that unmounts it. FUSE has its own unmounter that works unprivileged.
    pub fn umount_argv(&self, home: &str) -> (r: Vec<String>)
        ensures
            views(r@) == umount_command(self@, home@),
    {
        let target = self.target(home);
        let mut r: Vec<String> = Vec::new();
        match self.transport {
            Transport::Sshfs => {
                r.push(owned("fusermount3"));
                r.push(owned("-u"));
                r.push(target);
            },
            Transport::Nfs | Transport::Cifs => {
                r.push(owned("umount"));
                r.push(target);
            },
        }
        assert(views(r@) =~= umount_command(self@, home@));
        r
    }
}

/// `s.trim_start_matches('/')`.
fn strip_slashes(s: &str) -> (r: String)
    ensures
        r@ == strip_leading_slashes(s@),
{
    let v = chars_of(s);
    let mut i: usize = 0;
    assert(v@.subrange(0, v@.len() as int) =~= v@);
    while i < v.len() && v[i] == '/'
        invariant
            v@ == s@,
            0 <= i <= v.len(),
            strip_leading_slashes(s@) == strip_leading_slashes(v@.subrange(i as int, v@.len() as int)),
        decreases v.len() - i,
    {
        let ghost t = v@.subrange(i as int, v@.len() as int);
        assert(t.drop_first() =~= v@.subrange(i + 1, v@.len() as int));
        i += 1;
    }
    string_of_range(&v, i, v.len())
}

// ---------------------------------------------------------------------------------------------
// Reading and writing definitions in the registry
// ---------------------------------------------------------------------------------------------

pub open spec fn files_ns() -> Seq<char> {
    "com.webgen.Files"@
}

pub open spec fn index_key() -> Seq<char> {
    "@mounts"@
}

/// The registry key of a definition.
pub open spec fn mount_key(name: Seq<char>) -> Seq<char> {
    "mount:"@ + name
}

/// The definition stored under `name`, if its record is there and reads back.
pub open spec fn lookup(e: Map<(Seq<char>, Seq<char>), Seq<char>>, name: Seq<char>) -> Option<
    MountRecord,
> {
    if e.contains_key((files_ns(), mount_key(name))) {
        decoded(name, e[(files_ns(), mount_key(name))])
    } else {
        None
    }
}

/// The definitions stored under `names`, in order, skipping those that do not read back.
pub open spec fn loaded(e: Map<(Seq<char>, Seq<char>), Seq<char>>, names: Seq<Seq<char>>) -> Seq<
    MountRecord,
>
    decreases names.len(),
{
    if names.len() == 0 {
        Seq::empty()
    } else {
        let init = loaded(e, names.drop_last());
        match lookup(e, names.last()) {
            Some(r) => init.push(r),
            None => init,
        }
    }
}

/// The index text, empty when there is none.
pub open spec fn index_text(e: Map<(Seq<char>, Seq<char>), Seq<char>>) -> Seq<char> {
    if e.contains_key((files_ns(), index_key())) {
        e[(files_ns(), index_key())]
    } else {
        Seq::empty()
    }
}

/// Every saved definition, in the order the index lists them.
pub open spec fn saved(e: Map<(Seq<char>, Seq<char>), Seq<char>>) -> Seq<MountRecord> {
    loaded(e, index_names(split(index_text(e), ',')))
}

pub open spec fn records(v: Seq<MountDef>) -> Seq<MountRecord> {
    v.map_values(|d: MountDef| d@)
}

pub open spec fn names_of(v: Seq<MountRecord>) -> Seq<Seq<char>> {
    v.map_values(|r: MountRecord| r.name)
}

/// `names` without the entries equal to `name`.
pub open spec fn without(names: Seq<Seq<char>>, name: Seq<char>) -> Seq<Seq<char>>
    decreases names.len(),
{
    if names.len() == 0 {
        Seq::empty()
    } else {
        let init = without(names.drop_last(), name);
        if names.last() == name {
            init
        } else {
            init.push(names.last())
        }
    }
}

/// The registry after [`save`]: the record written under its key, then the index rewritten
/// from what loads, with the name added if it was not listed.
pub open spec fn after_save(e: Map<(Seq<char>, Seq<char>), Seq<char>>, d: MountRecord) -> Map<
    (Seq<char>, Seq<char>),
    Seq<char>,
> {
    let e1 = e.insert((files_ns(), mount_key(d.name)), encoded(d));
    let names = names_of(saved(e1));
    let listed = if names.contains(d.name) {
        names
    } else {
        names.push(d.name)
    };
    e1.insert((files_ns(), index_key()), join(listed, ","@))
}

/// The registry after [`forget`]: the record blanked, then the index rewritten from what still
/// loads, without the name.
pub open spec fn after_forget(e: Map<(Seq<char>, Seq<char>), Seq<char>>, name: Seq<char>) -> Map<
    (Seq<char>, Seq<char>),
    Seq<char>,
> {
    let e1 = e.insert((files_ns(), mount_key(name)), Seq::empty());
    e1.insert((files_ns(), index_key()), join(without(names_of(saved(e1)), name), ","@))
}

/// Writes `key = value` in the Files namespace.
fn put<S: Store>(r: &mut S, key: &str, value: &str)
    ensures
        final(r).entries() == old(r).entries().insert((files_ns(), key@), value@),
{
    proof {
        reveal_strlit("com.webgen.Files");
    }
    r.set_string(FILES_NS, key, value);
}

fn mount_key_of(name: &str) -> (r: String)
    ensures
        r@ == mount_key(name@),
{
    concat("mount:", name)
}

/// The saved definitions of a store.
fn load_from<S: Store>(r: &S) -> (out: Vec<MountDef>)
    ensures
        records(out@) == saved(r.entries()),
{
    proof {
        reveal_strlit("com.webgen.Files");
        reveal_strlit("@mounts");
    }
    let index = match r.get_string(FILES_NS, INDEX_KEY) {
        Some(v) => v,
        None => String::new(),
    };
    assert(index@ == index_text(r.entries()));
    let pieces = split_str(index.as_str(), ',');
    let ghost ps = views(pieces@);
    let mut out: Vec<MountDef> = Vec::new();
    let mut i: usize = 0;
    while i < pieces.len()
        invariant
            0 <= i <= pieces.len(),
            ps == views(pieces@),
            ps == split(index_text(r.entries()), ','),
            records(out@) == loaded(r.entries(), index_names(ps.subrange(0, i as int))),
        decreases pieces.len() - i,
    {
        let ghost before = ps.subrange(0, i as int);
        let ghost upto = ps.subrange(0, i + 1);
        assert(upto.drop_last() =~= before);
        assert(upto.last() == pieces@[i as int]@);
        let name = trim_str(pieces[i].as_str());
        if !name.as_str().is_empty() {
            let ghost nm = index_names(upto);
            assert(nm == index_names(before).push(name@));
            assert(nm.drop_last() =~= index_names(before));
            let key = mount_key_of(name.as_str());
            proof {
                reveal_strlit("com.webgen.Files");
            }
            let ghost e = r.entries();
            match r.get_string(FILES_NS, key.as_str()) {
                Some(v) => {
                    assert(lookup(e, name@) == decoded(name@, v@));
                    match MountDef::decode(name.as_str(), v.as_str()) {
                        Some(d) => {
                            let ghost old_out = out@;
                            out.push(d);
                            assert(records(out@) =~= records(old_out).push(d@));
                            assert(loaded(e, nm) == loaded(e, index_names(before)).push(d@));
                        },
                        None => {
                            assert(loaded(e, nm) == loaded(e, index_names(before)));
                        },
                    }
                },
                None => {
                    assert(lookup(e, name@) is None);
                    assert(loaded(e, nm) == loaded(e, index_names(before)));
                },
            }
        } else {
            assert(index_names(upto) == index_names(before));
        }
        i += 1;
    }
    assert(ps.subrange(0, ps.len() as int) =~= ps);
    out
}

fn names_list(defs: &Vec<MountDef>) -> (r: Vec<String>)
    ensures
        views(r@) == names_of(records(defs@)),
{
    let mut r: Vec<String> = Vec::new();
    let mut i: usize = 0;
    while i < defs.len()
        invariant
            0 <= i <= defs.len(),
            views(r@) == names_of(records(defs@.subrange(0, i as int))),
        decreases defs.len() - i,
    {
        let ghost old_r = r@;
        let nm = defs[i].name.clone();
        assert(nm@ == defs@[i as int].name@);
        r.push(nm);
        assert(views(r@) =~= views(old_r).push(nm@));
        assert(defs@.subrange(0, i + 1) =~= defs@.subrange(0, i as int).push(defs@[i as int]));
        assert(names_of(records(defs@.subrange(0, i + 1))) =~= names_of(
            records(defs@.subrange(0, i as int)),
        ).push(defs@[i as int].name@));
        i += 1;
    }
    assert(defs@.subrange(0, defs@.len() as int) =~= defs@);
    r
}

fn lists(names: &Vec<String>, name: &str) -> (r: bool)
    ensures
        r == views(names@).contains(name@),
{
    let mut i: usize = 0;
    while i < names.len()
        invariant
            0 <= i <= names.len(),
            forall|k: int| 0 <= k < i ==> views(names@)[k] != name@,
        decreases names.len() - i,
    {
        if str_eq(names[i].as_str(), name) {
            assert(views(names@)[i as int] == name@);
            return true;
        }
        i += 1;
    }
    false
}

fn drop_name(names: &Vec<String>, name: &str) -> (r: Vec<String>)
    ensures
        views(r@) == without(views(names@), name@),
{
    let mut r: Vec<String> = Vec::new();
    let mut i: usize = 0;
    while i < names.len()
        invariant
            0 <= i <= names.len(),
            views(r@) == without(views(names@.subrange(0, i as int)), name@),
        decreases names.len() - i,
    {
        let ghost upto = views(names@.subrange(0, i + 1));
        assert(upto.drop_last() =~= views(names@.subrange(0, i as int)));
        if !str_eq(names[i].as_str(), name) {
            let ghost old_r = r@;
            r.push(names[i].clone());
            assert(views(r@) =~= views(old_r).push(names@[i as int]@));
        }
        i += 1;
    }
    assert(names@.subrange(0, names@.len() as int) =~= names@);
    r
}

/// Every saved definition, in the order the index lists them; none without a registry.
pub fn load<S: Store>(reg: &Option<S>) -> (out: Vec<MountDef>)
    ensures
        match reg {
            Some(r) => records(out@) == saved(r.entries()),
            None => out@.len() == 0,
        },
{
    match reg {
        Some(r) => load_from(r),
        None => Vec::new(),
    }
}

/// Stores `def` under its name and makes sure the index lists it.
pub fn save<S: Store>(reg: &mut Option<S>, def: &MountDef)
    ensures
        old(reg).is_some() == final(reg).is_some(),
        old(reg).is_some() ==> final(reg).unwrap().entries() == after_save(
            old(reg).unwrap().entries(),
            def@,
        ),
{
    match reg {
        Some(r) => {
            let ghost e = r.entries();
            let key = mount_key_of(def.name.as_str());
            let record = def.encode();
            put(r, key.as_str(), record.as_str());
            let ghost e1 = r.entries();
            assert(e1 == e.insert((files_ns(), mount_key(def@.name)), encoded(def@)));
            let defs = load_from(r);
            let mut names = names_list(&defs);
            let ghost listed0 = views(names@);
            assert(listed0 == names_of(saved(e1)));
            if !lists(&names, def.name.as_str()) {
                let ghost before = names@;
                names.push(def.name.clone());
                assert(views(names@) =~= views(before).push(def.name@));
            }
            let index = join_strs(&names, ",");
            proof {
                reveal_strlit("@mounts");
            }
            put(r, INDEX_KEY, index.as_str());
            assert(r.entries() == after_save(e, def@));
        },
        None => {},
    }
}

/// Forgets the definition called `name`: its record is blanked (the registry cannot delete) and
/// the index no longer lists it.
pub fn forget<S: Store>(reg: &mut Option<S>, name: &str)
    ensures
        old(reg).is_some() == final(reg).is_some(),
        old(reg).is_some() ==> final(reg).unwrap().entries() == after_forget(
            old(reg).unwrap().entries(),
            name@,
        ),
{
    match reg {
        Some(r) => {
            let ghost e = r.entries();
            let key = mount_key_of(name);
            put(r, key.as_str(), "");
            proof {
                reveal_strlit("");
                assert(""@ =~= Seq::<char>::empty());
            }
            let ghost e1 = r.entries();
            assert(e1 == e.insert((files_ns(), mount_key(name@)), Seq::<char>::empty()));
            let defs = load_from(r);
            let names = names_list(&defs);
            let kept = drop_name(&names, name);
            let index = join_strs(&kept, ",");
            proof {
                reveal_strlit("@mounts");
            }
            put(r, INDEX_KEY, index.as_str());
            assert(r.entries() == after_forget(e, name@));
        },
        None => {},
    }
}

// ---------------------------------------------------------------------------------------------
// Laws
// ---------------------------------------------------------------------------------------------

/// A definition that can be stored and read back as it is: a non-blank name without
/// surrounding whitespace or commas (the index is comma-separated and trimmed), and no tab in
/// the fields (the record is tab-separated).
pub open spec fn storable(d: MountRecord) -> bool {
    &&& d.name.len() > 0
    &&& trim(d.name) == d.name
    &&& !d.name.contains(',')
    &&& !d.host.contains('\t')
    &&& !d.user.contains('\t')
    &&& !d.remote.contains('\t')
}

/// A stored record reads back as the definition it was written from, as long as no field
/// holds a tab.
pub proof fn lemma_record_round_trip(d: MountRecord)
    requires
        !d.host.contains('\t'),
        !d.user.contains('\t'),
        !d.remote.contains('\t'),
    ensures
        decoded(d.name, encoded(d)) == Some(d),
{
    reveal_strlit("rw");
    reveal_strlit("ro");
    let f = record_fields(d);
    lemma_tag_round_trip(d.transport);
    lemma_decimal_digits(d.port as nat);
    let dec = decimal(d.port as nat);
    assert(!dec.contains('\t')) by {
        if dec.contains('\t') {
            let k = choose|k: int| 0 <= k < dec.len() && dec[k] == '\t';
            assert(is_digit_in(dec[k], 10));
        }
    }
    let w = rw_word(d.writable);
    assert(!w.contains('\t')) by {
        if w.contains('\t') {
            let k = choose|k: int| 0 <= k < w.len() && w[k] == '\t';
        }
    }
    assert forall|i: int| 0 <= i < f.len() implies !(#[trigger] f[i]).contains('\t') by {
        if i == 0 {
        } else if i == 1 {
        } else if i == 2 {
        } else if i == 3 {
        } else if i == 4 {
        } else {
        }
    }
    lemma_split_join(f, '\t');
    lemma_parse_decimal(d.port as nat, 65535);
    assert("ro"@ != "rw"@) by {
        assert("ro"@[1] != "rw"@[1]);
    }
    let r = decoded(d.name, encoded(d));
    assert(r is Some);
    assert(r->0.writable == d.writable);
    assert(r->0 == d);
}

proof fn lemma_lookup_name(e: Map<(Seq<char>, Seq<char>), Seq<char>>, n: Seq<char>)
    ensures
        lookup(e, n) matches Some(r) ==> r.name == n,
{
}

proof fn lemma_loaded_member(
    e: Map<(Seq<char>, Seq<char>), Seq<char>>,
    names: Seq<Seq<char>>,
    x: MountRecord,
)
    ensures
        loaded(e, names).contains(x) <==> exists|i: int|
            0 <= i < names.len() && lookup(e, #[trigger] names[i]) == Some(x),
    decreases names.len(),
{
    if names.len() > 0 {
        let init = names.drop_last();
        lemma_loaded_member(e, init, x);
        let l0 = loaded(e, init);
        if loaded(e, names).contains(x) {
            if l0.contains(x) {
                let i = choose|i: int| 0 <= i < init.len() && lookup(e, #[trigger] init[i]) == Some(
                    x,
                );
                assert(names[i] == init[i]);
            } else {
                let k = choose|k: int| 0 <= k < loaded(e, names).len() && loaded(e, names)[k] == x;
                match lookup(e, names.last()) {
                    Some(r) => {
                        if k < l0.len() {
                            assert(l0[k] == x);
                        }
                        assert(lookup(e, names[names.len() - 1]) == Some(x));
                    },
                    None => {
                        assert(l0[k] == x);
                    },
                }
            }
        }
        if exists|i: int| 0 <= i < names.len() && lookup(e, #[trigger] names[i]) == Some(x) {
            let i = choose|i: int| 0 <= i < names.len() && lookup(e, #[trigger] names[i]) == Some(
                x,
            );
            if i < names.len() - 1 {
                assert(init[i] == names[i]);
                let k = choose|k: int| 0 <= k < l0.len() && l0[k] == x;
                match lookup(e, names.last()) {
                    Some(r) => {
                        assert(loaded(e, names)[k] == x);
                    },
                    None => {},
                }
            } else {
                assert(loaded(e, names) == l0.push(x));
                assert(loaded(e, names)[l0.len() as int] == x);
            }
        }
    }
}

/// Every name the loaded definitions carry is one the index listed.
proof fn lemma_loaded_names(e: Map<(Seq<char>, Seq<char>), Seq<char>>, names: Seq<Seq<char>>)
    ensures
        forall|k: int|
            0 <= k < loaded(e, names).len() ==> names.contains(#[trigger] loaded(e, names)[k].name),
{
    assert forall|k: int| 0 <= k < loaded(e, names).len() implies names.contains(
        #[trigger] loaded(e, names)[k].name,
    ) by {
        let x = loaded(e, names)[k];
        assert(loaded(e, names).contains(x));
        lemma_loaded_member(e, names, x);
        let i = choose|i: int| 0 <= i < names.len() && lookup(e, #[trigger] names[i]) == Some(x);
        lemma_lookup_name(e, names[i]);
    }
}

/// The names of what a registry loads are ready to stand in an index.
proof fn lemma_saved_names_ready(e: Map<(Seq<char>, Seq<char>), Seq<char>>)
    ensures
        forall|k: int| 0 <= k < names_of(saved(e)).len() ==> index_ready(
            #[trigger] names_of(saved(e))[k],
        ),
{
    let pieces = split(index_text(e), ',');
    lemma_split_pieces(index_text(e), ',');
    lemma_index_names_ready(pieces);
    let inames = index_names(pieces);
    lemma_loaded_names(e, inames);
    assert forall|k: int| 0 <= k < names_of(saved(e)).len() implies index_ready(
        #[trigger] names_of(saved(e))[k],
    ) by {
        assert(names_of(saved(e))[k] == saved(e)[k].name);
        assert(inames.contains(saved(e)[k].name));
    }
}

proof fn lemma_keys_differ(n: Seq<char>, m: Seq<char>)
    ensures
        mount_key(n) != index_key(),
        mount_key(n) == mount_key(m) ==> n == m,
{
    reveal_strlit("mount:");
    reveal_strlit("@mounts");
    assert(mount_key(n)[0] != index_key()[0]);
    if mount_key(n) == mount_key(m) {
        assert(n =~= mount_key(n).subrange(6, mount_key(n).len() as int));
        assert(m =~= mount_key(m).subrange(6, mount_key(m).len() as int));
    }
}

/// Writing another key leaves a lookup as it was.
proof fn lemma_lookup_unchanged(
    e: Map<(Seq<char>, Seq<char>), Seq<char>>,
    k: (Seq<char>, Seq<char>),
    v: Seq<char>,
    n: Seq<char>,
)
    requires
        k != (files_ns(), mount_key(n)),
    ensures
        lookup(e.insert(k, v), n) == lookup(e, n),
{
}

proof fn lemma_member_after_index_write(
    e1: Map<(Seq<char>, Seq<char>), Seq<char>>,
    listed: Seq<Seq<char>>,
    x: MountRecord,
)
    requires
        forall|i: int| 0 <= i < listed.len() ==> index_ready(#[trigger] listed[i]),
        listed.contains(x.name),
        lookup(e1, x.name) == Some(x),
    ensures
        saved(e1.insert((files_ns(), index_key()), join(listed, ","@))).contains(x),
{
    let e2 = e1.insert((files_ns(), index_key()), join(listed, ","@));
    lemma_index_of_join(listed);
    assert(index_text(e2) == join(listed, ","@));
    let i = choose|i: int| 0 <= i < listed.len() && listed[i] == x.name;
    lemma_keys_differ(x.name, x.name);
    lemma_lookup_unchanged(e1, (files_ns(), index_key()), join(listed, ","@), x.name);
    assert(lookup(e2, listed[i]) == Some(x));
    lemma_loaded_member(e2, listed, x);
}

/// Saving a definition, then loading, gives that definition back, and every other saved
/// definition (under another name) is still there.
pub proof fn lemma_save_then_load(e: Map<(Seq<char>, Seq<char>), Seq<char>>, d: MountRecord)
    requires
        storable(d),
    ensures
        saved(after_save(e, d)).contains(d),
        forall|x: MountRecord| #[trigger]
            saved(e).contains(x) && x.name != d.name ==> saved(after_save(e, d)).contains(x),
{
    let e1 = e.insert((files_ns(), mount_key(d.name)), encoded(d));
    let names = names_of(saved(e1));
    let listed = if names.contains(d.name) {
        names
    } else {
        names.push(d.name)
    };
    lemma_saved_names_ready(e1);
    assert forall|i: int| 0 <= i < listed.len() implies index_ready(#[trigger] listed[i]) by {
        if i < names.len() {
            assert(listed[i] == names[i]);
        }
    }
    assert(listed.contains(d.name)) by {
        if !names.contains(d.name) {
            assert(listed[names.len() as int] == d.name);
        }
    }
    lemma_record_round_trip(d);
    assert(lookup(e1, d.name) == Some(d));
    lemma_member_after_index_write(e1, listed, d);
    lemma_keys_differ(d.name, d.name);
    assert(index_text(e1) == index_text(e));
    let inames = index_names(split(index_text(e), ','));
    assert forall|x: MountRecord| #[trigger]
        saved(e).contains(x) && x.name != d.name implies saved(after_save(e, d)).contains(x) by {
        lemma_loaded_member(e, inames, x);
        let i = choose|i: int| 0 <= i < inames.len() && lookup(e, #[trigger] inames[i]) == Some(x);
        lemma_lookup_name(e, inames[i]);
        lemma_keys_differ(x.name, d.name);
        lemma_lookup_unchanged(e, (files_ns(), mount_key(d.name)), encoded(d), x.name);
        assert(lookup(e1, inames[i]) == Some(x));
        lemma_loaded_member(e1, inames, x);
        assert(saved(e1).contains(x));
        let k = choose|k: int| 0 <= k < saved(e1).len() && saved(e1)[k] == x;
        assert(names[k] == x.name);
        assert(listed.contains(x.name)) by {
            assert(listed[k] == names[k]);
        }
        lemma_member_after_index_write(e1, listed, x);
    }
}

proof fn lemma_without(names: Seq<Seq<char>>, name: Seq<char>)
    ensures
        forall|i: int| 0 <= i < without(names, name).len() ==> #[trigger] without(names, name)[i]
            != name && names.contains(without(names, name)[i]),
        forall|n: Seq<char>| names.contains(n) && n != name ==> #[trigger] without(
            names,
            name,
        ).contains(n),
    decreases names.len(),
{
    if names.len() > 0 {
        let init = names.drop_last();
        lemma_without(init, name);
        let w = without(names, name);
        let w0 = without(init, name);
        assert forall|i: int| 0 <= i < w.len() implies #[trigger] w[i] != name && names.contains(
            w[i],
        ) by {
            if i < w0.len() {
                assert(w[i] == w0[i]);
                let j = choose|j: int| 0 <= j < init.len() && init[j] == w0[i];
                assert(names[j] == init[j]);
            } else {
                assert(names[names.len() - 1] == w[i]);
            }
        }
        assert forall|n: Seq<char>| names.contains(n) && n != name implies #[trigger] w.contains(
            n,
        ) by {
            let j = choose|j: int| 0 <= j < names.len() && names[j] == n;
            if j < names.len() - 1 {
                assert(init[j] == n);
                assert(init.contains(n));
                assert(w0.contains(n));
                let k = choose|k: int| 0 <= k < w0.len() && w0[k] == n;
                if names.last() == name {
                    assert(w == w0);
                } else {
                    assert(w == w0.push(names.last()));
                }
                assert(w[k] == n);
            } else {
                assert(names.last() == n);
                assert(w == w0.push(n));
                assert(w[w0.len() as int] == n);
            }
        }
    }
}

/// After forgetting a name, nothing loads under it, and every definition saved under another
/// name still loads.
pub proof fn lemma_forget_then_load(e: Map<(Seq<char>, Seq<char>), Seq<char>>, name: Seq<char>)
    ensures
        forall|x: MountRecord| #[trigger] saved(after_forget(e, name)).contains(x) ==> x.name != name,
        forall|x: MountRecord| #[trigger]
            saved(e).contains(x) && x.name != name ==> saved(after_forget(e, name)).contains(x),
{
    let e1 = e.insert((files_ns(), mount_key(name)), Seq::empty());
    let names = names_of(saved(e1));
    let w = without(names, name);
    let e2 = e1.insert((files_ns(), index_key()), join(w, ","@));
    lemma_saved_names_ready(e1);
    lemma_without(names, name);
    assert forall|i: int| 0 <= i < w.len() implies index_ready(#[trigger] w[i]) by {
        let j = choose|j: int| 0 <= j < names.len() && names[j] == w[i];
    }
    lemma_index_of_join(w);
    assert(index_text(e2) == join(w, ","@));
    assert forall|x: MountRecord| #[trigger] saved(e2).contains(x) implies x.name != name by {
        lemma_loaded_member(e2, w, x);
        let i = choose|i: int| 0 <= i < w.len() && lookup(e2, #[trigger] w[i]) == Some(x);
        lemma_lookup_name(e2, w[i]);
    }
    lemma_keys_differ(name, name);
    assert(index_text(e1) == index_text(e));
    let inames = index_names(split(index_text(e), ','));
    assert forall|x: MountRecord| #[trigger]
        saved(e).contains(x) && x.name != name implies saved(e2).contains(x) by {
        lemma_loaded_member(e, inames, x);
        let i = choose|i: int| 0 <= i < inames.len() && lookup(e, #[trigger] inames[i]) == Some(x);
        lemma_lookup_name(e, inames[i]);
        lemma_keys_differ(x.name, name);
        lemma_lookup_unchanged(e, (files_ns(), mount_key(name)), Seq::empty(), x.name);
        lemma_loaded_member(e1, inames, x);
        let k = choose|k: int| 0 <= k < saved(e1).len() && saved(e1)[k] == x;
        assert(names[k] == x.name);
        assert(w.contains(x.name));
        lemma_member_after_index_write(e1, w, x);
    }
}

/// `x`, or `d` in its place when `x` carries `d`'s name.
pub open spec fn replaced_by(d: MountRecord) -> spec_fn(MountRecord) -> MountRecord {
    |x: MountRecord| if x.name == d.name { d } else { x }
}

/// Whether a definition is named otherwise than `name`.
pub open spec fn named_other_than(name: Seq<char>) -> spec_fn(MountRecord) -> bool {
    |x: MountRecord| x.name != name
}

/// Each definition that loads is what its own name looks up.
proof fn lemma_loaded_self_lookup(e: Map<(Seq<char>, Seq<char>), Seq<char>>, ns: Seq<Seq<char>>)
    ensures
        forall|k: int|
            0 <= k < loaded(e, ns).len() ==> lookup(e, #[trigger] loaded(e, ns)[k].name) == Some(
                loaded(e, ns)[k],
            ),
{
    assert forall|k: int| 0 <= k < loaded(e, ns).len() implies lookup(
        e,
        #[trigger] loaded(e, ns)[k].name,
    ) == Some(loaded(e, ns)[k]) by {
        let x = loaded(e, ns)[k];
        assert(loaded(e, ns).contains(x));
        lemma_loaded_member(e, ns, x);
        let i = choose|i: int| 0 <= i < ns.len() && lookup(e, #[trigger] ns[i]) == Some(x);
        lemma_lookup_name(e, ns[i]);
    }
}

/// Looking up the names of definitions that are each their own name's lookup gives them back,
/// in order.
proof fn lemma_loaded_names_of(e: Map<(Seq<char>, Seq<char>), Seq<char>>, v: Seq<MountRecord>)
    requires
        forall|k: int| 0 <= k < v.len() ==> lookup(e, #[trigger] v[k].name) == Some(v[k]),
    ensures
        loaded(e, names_of(v)) == v,
    decreases v.len(),
{
    if v.len() > 0 {
        let init = v.drop_last();
        assert forall|k: int| 0 <= k < init.len() implies lookup(e, #[trigger] init[k].name) == Some(
            init[k],
        ) by {
            assert(init[k] == v[k]);
        }
        lemma_loaded_names_of(e, init);
        assert(names_of(v).drop_last() =~= names_of(init));
        assert(names_of(v).last() == v[v.len() - 1].name);
        assert(init.push(v.last()) =~= v);
    }
}

/// Two registries that look up the same definitions under `ns` load the same list from it.
proof fn lemma_loaded_agree(
    e: Map<(Seq<char>, Seq<char>), Seq<char>>,
    f: Map<(Seq<char>, Seq<char>), Seq<char>>,
    ns: Seq<Seq<char>>,
)
    requires
        forall|k: int| 0 <= k < ns.len() ==> lookup(e, #[trigger] ns[k]) == lookup(f, ns[k]),
    ensures
        loaded(e, ns) == loaded(f, ns),
    decreases ns.len(),
{
    if ns.len() > 0 {
        let init = ns.drop_last();
        assert forall|k: int| 0 <= k < init.len() implies lookup(e, #[trigger] init[k]) == lookup(
            f,
            init[k],
        ) by {
            assert(init[k] == ns[k]);
        }
        lemma_loaded_agree(e, f, init);
        assert(lookup(e, ns[ns.len() - 1]) == lookup(f, ns[ns.len() - 1]));
    }
}

/// Loading the names other than `name` loads what loading them all does, minus what is named
/// `name`.
proof fn lemma_loaded_without(
    e: Map<(Seq<char>, Seq<char>), Seq<char>>,
    ns: Seq<Seq<char>>,
    name: Seq<char>,
)
    ensures
        loaded(e, without(ns, name)) == loaded(e, ns).filter(named_other_than(name)),
    decreases ns.len(),
{
    reveal(Seq::filter);
    if ns.len() > 0 {
        let init = ns.drop_last();
        let n = ns.last();
        lemma_loaded_without(e, init, name);
        lemma_lookup_name(e, n);
        let w0 = without(init, name);
        if n != name {
            assert(without(ns, name) == w0.push(n));
            assert(w0.push(n).drop_last() =~= w0);
            assert(w0.push(n).last() == n);
        }
        let l = loaded(e, ns);
        let l0 = loaded(e, init);
        let p = named_other_than(name);
        match lookup(e, n) {
            Some(r) => {
                assert(l == l0.push(r));
                assert(l.drop_last() =~= l0);
                assert(l.last() == r);
                assert(r.name == n);
                assert(l.filter(p) == if p(r) {
                    l0.filter(p).push(r)
                } else {
                    l0.filter(p)
                });
                if n != name {
                    assert(loaded(e, without(ns, name)) == loaded(e, w0).push(r));
                } else {
                    assert(loaded(e, without(ns, name)) == loaded(e, w0));
                }
            },
            None => {
                assert(l == l0);
                if n != name {
                    assert(loaded(e, without(ns, name)) == loaded(e, w0));
                }
            },
        }
    }
}

/// Writing `d`'s record replaces, in what loads from `ns`, each definition named like `d` by
/// `d`, as long as every listing of that name read back before.
proof fn lemma_loaded_after_record_write(
    e: Map<(Seq<char>, Seq<char>), Seq<char>>,
    d: MountRecord,
    ns: Seq<Seq<char>>,
)
    requires
        storable(d),
        ns.contains(d.name) ==> lookup(e, d.name) is Some,
    ensures
        loaded(e.insert((files_ns(), mount_key(d.name)), encoded(d)), ns) == loaded(
            e,
            ns,
        ).map_values(replaced_by(d)),
    decreases ns.len(),
{
    if ns.len() > 0 {
        let e1 = e.insert((files_ns(), mount_key(d.name)), encoded(d));
        let init = ns.drop_last();
        let n = ns.last();
        assert(init.contains(d.name) ==> ns.contains(d.name)) by {
            if init.contains(d.name) {
                let k = choose|k: int| 0 <= k < init.len() && init[k] == d.name;
                assert(ns[k] == d.name);
            }
        }
        lemma_loaded_after_record_write(e, d, init);
        lemma_record_round_trip(d);
        lemma_lookup_name(e, n);
        if n == d.name {
            assert(ns[ns.len() - 1] == d.name);
            assert(lookup(e1, n) == Some(d));
        } else {
            lemma_keys_differ(n, d.name);
            lemma_lookup_unchanged(e, (files_ns(), mount_key(d.name)), encoded(d), n);
        }
        let l0 = loaded(e, init);
        match lookup(e, n) {
            Some(r) => {
                assert(loaded(e, ns) == l0.push(r));
                assert(l0.push(r).map_values(replaced_by(d)) =~= l0.map_values(replaced_by(d)).push(
                    replaced_by(d)(r),
                ));
            },
            None => {},
        }
    }
}

/// Saving keeps the order of what was saved: a definition whose name is already saved is
/// replaced where it stands, every other one keeps its place, and a new name goes last. (This
/// needs the record of a listed name to read back: a listed name whose record does not read
/// back gets the new definition at the place it is listed.)
pub proof fn lemma_save_keeps_order(e: Map<(Seq<char>, Seq<char>), Seq<char>>, d: MountRecord)
    requires
        storable(d),
        index_names(split(index_text(e), ',')).contains(d.name) ==> lookup(e, d.name) is Some,
    ensures
        saved(after_save(e, d)) == if names_of(saved(e)).contains(d.name) {
            saved(e).map_values(replaced_by(d))
        } else {
            saved(e).push(d)
        },
{
    let inames = index_names(split(index_text(e), ','));
    let e1 = e.insert((files_ns(), mount_key(d.name)), encoded(d));
    let names = names_of(saved(e1));
    let listed = if names.contains(d.name) {
        names
    } else {
        names.push(d.name)
    };
    let e2 = e1.insert((files_ns(), index_key()), join(listed, ","@));
    lemma_keys_differ(d.name, d.name);
    assert(index_text(e1) == index_text(e));
    lemma_loaded_after_record_write(e, d, inames);
    let l0 = saved(e);
    let l1 = saved(e1);
    assert(l1 == l0.map_values(replaced_by(d)));
    assert(names =~= names_of(l0)) by {
        assert forall|k: int| 0 <= k < names.len() implies names[k] == names_of(l0)[k] by {
            assert(l1[k] == replaced_by(d)(l0[k]));
        }
    }
    lemma_saved_names_ready(e1);
    assert forall|i: int| 0 <= i < listed.len() implies index_ready(#[trigger] listed[i]) by {
        if i < names.len() {
            assert(listed[i] == names[i]);
        }
    }
    lemma_index_of_join(listed);
    assert(index_text(e2) == join(listed, ","@));
    assert(saved(e2) == loaded(e2, listed));
    assert forall|k: int| 0 <= k < listed.len() implies lookup(e2, #[trigger] listed[k]) == lookup(
        e1,
        listed[k],
    ) by {
        lemma_keys_differ(listed[k], listed[k]);
        lemma_lookup_unchanged(e1, (files_ns(), index_key()), join(listed, ","@), listed[k]);
    }
    lemma_loaded_agree(e2, e1, listed);
    lemma_loaded_self_lookup(e1, inames);
    lemma_loaded_names_of(e1, l1);
    lemma_record_round_trip(d);
    if names.contains(d.name) {
        assert(saved(e2) == l1);
    } else {
        assert(listed.drop_last() =~= names);
        assert(lookup(e1, d.name) == Some(d));
        assert(loaded(e1, listed) == l1.push(d));
        assert(l1 =~= l0) by {
            assert forall|k: int| 0 <= k < l0.len() implies l1[k] == l0[k] by {
                assert(names_of(l0)[k] == l0[k].name);
                assert(l0[k].name != d.name);
            }
        }
    }
}

/// Forgetting keeps the order of what stays: what loads afterwards is what loaded before,
/// without the definitions named `name`.
pub proof fn lemma_forget_keeps_order(e: Map<(Seq<char>, Seq<char>), Seq<char>>, name: Seq<char>)
    ensures
        saved(after_forget(e, name)) == saved(e).filter(named_other_than(name)),
{
    let inames = index_names(split(index_text(e), ','));
    let e1 = e.insert((files_ns(), mount_key(name)), Seq::empty());
    let names = names_of(saved(e1));
    let w = without(names, name);
    let e2 = e1.insert((files_ns(), index_key()), join(w, ","@));
    lemma_keys_differ(name, name);
    assert(index_text(e1) == index_text(e));
    lemma_saved_names_ready(e1);
    lemma_without(names, name);
    assert forall|i: int| 0 <= i < w.len() implies index_ready(#[trigger] w[i]) by {
        let j = choose|j: int| 0 <= j < names.len() && names[j] == w[i];
    }
    lemma_index_of_join(w);
    assert(index_text(e2) == join(w, ","@));
    assert(saved(e2) == loaded(e2, w));
    assert forall|k: int| 0 <= k < w.len() implies lookup(e2, #[trigger] w[k]) == lookup(e1, w[k]) by {
        lemma_keys_differ(w[k], w[k]);
        lemma_lookup_unchanged(e1, (files_ns(), index_key()), join(w, ","@), w[k]);
    }
    lemma_loaded_agree(e2, e1, w);
    lemma_loaded_without(e1, names, name);
    lemma_loaded_self_lookup(e1, inames);
    lemma_loaded_names_of(e1, saved(e1));
    lemma_loaded_without(e1, inames, name);
    lemma_loaded_without(e, inames, name);
    let wi = without(inames, name);
    lemma_without(inames, name);
    assert forall|k: int| 0 <= k < wi.len() implies lookup(e1, #[trigger] wi[k]) == lookup(e, wi[k]) by {
        lemma_keys_differ(wi[k], name);
        lemma_lookup_unchanged(e, (files_ns(), mount_key(name)), Seq::empty(), wi[k]);
    }
    lemma_loaded_agree(e1, e, wi);
}

// ---------------------------------------------------------------------------------------------
// SMB credentials
//
// Nothing secret goes in the registry. The password lives in webgen-vault under an entry named
// after the definition; at mount time it is written to a file only this user can read, passed
// as `credentials=`, and deleted as soon as the mount returns.
// ---------------------------------------------------------------------------------------------

/// The vault entry holding the password of the saved SMB connection `name`. Namespaced so it
/// cannot collide with an entry the user made by hand.
pub fn vault_entry(name: &str) -> (r: String)
    ensures
        r@ == "files-smb-"@ + name@,
{
    concat("files-smb-", name)
}

/// The arguments that ask `webgen-vault` for the password of `entry`.
pub fn vault_get_args(entry: &str) -> (r: Vec<String>)
    ensures
        views(r@) == seq!["get"@, entry@, "--field"@, "password"@],
{
    let mut r: Vec<String> = Vec::new();
    r.push(owned("get"));
    r.push(owned(entry));
    r.push(owned("--field"));
    r.push(owned("password"));
    assert(views(r@) =~= seq!["get"@, entry@, "--field"@, "password"@]);
    r
}

/// The password `webgen-vault get` answered: its output trimmed, when it succeeded and said
/// something; `None` otherwise (no entry, or a locked vault).
pub fn vault_password_from(succeeded: bool, stdout: &str) -> (r: Option<String>)
    ensures
        match r {
            Some(p) => succeeded && p@ == trim(stdout@) && p@.len() > 0,
            None => !succeeded || trim(stdout@).len() == 0,
        },
{
    if !succeeded {
        return None;
    }
    let p = trim_str(stdout);
    if p.as_str().is_empty() {
        None
    } else {
        Some(p)
    }
}

/// The arguments that save a login for `user` under `entry`. The password is not among them: it
/// goes in on standard input, where `ps` cannot show it.
pub fn vault_add_args(entry: &str, user: &str) -> (r: Vec<String>)
    ensures
        views(r@) == seq!["add-login"@, "--username"@, user@, entry@],
{
    let mut r: Vec<String> = Vec::new();
    r.push(owned("add-login"));
    r.push(owned("--username"));
    r.push(owned(user));
    r.push(owned(entry));
    assert(views(r@) =~= seq!["add-login"@, "--username"@, user@, entry@]);
    r
}

/// What `add-login` is fed on standard input: the password, then again to confirm it.
pub fn vault_add_input(password: &str) -> (r: String)
    ensures
        r@ == password@ + seq!['\n'] + password@ + seq!['\n'],
{
    let mut r = owned(password);
    push_char(&mut r, '\n');
    push_str(&mut r, password);
    push_char(&mut r, '\n');
    r
}

/// The last line of `stderr`, trimmed, or `fallback` when it has no line: what a failed command
/// is reported with.
pub open spec fn last_line_or(stderr: Seq<char>, fallback: Seq<char>) -> Seq<char> {
    let ls = crate::text::lines(stderr);
    if ls.len() == 0 {
        fallback
    } else {
        trim(ls.last())
    }
}

/// Why a command failed, from what it wrote to standard error: its last line, trimmed, or
/// `fallback` when it wrote nothing.
pub fn failure_text(stderr: &str, fallback: &str) -> (r: String)
    ensures
        r@ == last_line_or(stderr@, fallback@),
{
    let ls = crate::text::lines_of(stderr);
    if ls.len() == 0 {
        owned(fallback)
    } else {
        assert(views(ls@).last() == ls@[ls@.len() - 1]@);
        trim_str(ls[ls.len() - 1].as_str())
    }
}

/// The credentials file for a mount: its path, as the program created it. The program deletes
/// the file when it drops this, whether the mount worked or not.
pub struct Credentials {
    path: String,
}

impl Credentials {
    /// The credentials file at `path`.
    pub fn new(path: String) -> (r: Credentials)
        ensures
            r.view_path() == path@,
    {
        Credentials { path }
    }

    pub closed spec fn view_path(&self) -> Seq<char> {
        self.path@
    }

    /// Where the file is.
    pub fn path(&self) -> (r: &str)
        ensures
            r@ == self.view_path(),
    {
        self.path.as_str()
    }
}

/// Where the credentials file of process `pid` goes: the user's runtime directory (a tmpfs only
/// they can read, cleared at logout), or `/tmp` when there is none.
pub fn credentials_path(runtime_dir: Option<&str>, pid: u32) -> (r: String)
    ensures
        r@ == path_join(
            match runtime_dir {
                Some(d) => d@,
                None => "/tmp"@,
            },
            "webgen-files-smb-"@ + decimal(pid as nat),
        ),
{
    let mut name = owned("webgen-files-smb-");
    push_decimal(&mut name, pid as u64);
    match runtime_dir {
        Some(d) => join_path(d, name.as_str()),
        None => join_path("/tmp", name.as_str()),
    }
}

/// What a CIFS credentials file holds.
pub fn credentials_text(user: &str, password: &str) -> (r: String)
    ensures
        r@ == "username="@ + user@ + seq!['\n'] + "password="@ + password@ + seq!['\n'],
{
    let mut r = owned("username=");
    push_str(&mut r, user);
    push_char(&mut r, '\n');
    push_str(&mut r, "password=");
    push_str(&mut r, password);
    push_char(&mut r, '\n');
    r
}

// ---------------------------------------------------------------------------------------------
// Running mounts
// ---------------------------------------------------------------------------------------------

/// The command line that runs `argv`, through `sudo -n` when it needs root (the same escalation
/// the Services and Storage panels use); an error for an empty `argv`.
pub fn command_line(argv: &Vec<String>, needs_root: bool) -> (r: Result<Vec<String>, String>)
    ensures
        match r {
            Ok(c) => argv@.len() > 0 && views(c@) == if needs_root {
                seq!["sudo"@, "-n"@] + views(argv@)
            } else {
                views(argv@)
            },
            Err(e) => argv@.len() == 0 && e@ == "nothing to run"@,
        },
{
    if argv.len() == 0 {
        return Err(owned("nothing to run"));
    }
    let mut c: Vec<String> = Vec::new();
    if needs_root {
        c.push(owned("sudo"));
        c.push(owned("-n"));
    }
    let ghost head = views(c@);
    let mut i: usize = 0;
    while i < argv.len()
        invariant
            0 <= i <= argv.len(),
            views(c@) == head + views(argv@.subrange(0, i as int)),
        decreases argv.len() - i,
    {
        let ghost before = c@;
        c.push(argv[i].clone());
        assert(views(c@) =~= views(before).push(argv@[i as int]@));
        assert(views(argv@.subrange(0, i + 1)) =~= views(argv@.subrange(0, i as int)).push(
            argv@[i as int]@,
        ));
        i += 1;
    }
    assert(argv@.subrange(0, argv@.len() as int) =~= argv@);
    assert(head =~= if needs_root {
        seq!["sudo"@, "-n"@]
    } else {
        Seq::<Seq<char>>::empty()
    });
    Ok(c)
}

/// The command that creates a mount point and the folders above it.
pub fn mkdir_args(target: &str) -> (r: Vec<String>)
    ensures
        views(r@) == seq!["mkdir"@, "-p"@, target@],
{
    let mut r: Vec<String> = Vec::new();
    r.push(owned("mkdir"));
    r.push(owned("-p"));
    r.push(owned(target));
    assert(views(r@) =~= seq!["mkdir"@, "-p"@, target@]);
    r
}

} // verus!
