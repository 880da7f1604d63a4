//! Places: the mounted drives and network locations shown above the folder tree, read from the
//! text of `/proc/mounts`.
//!
//! Local drives are listed one by one. Network mounts are grouped by host, because that is how
//! people think of them: `webgen:/home/data`, `webgen:/var/www` and an sshfs of
//! `webgen:/home/backup` are three transports onto one machine, so they collapse into one
//! "webgen" entry holding three locations. Only the mount points are listed, never the remote
//! paths above them.
use vstd::prelude::*;
use vstd::utf8::is_char_boundary;
use vstd::string::StringSliceAdditionalSpecFns;
use crate::sort::{Ranking, stable_sort, stable_sort_of};
use crate::text::{
    components, file_name, has_prefix, lex_lt, lemma_lex_total, lowercase, owned, parse_unsigned,
    parse_unsigned_range, path_file_name, push_char, push_str, same_path, split, split_str,
    starts_with, str_eq, views, words, words_of, lines, lines_of, path_join, trim,
    concat, join_strs, join,
};

verus! {

broadcast use vstd::string::group_string_axioms;

/// How a place got here, which decides its icon and how it is grouped.
#[derive(Clone, Copy, PartialEq, Eq, Debug, Structural)]
pub enum Kind {
    /// A removable local drive: USB stick, card reader, optical.
    Removable,
    /// A fixed local filesystem that is not the root one.
    Local,
    /// A network filesystem: nfs, cifs/smb, sshfs.
    Network,
}

/// A mounted place.
#[derive(Clone, Debug)]
pub struct Place {
    pub name: String,
    pub path: String,
    pub kind: Kind,
    pub fstype: String,
    /// Host for network mounts; `None` for local ones.
    pub host: Option<String>,
}

/// The value of a [`Place`].
pub struct PlaceView {
    pub name: Seq<char>,
    pub path: Seq<char>,
    pub kind: Kind,
    pub fstype: Seq<char>,
    pub host: Option<Seq<char>>,
}

impl View for Place {
    type V = PlaceView;

    open spec fn view(&self) -> PlaceView {
        PlaceView {
            name: self.name@,
            path: self.path@,
            kind: self.kind,
            fstype: self.fstype@,
            host: match &self.host {
                Some(h) => Some(h@),
                None => None,
            },
        }
    }
}

pub open spec fn place_views(v: Seq<Place>) -> Seq<PlaceView> {
    v.map_values(|p: Place| p@)
}

impl Place {
    /// A copy of this place.
    pub fn duplicate(&self) -> (r: Place)
        ensures
            r == *self,
    {
        Place {
            name: self.name.clone(),
            path: self.path.clone(),
            kind: self.kind,
            fstype: self.fstype.clone(),
            host: match &self.host {
                Some(h) => Some(h.clone()),
                None => None,
            },
        }
    }
}

// ---------------------------------------------------------------------------------------------
// Filesystem types
// ---------------------------------------------------------------------------------------------

/// Network filesystems, grouped by host. `fuse.sshfs` is matched by prefix.
pub open spec fn is_network_fs(fstype: Seq<char>) -> bool {
    ||| fstype == "nfs"@
    ||| fstype == "nfs4"@
    ||| fstype == "cifs"@
    ||| fstype == "smb3"@
    ||| fstype == "smbfs"@
    ||| fstype == "afs"@
    ||| fstype == "ncpfs"@
    ||| has_prefix(fstype, "fuse.sshfs"@)
    ||| fstype == "sshfs"@
}

/// Local filesystems worth showing as a place; anything else local is plumbing.
pub open spec fn is_local_fs(fstype: Seq<char>) -> bool {
    ||| fstype == "ext2"@
    ||| fstype == "ext3"@
    ||| fstype == "ext4"@
    ||| fstype == "btrfs"@
    ||| fstype == "xfs"@
    ||| fstype == "f2fs"@
    ||| fstype == "vfat"@
    ||| fstype == "exfat"@
    ||| fstype == "ntfs"@
    ||| fstype == "ntfs3"@
    ||| fstype == "iso9660"@
    ||| fstype == "udf"@
    ||| fstype == "hfsplus"@
}

pub fn is_network(fstype: &str) -> (r: bool)
    ensures
        r == is_network_fs(fstype@),
{
    str_eq(fstype, "nfs") || str_eq(fstype, "nfs4") || str_eq(fstype, "cifs") || str_eq(
        fstype,
        "smb3",
    ) || str_eq(fstype, "smbfs") || str_eq(fstype, "afs") || str_eq(fstype, "ncpfs")
        || starts_with(fstype, "fuse.sshfs") || str_eq(fstype, "sshfs")
}

/// Which mounts are drives: a `/dev/` device mounted at a folder other than `/`, outside `/boot`
/// and `/run`, with one of the filesystems ext2, ext3, ext4, btrfs, xfs, f2fs, vfat, exfat, ntfs,
/// ntfs3, iso9660, udf or hfsplus, is a drive place (local or removable) at that folder with
/// that filesystem; a mount with any other filesystem that is not a network one is never a
/// place.
pub proof fn lemma_drive_filesystems(line: Seq<char>, removable: Seq<Seq<char>>)
    requires
        words(line).len() >= 3,
    ensures
        ({
            let w = words(line);
            let target = unescape_from(w[1], 0);
            let f = w[2];
            let r = place_of_line(line, removable);
            let drive_fs = (f == "ext2"@ || f == "ext3"@ || f == "ext4"@ || f == "btrfs"@
                || f == "xfs"@ || f == "f2fs"@ || f == "vfat"@ || f == "exfat"@ || f == "ntfs"@
                || f == "ntfs3"@ || f == "iso9660"@ || f == "udf"@ || f == "hfsplus"@);
            &&& drive_fs && has_prefix(w[0], "/dev/"@) && target != "/"@
                && !has_prefix(target, "/boot"@) && !has_prefix(target, "/run"@)
                ==> r is Some && r->0.path == target && r->0.fstype == f
                && r->0.kind != Kind::Network && r->0.host is None
            &&& !is_network_fs(f) && !drive_fs ==> r is None
            &&& is_local_fs(f) <==> drive_fs
        }),
{
    reveal_strlit("ext2");
    reveal_strlit("ext3");
    reveal_strlit("ext4");
    reveal_strlit("btrfs");
    reveal_strlit("xfs");
    reveal_strlit("f2fs");
    reveal_strlit("vfat");
    reveal_strlit("exfat");
    reveal_strlit("ntfs");
    reveal_strlit("ntfs3");
    reveal_strlit("iso9660");
    reveal_strlit("udf");
    reveal_strlit("hfsplus");
    reveal_strlit("nfs");
    reveal_strlit("nfs4");
    reveal_strlit("cifs");
    reveal_strlit("smb3");
    reveal_strlit("smbfs");
    reveal_strlit("afs");
    reveal_strlit("ncpfs");
    reveal_strlit("fuse.sshfs");
    reveal_strlit("sshfs");
    let f = words(line)[2];
    if f == "ext2"@ || f == "ext3"@ || f == "ext4"@ || f == "btrfs"@ || f == "xfs"@ || f == "f2fs"@ || f == "vfat"@ || f == "exfat"@ || f == "ntfs"@ || f == "ntfs3"@ || f == "iso9660"@ || f == "udf"@ || f == "hfsplus"@ {
        assert(f.len() >= 3 && f.len() < "fuse.sshfs"@.len());
        assert(!has_prefix(f, "fuse.sshfs"@));
        let c0 = f[0];
        let c1 = f[1];
        assert(!is_network_fs(f));
    }
}

pub fn is_local(fstype: &str) -> (r: bool)
    ensures
        r == is_local_fs(fstype@),
{
    str_eq(fstype, "ext2") || str_eq(fstype, "ext3") || str_eq(fstype, "ext4") || str_eq(
        fstype,
        "btrfs",
    ) || str_eq(fstype, "xfs") || str_eq(fstype, "f2fs") || str_eq(fstype, "vfat") || str_eq(
        fstype,
        "exfat",
    ) || str_eq(fstype, "ntfs") || str_eq(fstype, "ntfs3") || str_eq(fstype, "iso9660") || str_eq(
        fstype,
        "udf",
    ) || str_eq(fstype, "hfsplus")
}

// ---------------------------------------------------------------------------------------------
// Hosts
// ---------------------------------------------------------------------------------------------

/// The host a network mount source points at: `webgen:/home/data` (nfs), `//webgen/share`
/// (cifs), `webgen:/home/backup` or `user@webgen:/home/backup` (sshfs). A `user@` prefix is
/// dropped, so both spellings group together.
pub open spec fn host_of_source(source: Seq<char>) -> Option<Seq<char>> {
    let unc = has_prefix(source, "//"@);
    let s = if unc {
        source.subrange(2, source.len() as int)
    } else {
        source
    };
    let head = if unc {
        split(s, '/')[0]
    } else {
        split(s, ':')[0]
    };
    let h = split(head, '@').last();
    if h.len() > 0 {
        Some(h)
    } else {
        None
    }
}

/// A user in front of a host does not change which machine a mount is on:
/// `piers@webgen:/home/backup` is on `webgen`, as `webgen:/home/data` is, so the two group
/// together. (A user holding `:` or `/`, or a share in `//host/share` form, is another shape.)
pub proof fn lemma_user_at_host(user: Seq<char>, rest: Seq<char>)
    requires
        !user.contains(':'),
        !user.contains('/'),
        !has_prefix(rest, "//"@),
    ensures
        host_of_source(user + seq!['@'] + rest) == host_of_source(rest),
{
    reveal_strlit("//");
    let src = user + seq!['@'] + rest;
    assert(!has_prefix(src, "//"@)) by {
        if has_prefix(src, "//"@) {
            assert(src.subrange(0, 2)[0] == "//"@[0]);
            assert(src[0] == '/');
            if user.len() > 0 {
                assert(src[0] == user[0]);
                assert(user.contains('/'));
            } else {
                assert(src[0] == '@');
            }
        }
    }
    let a = user + seq!['@'];
    assert(!a.contains(':')) by {
        if a.contains(':') {
            let k = choose|k: int| 0 <= k < a.len() && a[k] == ':';
            if k < user.len() {
                assert(user[k] == ':');
            }
        }
    }
    assert(src =~= a + rest);
    crate::text::lemma_split_prefix(a, rest, ':');
    crate::text::lemma_split_len(rest, ':');
    let h = split(rest, ':')[0];
    assert(split(src, ':')[0] == a + h);
    assert(a + h =~= user + seq!['@'] + h);
    crate::text::lemma_split_at_sep(user, h, '@');
    crate::text::lemma_split_len(h, '@');
    crate::text::lemma_split_len(user, '@');
    assert((split(user, '@') + split(h, '@')).last() == split(h, '@').last());
}

pub fn host_of(source: &str) -> (r: Option<String>)
    ensures
        match r {
            Some(h) => host_of_source(source@) == Some(h@),
            None => host_of_source(source@) is None,
        },
{
    proof {
        reveal_strlit("//");
    }
    let unc = starts_with(source, "//");
    let v = crate::text::chars_of(source);
    let s = if unc {
        crate::text::string_of_range(&v, 2, v.len())
    } else {
        owned(source)
    };
    let pieces = if unc {
        split_str(s.as_str(), '/')
    } else {
        split_str(s.as_str(), ':')
    };
    proof {
        crate::text::lemma_split_len(s@, '/');
        crate::text::lemma_split_len(s@, ':');
    }
    let head = &pieces[0];
    let parts = split_str(head.as_str(), '@');
    proof {
        crate::text::lemma_split_len(head@, '@');
    }
    let last = &parts[parts.len() - 1];
    if last.as_str().is_empty() {
        None
    } else {
        Some(last.clone())
    }
}

// ---------------------------------------------------------------------------------------------
// Unescaping mount points
// ---------------------------------------------------------------------------------------------

/// The three characters after position `i`.
pub open spec fn octal_window(s: Seq<char>, i: int) -> Seq<char> {
    s.subrange(i + 1, i + 4)
}

/// `u8::from_str_radix(window, 8)` on the three characters after position `i`.
pub open spec fn octal_at(s: Seq<char>, i: int) -> Option<nat> {
    parse_unsigned(octal_window(s, i), 8, 255)
}

/// `/proc/mounts` escapes space, tab, newline and backslash as `\ooo`. Decoding from position
/// `i`: a backslash followed by three characters that read as an octal byte becomes the
/// character with that code; every other character, non-ASCII ones included, is kept as it is.
pub open spec fn unescape_from(s: Seq<char>, i: int) -> Seq<char>
    decreases s.len() - i,
{
    if i < 0 || i >= s.len() {
        Seq::empty()
    } else if s[i] == '\\' && i + 3 < s.len() && octal_at(s, i) is Some {
        seq![(octal_at(s, i)->0 as u8) as char] + unescape_from(s, i + 4)
    } else {
        seq![s[i]] + unescape_from(s, i + 1)
    }
}

/// The three bytes after byte position `i`, each taken as the character with that code.
pub open spec fn octal_bytes(b: Seq<u8>, i: int) -> Seq<char> {
    seq![b[i + 1] as char, b[i + 2] as char, b[i + 3] as char]
}

/// Whether the encoded field `b`, walked byte by byte from `i` as `/proc/mounts` fields are
/// scanned, reaches a backslash whose three following bytes end inside a character: taking
/// them as a string slice would cut that character in two.
pub open spec fn unescape_splits_char(b: Seq<u8>, i: int) -> bool
    decreases b.len() - i,
{
    if i < 0 || i >= b.len() {
        false
    } else if b[i] == 92 && i + 3 < b.len() {
        if !is_char_boundary(b, i + 4) {
            true
        } else if parse_unsigned(octal_bytes(b, i), 8, 255) is Some {
            unescape_splits_char(b, i + 4)
        } else {
            unescape_splits_char(b, i + 1)
        }
    } else {
        unescape_splits_char(b, i + 1)
    }
}

/// How the kernel writes one character of a mount point: space, tab, newline and backslash as a
/// backslash and three octal digits, anything else as itself.
pub open spec fn kernel_escape_char(c: char) -> Seq<char> {
    if c == ' ' {
        seq!['\\', '0', '4', '0']
    } else if c == '\t' {
        seq!['\\', '0', '1', '1']
    } else if c == '\n' {
        seq!['\\', '0', '1', '2']
    } else if c == '\\' {
        seq!['\\', '1', '3', '4']
    } else {
        seq![c]
    }
}

/// A mount point as the kernel writes it into `/proc/mounts`.
pub open spec fn kernel_escape(p: Seq<char>) -> Seq<char>
    decreases p.len(),
{
    if p.len() == 0 {
        Seq::empty()
    } else {
        kernel_escape_char(p[0]) + kernel_escape(p.drop_first())
    }
}

/// Decoding from `i` on depends only on the characters from `i` on.
proof fn lemma_unescape_shift(s: Seq<char>, i: int)
    requires
        0 <= i <= s.len(),
    ensures
        unescape_from(s, i) == unescape_from(s.subrange(i, s.len() as int), 0),
    decreases s.len() - i,
{
    let t = s.subrange(i, s.len() as int);
    if i < s.len() {
        assert(t[0] == s[i]);
        if i + 3 < s.len() {
            assert(octal_window(t, 0) =~= octal_window(s, i));
        }
        if s[i] == '\\' && i + 3 < s.len() && octal_at(s, i) is Some {
            lemma_unescape_shift(s, i + 4);
            lemma_unescape_shift(t, 4);
            assert(t.subrange(4, t.len() as int) =~= s.subrange(i + 4, s.len() as int));
        } else {
            lemma_unescape_shift(s, i + 1);
            lemma_unescape_shift(t, 1);
            assert(t.subrange(1, t.len() as int) =~= s.subrange(i + 1, s.len() as int));
        }
    } else {
        assert(t.len() == 0);
    }
}

/// Three octal digits read as the byte they stand for.
proof fn lemma_octal3(a: char, b: char, c: char)
    requires
        '0' <= a <= '7',
        '0' <= b <= '7',
        '0' <= c <= '7',
    ensures
        parse_unsigned(seq![a, b, c], 8, 255) == if ((a as u32 - 48) * 64 + (b as u32 - 48) * 8 + (
        c as u32 - 48)) <= 255 {
            Some(((a as u32 - 48) * 64 + (b as u32 - 48) * 8 + (c as u32 - 48)) as nat)
        } else {
            None
        },
{
    let s = seq![a, b, c];
    assert(s.drop_last().drop_last().drop_last() =~= Seq::<char>::empty());
    assert(s.drop_last().drop_last() =~= seq![a]);
    assert(s.drop_last() =~= seq![a, b]);
    assert(crate::text::unsigned_digits(s) == s);
    assert(seq![a].drop_last() =~= Seq::<char>::empty());
    assert(seq![a].last() == a);
    assert(crate::text::digits_value(Seq::<char>::empty(), 8) == 0);
    assert(crate::text::digits_value(seq![a], 8) == (a as u32 - 48) as nat);
    assert(seq![a, b].last() == b);
    assert(crate::text::digits_value(seq![a, b], 8) == (a as u32 - 48) * 8 + (b as u32 - 48));
}

/// Decoding inverts what the kernel writes: any mount point written into `/proc/mounts`, with
/// its spaces, tabs, newlines and backslashes escaped, reads back as itself.
pub proof fn lemma_unescape_inverts_kernel_escape(p: Seq<char>)
    ensures
        unescape_from(kernel_escape(p), 0) == p,
    decreases p.len(),
{
    if p.len() > 0 {
        let c = p[0];
        let rest = p.drop_first();
        lemma_unescape_inverts_kernel_escape(rest);
        let e = kernel_escape_char(c);
        let q = kernel_escape(p);
        let q2 = kernel_escape(rest);
        assert(q == e + q2);
        assert(q.subrange(e.len() as int, q.len() as int) =~= q2);
        lemma_unescape_shift(q, e.len() as int);
        if e.len() == 1 {
            assert(q[0] == c);
            assert(c != '\\');
            assert(unescape_from(q, 0) == seq![q[0]] + unescape_from(q, 1));
            assert(seq![c] + rest =~= p);
        } else {
            assert(q[0] == '\\');
            assert(octal_window(q, 0) =~= seq![q[1], q[2], q[3]]);
            lemma_octal3(q[1], q[2], q[3]);
            if c == ' ' {
                assert(octal_at(q, 0) == Some(32nat));
            } else if c == '\t' {
                assert(octal_at(q, 0) == Some(9nat));
            } else if c == '\n' {
                assert(octal_at(q, 0) == Some(10nat));
            } else {
                assert(octal_at(q, 0) == Some(92nat));
            }
            assert(unescape_from(q, 0) == seq![(octal_at(q, 0)->0 as u8) as char] + unescape_from(
                q,
                4,
            ));
            assert(seq![c] + rest =~= p);
        }
    }
}

/// Decodes the octal escapes of a `/proc/mounts` field.
pub fn unescape(s: &str) -> (r: String)
    requires
        !unescape_splits_char(crate::text::utf8(s@), 0),
    ensures
        r@ == unescape_from(s@, 0),
{
    let v = crate::text::chars_of(s);
    let mut out = String::new();
    let mut i: usize = 0;
    while i < v.len()
        invariant
            v@ == s@,
            0 <= i <= v@.len(),
            out@ + unescape_from(v@, i as int) == unescape_from(v@, 0),
        decreases v@.len() - i,
    {
        if v[i] == '\\' && v.len() - i > 3 {
            match parse_unsigned_range(&v, i + 1, i + 4, 8, 255) {
                Some(n) => {
                    let ghost before = out@;
                    push_char(&mut out, (n as u8) as char);
                    assert(out@ + unescape_from(v@, i + 4) =~= before + unescape_from(
                        v@,
                        i as int,
                    ));
                    i += 4;
                    continue ;
                },
                None => {},
            }
        }
        let ghost before = out@;
        push_char(&mut out, v[i]);
        assert(out@ + unescape_from(v@, i + 1) =~= before + unescape_from(v@, i as int));
        i += 1;
    }
    assert(out@ + unescape_from(v@, i as int) =~= out@);
    out
}

/// Whether decoding `s` would cut a character in two (see [`unescape_splits_char`]): the
/// condition [`unescape`] needs to be false.
pub fn unescape_would_split(s: &str) -> (r: bool)
    ensures
        r == unescape_splits_char(crate::text::utf8(s@), 0),
{
    let b = s.as_bytes();
    let ghost bs = b@;
    assert(bs == s.spec_bytes());
    proof {
        vstd::utf8::encode_utf8_valid_utf8(s@);
    }
    let mut i: usize = 0;
    while i < b.len()
        invariant
            b@ == bs,
            bs == crate::text::utf8(s@),
            vstd::utf8::valid_utf8(bs),
            0 <= i <= bs.len(),
            unescape_splits_char(bs, 0) == unescape_splits_char(bs, i as int),
        decreases bs.len() - i,
    {
        if b[i] == 92 && b.len() - i > 3 {
            if i + 4 < b.len() {
                proof {
                    vstd::utf8::is_char_boundary_iff_not_is_continuation_byte(bs, i + 4);
                }
                if 0x80 <= b[i + 4] && b[i + 4] <= 0xbf {
                    return true;
                }
            } else {
                proof {
                    vstd::utf8::is_char_boundary_start_end_of_seq(bs);
                }
            }
            let mut w: Vec<char> = Vec::new();
            w.push(b[i + 1] as char);
            w.push(b[i + 2] as char);
            w.push(b[i + 3] as char);
            assert(w@.subrange(0, 3) =~= octal_bytes(bs, i as int));
            match parse_unsigned_range(&w, 0, 3, 8, 255) {
                Some(_) => {
                    i += 4;
                    continue ;
                },
                None => {},
            }
        }
        i += 1;
    }
    false
}

/// Same as [`unescape`], for callers outside this module that compare mount points.
pub fn unescape_public(s: &str) -> (r: String)
    requires
        !unescape_splits_char(crate::text::utf8(s@), 0),
    ensures
        r@ == unescape_from(s@, 0),
{
    unescape(s)
}

// ---------------------------------------------------------------------------------------------
// Reading /proc/mounts
// ---------------------------------------------------------------------------------------------

/// What a mount line becomes as a place, before duplicates are dropped; `None` for lines of
/// fewer than three fields, the root filesystem, plumbing (pseudo and unknown filesystems, local
/// mounts not backed by a `/dev/` device, anything under `/boot` or `/run`).
pub open spec fn place_of_line(line: Seq<char>, removable: Seq<Seq<char>>) -> Option<PlaceView> {
    let w = words(line);
    if w.len() < 3 {
        None
    } else {
        let source = w[0];
        let target = unescape_from(w[1], 0);
        let fstype = w[2];
        let net = is_network_fs(fstype);
        if target == "/"@ {
            None
        } else if !net && !is_local_fs(fstype) {
            None
        } else if !net && !has_prefix(source, "/dev/"@) {
            None
        } else if !net && (has_prefix(target, "/boot"@) || has_prefix(target, "/run"@)) {
            None
        } else {
            Some(
                PlaceView {
                    name: match file_name(target) {
                        Some(n) => n,
                        None => target,
                    },
                    path: target,
                    kind: if net {
                        Kind::Network
                    } else if removable.contains(source) {
                        Kind::Removable
                    } else {
                        Kind::Local
                    },
                    fstype,
                    host: if net {
                        host_of_source(source)
                    } else {
                        None
                    },
                },
            )
        }
    }
}

/// Whether `places` already holds a place at `path` (paths compared as `Path`s).
pub open spec fn has_path(places: Seq<PlaceView>, path: Seq<char>) -> bool {
    exists|k: int| 0 <= k < places.len() && components(#[trigger] places[k].path) == components(path)
}

/// What every place is: not the root filesystem, on a network or known local filesystem
/// (network exactly when its kind says so), and, when local, not under `/boot` or `/run`.
pub open spec fn real_place(p: PlaceView) -> bool {
    &&& p.path != "/"@
    &&& is_network_fs(p.fstype) || is_local_fs(p.fstype)
    &&& (p.kind == Kind::Network) == is_network_fs(p.fstype)
    &&& p.kind != Kind::Network ==> !has_prefix(p.path, "/boot"@) && !has_prefix(p.path, "/run"@)
}

/// The places of the mount lines `ls`, in order, the first mount at each path winning.
pub open spec fn places_of_lines(ls: Seq<Seq<char>>, removable: Seq<Seq<char>>) -> Seq<PlaceView>
    decreases ls.len(),
{
    if ls.len() == 0 {
        Seq::empty()
    } else {
        let acc = places_of_lines(ls.drop_last(), removable);
        match place_of_line(ls.last(), removable) {
            Some(p) => if has_path(acc, p.path) {
                acc
            } else {
                acc.push(p)
            },
            None => acc,
        }
    }
}

/// Whatever `/proc/mounts` holds, the root filesystem and the plumbing never become places,
/// and no mount point is listed twice.
pub proof fn lemma_places_are_real(ls: Seq<Seq<char>>, removable: Seq<Seq<char>>)
    ensures
        forall|k: int|
            0 <= k < places_of_lines(ls, removable).len() ==> real_place(
                #[trigger] places_of_lines(ls, removable)[k],
            ),
        forall|j: int, k: int|
            0 <= j < k < places_of_lines(ls, removable).len() ==> components(
                #[trigger] places_of_lines(ls, removable)[j].path,
            ) != components(#[trigger] places_of_lines(ls, removable)[k].path),
    decreases ls.len(),
{
    if ls.len() > 0 {
        let acc = places_of_lines(ls.drop_last(), removable);
        lemma_places_are_real(ls.drop_last(), removable);
        match place_of_line(ls.last(), removable) {
            Some(p) => {
                if !has_path(acc, p.path) {
                    let r = acc.push(p);
                    assert(places_of_lines(ls, removable) == r);
                    assert forall|j: int, k: int| 0 <= j < k < r.len() implies components(
                        #[trigger] r[j].path,
                    ) != components(#[trigger] r[k].path) by {
                        if k == r.len() - 1 {
                            if components(r[j].path) == components(p.path) {
                                assert(acc[j] == r[j]);
                                assert(has_path(acc, p.path));
                            }
                        } else {
                            assert(acc[j] == r[j] && acc[k] == r[k]);
                        }
                    }
                    assert forall|k: int| 0 <= k < r.len() implies real_place(#[trigger] r[k]) by {
                        if k < acc.len() {
                            assert(acc[k] == r[k]);
                        }
                    }
                }
            },
            None => {},
        }
    }
}

/// No mount line of `text` with three fields has a mount point whose decoding would cut a
/// character in two.
pub open spec fn mount_text_decodable(text: Seq<char>) -> bool {
    forall|i: int|
        0 <= i < lines(text).len() && words(#[trigger] lines(text)[i]).len() >= 3
            ==> !unescape_splits_char(crate::text::utf8(words(lines(text)[i])[1]), 0)
}

/// Whether every mount point of `text` decodes without cutting a character in two: the
/// condition [`places_from`] needs.
pub fn mount_text_ok(text: &str) -> (r: bool)
    ensures
        r == mount_text_decodable(text@),
{
    let ls = lines_of(text);
    let mut i: usize = 0;
    while i < ls.len()
        invariant
            0 <= i <= ls.len(),
            views(ls@) == lines(text@),
            forall|k: int|
                0 <= k < i && words(#[trigger] lines(text@)[k]).len() >= 3 ==> !unescape_splits_char(
                    crate::text::utf8(words(lines(text@)[k])[1]),
                    0,
                ),
        decreases ls.len() - i,
    {
        let w = words_of(ls[i].as_str());
        assert(lines(text@)[i as int] == ls@[i as int]@);
        if w.len() >= 3 {
            assert(views(w@)[1] == w@[1]@);
            if unescape_would_split(w[1].as_str()) {
                return false;
            }
        }
        i += 1;
    }
    true
}

/// The devices named by the mount lines `ls`, in order: each line's first field, when it starts
/// with `/dev/`.
pub open spec fn devices_of(ls: Seq<Seq<char>>) -> Seq<Seq<char>>
    decreases ls.len(),
{
    if ls.len() == 0 {
        Seq::empty()
    } else {
        let init = devices_of(ls.drop_last());
        let w = words(ls.last());
        if w.len() >= 1 && has_prefix(w[0], "/dev/"@) {
            init.push(w[0])
        } else {
            init
        }
    }
}

/// The devices named by the mount lines of `text`, for the caller to ask which are removable.
pub fn block_sources(text: &str) -> (r: Vec<String>)
    ensures
        views(r@) == devices_of(lines(text@)),
{
    let ls = lines_of(text);
    let mut r: Vec<String> = Vec::new();
    let mut i: usize = 0;
    while i < ls.len()
        invariant
            0 <= i <= ls.len(),
            views(ls@) == lines(text@),
            views(r@) == devices_of(views(ls@).subrange(0, i as int)),
        decreases ls.len() - i,
    {
        let ghost upto = views(ls@).subrange(0, i + 1);
        assert(upto.drop_last() =~= views(ls@).subrange(0, i as int));
        assert(upto.last() == ls@[i as int]@);
        let w = words_of(ls[i].as_str());
        if w.len() >= 1 {
            assert(views(w@)[0] == w@[0]@);
        }
        if w.len() >= 1 && starts_with(w[0].as_str(), "/dev/") {
            let ghost before = r@;
            r.push(w[0].clone());
            assert(views(r@) =~= views(before).push(w@[0]@));
        }
        i += 1;
    }
    assert(views(ls@).subrange(0, ls@.len() as int) =~= views(ls@));
    r
}

fn lists_str(v: &Vec<String>, s: &str) -> (r: bool)
    ensures
        r == views(v@).contains(s@),
{
    let mut i: usize = 0;
    while i < v.len()
        invariant
            0 <= i <= v.len(),
            forall|k: int| 0 <= k < i ==> views(v@)[k] != s@,
        decreases v.len() - i,
    {
        if str_eq(v[i].as_str(), s) {
            assert(views(v@)[i as int] == s@);
            return true;
        }
        i += 1;
    }
    false
}

fn place_from_line(line: &str, removable: &Vec<String>) -> (r: Option<Place>)
    requires
        words(line@).len() >= 3 ==> !unescape_splits_char(crate::text::utf8(words(line@)[1]), 0),
    ensures
        match r {
            Some(p) => place_of_line(line@, views(removable@)) == Some(p@),
            None => place_of_line(line@, views(removable@)) is None,
        },
{
    proof {
        reveal_strlit("/");
        reveal_strlit("/dev/");
        reveal_strlit("/boot");
        reveal_strlit("/run");
    }
    let w = words_of(line);
    if w.len() < 3 {
        return None;
    }
    let source = &w[0];
    let fstype = &w[2];
    let target = unescape(w[1].as_str());
    let net = is_network(fstype.as_str());
    if str_eq(target.as_str(), "/") {
        return None;
    }
    if !net && !is_local(fstype.as_str()) {
        return None;
    }
    if !net && !starts_with(source.as_str(), "/dev/") {
        return None;
    }
    if !net && (starts_with(target.as_str(), "/boot") || starts_with(target.as_str(), "/run")) {
        return None;
    }
    let name = match path_file_name(target.as_str()) {
        Some(n) => n,
        None => target.clone(),
    };
    let kind = if net {
        Kind::Network
    } else if lists_str(removable, source.as_str()) {
        Kind::Removable
    } else {
        Kind::Local
    };
    let host = if net {
        host_of(source.as_str())
    } else {
        None
    };
    Some(Place { name, path: target, kind, fstype: fstype.clone(), host })
}

/// Everything mounted that a person would call a drive or a network location, from the text of
/// `/proc/mounts`. `removable` lists the devices whose disk is removable.
///
/// The root filesystem has its own "Computer" entry, and `proc`, `sysfs` and the tmpfs mounts are
/// noise, so none of them is a place.
pub fn places_from(text: &str, removable: &Vec<String>) -> (r: Vec<Place>)
    requires
        mount_text_decodable(text@),
    ensures
        place_views(r@) == places_of_lines(lines(text@), views(removable@)),
{
    let ls = lines_of(text);
    let mut out: Vec<Place> = Vec::new();
    let mut i: usize = 0;
    while i < ls.len()
        invariant
            0 <= i <= ls.len(),
            views(ls@) == lines(text@),
            mount_text_decodable(text@),
            place_views(out@) == places_of_lines(views(ls@).subrange(0, i as int), views(removable@)),
        decreases ls.len() - i,
    {
        let ghost upto = views(ls@).subrange(0, i + 1);
        assert(upto.drop_last() =~= views(ls@).subrange(0, i as int));
        assert(upto.last() == ls@[i as int]@);
        assert(lines(text@)[i as int] == ls@[i as int]@);
        match place_from_line(ls[i].as_str(), removable) {
            Some(p) => {
                let mut seen = false;
                let mut k: usize = 0;
                while k < out.len()
                    invariant
                        0 <= k <= out.len(),
                        place_views(out@) == places_of_lines(
                            views(ls@).subrange(0, i as int),
                            views(removable@),
                        ),
                        !seen ==> forall|j: int|
                            0 <= j < k ==> components(#[trigger] place_views(out@)[j].path)
                                != components(p@.path),
                        seen ==> has_path(place_views(out@), p@.path),
                    decreases out.len() - k,
                {
                    if !seen && same_path(out[k].path.as_str(), p.path.as_str()) {
                        seen = true;
                        assert(place_views(out@)[k as int].path == out@[k as int].path@);
                    }
                    k += 1;
                }
                if !seen {
                    let ghost before = out@;
                    out.push(p);
                    assert(place_views(out@) =~= place_views(before).push(p@));
                    assert(!has_path(place_views(before), p@.path));
                }
            },
            None => {},
        }
        i += 1;
    }
    assert(views(ls@).subrange(0, ls@.len() as int) =~= views(ls@));
    out
}

// ---------------------------------------------------------------------------------------------
// Grouping and ordering
// ---------------------------------------------------------------------------------------------

/// Places ordered by name, ignoring case.
pub struct ByName;

impl Ranking<Place> for ByName {
    open spec fn precedes(&self, a: Place, b: Place) -> bool {
        lex_lt(lowercase(a.name@), lowercase(b.name@))
    }

    proof fn lemma_weak_order(&self, a: Place, b: Place, c: Place) {
        crate::text::lemma_lex_weak(lowercase(a.name@), lowercase(b.name@), lowercase(c.name@));
    }

    fn goes_before(&self, a: &Place, b: &Place) -> (r: bool) {
        crate::text::lower_before(a.name.as_str(), b.name.as_str())
    }
}

/// Local drives: removable ones first, then by name, ignoring case.
pub struct RemovableFirst;

pub open spec fn fixed_rank(p: Place) -> bool {
    p.kind != Kind::Removable
}

impl Ranking<Place> for RemovableFirst {
    open spec fn precedes(&self, a: Place, b: Place) -> bool {
        (!fixed_rank(a) && fixed_rank(b)) || (fixed_rank(a) == fixed_rank(b) && lex_lt(
            lowercase(a.name@),
            lowercase(b.name@),
        ))
    }

    proof fn lemma_weak_order(&self, a: Place, b: Place, c: Place) {
        crate::text::lemma_lex_weak(lowercase(a.name@), lowercase(b.name@), lowercase(c.name@));
    }

    fn goes_before(&self, a: &Place, b: &Place) -> (r: bool) {
        let fa = a.kind != Kind::Removable;
        let fb = b.kind != Kind::Removable;
        if fa != fb {
            !fa
        } else {
            crate::text::lower_before(a.name.as_str(), b.name.as_str())
        }
    }
}

/// Strings in `String` order.
pub struct ByText;

impl Ranking<String> for ByText {
    open spec fn precedes(&self, a: String, b: String) -> bool {
        lex_lt(a@, b@)
    }

    proof fn lemma_weak_order(&self, a: String, b: String, c: String) {
        crate::text::lemma_lex_weak(a@, b@, c@);
    }

    fn goes_before(&self, a: &String, b: &String) -> (r: bool) {
        crate::text::lex_before(a.as_str(), b.as_str())
    }
}

/// The network places at host `h`, in order.
pub open spec fn host_places(ps: Seq<Place>, h: Seq<char>) -> Seq<Place>
    decreases ps.len(),
{
    if ps.len() == 0 {
        Seq::empty()
    } else {
        let init = host_places(ps.drop_last(), h);
        let p = ps.last();
        if p.kind == Kind::Network && p@.host == Some(h) {
            init.push(p)
        } else {
            init
        }
    }
}

/// The local (non-network) places, in order.
pub open spec fn local_places(ps: Seq<Place>) -> Seq<Place>
    decreases ps.len(),
{
    if ps.len() == 0 {
        Seq::empty()
    } else {
        let init = local_places(ps.drop_last());
        if ps.last().kind != Kind::Network {
            init.push(ps.last())
        } else {
            init
        }
    }
}

/// Whether some network place of `ps` is at host `h`.
pub open spec fn has_host(ps: Seq<Place>, h: Seq<char>) -> bool {
    exists|k: int| 0 <= k < ps.len() && ps[k].kind == Kind::Network && #[trigger] ps[k]@.host == Some(h)
}

fn places_at(ps: &Vec<Place>, h: &str) -> (r: Vec<Place>)
    ensures
        r@ == host_places(ps@, h@),
{
    let mut r: Vec<Place> = Vec::new();
    let mut i: usize = 0;
    while i < ps.len()
        invariant
            0 <= i <= ps.len(),
            r@ == host_places(ps@.subrange(0, i as int), h@),
        decreases ps.len() - i,
    {
        let ghost upto = ps@.subrange(0, i + 1);
        assert(upto.drop_last() =~= ps@.subrange(0, i as int));
        assert(upto.last() == ps@[i as int]);
        let p = &ps[i];
        let at = match &p.host {
            Some(x) => p.kind == Kind::Network && str_eq(x.as_str(), h),
            None => false,
        };
        if at {
            let ghost before = r@;
            r.push(p.duplicate());
            assert(r@ =~= before.push(ps@[i as int]));
        }
        i += 1;
    }
    assert(ps@.subrange(0, ps@.len() as int) =~= ps@);
    r
}

fn distinct_hosts(ps: &Vec<Place>) -> (r: Vec<String>)
    ensures
        forall|i: int, j: int| 0 <= i < j < r@.len() ==> #[trigger] r@[i]@ != #[trigger] r@[j]@,
        forall|i: int| 0 <= i < r@.len() ==> has_host(ps@, #[trigger] r@[i]@),
        forall|h: Seq<char>| has_host(ps@, h) ==> exists|i: int| 0 <= i < r@.len() && #[trigger] r@[i]@ == h,
{
    let mut r: Vec<String> = Vec::new();
    let mut i: usize = 0;
    while i < ps.len()
        invariant
            0 <= i <= ps.len(),
            forall|a: int, b: int| 0 <= a < b < r@.len() ==> #[trigger] r@[a]@ != #[trigger] r@[b]@,
            forall|a: int| 0 <= a < r@.len() ==> has_host(ps@, #[trigger] r@[a]@),
            forall|k: int|
                0 <= k < i && ps@[k].kind == Kind::Network && ps@[k]@.host is Some ==> exists|a: int|
                    0 <= a < r@.len() && #[trigger] r@[a]@ == ps@[k]@.host->0,
        decreases ps.len() - i,
    {
        let p = &ps[i];
        if p.kind == Kind::Network {
            match &p.host {
                Some(h) => {
                    let mut found = false;
                    let mut j: usize = 0;
                    while j < r.len()
                        invariant
                            0 <= j <= r@.len(),
                            found ==> exists|a: int| 0 <= a < r@.len() && #[trigger] r@[a]@ == h@,
                            !found ==> forall|a: int| 0 <= a < j ==> #[trigger] r@[a]@ != h@,
                        decreases r.len() - j,
                    {
                        if str_eq(r[j].as_str(), h.as_str()) {
                            found = true;
                        }
                        j += 1;
                    }
                    assert(has_host(ps@, h@)) by {
                        assert(ps@[i as int]@.host == Some(h@));
                    }
                    let ghost old_r = r@;
                    if !found {
                        r.push(h.clone());
                    }
                    assert forall|k: int|
                        0 <= k < i + 1 && ps@[k].kind == Kind::Network && ps@[k]@.host is Some implies exists|a: int|
                            0 <= a < r@.len() && #[trigger] r@[a]@ == ps@[k]@.host->0 by {
                        if k < i {
                            let a = choose|a: int| 0 <= a < old_r.len() && #[trigger] old_r[a]@ == ps@[k]@.host->0;
                            assert(r@[a] == old_r[a]);
                        } else if found {
                            let a = choose|a: int| 0 <= a < r@.len() && #[trigger] r@[a]@ == h@;
                            assert(ps@[k]@.host->0 == h@);
                        } else {
                            assert(r@[old_r.len() as int]@ == h@);
                        }
                    }
                },
                None => {},
            }
        }
        i += 1;
    }
    assert forall|h: Seq<char>| has_host(ps@, h) implies exists|a: int|
        0 <= a < r@.len() && #[trigger] r@[a]@ == h by {
        let k = choose|k: int| 0 <= k < ps@.len() && ps@[k].kind == Kind::Network && #[trigger] ps@[k]@.host == Some(h);
    }
    r
}

/// Whether `display` is what `rename` says a host is called: its answer for `host`, or the host
/// itself when it has none.
pub open spec fn shown_as<F: Fn(&String) -> Option<String>>(rename: &F, host: String, display: Seq<char>) -> bool {
    exists|x: Option<String>| #[trigger] rename.ensures((&host,), x) && display == match x {
        Some(d) => d@,
        None => host@,
    }
}

/// One network host: its name, the name to show for it, and its mount points.
pub struct HostEntry {
    pub host: String,
    pub display: String,
    pub mounts: Vec<Place>,
}

/// Network places grouped by host: one entry per machine, hosts in order, each with its mount
/// points ordered by name (ignoring case). `rename` gives the friendly name a host has been
/// given, if any; the host itself is shown otherwise.
pub fn network_hosts(places: &Vec<Place>, rename: impl Fn(&String) -> Option<String>) -> (r: Vec<
    HostEntry,
>)
    requires
        forall|h: &String| rename.requires((h,)),
    ensures
        forall|i: int, j: int| 0 <= i < j < r@.len() ==> lex_lt(#[trigger] r@[i].host@, #[trigger] r@[j].host@),
        forall|i: int| 0 <= i < r@.len() ==> has_host(places@, #[trigger] r@[i].host@),
        forall|h: Seq<char>| has_host(places@, h) ==> exists|i: int| 0 <= i < r@.len() && #[trigger] r@[i].host@ == h,
        forall|i: int| 0 <= i < r@.len() ==> stable_sort_of(&ByName, host_places(places@, #[trigger] r@[i].host@), r@[i].mounts@),
        forall|i: int| 0 <= i < r@.len() ==> shown_as(&rename, #[trigger] r@[i].host, r@[i].display@),
{
    let hosts = distinct_hosts(places);
    let ghost unsorted = hosts@;
    let sorted = stable_sort(&ByText, hosts);
    proof {
        crate::sort::lemma_sort_members(&ByText, unsorted, sorted@);
        let p = choose|p: Seq<int>| crate::sort::stable_arrangement(&ByText, unsorted, sorted@, p);
        assert forall|i: int, j: int| 0 <= i < j < sorted@.len() implies lex_lt(#[trigger] sorted@[i]@, #[trigger] sorted@[j]@) by {
            assert(sorted@[i] == unsorted[p[i]]);
            assert(sorted@[j] == unsorted[p[j]]);
            if p[i] < p[j] {
                assert(unsorted[p[i]]@ != unsorted[p[j]]@);
            } else {
                assert(unsorted[p[j]]@ != unsorted[p[i]]@);
            }
            crate::text::lemma_lex_total(sorted@[i]@, sorted@[j]@);
        }
    }
    let mut r: Vec<HostEntry> = Vec::new();
    let mut i: usize = 0;
    while i < sorted.len()
        invariant
            0 <= i <= sorted@.len(),
            forall|h: &String| rename.requires((h,)),
            r@.len() == i,
            forall|a: int| 0 <= a < i ==> #[trigger] r@[a].host == sorted@[a],
            forall|a: int| 0 <= a < i ==> stable_sort_of(&ByName, host_places(places@, #[trigger] r@[a].host@), r@[a].mounts@),
            forall|a: int| 0 <= a < i ==> shown_as(&rename, #[trigger] r@[a].host, r@[a].display@),
        decreases sorted.len() - i,
    {
        let host = sorted[i].clone();
        let mounts = places_at(places, host.as_str());
        let ordered = stable_sort(&ByName, mounts);
        let named = rename(&host);
        let ghost named_v = named;
        let display = match named {
            Some(d) => d,
            None => host.clone(),
        };
        let ghost before = r@;
        r.push(HostEntry { host, display, mounts: ordered });
        assert forall|a: int| 0 <= a < i + 1 implies shown_as(&rename, #[trigger] r@[a].host, r@[a].display@) by {
            if a < i {
                assert(r@[a] == before[a]);
            } else {
                assert(rename.ensures((&r@[a].host,), named_v));
            }
        }
        i += 1;
    }
    proof {
        assert forall|i: int| 0 <= i < r@.len() implies has_host(places@, #[trigger] r@[i].host@) by {
            assert(unsorted.contains(sorted@[i]));
            let k = choose|k: int| 0 <= k < unsorted.len() && unsorted[k] == sorted@[i];
        }
        assert forall|h: Seq<char>| has_host(places@, h) implies exists|i: int| 0 <= i < r@.len() && #[trigger] r@[i].host@ == h by {
            let k = choose|k: int| 0 <= k < unsorted.len() && #[trigger] unsorted[k]@ == h;
            assert(sorted@.contains(unsorted[k]));
            let j = choose|j: int| 0 <= j < sorted@.len() && sorted@[j] == unsorted[k];
            assert(r@[j].host@ == h);
        }
    }
    r
}

/// Local drives, removable first (those are the ones people came looking for), then by name.
pub fn local_drives(places: &Vec<Place>) -> (r: Vec<Place>)
    ensures
        stable_sort_of(&RemovableFirst, local_places(places@), r@),
{
    let mut v: Vec<Place> = Vec::new();
    let mut i: usize = 0;
    while i < places.len()
        invariant
            0 <= i <= places.len(),
            v@ == local_places(places@.subrange(0, i as int)),
        decreases places.len() - i,
    {
        let ghost upto = places@.subrange(0, i + 1);
        assert(upto.drop_last() =~= places@.subrange(0, i as int));
        assert(upto.last() == places@[i as int]);
        if places[i].kind != Kind::Network {
            let ghost before = v@;
            v.push(places[i].duplicate());
            assert(v@ =~= before.push(places@[i as int]));
        }
        i += 1;
    }
    assert(places@.subrange(0, places@.len() as int) =~= places@);
    stable_sort(&RemovableFirst, v)
}

/// Among the local drives as listed, no network place appears, and every removable drive comes
/// before every fixed one.
pub proof fn lemma_drives_removable_first(places: Seq<Place>, drives: Seq<Place>)
    requires
        stable_sort_of(&RemovableFirst, local_places(places), drives),
    ensures
        forall|k: int| 0 <= k < drives.len() ==> (#[trigger] drives[k]).kind != Kind::Network,
        forall|i: int, j: int|
            0 <= i < j < drives.len() && (#[trigger] drives[j]).kind == Kind::Removable ==> (
            #[trigger] drives[i]).kind == Kind::Removable,
{
    crate::sort::lemma_sort_members(&RemovableFirst, local_places(places), drives);
    lemma_local_places_local(places);
    assert forall|k: int| 0 <= k < drives.len() implies (#[trigger] drives[k]).kind != Kind::Network by {
        let l = local_places(places);
        assert(l.contains(drives[k]));
        let j = choose|j: int| 0 <= j < l.len() && l[j] == drives[k];
    }
    assert forall|i: int, j: int|
        0 <= i < j < drives.len() && (#[trigger] drives[j]).kind == Kind::Removable implies (
        #[trigger] drives[i]).kind == Kind::Removable by {
        assert(!RemovableFirst.precedes(drives[j], drives[i]));
    }
}

proof fn lemma_local_places_local(ps: Seq<Place>)
    ensures
        forall|k: int| 0 <= k < local_places(ps).len() ==> (#[trigger] local_places(ps)[k]).kind
            != Kind::Network,
    decreases ps.len(),
{
    if ps.len() > 0 {
        lemma_local_places_local(ps.drop_last());
    }
}

pub open spec fn icon_name(k: Kind) -> Seq<char> {
    match k {
        Kind::Removable => "drive-removable-media-symbolic"@,
        Kind::Local => "drive-harddisk-symbolic"@,
        Kind::Network => "folder-remote-symbolic"@,
    }
}

/// The icon a place is shown with.
pub fn icon_for(place: &Place) -> (r: &'static str)
    ensures
        r@ == icon_name(place.kind),
{
    match place.kind {
        Kind::Removable => "drive-removable-media-symbolic",
        Kind::Local => "drive-harddisk-symbolic",
        Kind::Network => "folder-remote-symbolic",
    }
}

/// Whether a filesystem is FUSE (unmounted with `fusermount3`, unprivileged).
pub open spec fn is_fuse(fstype: Seq<char>) -> bool {
    has_prefix(fstype, "fuse."@) || fstype == "sshfs"@
}

/// The right way to unmount a place, and whether it needs root: FUSE mounts (sshfs) go through
/// `fusermount3`, since plain `umount` fails for an ordinary user; everything else uses
/// `umount`, which needs root.
pub fn umount_argv_for(p: &Place) -> (r: (Vec<String>, bool))
    ensures
        is_fuse(p.fstype@) ==> views(r.0@) == seq!["fusermount3"@, "-u"@, p.path@] && !r.1,
        !is_fuse(p.fstype@) ==> views(r.0@) == seq!["umount"@, p.path@] && r.1,
{
    let mut v: Vec<String> = Vec::new();
    if starts_with(p.fstype.as_str(), "fuse.") || str_eq(p.fstype.as_str(), "sshfs") {
        v.push(owned("fusermount3"));
        v.push(owned("-u"));
        v.push(p.path.clone());
        assert(views(v@) =~= seq!["fusermount3"@, "-u"@, p.path@]);
        (v, false)
    } else {
        v.push(owned("umount"));
        v.push(p.path.clone());
        assert(views(v@) =~= seq!["umount"@, p.path@]);
        (v, true)
    }
}

/// Registry key holding the friendly name of a host, e.g. `hostname:webgen`.
pub fn rename_key(host: &str) -> (r: String)
    ensures
        r@ == "hostname:"@ + host@,
{
    concat("hostname:", host)
}

/// What the places list shows, in one string: each place's path and filesystem type. The
/// sidebar is rebuilt only when this changes.
pub open spec fn fingerprint_of(ps: Seq<Place>) -> Seq<char> {
    join(place_keys(ps), seq!['\u{2}'])
}

/// Each place's path and filesystem type, joined by `\u{1}`.
pub open spec fn place_keys(ps: Seq<Place>) -> Seq<Seq<char>> {
    ps.map_values(|p: Place| p.path@ + seq!['\u{1}'] + p.fstype@)
}

pub fn fingerprint(places: &Vec<Place>) -> (r: String)
    ensures
        r@ == fingerprint_of(places@),
{
    let mut parts: Vec<String> = Vec::new();
    let mut i: usize = 0;
    while i < places.len()
        invariant
            0 <= i <= places.len(),
            views(parts@) == place_keys(places@.subrange(0, i as int)),
        decreases places.len() - i,
    {
        let mut s = places[i].path.clone();
        push_char(&mut s, '\u{1}');
        push_str(&mut s, places[i].fstype.as_str());
        let ghost before = parts@;
        let ghost sv = s@;
        assert(sv == places@[i as int].path@ + seq!['\u{1}'] + places@[i as int].fstype@);
        parts.push(s);
        assert(views(parts@) =~= views(before).push(sv));
        assert(place_keys(places@.subrange(0, i + 1)) =~= place_keys(places@.subrange(0, i as int)).push(sv));
        assert(views(parts@) =~= place_keys(places@.subrange(0, i + 1)));
        i += 1;
    }
    assert(places@.subrange(0, places@.len() as int) =~= places@);
    let mut sep = String::new();
    push_char(&mut sep, '\u{2}');
    join_strs(&parts, sep.as_str())
}

// ---------------------------------------------------------------------------------------------
// Is it mounted?
// ---------------------------------------------------------------------------------------------

/// Whether some line of `ls`, from `i` on, has a second field that decodes to `target`.
pub open spec fn mounted_in(ls: Seq<Seq<char>>, i: int, target: Seq<char>) -> bool
    decreases ls.len() - i,
{
    if i < 0 || i >= ls.len() {
        false
    } else if words(ls[i]).len() >= 2 && unescape_from(words(ls[i])[1], 0) == target {
        true
    } else {
        mounted_in(ls, i + 1, target)
    }
}

/// Whether scanning `ls` from `i` for `target` decodes a field that cuts a character in two
/// before it finds a match.
pub open spec fn scan_splits_char(ls: Seq<Seq<char>>, i: int, target: Seq<char>) -> bool
    decreases ls.len() - i,
{
    if i < 0 || i >= ls.len() {
        false
    } else if words(ls[i]).len() >= 2 {
        let b = crate::text::utf8(words(ls[i])[1]);
        if unescape_splits_char(b, 0) {
            true
        } else if unescape_from(words(ls[i])[1], 0) == target {
            false
        } else {
            scan_splits_char(ls, i + 1, target)
        }
    } else {
        scan_splits_char(ls, i + 1, target)
    }
}

/// Whether looking for `target` in the mount table `text` decodes only fields that keep their
/// characters whole: the condition [`mounted_at`] needs.
pub fn mount_scan_ok(text: &str, target: &str) -> (r: bool)
    ensures
        r == !scan_splits_char(lines(text@), 0, target@),
{
    let ls = lines_of(text);
    let ghost lv = views(ls@);
    let mut i: usize = 0;
    while i < ls.len()
        invariant
            0 <= i <= ls.len(),
            lv == views(ls@),
            lv == lines(text@),
            scan_splits_char(lv, 0, target@) == scan_splits_char(lv, i as int, target@),
        decreases ls.len() - i,
    {
        let w = words_of(ls[i].as_str());
        assert(lv[i as int] == ls@[i as int]@);
        if w.len() >= 2 {
            assert(views(w@)[1] == w@[1]@);
            if unescape_would_split(w[1].as_str()) {
                return false;
            }
            let m = unescape(w[1].as_str());
            if str_eq(m.as_str(), target) {
                return true;
            }
        }
        i += 1;
    }
    true
}

/// Whether the mount table `text` (as `/proc/mounts` reads) has something mounted at `target`.
pub fn mounted_at(text: &str, target: &str) -> (r: bool)
    requires
        !scan_splits_char(lines(text@), 0, target@),
    ensures
        r == mounted_in(lines(text@), 0, target@),
{
    let ls = lines_of(text);
    let ghost lv = views(ls@);
    let mut i: usize = 0;
    while i < ls.len()
        invariant
            0 <= i <= ls.len(),
            lv == views(ls@),
            lv == lines(text@),
            mounted_in(lv, 0, target@) == mounted_in(lv, i as int, target@),
            !scan_splits_char(lv, i as int, target@),
        decreases ls.len() - i,
    {
        let w = words_of(ls[i].as_str());
        assert(lv[i as int] == ls@[i as int]@);
        if w.len() >= 2 {
            let m = unescape(w[1].as_str());
            if str_eq(m.as_str(), target) {
                return true;
            }
        }
        i += 1;
    }
    false
}

// ---------------------------------------------------------------------------------------------
// Removable disks
// ---------------------------------------------------------------------------------------------

/// The files that say whether the disk behind the device `source` is removable: the whole
/// disk's flag, then the device's own. `None` for a source that is not a `/dev/` device.
pub fn removable_flag_paths(source: &str) -> (r: Option<(String, String)>)
    ensures
        match r {
            Some((whole, own)) => has_prefix(source@, "/dev/"@) && whole@ == path_join(
                path_join("/sys/class/block"@, source@.subrange(5, source@.len() as int)),
                "../removable"@,
            ) && own@ == path_join(
                path_join("/sys/class/block"@, source@.subrange(5, source@.len() as int)),
                "removable"@,
            ),
            None => !has_prefix(source@, "/dev/"@),
        },
{
    proof {
        reveal_strlit("/dev/");
    }
    if !starts_with(source, "/dev/") {
        return None;
    }
    let v = crate::text::chars_of(source);
    let dev = crate::text::string_of_range(&v, 5, v.len());
    let part = crate::text::join_path("/sys/class/block", dev.as_str());
    Some((
        crate::text::join_path(part.as_str(), "../removable"),
        crate::text::join_path(part.as_str(), "removable"),
    ))
}

/// Whether a flag file read as `1`, give or take whitespace.
pub open spec fn flag_set(read: Option<String>) -> bool {
    match read {
        Some(t) => trim(t@) == "1"@,
        None => false,
    }
}

/// Whether the disk is removable, from what the flag files held (in the order
/// [`removable_flag_paths`] gives them; `None` for one that could not be read): some file
/// reads `1`, give or take whitespace.
pub fn removable_from(reads: &Vec<Option<String>>) -> (r: bool)
    ensures
        r == exists|k: int| 0 <= k < reads@.len() && flag_set(#[trigger] reads@[k]),
{
    let mut i: usize = 0;
    while i < reads.len()
        invariant
            0 <= i <= reads@.len(),
            forall|k: int| 0 <= k < i ==> !flag_set(#[trigger] reads@[k]),
        decreases reads.len() - i,
    {
        match &reads[i] {
            Some(t) => {
                if crate::text::str_eq(crate::text::trim_str(t.as_str()).as_str(), "1") {
                    assert(flag_set(reads@[i as int]));
                    return true;
                }
            },
            None => {},
        }
        i += 1;
    }
    false
}

} // verus!
