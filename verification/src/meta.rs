//! What the "Info" dialog says about a file: size, permissions (octal and `rwx`), owner and
//! group, and dates.
//!
//! Reading the metadata is the program's part; it hands the plain values over and
//! [`info_from`] decides every line of the dialog.
use vstd::prelude::*;
use vstd::arithmetic::power2::{pow2, lemma2_to64, lemma2_to64_rest, lemma_pow2_adds};
use crate::sizes::{f64_of, f64_value, push_tenths, tenths_text};
use crate::text::{
    decimal, digit, file_name, lines, lines_of, owned, parent_of, parse_unsigned, parse_u32,
    path_file_name, path_parent, push_char, push_decimal, push_str, split, split_str, views,
};

verus! {

broadcast use vstd::string::group_string_axioms;

/// Everything the Info dialog shows, as text.
pub struct Info {
    pub name: String,
    pub location: String,
    pub kind: String,
    pub size: String,
    pub perms_octal: String,
    pub perms_rwx: String,
    pub owner: String,
    pub group: String,
    pub modified: String,
    pub accessed: String,
    pub created: String,
}

// ---------------------------------------------------------------------------------------------
// Sizes
// ---------------------------------------------------------------------------------------------

/// The unit the dialog shows `f` bytes in, as an index into B, KB, MB, GB, TB, PB, searching
/// from `i`: the value is divided by 1024 while it stays at least 1024, up to PB.
pub open spec fn info_unit(f: nat, i: nat) -> nat
    decreases 5 - i,
{
    if i < 5 && f >= pow2(10 * (i + 1)) {
        info_unit(f, i + 1)
    } else {
        i
    }
}

pub open spec fn info_unit_name(i: nat) -> Seq<char> {
    if i == 0 {
        "B"@
    } else if i == 1 {
        "KB"@
    } else if i == 2 {
        "MB"@
    } else if i == 3 {
        "GB"@
    } else if i == 4 {
        "TB"@
    } else {
        "PB"@
    }
}

/// The dialog's size line: `N bytes` below 1 KB, else the size to one decimal in the largest
/// unit that keeps it at least 1, followed by the exact count, e.g. `1.5 KB (1536 bytes)`.
pub open spec fn info_size_text(b: u64) -> Seq<char> {
    if b < 1024 {
        decimal(b as nat) + " bytes"@
    } else {
        let f = f64_value(b as nat);
        let i = info_unit(f, 0);
        tenths_text(f, pow2(10 * i)) + " "@ + info_unit_name(i) + " ("@ + decimal(b as nat)
            + " bytes)"@
    }
}

fn info_unit_str(i: usize) -> (r: &'static str)
    ensures
        r@ == info_unit_name(i as nat),
{
    if i == 0 {
        "B"
    } else if i == 1 {
        "KB"
    } else if i == 2 {
        "MB"
    } else if i == 3 {
        "GB"
    } else if i == 4 {
        "TB"
    } else {
        "PB"
    }
}

/// The size line for a file of `bytes` bytes.
pub fn human_size(bytes: u64) -> (r: String)
    ensures
        r@ == info_size_text(bytes),
{
    if bytes < 1024 {
        let mut s = String::new();
        push_decimal(&mut s, bytes);
        push_str(&mut s, " bytes");
        return s;
    }
    let f = f64_of(bytes);
    proof {
        lemma2_to64();
        lemma2_to64_rest();
        lemma_f64_keeps_small(bytes as nat);
    }
    let mut d: u128 = 1;
    let mut i: usize = 0;
    while i < 5 && f >= 1024 * d
        invariant
            i <= 5,
            d == pow2((10 * i) as nat),
            1 <= d <= 0x4_0000_0000_0000,
            i >= 1 ==> d >= 1024,
            i == 0 ==> d == 1,
            info_unit(f as nat, 0) == info_unit(f as nat, i as nat),
            f <= bytes + 2048,
        decreases 5 - i,
    {
        proof {
            lemma_pow2_adds((10 * i) as nat, 10);
            lemma2_to64();
            lemma2_to64_rest();
            if i < 4 {
                vstd::arithmetic::power2::lemma_pow2_strictly_increases((10 * (i + 1)) as nat, 50);
            }
        }
        d = d * 1024;
        i = i + 1;
    }
    let mut s = String::new();
    push_tenths(&mut s, f, d);
    push_str(&mut s, " ");
    push_str(&mut s, info_unit_str(i));
    push_str(&mut s, " (");
    push_decimal(&mut s, bytes);
    push_str(&mut s, " bytes)");
    s
}

/// A count of at least 1024 stays at least 1024 as an `f64`.
proof fn lemma_f64_keeps_small(b: nat)
    requires
        1024 <= b < 0x10000_0000_0000_0000,
    ensures
        f64_value(b) >= 1024,
{
    lemma2_to64();
    lemma2_to64_rest();
    if b < pow2(53) {
        assert(crate::sizes::f64_exp(b, 0) == 0);
        assert(f64_value(b) == b);
    } else {
        lemma_f64_at_least(b, 0);
    }
}

proof fn lemma_f64_at_least(b: nat, e: nat)
    requires
        e <= 11,
        b >= pow2(53),
        b < 0x10000_0000_0000_0000,
    ensures
        crate::sizes::div_round_even(b, pow2(crate::sizes::f64_exp(b, e))) * pow2(
            crate::sizes::f64_exp(b, e),
        ) >= 1024,
    decreases 11 - e,
{
    lemma2_to64();
    lemma2_to64_rest();
    let x = crate::sizes::f64_exp(b, e);
    if e < 11 && b >= pow2(53 + e) {
        lemma_f64_at_least(b, e + 1);
    } else {
        // The unit is 2^x with x <= 11, and the value holds at least 2^53 / 2^x of it.
        vstd::arithmetic::power2::lemma_pow2_pos(x);
        let u = pow2(x);
        assert(u <= 2048) by {
            if x < 11 {
                vstd::arithmetic::power2::lemma_pow2_strictly_increases(x, 11);
            }
        }
        let q = b / u;
        assert(q * u <= b && b < q * u + u) by (nonlinear_arith)
            requires
                u >= 1,
                q == b / u,
        ;
        assert(q >= 1024) by (nonlinear_arith)
            requires
                b >= 0x20_0000_0000_0000,
                b < q * u + u,
                u <= 2048,
                u >= 1,
        ;
        assert(crate::sizes::div_round_even(b, u) >= q);
        assert(crate::sizes::div_round_even(b, u) * u >= 1024) by (nonlinear_arith)
            requires
                crate::sizes::div_round_even(b, u) >= 1024,
                u >= 1,
        ;
    }
}

// ---------------------------------------------------------------------------------------------
// Permissions
// ---------------------------------------------------------------------------------------------

/// The character `ls -l` starts a mode with: the kind of file its type bits say.
pub open spec fn type_char(mode: u32) -> char {
    let t = mode & 0o170000;
    if t == 0o040000 {
        'd'
    } else if t == 0o120000 {
        'l'
    } else if t == 0o060000 {
        'b'
    } else if t == 0o020000 {
        'c'
    } else if t == 0o010000 {
        'p'
    } else if t == 0o140000 {
        's'
    } else {
        '-'
    }
}

/// `ch` when `bit` is set in `mode`, `-` when not.
pub open spec fn flag(mode: u32, bit: u32, ch: char) -> char {
    if mode & bit != 0 {
        ch
    } else {
        '-'
    }
}

/// `mode` as `ls -l` prints it, e.g. `0o40755` as `drwxr-xr-x`.
pub open spec fn rwx_text(mode: u32) -> Seq<char> {
    seq![
        type_char(mode),
        flag(mode, 0o400, 'r'),
        flag(mode, 0o200, 'w'),
        flag(mode, 0o100, 'x'),
        flag(mode, 0o040, 'r'),
        flag(mode, 0o020, 'w'),
        flag(mode, 0o010, 'x'),
        flag(mode, 0o004, 'r'),
        flag(mode, 0o002, 'w'),
        flag(mode, 0o001, 'x'),
    ]
}

fn flag_char(mode: u32, bit: u32, ch: char) -> (r: char)
    ensures
        r == flag(mode, bit, ch),
{
    if mode & bit != 0 {
        ch
    } else {
        '-'
    }
}

/// e.g. mode `0o40755` gives `drwxr-xr-x`.
pub fn mode_to_rwx(mode: u32) -> (r: String)
    ensures
        r@ == rwx_text(mode),
{
    let t = mode & 0o170000;
    let type_ch = if t == 0o040000 {
        'd'
    } else if t == 0o120000 {
        'l'
    } else if t == 0o060000 {
        'b'
    } else if t == 0o020000 {
        'c'
    } else if t == 0o010000 {
        'p'
    } else if t == 0o140000 {
        's'
    } else {
        '-'
    };
    let mut s = String::new();
    push_char(&mut s, type_ch);
    push_char(&mut s, flag_char(mode, 0o400, 'r'));
    push_char(&mut s, flag_char(mode, 0o200, 'w'));
    push_char(&mut s, flag_char(mode, 0o100, 'x'));
    push_char(&mut s, flag_char(mode, 0o040, 'r'));
    push_char(&mut s, flag_char(mode, 0o020, 'w'));
    push_char(&mut s, flag_char(mode, 0o010, 'x'));
    push_char(&mut s, flag_char(mode, 0o004, 'r'));
    push_char(&mut s, flag_char(mode, 0o002, 'w'));
    push_char(&mut s, flag_char(mode, 0o001, 'x'));
    assert(s@ =~= rwx_text(mode));
    s
}

/// Each permission character of the `rwx` text reads one bit of the mode, from the owner's
/// read bit (`0o400`) at character 1 down to the others' execute bit (`0o001`) at character 9:
/// character `i` is `r`, `w` or `x` (by `i`'s place in its group of three) exactly when bit
/// `0o400 >> (i - 1)` is set, and `-` otherwise.
pub proof fn lemma_rwx_reads_each_bit(mode: u32)
    ensures
        rwx_text(mode).len() == 10,
        forall|i: int|
            1 <= i <= 9 ==> #[trigger] rwx_text(mode)[i] == if mode & (0o400u32 >> ((i - 1) as u32))
                != 0 {
                seq!['r', 'w', 'x'][(i - 1) % 3]
            } else {
                '-'
            },
{
    assert(0o400u32 >> 0u32 == 0o400u32 && 0o400u32 >> 1u32 == 0o200u32 && 0o400u32 >> 2u32
        == 0o100u32 && 0o400u32 >> 3u32 == 0o040u32 && 0o400u32 >> 4u32 == 0o020u32 && 0o400u32
        >> 5u32 == 0o010u32 && 0o400u32 >> 6u32 == 0o004u32 && 0o400u32 >> 7u32 == 0o002u32
        && 0o400u32 >> 8u32 == 0o001u32) by (bit_vector);
    let rwx = seq!['r', 'w', 'x'];
    assert(rwx[0] == 'r' && rwx[1] == 'w' && rwx[2] == 'x');
    assert forall|i: int| 1 <= i <= 9 implies #[trigger] rwx_text(mode)[i] == if mode & (0o400u32
        >> ((i - 1) as u32)) != 0 {
        rwx[(i - 1) % 3]
    } else {
        '-'
    } by {
        if i == 1 {
        } else if i == 2 {
        } else if i == 3 {
        } else if i == 4 {
        } else if i == 5 {
        } else if i == 6 {
        } else if i == 7 {
        } else if i == 8 {
        } else {
        }
    }
}

/// The permission bits of `mode` (`mode & 0o7777`) as four octal digits, as `{:04o}` prints
/// them.
pub open spec fn octal_text(mode: u32) -> Seq<char> {
    let m = (mode & 0o7777) as nat;
    seq![digit(m / 512), digit((m / 64) % 8), digit((m / 8) % 8), digit(m % 8)]
}

fn octal_digit(d: u32) -> (c: char)
    requires
        d < 8,
    ensures
        c == digit(d as nat),
{
    if d == 0 {
        '0'
    } else if d == 1 {
        '1'
    } else if d == 2 {
        '2'
    } else if d == 3 {
        '3'
    } else if d == 4 {
        '4'
    } else if d == 5 {
        '5'
    } else if d == 6 {
        '6'
    } else {
        '7'
    }
}

/// The permission bits as four octal digits, e.g. `0755`.
pub fn perms_octal(mode: u32) -> (r: String)
    ensures
        r@ == octal_text(mode),
{
    let m = mode & 0o7777;
    assert(m <= 0o7777) by (bit_vector)
        requires
            m == mode & 0o7777,
    ;
    let mut s = String::new();
    push_char(&mut s, octal_digit(m / 512));
    push_char(&mut s, octal_digit((m / 64) % 8));
    push_char(&mut s, octal_digit((m / 8) % 8));
    push_char(&mut s, octal_digit(m % 8));
    assert(s@ =~= octal_text(mode));
    s
}

// ---------------------------------------------------------------------------------------------
// Owner and group
// ---------------------------------------------------------------------------------------------

/// Whether a line of `/etc/passwd` or `/etc/group` (`name:x:id:...`) is for `id`.
pub open spec fn line_is_for(line: Seq<char>, id: u32) -> bool {
    let f = split(line, ':');
    f.len() >= 3 && parse_unsigned(f[2], 10, 4294967295) == Some(id as nat)
}

/// The first of the lines `ls`, from `i` on, that is for `id`, if any.
pub open spec fn first_line_for(ls: Seq<Seq<char>>, i: int, id: u32) -> Option<Seq<char>>
    decreases ls.len() - i,
{
    if i < 0 || i >= ls.len() {
        None
    } else if line_is_for(ls[i], id) {
        Some(ls[i])
    } else {
        first_line_for(ls, i + 1, id)
    }
}

/// What the dialog shows for `id`, given the text of `/etc/passwd` or `/etc/group`: `name (id)`
/// from the first line for it, or the bare number when there is none.
pub open spec fn resolved(id: u32, table: Seq<char>) -> Seq<char> {
    match first_line_for(lines(table), 0, id) {
        Some(line) => split(line, ':')[0] + " ("@ + decimal(id as nat) + ")"@,
        None => decimal(id as nat),
    }
}

/// `name (id)` for `id`, from the text of `/etc/passwd` or `/etc/group`; the bare number when no
/// line names it.
pub fn resolve(id: u32, table: &str) -> (r: String)
    ensures
        r@ == resolved(id, table@),
{
    let ls = lines_of(table);
    let ghost lv = views(ls@);
    let mut i: usize = 0;
    while i < ls.len()
        invariant
            0 <= i <= ls.len(),
            lv == views(ls@),
            lv == lines(table@),
            first_line_for(lv, 0, id) == first_line_for(lv, i as int, id),
        decreases ls.len() - i,
    {
        let f = split_str(ls[i].as_str(), ':');
        assert(lv[i as int] == ls@[i as int]@);
        if f.len() >= 3 {
            assert(views(f@)[2] == f@[2]@);
            match parse_u32(f[2].as_str()) {
                Some(n) => {
                    if n == id {
                        assert(views(f@)[0] == f@[0]@);
                        let mut s = f[0].clone();
                        push_str(&mut s, " (");
                        push_decimal(&mut s, id as u64);
                        push_str(&mut s, ")");
                        return s;
                    }
                },
                None => {},
            }
        }
        i += 1;
    }
    crate::text::fmt_decimal(id as u64)
}

// ---------------------------------------------------------------------------------------------
// The dialog
// ---------------------------------------------------------------------------------------------

/// What a path is, as its own metadata says (a symbolic link is not followed).
#[derive(Clone, Copy, PartialEq, Eq, Debug)]
pub enum FileKind {
    Symlink,
    Folder,
    File,
}

pub open spec fn kind_text(k: FileKind) -> Seq<char> {
    match k {
        FileKind::Symlink => "Symbolic link"@,
        FileKind::Folder => "Folder"@,
        FileKind::File => "File"@,
    }
}

/// The size line: a folder's item count (an em dash when it could not be read), or a file's
/// size.
pub open spec fn size_line(kind: FileKind, len: u64, items: Option<u64>) -> Seq<char> {
    match kind {
        FileKind::Folder => match items {
            Some(n) => decimal(n as nat) + " item"@ + if n == 1 {
                Seq::empty()
            } else {
                "s"@
            },
            None => "\u{2014}"@,
        },
        _ => info_size_text(len),
    }
}

/// The dialog for the file at `path`, from its metadata: its kind, its length, for a folder the
/// number of entries it holds (`None` when it could not be read), its mode, owner and group ids,
/// and its times already formatted (`created` is `None` where the filesystem keeps no birth
/// time). `passwd` and `group` are the text of `/etc/passwd` and `/etc/group`.
pub fn info_from(
    path: &str,
    kind: FileKind,
    len: u64,
    items: Option<u64>,
    mode: u32,
    uid: u32,
    gid: u32,
    passwd: &str,
    group: &str,
    modified: String,
    accessed: String,
    created: Option<String>,
) -> (r: Info)
    ensures
        r.name@ == match file_name(path@) {
            Some(n) => n,
            None => path@,
        },
        r.location@ == match path_parent(path@) {
            Some(p) => p,
            None => Seq::empty(),
        },
        r.kind@ == kind_text(kind),
        r.size@ == size_line(kind, len, items),
        r.perms_octal@ == octal_text(mode),
        r.perms_rwx@ == rwx_text(mode),
        r.owner@ == resolved(uid, passwd@),
        r.group@ == resolved(gid, group@),
        r.modified == modified,
        r.accessed == accessed,
        r.created@ == match created {
            Some(c) => c@,
            None => "\u{2014}"@,
        },
{
    let name = match path_file_name(path) {
        Some(n) => n,
        None => owned(path),
    };
    let location = match parent_of(path) {
        Some(p) => p,
        None => String::new(),
    };
    let kind_s = match kind {
        FileKind::Symlink => owned("Symbolic link"),
        FileKind::Folder => owned("Folder"),
        FileKind::File => owned("File"),
    };
    let size = match kind {
        FileKind::Folder => match items {
            Some(n) => {
                let mut s = String::new();
                push_decimal(&mut s, n);
                push_str(&mut s, " item");
                if n != 1 {
                    push_str(&mut s, "s");
                }
                s
            },
            None => owned("\u{2014}"),
        },
        _ => human_size(len),
    };
    let created_s = match created {
        Some(c) => c,
        None => owned("\u{2014}"),
    };
    Info {
        name,
        location,
        kind: kind_s,
        size,
        perms_octal: perms_octal(mode),
        perms_rwx: mode_to_rwx(mode),
        owner: resolve(uid, passwd),
        group: resolve(gid, group),
        modified,
        accessed,
        created: created_s,
    }
}

/// The dialog's permissions line: the octal digits, then the `rwx` form in brackets.
pub fn permissions_line(info: &Info) -> (r: String)
    ensures
        r@ == info.perms_octal@ + "  ("@ + info.perms_rwx@ + ")"@,
{
    let mut s = info.perms_octal.clone();
    push_str(&mut s, "  (");
    push_str(&mut s, info.perms_rwx.as_str());
    push_str(&mut s, ")");
    s
}

} // verus!
