//! Block devices the machine can see, mounted or not, and the commands that mount and unmount
//! them.
//!
//! `/proc/mounts` only knows what is already mounted; this module works from the device tree
//! that `lsblk` reports, so a USB stick nobody mounted, or an unmounted Windows partition, can
//! be shown and offered.
use vstd::prelude::*;
use crate::sort::{Ranking, stable_sort, stable_sort_of};
use crate::text::{
    chars_of, concat, decimal, has_prefix, is_blank, lex_lt, owned, push_decimal,
    push_str, starts_with, str_eq, str_is_blank, string_of, string_of_range, trim, trim_str,
    views,
};

verus! {

broadcast use vstd::string::group_string_axioms;

/// One mountable volume.
#[derive(Clone, Debug, PartialEq, Eq)]
pub struct Volume {
    /// Kernel name, e.g. `sda1`.
    pub name: String,
    pub fstype: String,
    pub label: Option<String>,
    /// Human size as lsblk prints it, e.g. `7.5G`.
    pub size: String,
    /// `Some` when currently mounted.
    pub mountpoint: Option<String>,
    pub removable: bool,
    /// `usb`, `nvme`, `sata`… when lsblk knows.
    pub transport: Option<String>,
}

pub open spec fn opt_seq(o: Option<String>) -> Option<Seq<char>> {
    match o {
        Some(s) => Some(s@),
        None => None,
    }
}

/// The value of a [`Volume`].
pub struct VolumeView {
    pub name: Seq<char>,
    pub fstype: Seq<char>,
    pub label: Option<Seq<char>>,
    pub size: Seq<char>,
    pub mountpoint: Option<Seq<char>>,
    pub removable: bool,
    pub transport: Option<Seq<char>>,
}

impl View for Volume {
    type V = VolumeView;

    open spec fn view(&self) -> VolumeView {
        VolumeView {
            name: self.name@,
            fstype: self.fstype@,
            label: opt_seq(self.label),
            size: self.size@,
            mountpoint: opt_seq(self.mountpoint),
            removable: self.removable,
            transport: opt_seq(self.transport),
        }
    }
}

pub open spec fn volume_views(v: Seq<Volume>) -> Seq<VolumeView> {
    v.map_values(|x: Volume| x@)
}

/// What to call a volume: its label if it has a non-blank one, else its device name.
pub open spec fn display_name_of(v: VolumeView) -> Seq<char> {
    match v.label {
        Some(l) if !is_blank(l) => l,
        _ => v.name,
    }
}

/// Volumes the system itself depends on: `/`, anything under `/boot`, `/usr` and `/var`.
pub open spec fn system_volume(v: VolumeView) -> bool {
    match v.mountpoint {
        Some(m) => m == "/"@ || has_prefix(m, "/boot"@) || m == "/usr"@ || m == "/var"@,
        None => false,
    }
}

/// A label made safe as one path component: `/` and `\` become `-`.
pub open spec fn dashed(s: Seq<char>) -> Seq<char> {
    s.map_values(|c: char| if c == '/' || c == '\\' { '-' } else { c })
}

/// `s` without its leading dots.
pub open spec fn strip_leading_dots(s: Seq<char>) -> Seq<char>
    decreases s.len(),
{
    if s.len() > 0 && s[0] == '.' {
        strip_leading_dots(s.drop_first())
    } else {
        s
    }
}

/// The component a volume mounts under in `/media`: its display name with `/` and `\` replaced,
/// trimmed, leading dots removed (no hidden mount points); its device name if nothing is left.
pub open spec fn media_component(v: VolumeView) -> Seq<char> {
    let safe = strip_leading_dots(trim(dashed(display_name_of(v))));
    if safe.len() == 0 {
        v.name
    } else {
        safe
    }
}

/// Filesystems that carry no Unix ownership of their own.
pub open spec fn ownerless(fstype: Seq<char>) -> bool {
    fstype == "vfat"@ || fstype == "exfat"@ || fstype == "ntfs"@ || fstype == "ntfs3"@ || fstype
        == "msdos"@
}

/// A name that can stand as one entry of a directory: not empty, no `/`, not hidden.
pub open spec fn safe_component(c: Seq<char>) -> bool {
    c.len() > 0 && !c.contains('/') && c[0] != '.'
}

proof fn lemma_strip_dots(s: Seq<char>)
    ensures
        strip_leading_dots(s).len() > 0 ==> strip_leading_dots(s)[0] != '.',
        strip_leading_dots(s).len() == 0 || s.len() > 0,
        forall|i: int|
            0 <= i < strip_leading_dots(s).len() ==> s.contains(#[trigger] strip_leading_dots(s)[i]),
    decreases s.len(),
{
    if s.len() > 0 && s[0] == '.' {
        let t = s.drop_first();
        lemma_strip_dots(t);
        let r = strip_leading_dots(s);
        assert forall|i: int| 0 <= i < r.len() implies s.contains(#[trigger] r[i]) by {
            assert(t.contains(r[i]));
            let j = choose|j: int| 0 <= j < t.len() && t[j] == r[i];
            assert(s[j + 1] == r[i]);
        }
    }
}

/// Whatever its label says, a volume mounts at exactly one entry of `/media`, and not a hidden
/// one: the label cannot add a `/`, climb out with `..`, or leave the component empty. This
/// holds as long as the kernel name it falls back to is itself such an entry, as kernel device
/// names are.
pub proof fn lemma_mount_target_safe(v: VolumeView)
    requires
        safe_component(v.name),
    ensures
        safe_component(media_component(v)),
{
    let d = dashed(display_name_of(v));
    let t = trim(d);
    let c = strip_leading_dots(t);
    crate::text::lemma_trim_chars(d);
    lemma_strip_dots(t);
    if c.len() > 0 {
        assert(!c.contains('/')) by {
            if c.contains('/') {
                let i = choose|i: int| 0 <= i < c.len() && c[i] == '/';
                assert(t.contains(c[i]));
                let j = choose|j: int| 0 <= j < t.len() && t[j] == c[i];
                assert(d.contains(t[j]));
                let k = choose|k: int| 0 <= k < d.len() && d[k] == t[j];
                assert(d[k] != '/');
            }
        }
    }
}

/// The `-o` options of a mount: always `nosuid,nodev`; for ownerless filesystems also the
/// owner and the file and directory masks, so the desktop user can write to them.
pub open spec fn mount_options(fstype: Seq<char>, uid: u32, gid: u32) -> Seq<char> {
    if ownerless(fstype) {
        "nosuid,nodev"@ + ",uid="@ + decimal(uid as nat) + ",gid="@ + decimal(gid as nat)
            + ",fmask=0133"@ + ",dmask=0022"@
    } else {
        "nosuid,nodev"@
    }
}

/// The options a drive is mounted with: for the filesystems without Unix owners (`vfat`,
/// `exfat`, `ntfs`, `ntfs3`, `msdos`) exactly
/// `nosuid,nodev,uid=<uid>,gid=<gid>,fmask=0133,dmask=0022`, so the desktop user owns what is on
/// them; for every other filesystem exactly `nosuid,nodev`.
pub proof fn lemma_mount_options_by_filesystem(fstype: Seq<char>, uid: u32, gid: u32)
    ensures
        fstype == "vfat"@ || fstype == "exfat"@ || fstype == "ntfs"@ || fstype == "ntfs3"@
            || fstype == "msdos"@ ==> mount_options(fstype, uid, gid) == "nosuid,nodev,uid="@
            + decimal(uid as nat) + ",gid="@ + decimal(gid as nat) + ",fmask=0133,dmask=0022"@,
        !(fstype == "vfat"@ || fstype == "exfat"@ || fstype == "ntfs"@ || fstype == "ntfs3"@
            || fstype == "msdos"@) ==> mount_options(fstype, uid, gid) == "nosuid,nodev"@,
{
    reveal_strlit("nosuid,nodev");
    reveal_strlit("nosuid,nodev,uid=");
    reveal_strlit(",uid=");
    reveal_strlit(",gid=");
    reveal_strlit(",fmask=0133");
    reveal_strlit(",dmask=0022");
    reveal_strlit(",fmask=0133,dmask=0022");
    assert("nosuid,nodev"@ + ",uid="@ =~= "nosuid,nodev,uid="@);
    assert(",fmask=0133"@ + ",dmask=0022"@ =~= ",fmask=0133,dmask=0022"@);
    let d = decimal(uid as nat);
    let g = decimal(gid as nat);
    assert("nosuid,nodev"@ + ",uid="@ + d + ",gid="@ + g + ",fmask=0133"@ + ",dmask=0022"@
        =~= "nosuid,nodev,uid="@ + d + ",gid="@ + g + ",fmask=0133,dmask=0022"@);
}

impl Volume {
    /// A copy of this volume.
    pub fn duplicate(&self) -> (r: Volume)
        ensures
            r == *self,
    {
        Volume {
            name: self.name.clone(),
            fstype: self.fstype.clone(),
            label: clone_opt(&self.label),
            size: self.size.clone(),
            mountpoint: clone_opt(&self.mountpoint),
            removable: self.removable,
            transport: clone_opt(&self.transport),
        }
    }

    pub fn device(&self) -> (r: String)
        ensures
            r@ == "/dev/"@ + self.name@,
    {
        concat("/dev/", self.name.as_str())
    }

    pub fn is_mounted(&self) -> (r: bool)
        ensures
            r == self.mountpoint.is_some(),
    {
        self.mountpoint.is_some()
    }

    /// What to call it: the volume label if it has one, else the device name.
    pub fn display_name(&self) -> (r: String)
        ensures
            r@ == display_name_of(self@),
    {
        match &self.label {
            Some(l) => if !str_is_blank(l.as_str()) {
                l.clone()
            } else {
                self.name.clone()
            },
            None => self.name.clone(),
        }
    }

    /// Volumes the system depends on are shown but never offered an unmount action.
    pub fn is_system(&self) -> (r: bool)
        ensures
            r == system_volume(self@),
    {
        match &self.mountpoint {
            Some(m) => str_eq(m.as_str(), "/") || starts_with(m.as_str(), "/boot") || str_eq(
                m.as_str(),
                "/usr",
            ) || str_eq(m.as_str(), "/var"),
            None => false,
        }
    }

    /// Where an unmounted volume would be mounted: `/media/<label>`, the convention the
    /// automounter follows too, so a stick lands in the same place either way.
    pub fn mount_target(&self) -> (r: String)
        ensures
            r@ == "/media/"@ + media_component(self@),
    {
        let base = chars_of(self.display_name().as_str());
        let mut mapped: Vec<char> = Vec::new();
        let mut i: usize = 0;
        while i < base.len()
            invariant
                0 <= i <= base.len(),
                base@ == display_name_of(self@),
                mapped@ == dashed(base@.subrange(0, i as int)),
            decreases base.len() - i,
        {
            let c = base[i];
            mapped.push(
                if c == '/' || c == '\\' {
                    '-'
                } else {
                    c
                },
            );
            assert(mapped@ =~= dashed(base@.subrange(0, i + 1)));
            i += 1;
        }
        assert(base@.subrange(0, base@.len() as int) =~= base@);
        let trimmed = trim_str(string_of(&mapped).as_str());
        let safe = strip_dots(trimmed.as_str());
        let mut r = owned("/media/");
        if safe.as_str().is_empty() {
            push_str(&mut r, self.name.as_str());
        } else {
            push_str(&mut r, safe.as_str());
        }
        r
    }

    /// The command that mounts this volume for the user `uid`/`gid`.
    pub fn mount_argv(&self, uid: u32, gid: u32) -> (r: Vec<String>)
        ensures
            views(r@) == seq![
                "mount"@,
                "-o"@,
                mount_options(self.fstype@, uid, gid),
                "/dev/"@ + self.name@,
                "/media/"@ + media_component(self@),
            ],
    {
        let f = self.fstype.as_str();
        let ownerless = str_eq(f, "vfat") || str_eq(f, "exfat") || str_eq(f, "ntfs") || str_eq(
            f,
            "ntfs3",
        ) || str_eq(f, "msdos");
        let mut opts = owned("nosuid,nodev");
        if ownerless {
            push_str(&mut opts, ",uid=");
            push_decimal(&mut opts, uid as u64);
            push_str(&mut opts, ",gid=");
            push_decimal(&mut opts, gid as u64);
            push_str(&mut opts, ",fmask=0133");
            push_str(&mut opts, ",dmask=0022");
        }
        assert(opts@ =~= mount_options(self.fstype@, uid, gid));
        let mut a: Vec<String> = Vec::new();
        a.push(owned("mount"));
        a.push(owned("-o"));
        a.push(opts);
        a.push(self.device());
        a.push(self.mount_target());
        assert(views(a@) =~= seq![
            "mount"@,
            "-o"@,
            mount_options(self.fstype@, uid, gid),
            "/dev/"@ + self.name@,
            "/media/"@ + media_component(self@),
        ]);
        a
    }

    /// The command that unmounts it: by its mount point when it has one, else by device.
    pub fn umount_argv(&self) -> (r: Vec<String>)
        ensures
            views(r@) == seq![
                "umount"@,
                match self.mountpoint {
                    Some(m) => m@,
                    None => "/dev/"@ + self.name@,
                },
            ],
    {
        let what = match &self.mountpoint {
            Some(m) => m.clone(),
            None => self.device(),
        };
        let mut a: Vec<String> = Vec::new();
        a.push(owned("umount"));
        a.push(what);
        assert(views(a@) =~= seq![
            "umount"@,
            match self.mountpoint {
                Some(m) => m@,
                None => "/dev/"@ + self.name@,
            },
        ]);
        a
    }
}

fn clone_opt(o: &Option<String>) -> (r: Option<String>)
    ensures
        r == *o,
{
    match o {
        Some(s) => Some(s.clone()),
        None => None,
    }
}

/// `s.trim_start_matches('.')`.
fn strip_dots(s: &str) -> (r: String)
    ensures
        r@ == strip_leading_dots(s@),
{
    let v = chars_of(s);
    let mut i: usize = 0;
    assert(v@.subrange(0, v@.len() as int) =~= v@);
    while i < v.len() && v[i] == '.'
        invariant
            v@ == s@,
            0 <= i <= v.len(),
            strip_leading_dots(s@) == strip_leading_dots(v@.subrange(i as int, v@.len() as int)),
        decreases v.len() - i,
    {
        let ghost t = v@.subrange(i as int, v@.len() as int);
        assert(t.drop_first() =~= v@.subrange(i + 1, v@.len() as int));
        i += 1;
    }
    string_of_range(&v, i, v.len())
}

// ---------------------------------------------------------------------------------------------
// The device tree
// ---------------------------------------------------------------------------------------------

/// One device as `lsblk --json -o NAME,FSTYPE,LABEL,SIZE,MOUNTPOINT,RM,TYPE,TRAN` reports it,
/// with its partitions as children.
pub struct Node {
    pub name: String,
    pub fstype: Option<String>,
    pub label: Option<String>,
    pub size: Option<String>,
    pub mountpoint: Option<String>,
    pub rm: Option<bool>,
    /// `disk`, `part`, `loop`…
    pub kind: Option<String>,
    pub tran: Option<String>,
    pub children: Vec<Node>,
}

/// The characters of an optional string, empty when there is none.
pub open spec fn or_empty(o: Option<String>) -> Seq<char> {
    match o {
        Some(s) => s@,
        None => Seq::empty(),
    }
}

/// An optional string with blank values dropped.
pub open spec fn non_blank(o: Option<String>) -> Option<Seq<char>> {
    match o {
        Some(s) => if is_blank(s@) {
            None
        } else {
            Some(s@)
        },
        None => None,
    }
}

/// Nodes that are not volumes: loop devices (snap and AppImage plumbing), swap, RAID and LVM
/// members, squashfs, and anything without a filesystem (a bare disk or an extended-partition
/// container, whose children are the real volumes).
pub open spec fn skipped(kind: Seq<char>, fstype: Seq<char>) -> bool {
    ||| kind == "loop"@
    ||| fstype.len() == 0
    ||| fstype == "squashfs"@
    ||| fstype == "swap"@
    ||| fstype == "linux_raid_member"@
    ||| fstype == "LVM2_member"@
}

/// The volume a node is, if it is one; `tran` is the transport, inherited from the parent disk
/// when the node reports none.
pub open spec fn node_volume(node: Node, tran: Option<Seq<char>>) -> Seq<VolumeView> {
    if skipped(or_empty(node.kind), or_empty(node.fstype)) {
        Seq::empty()
    } else {
        seq![
            VolumeView {
                name: node.name@,
                fstype: or_empty(node.fstype),
                label: non_blank(node.label),
                size: or_empty(node.size),
                mountpoint: non_blank(node.mountpoint),
                removable: match node.rm {
                    Some(b) => b,
                    None => false,
                },
                transport: tran,
            },
        ]
    }
}

/// The volumes of a device tree, depth first, a parent before its children.
pub open spec fn walk_node(node: Node, parent: Option<Seq<char>>) -> Seq<VolumeView>
    decreases node, 0int,
{
    let tran = match node.tran {
        Some(t) => Some(t@),
        None => parent,
    };
    node_volume(node, tran) + walk_nodes(node.children@, tran, node.children@.len() as int)
}

/// The volumes of the first `n` of `nodes`, in order.
pub open spec fn walk_nodes(nodes: Seq<Node>, tran: Option<Seq<char>>, n: int) -> Seq<VolumeView>
    decreases nodes, 1int, n,
{
    if n <= 0 || n > nodes.len() {
        Seq::empty()
    } else {
        walk_nodes(nodes, tran, n - 1) + walk_node(nodes[n - 1], tran)
    }
}

fn non_blank_clone(o: &Option<String>) -> (r: Option<String>)
    ensures
        opt_seq(r) == non_blank(*o),
{
    match o {
        Some(s) => if str_is_blank(s.as_str()) {
            None
        } else {
            Some(s.clone())
        },
        None => None,
    }
}

fn or_empty_clone(o: &Option<String>) -> (r: String)
    ensures
        r@ == or_empty(*o),
{
    match o {
        Some(s) => s.clone(),
        None => String::new(),
    }
}

fn walk(node: &Node, parent: &Option<String>, out: &mut Vec<Volume>)
    ensures
        volume_views(final(out)@) == volume_views(old(out)@) + walk_node(*node, opt_seq(*parent)),
    decreases node, 0int,
{
    let tran = match &node.tran {
        Some(t) => Some(t.clone()),
        None => clone_opt(parent),
    };
    let kind = or_empty_clone(&node.kind);
    let fstype = or_empty_clone(&node.fstype);
    let f = fstype.as_str();
    let skip = str_eq(kind.as_str(), "loop") || f.is_empty() || str_eq(f, "squashfs") || str_eq(
        f,
        "swap",
    ) || str_eq(f, "linux_raid_member") || str_eq(f, "LVM2_member");
    let ghost start = volume_views(out@);
    if !skip {
        let v = Volume {
            name: node.name.clone(),
            fstype,
            label: non_blank_clone(&node.label),
            size: or_empty_clone(&node.size),
            mountpoint: non_blank_clone(&node.mountpoint),
            removable: match node.rm {
                Some(b) => b,
                None => false,
            },
            transport: clone_opt(&tran),
        };
        let ghost before = out@;
        out.push(v);
        assert(volume_views(out@) =~= volume_views(before).push(v@));
    }
    let ghost own = node_volume(*node, opt_seq(tran));
    assert(volume_views(out@) =~= start + own);
    let mut i: usize = 0;
    while i < node.children.len()
        invariant
            0 <= i <= node.children@.len(),
            volume_views(out@) == start + own + walk_nodes(node.children@, opt_seq(tran), i as int),
        decreases node.children@.len() - i,
    {
        let ghost mid = volume_views(out@);
        walk(&node.children[i], &tran, out);
        assert(walk_nodes(node.children@, opt_seq(tran), i + 1) == walk_nodes(
            node.children@,
            opt_seq(tran),
            i as int,
        ) + walk_node(node.children@[i as int], opt_seq(tran)));
        assert(volume_views(out@) =~= start + own + walk_nodes(node.children@, opt_seq(tran), i + 1));
        i += 1;
    }
    assert(walk_node(*node, opt_seq(*parent)) == own + walk_nodes(node.children@, opt_seq(tran), node.children@.len() as int));
}

/// A filesystem type that makes a volume: present, and not swap, squashfs or a RAID/LVM member.
pub open spec fn volume_fstype(f: Seq<char>) -> bool {
    f.len() > 0 && f != "squashfs"@ && f != "swap"@ && f != "linux_raid_member"@ && f
        != "LVM2_member"@
}

proof fn lemma_walk_node_fstypes(node: Node, parent: Option<Seq<char>>)
    ensures
        forall|k: int|
            0 <= k < walk_node(node, parent).len() ==> volume_fstype(
                #[trigger] walk_node(node, parent)[k].fstype,
            ),
    decreases node, 0int,
{
    let tran = match node.tran {
        Some(t) => Some(t@),
        None => parent,
    };
    lemma_walk_nodes_fstypes(node.children@, tran, node.children@.len() as int);
    let own = node_volume(node, tran);
    let rest = walk_nodes(node.children@, tran, node.children@.len() as int);
    assert forall|k: int| 0 <= k < walk_node(node, parent).len() implies volume_fstype(
        #[trigger] walk_node(node, parent)[k].fstype,
    ) by {
        if k < own.len() {
            assert(walk_node(node, parent)[k] == own[k]);
        } else {
            assert(walk_node(node, parent)[k] == rest[k - own.len()]);
        }
    }
}

proof fn lemma_walk_nodes_fstypes(nodes: Seq<Node>, tran: Option<Seq<char>>, n: int)
    ensures
        forall|k: int|
            0 <= k < walk_nodes(nodes, tran, n).len() ==> volume_fstype(
                #[trigger] walk_nodes(nodes, tran, n)[k].fstype,
            ),
    decreases nodes, 1int, n,
{
    if n > 0 && n <= nodes.len() {
        lemma_walk_nodes_fstypes(nodes, tran, n - 1);
        lemma_walk_node_fstypes(nodes[n - 1], tran);
        let a = walk_nodes(nodes, tran, n - 1);
        let b = walk_node(nodes[n - 1], tran);
        assert forall|k: int| 0 <= k < walk_nodes(nodes, tran, n).len() implies volume_fstype(
            #[trigger] walk_nodes(nodes, tran, n)[k].fstype,
        ) by {
            if k < a.len() {
                assert(walk_nodes(nodes, tran, n)[k] == a[k]);
            } else {
                assert(walk_nodes(nodes, tran, n)[k] == b[k - a.len()]);
            }
        }
    }
}

/// The order volumes are listed in: removable first (the stick just plugged in is what you came
/// for), then unmounted before mounted (they need an action), then by device name.
pub struct VolumeOrder;

impl Ranking<Volume> for VolumeOrder {
    open spec fn precedes(&self, a: Volume, b: Volume) -> bool {
        ||| a.removable && !b.removable
        ||| a.removable == b.removable && !a.mountpoint.is_some() && b.mountpoint.is_some()
        ||| a.removable == b.removable && a.mountpoint.is_some() == b.mountpoint.is_some()
            && lex_lt(a.name@, b.name@)
    }

    proof fn lemma_weak_order(&self, a: Volume, b: Volume, c: Volume) {
        crate::text::lemma_lex_weak(a.name@, b.name@, c.name@);
    }

    fn goes_before(&self, a: &Volume, b: &Volume) -> (r: bool) {
        if a.removable != b.removable {
            a.removable
        } else if a.mountpoint.is_some() != b.mountpoint.is_some() {
            !a.mountpoint.is_some()
        } else {
            crate::text::lex_before(a.name.as_str(), b.name.as_str())
        }
    }
}

/// In the order volumes are listed, every removable one comes before every fixed one, and among
/// those alike in that, every unmounted one before every mounted one.
pub proof fn lemma_removable_then_unmounted_first(vs: Seq<Volume>)
    requires
        crate::sort::sorted_by(&VolumeOrder, vs),
    ensures
        forall|i: int, j: int|
            0 <= i < j < vs.len() && (#[trigger] vs[j]).removable ==> (#[trigger] vs[i]).removable,
        forall|i: int, j: int|
            0 <= i < j < vs.len() && (#[trigger] vs[i]).removable == (#[trigger] vs[j]).removable
                && vs[i].mountpoint is Some ==> vs[j].mountpoint is Some,
{
    assert forall|i: int, j: int|
        0 <= i < j < vs.len() && (#[trigger] vs[j]).removable implies (#[trigger] vs[i]).removable by {
        assert(!VolumeOrder.precedes(vs[j], vs[i]));
    }
    assert forall|i: int, j: int|
        0 <= i < j < vs.len() && (#[trigger] vs[i]).removable == (#[trigger] vs[j]).removable
            && vs[i].mountpoint is Some implies vs[j].mountpoint is Some by {
        assert(!VolumeOrder.precedes(vs[j], vs[i]));
    }
}

/// Every volume worth showing, mounted or not, from the device trees `roots`: the volumes in
/// tree order, then ordered by [`VolumeOrder`]. Loop devices, bare disks, swap and the like
/// are left out.
pub fn from_nodes(roots: &Vec<Node>) -> (r: Vec<Volume>)
    ensures
        exists|found: Seq<Volume>|
            volume_views(found) == walk_nodes(roots@, None, roots@.len() as int)
                && stable_sort_of(&VolumeOrder, found, r@),
        forall|k: int| 0 <= k < r@.len() ==> volume_fstype(#[trigger] r@[k].fstype@),
{
    let mut out: Vec<Volume> = Vec::new();
    let none: Option<String> = None;
    let mut i: usize = 0;
    while i < roots.len()
        invariant
            0 <= i <= roots@.len(),
            none is None,
            volume_views(out@) == walk_nodes(roots@, None, i as int),
        decreases roots@.len() - i,
    {
        let ghost before = volume_views(out@);
        walk(&roots[i], &none, &mut out);
        assert(volume_views(out@) =~= walk_nodes(roots@, None, i + 1));
        i += 1;
    }
    let ghost found = out@;
    proof {
        lemma_walk_nodes_fstypes(roots@, None, roots@.len() as int);
    }
    let r = stable_sort(&VolumeOrder, out);
    proof {
        crate::sort::lemma_sort_members(&VolumeOrder, found, r@);
        assert forall|k: int| 0 <= k < r@.len() implies volume_fstype(#[trigger] r@[k].fstype@) by {
            let j = choose|j: int| 0 <= j < found.len() && found[j] == r@[k];
            assert(volume_views(found)[j].fstype == found[j].fstype@);
        }
    }
    r
}

} // verus!
