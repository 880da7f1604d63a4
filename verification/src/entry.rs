//! The rows of the file list, and how they are ordered, sized and named.
//!
//! Listing a folder and searching below it read the disk; the program does that and hands each
//! child over as an [`Entry`]. Everything decided about the rows is here: the order they are
//! shown in, the size column's text, which names are archives, which owner and group an id
//! stands for, and which name a copy gets so that nothing is overwritten.
use vstd::prelude::*;
use crate::sort::{Ranking, sorted_by, stable_sort, stable_sort_of};
use crate::sizes::{f64_of, f64_value, push_tenths, push_whole, tenths_text, whole_text};
use crate::text::{
    Order, decimal, has_suffix, lex_lt, lex_order, lines, lines_of, lowercase, owned,
    parse_unsigned, parse_u32, push_str, split, split_str, str_compare, to_lowercase, views,
    chars_of, file_name, join_path, path_file_name, path_join, push_char, string_of_range,
    path_below, strip_path_prefix, path_parent, components,
};
use std::collections::HashMap;
use std::collections::VecDeque;
use vstd::arithmetic::power2::{pow2, lemma2_to64, lemma2_to64_rest, lemma_pow2_adds};

verus! {

broadcast use {vstd::string::group_string_axioms, vstd::std_specs::hash::group_hash_axioms};

/// Cap on recursive-search results, so a search from `/` cannot run away. Reported when hit.
pub const SEARCH_CAP: usize = 2000;

/// One row in the file list: a file or folder, with the labels the list shows.
#[derive(Clone, Debug)]
pub struct Entry {
    pub name: String,
    pub path: String,
    pub is_dir: bool,
    /// For recursive results: the folder the match lives in, relative to the search root.
    /// Empty in a normal listing.
    pub subtitle: String,
    /// Byte size. `None` for folders, and for every entry when the details columns are off.
    ///
    /// Folders are left `None` rather than showing a recursive total: counting a tree means
    /// walking it, which turns listing a folder full of folders into something you wait for.
    pub size: Option<u64>,
    /// Owner and group names. Empty when the details columns are off.
    pub owner: String,
    pub group: String,
}

/// What the list is ordered by. Only `Name` applies when the details columns are off, since the
/// other two have nothing to sort on.
#[derive(Clone, Copy, PartialEq, Eq, Debug)]
pub enum SortKey {
    Name,
    Size,
    Owner,
}

/// The byte count an entry sorts by: its size, or nothing for a folder.
pub open spec fn sort_size(e: Entry) -> nat {
    match e.size {
        Some(n) => n as nat,
        None => 0,
    }
}

/// Whether `a` comes before `b` by `key` alone, in ascending order. Names compare ignoring
/// case, and the name is always the last tie-break.
pub open spec fn key_lt(key: SortKey, a: Entry, b: Entry) -> bool {
    let name_lt = lex_lt(lowercase(a.name@), lowercase(b.name@));
    match key {
        SortKey::Name => name_lt,
        SortKey::Size => sort_size(a) < sort_size(b) || (sort_size(a) == sort_size(b) && name_lt),
        SortKey::Owner => {
            let (oa, ob) = (lowercase(a.owner@), lowercase(b.owner@));
            let (ga, gb) = (lowercase(a.group@), lowercase(b.group@));
            lex_lt(oa, ob) || (oa == ob && (lex_lt(ga, gb) || (ga == gb && name_lt)))
        },
    }
}

/// Whether `a` and `b` are alike in everything `key` looks at before the name.
pub open spec fn same_key(key: SortKey, a: Entry, b: Entry) -> bool {
    match key {
        SortKey::Name => true,
        SortKey::Size => sort_size(a) == sort_size(b),
        SortKey::Owner => lowercase(a.owner@) == lowercase(b.owner@) && lowercase(a.group@)
            == lowercase(b.group@),
    }
}

proof fn lemma_key_weak(key: SortKey, a: Entry, b: Entry, c: Entry)
    ensures
        !key_lt(key, a, a),
        key_lt(key, a, b) && key_lt(key, b, c) ==> key_lt(key, a, c),
        key_lt(key, a, c) ==> key_lt(key, a, b) || key_lt(key, b, c),
{
    let (na, nb, nc) = (lowercase(a.name@), lowercase(b.name@), lowercase(c.name@));
    let (oa, ob, oc) = (lowercase(a.owner@), lowercase(b.owner@), lowercase(c.owner@));
    let (ga, gb, gc) = (lowercase(a.group@), lowercase(b.group@), lowercase(c.group@));
    crate::text::lemma_lex_weak(na, nb, nc);
    crate::text::lemma_lex_weak(oa, ob, oc);
    crate::text::lemma_lex_weak(ga, gb, gc);
    crate::text::lemma_lex_total(na, nb);
    crate::text::lemma_lex_total(nb, nc);
    crate::text::lemma_lex_total(na, nc);
    crate::text::lemma_lex_total(oa, ob);
    crate::text::lemma_lex_total(ob, oc);
    crate::text::lemma_lex_total(oa, oc);
    crate::text::lemma_lex_total(ga, gb);
    crate::text::lemma_lex_total(gb, gc);
    crate::text::lemma_lex_total(ga, gc);
}

/// The order of the file list: folders before files whatever the key and direction, then by
/// the key, ascending or descending.
pub struct EntryOrder {
    pub key: SortKey,
    pub descending: bool,
}

impl Ranking<Entry> for EntryOrder {
    open spec fn precedes(&self, a: Entry, b: Entry) -> bool {
        (a.is_dir && !b.is_dir) || (a.is_dir == b.is_dir && if self.descending {
            key_lt(self.key, b, a)
        } else {
            key_lt(self.key, a, b)
        })
    }

    proof fn lemma_weak_order(&self, a: Entry, b: Entry, c: Entry) {
        lemma_key_weak(self.key, a, b, c);
        lemma_key_weak(self.key, c, b, a);
    }

    fn goes_before(&self, a: &Entry, b: &Entry) -> (r: bool) {
        if a.is_dir != b.is_dir {
            a.is_dir
        } else if self.descending {
            key_before(self.key, b, a)
        } else {
            key_before(self.key, a, b)
        }
    }
}

/// How two strings compare once both are lowercased.
fn lower_order(a: &str, b: &str) -> (r: Order)
    ensures
        r == lex_order(lowercase(a@), lowercase(b@)),
{
    let la = to_lowercase(a);
    let lb = to_lowercase(b);
    str_compare(la.as_str(), lb.as_str())
}

fn key_before(key: SortKey, a: &Entry, b: &Entry) -> (r: bool)
    ensures
        r == key_lt(key, *a, *b),
{
    let by_name = match lower_order(a.name.as_str(), b.name.as_str()) {
        Order::Before => true,
        _ => false,
    };
    match key {
        SortKey::Name => by_name,
        SortKey::Size => {
            let sa = match a.size {
                Some(n) => n,
                None => 0,
            };
            let sb = match b.size {
                Some(n) => n,
                None => 0,
            };
            if sa != sb {
                sa < sb
            } else {
                by_name
            }
        },
        SortKey::Owner => match lower_order(a.owner.as_str(), b.owner.as_str()) {
            Order::Before => true,
            Order::After => false,
            Order::Same => match lower_order(a.group.as_str(), b.group.as_str()) {
                Order::Before => true,
                Order::After => false,
                Order::Same => by_name,
            },
        },
    }
}

/// Folders before files, then by `key`, reversed when `descending`. Folders stay grouped first
/// whatever the key -- flipping that with the direction toggle would scatter folders through the
/// files. The name is always the last tie-break, so the order is predictable; entries alike in
/// all of that keep the order they came in.
pub fn sort_by(entries: &mut Vec<Entry>, key: SortKey, descending: bool)
    ensures
        stable_sort_of(&EntryOrder { key, descending }, old(entries)@, final(entries)@),
{
    let order = EntryOrder { key, descending };
    let mut taken: Vec<Entry> = Vec::new();
    std::mem::swap(&mut taken, entries);
    *entries = stable_sort(&order, taken);
}

/// However the list is sorted, every folder comes before every file.
pub proof fn lemma_folders_first(key: SortKey, descending: bool, es: Seq<Entry>)
    requires
        sorted_by(&EntryOrder { key, descending }, es),
    ensures
        forall|i: int, j: int|
            0 <= i < j < es.len() && (#[trigger] es[j]).is_dir ==> (#[trigger] es[i]).is_dir,
{
    let order = EntryOrder { key, descending };
    assert forall|i: int, j: int|
        0 <= i < j < es.len() && (#[trigger] es[j]).is_dir implies (#[trigger] es[i]).is_dir by {
        assert(!order.precedes(es[j], es[i]));
    }
}

/// Entries that the key does not tell apart are in name order, ignoring case: ascending, or
/// descending when the list is.
pub proof fn lemma_name_breaks_ties(key: SortKey, descending: bool, es: Seq<Entry>)
    requires
        sorted_by(&EntryOrder { key, descending }, es),
    ensures
        forall|i: int, j: int|
            0 <= i < j < es.len() && (#[trigger] es[i]).is_dir == (#[trigger] es[j]).is_dir
                && same_key(key, es[i], es[j]) ==> if descending {
                !lex_lt(lowercase(es[i].name@), lowercase(es[j].name@))
            } else {
                !lex_lt(lowercase(es[j].name@), lowercase(es[i].name@))
            },
{
    let order = EntryOrder { key, descending };
    assert forall|i: int, j: int|
        0 <= i < j < es.len() && (#[trigger] es[i]).is_dir == (#[trigger] es[j]).is_dir
            && same_key(key, es[i], es[j]) implies if descending {
            !lex_lt(lowercase(es[i].name@), lowercase(es[j].name@))
        } else {
            !lex_lt(lowercase(es[j].name@), lowercase(es[i].name@))
        } by {
        assert(!order.precedes(es[j], es[i]));
        crate::text::lemma_lex_irreflexive(lowercase(es[i].owner@));
        crate::text::lemma_lex_irreflexive(lowercase(es[i].group@));
    }
}

// ---------------------------------------------------------------------------------------------
// The size column
// ---------------------------------------------------------------------------------------------

/// The unit the size column shows `f` bytes in, as an index into KB, MB, GB, TB, PB, searching
/// from `i`: the value is divided by 1024 while it stays at least 1024, up to PB.
pub open spec fn list_unit(f: nat, i: nat) -> nat
    decreases 4 - i,
{
    if i < 4 && f >= pow2(10 * (i + 2)) {
        list_unit(f, i + 1)
    } else {
        i
    }
}

pub open spec fn list_unit_name(i: nat) -> Seq<char> {
    if i == 0 {
        "KB"@
    } else if i == 1 {
        "MB"@
    } else if i == 2 {
        "GB"@
    } else if i == 3 {
        "TB"@
    } else {
        "PB"@
    }
}

/// The size column's text: an em dash for a folder (no size), whole bytes below 1 KB, else the
/// size in the largest unit that keeps it at least 1, with no decimals from 100 up and one
/// below.
pub open spec fn size_column(size: Option<u64>) -> Seq<char> {
    match size {
        None => "\u{2014}"@,
        Some(b) => {
            let f = f64_value(b as nat);
            if f < 1024 {
                decimal(b as nat) + " B"@
            } else {
                let i = list_unit(f, 0);
                let d = pow2(10 * (i + 1));
                (if f >= 100 * d {
                    whole_text(f, d)
                } else {
                    tenths_text(f, d)
                }) + " "@ + list_unit_name(i)
            }
        },
    }
}

fn list_unit_str(i: usize) -> (r: &'static str)
    ensures
        r@ == list_unit_name(i as nat),
{
    if i == 0 {
        "KB"
    } else if i == 1 {
        "MB"
    } else if i == 2 {
        "GB"
    } else if i == 3 {
        "TB"
    } else {
        "PB"
    }
}

/// Human-readable byte size for the size column. Folders show an em dash (see [`Entry::size`]).
pub fn human_size(size: Option<u64>) -> (r: String)
    ensures
        r@ == size_column(size),
{
    match size {
        None => owned("\u{2014}"),
        Some(b) => {
            let f = f64_of(b);
            if f < 1024 {
                let mut s = String::new();
                crate::text::push_decimal(&mut s, b);
                push_str(&mut s, " B");
                return s;
            }
            proof {
                lemma2_to64();
                lemma2_to64_rest();
            }
            let mut d: u128 = 1024;
            let mut i: usize = 0;
            while i < 4 && f >= 1024 * d
                invariant
                    i <= 4,
                    d == pow2((10 * (i + 1)) as nat),
                    d <= 0x4_0000_0000_0000,
                    f >= 1024,
                    list_unit(f as nat, 0) == list_unit(f as nat, i as nat),
                decreases 4 - i,
            {
                proof {
                    lemma_pow2_adds((10 * (i + 1)) as nat, 10);
                    lemma2_to64();
                    lemma2_to64_rest();
                    if i < 3 {
                        vstd::arithmetic::power2::lemma_pow2_strictly_increases(
                            (10 * (i + 2)) as nat,
                            50,
                        );
                    }
                }
                d = d * 1024;
                i = i + 1;
            }
            proof {
                lemma_pow2_adds((10 * (i + 1)) as nat, 10);
            }
            let mut s = String::new();
            if f >= 100 * d {
                push_whole(&mut s, f, d);
            } else {
                push_tenths(&mut s, f, d);
            }
            push_str(&mut s, " ");
            push_str(&mut s, list_unit_str(i));
            s
        },
    }
}

// ---------------------------------------------------------------------------------------------
// Archives
// ---------------------------------------------------------------------------------------------

/// The endings an archive name has: compressed tarballs first, then single formats.
pub open spec fn archive_suffix_strs() -> Seq<&'static str> {
    seq![
        ".tar.gz", ".tar.bz2", ".tar.xz", ".tar.zst", ".tar.lz", ".tar.lzma", ".zip", ".tar", ".tgz",
        ".tbz", ".tbz2", ".txz", ".tzst", ".7z", ".rar", ".jar", ".cbz", ".gz", ".bz2", ".xz",
        ".zst", ".lz", ".cpio", ".iso",
    ]
}

pub open spec fn str_views(s: Seq<&'static str>) -> Seq<Seq<char>> {
    s.map_values(|x: &'static str| x@)
}

/// Whether `name`, lowercased, ends in one of the archive endings.
pub open spec fn archive_name(name: Seq<char>) -> bool {
    exists|k: int|
        0 <= k < archive_suffix_strs().len() && has_suffix(
            lowercase(name),
            #[trigger] str_views(archive_suffix_strs())[k],
        )
}

/// Whether `name` looks like an archive that can be extracted, by its ending, in any case.
pub fn is_archive(name: &str) -> (r: bool)
    ensures
        r == archive_name(name@),
{
    let l = to_lowercase(name);
    let sfx: Vec<&'static str> = vec![
        ".tar.gz", ".tar.bz2", ".tar.xz", ".tar.zst", ".tar.lz", ".tar.lzma", ".zip", ".tar", ".tgz",
        ".tbz", ".tbz2", ".txz", ".tzst", ".7z", ".rar", ".jar", ".cbz", ".gz", ".bz2", ".xz",
        ".zst", ".lz", ".cpio", ".iso",
    ];
    assert(sfx@ == archive_suffix_strs());
    let mut i: usize = 0;
    while i < sfx.len()
        invariant
            0 <= i <= sfx@.len(),
            sfx@ == archive_suffix_strs(),
            l@ == lowercase(name@),
            forall|k: int| 0 <= k < i ==> !has_suffix(l@, #[trigger] str_views(sfx@)[k]),
        decreases sfx.len() - i,
    {
        if crate::text::ends_with(l.as_str(), sfx[i]) {
            assert(str_views(sfx@)[i as int] == sfx@[i as int]@);
            return true;
        }
        assert(str_views(sfx@)[i as int] == sfx@[i as int]@);
        i += 1;
    }
    false
}

// ---------------------------------------------------------------------------------------------
// Owner and group names
// ---------------------------------------------------------------------------------------------

/// The id and name a line of `/etc/passwd` or `/etc/group` gives: the first field names, the
/// third is the id (`name:x:id:...`). `None` when there is no third field or it is not a `u32`.
pub open spec fn id_entry(line: Seq<char>) -> Option<(u32, Seq<char>)> {
    let f = split(line, ':');
    if f.len() < 3 {
        None
    } else {
        match parse_unsigned(f[2], 10, 4294967295) {
            Some(id) => Some((id as u32, f[0])),
            None => None,
        }
    }
}

/// The names the lines `ls` give their ids, the first line for an id winning.
pub open spec fn ids_of_lines(ls: Seq<Seq<char>>) -> Map<u32, Seq<char>>
    decreases ls.len(),
{
    if ls.len() == 0 {
        Map::empty()
    } else {
        let m = ids_of_lines(ls.drop_last());
        match id_entry(ls.last()) {
            Some((id, name)) => if m.contains_key(id) {
                m
            } else {
                m.insert(id, name)
            },
            None => m,
        }
    }
}

/// The id-to-name table a file shaped like `/etc/passwd` holds.
pub open spec fn ids_in(text: Seq<char>) -> Map<u32, Seq<char>> {
    ids_of_lines(lines(text))
}

/// What an id is shown as: its name from the table, or the number itself when the table has
/// none, rather than a blank.
pub open spec fn id_name(table: Map<u32, Seq<char>>, id: u32) -> Seq<char> {
    if table.contains_key(id) {
        table[id]
    } else {
        decimal(id as nat)
    }
}

pub open spec fn name_table(m: Map<u32, String>) -> Map<u32, Seq<char>> {
    Map::new(|k: u32| m.contains_key(k), |k: u32| m[k]@)
}

/// uid/gid to name, read once per listing from the text of `/etc/passwd` and `/etc/group`,
/// rather than scanning the files again for every row.
pub struct IdMap {
    users: HashMap<u32, String>,
    groups: HashMap<u32, String>,
}

/// The two tables of an [`IdMap`].
pub struct IdTables {
    pub users: Map<u32, Seq<char>>,
    pub groups: Map<u32, Seq<char>>,
}

impl View for IdMap {
    type V = IdTables;

    closed spec fn view(&self) -> IdTables {
        IdTables { users: name_table(self.users@), groups: name_table(self.groups@) }
    }
}

/// The table the lines of `text` give.
fn parse_ids(text: &str) -> (r: HashMap<u32, String>)
    ensures
        name_table(r@) == ids_in(text@),
{
    let ls = lines_of(text);
    let mut map: HashMap<u32, String> = HashMap::new();
    let mut i: usize = 0;
    while i < ls.len()
        invariant
            0 <= i <= ls.len(),
            views(ls@) == lines(text@),
            name_table(map@) == ids_of_lines(views(ls@).subrange(0, i as int)),
        decreases ls.len() - i,
    {
        let ghost upto = views(ls@).subrange(0, i + 1);
        assert(upto.drop_last() =~= views(ls@).subrange(0, i as int));
        assert(upto.last() == ls@[i as int]@);
        let f = split_str(ls[i].as_str(), ':');
        if f.len() >= 3 {
            match parse_u32(f[2].as_str()) {
                Some(id) => {
                    assert(views(f@)[2] == f@[2]@);
                    assert(views(f@)[0] == f@[0]@);
                    if !map.contains_key(&id) {
                        let ghost before = map@;
                        map.insert(id, f[0].clone());
                        assert(name_table(map@) =~= name_table(before).insert(id, f@[0]@));
                    } else {
                        assert(name_table(map@).contains_key(id));
                    }
                },
                None => {
                    assert(views(f@)[2] == f@[2]@);
                },
            }
        }
        i += 1;
    }
    assert(views(ls@).subrange(0, ls@.len() as int) =~= views(ls@));
    map
}

impl IdMap {
    /// The tables `passwd` and `group` (the text of `/etc/passwd` and `/etc/group`; empty when
    /// a file cannot be read) give.
    pub fn load(passwd: &str, group: &str) -> (r: IdMap)
        ensures
            r@.users == ids_in(passwd@),
            r@.groups == ids_in(group@),
    {
        IdMap { users: parse_ids(passwd), groups: parse_ids(group) }
    }

    /// The user name for `id`, or the number when there is none.
    pub fn user(&self, id: u32) -> (r: String)
        ensures
            r@ == id_name(self@.users, id),
    {
        name_for(&self.users, id)
    }

    /// The group name for `id`, or the number when there is none.
    pub fn group(&self, id: u32) -> (r: String)
        ensures
            r@ == id_name(self@.groups, id),
    {
        name_for(&self.groups, id)
    }
}

fn name_for(m: &HashMap<u32, String>, id: u32) -> (r: String)
    ensures
        r@ == id_name(name_table(m@), id),
{
    match m.get(&id) {
        Some(n) => n.clone(),
        None => crate::text::fmt_decimal(id as u64),
    }
}

// ---------------------------------------------------------------------------------------------
// Names for copies
// ---------------------------------------------------------------------------------------------

/// The index of the last `.` in `f` from `i` down, or `-1` when there is none.
pub open spec fn last_dot(f: Seq<char>, i: int) -> int
    decreases i + 1,
{
    if i < 0 {
        -1
    } else if f[i] == '.' {
        i
    } else {
        last_dot(f, i - 1)
    }
}

/// `Path::file_stem` and `Path::extension` of a path: its file name split at the last `.`,
/// except that `..` and a name whose only `.` leads it (`.bashrc`) have no extension. A path
/// with no file name has neither, read here as an empty stem.
pub open spec fn stem_and_ext(base: Seq<char>) -> (Seq<char>, Option<Seq<char>>) {
    match file_name(base) {
        None => (Seq::empty(), None),
        Some(f) => {
            let k = last_dot(f, f.len() - 1);
            if f == ".."@ || k <= 0 {
                (f, None)
            } else {
                (f.subrange(0, k), Some(f.subrange(k + 1, f.len() as int)))
            }
        },
    }
}

/// The `n`th name tried for a copy of `base` in `dest`: the name itself, then `stem (copy).ext`,
/// then `stem (copy 2).ext`, `stem (copy 3).ext`, and so on.
pub open spec fn copy_candidate(dest: Seq<char>, base: Seq<char>, n: nat) -> Seq<char> {
    if n == 0 {
        path_join(dest, base)
    } else {
        let (stem, ext) = stem_and_ext(base);
        let suffix = if n == 1 {
            " (copy)"@
        } else {
            " (copy "@ + decimal(n) + ")"@
        };
        let dotted = match ext {
            Some(e) => seq!['.'] + e,
            None => Seq::empty(),
        };
        path_join(dest, stem + suffix + dotted)
    }
}

fn stem_ext_of(base: &str) -> (r: (String, Option<String>))
    ensures
        r.0@ == stem_and_ext(base@).0,
        match r.1 {
            Some(e) => stem_and_ext(base@).1 == Some(e@),
            None => stem_and_ext(base@).1 is None,
        },
{
    proof {
        reveal_strlit("..");
    }
    match path_file_name(base) {
        None => (String::new(), None),
        Some(f) => {
            let v = chars_of(f.as_str());
            let mut k: usize = v.len();
            while k > 0 && v[k - 1] != '.'
                invariant
                    v@ == f@,
                    0 <= k <= v.len(),
                    last_dot(v@, v.len() - 1) == last_dot(v@, k - 1),
                decreases k,
            {
                k = k - 1;
            }
            let ghost d = last_dot(v@, v.len() - 1);
            assert(k == 0 ==> d == -1);
            assert(k > 0 ==> d == k - 1);
            if crate::text::str_eq(f.as_str(), "..") || k <= 1 {
                (f, None)
            } else {
                (string_of_range(&v, 0, k - 1), Some(string_of_range(&v, k, v.len())))
            }
        },
    }
}

/// `Path::file_stem` of `path`, as text (empty when it has no file name).
pub fn stem_of(path: &str) -> (r: String)
    ensures
        r@ == stem_and_ext(path@).0,
{
    stem_ext_of(path).0
}

/// The `n`th name tried for a copy of `base` in `dest_dir` (see [`copy_candidate`]).
pub fn copy_name(dest_dir: &str, base: &str, n: u32) -> (r: String)
    ensures
        r@ == copy_candidate(dest_dir@, base@, n as nat),
{
    if n == 0 {
        return join_path(dest_dir, base);
    }
    let (stem, ext) = stem_ext_of(base);
    let mut name = stem;
    if n == 1 {
        push_str(&mut name, " (copy)");
    } else {
        push_str(&mut name, " (copy ");
        crate::text::push_decimal(&mut name, n as u64);
        push_str(&mut name, ")");
    }
    match ext {
        Some(e) => {
            push_char(&mut name, '.');
            push_str(&mut name, e.as_str());
        },
        None => {},
    }
    let r = join_path(dest_dir, name.as_str());
    proof {
        let (st, ex) = stem_and_ext(base@);
        let suffix = if n == 1 {
            " (copy)"@
        } else {
            " (copy "@ + decimal(n as nat) + ")"@
        };
        let dotted = match ex {
            Some(e) => seq!['.'] + e,
            None => Seq::empty(),
        };
        assert(name@ =~= st + suffix + dotted);
    }
    r
}

/// Whether moving `src` into `dest_dir` is no move at all: `src` is already directly in it
/// (paths compared as `Path`s compare, component by component).
pub fn already_in(src: &str, dest_dir: &str) -> (r: bool)
    ensures
        r == match path_parent(src@) {
            Some(p) => components(p) == components(dest_dir@),
            None => false,
        },
{
    match crate::text::parent_of(src) {
        Some(p) => crate::text::same_path(p.as_str(), dest_dir),
        None => false,
    }
}

/// Whether `is_taken` said `true` of some path whose text is `p`.
pub open spec fn said_taken<F: Fn(&String) -> bool>(is_taken: &F, p: Seq<char>, answer: bool) -> bool {
    exists|s: String| s@ == p && #[trigger] is_taken.ensures((&s,), answer)
}

/// A path in `dest_dir` for a copy of `base` that overwrites nothing: the first of
/// [`copy_candidate`]s that `is_taken` says is free. `None` only once every candidate the counter
/// can number has been found taken.
pub fn free_target(dest_dir: &str, base: &str, is_taken: impl Fn(&String) -> bool) -> (r: Option<String>)
    requires
        forall|p: &String| is_taken.requires((p,)),
    ensures
        match r {
            Some(t) => exists|n: nat|
                #![trigger copy_candidate(dest_dir@, base@, n)]
                t@ == copy_candidate(dest_dir@, base@, n) && is_taken.ensures((&t,), false) && forall|k: nat|
                    k < n ==> said_taken(&is_taken, copy_candidate(dest_dir@, base@, k), true),
            None => forall|k: nat|
                k <= u32::MAX ==> said_taken(&is_taken, copy_candidate(dest_dir@, base@, k), true),
        },
{
    let mut n: u32 = 0;
    loop
        invariant
            forall|p: &String| is_taken.requires((p,)),
            forall|k: nat| k < n ==> said_taken(&is_taken, copy_candidate(dest_dir@, base@, k), true),
        decreases u32::MAX - n,
    {
        let candidate = copy_name(dest_dir, base, n);
        let taken = is_taken(&candidate);
        if !taken {
            return Some(candidate);
        }
        assert(said_taken(&is_taken, copy_candidate(dest_dir@, base@, n as nat), true));
        if n == u32::MAX {
            return None;
        }
        n = n + 1;
    }
}

// ---------------------------------------------------------------------------------------------
// Listing and searching
// ---------------------------------------------------------------------------------------------

/// What the program reads about one child of a folder, as plain values.
#[derive(Clone, Debug)]
pub struct ChildInfo {
    /// Its name on disk.
    pub name: String,
    /// Its name as shown.
    pub display_name: String,
    pub is_dir: bool,
    pub hidden: bool,
    /// Its size, owner and group ids; read only when the details columns are on.
    pub size: u64,
    pub uid: u32,
    pub gid: u32,
}

/// Whether `e` is the row for the child `c` of the folder `dir`, with `subtitle`. With the
/// details columns off (`ids` is `None`) the row carries no size, owner or group; with them on,
/// files carry their size and every row its owner and group names.
pub open spec fn row_for(e: Entry, dir: Seq<char>, c: ChildInfo, subtitle: Seq<char>, ids: Option<IdTables>) -> bool {
    &&& e.name@ == c.display_name@
    &&& e.path@ == path_join(dir, c.name@)
    &&& e.is_dir == c.is_dir
    &&& e.subtitle@ == subtitle
    &&& match ids {
        None => e.size is None && e.owner@.len() == 0 && e.group@.len() == 0,
        Some(t) => {
            &&& e.size == if c.is_dir {
                None
            } else {
                Some(c.size)
            }
            &&& e.owner@ == id_name(t.users, c.uid)
            &&& e.group@ == id_name(t.groups, c.gid)
        },
    }
}

pub open spec fn tables_of(ids: Option<&IdMap>) -> Option<IdTables> {
    match ids {
        Some(m) => Some(m@),
        None => None,
    }
}

/// The row for the child `c` of `dir`.
pub fn entry_from(dir: &str, c: &ChildInfo, subtitle: String, ids: Option<&IdMap>) -> (r: Entry)
    ensures
        row_for(r, dir@, *c, subtitle@, tables_of(ids)),
{
    let path = join_path(dir, c.name.as_str());
    match ids {
        None => Entry {
            name: c.display_name.clone(),
            path,
            is_dir: c.is_dir,
            subtitle,
            size: None,
            owner: String::new(),
            group: String::new(),
        },
        Some(m) => Entry {
            name: c.display_name.clone(),
            path,
            is_dir: c.is_dir,
            subtitle,
            size: if c.is_dir {
                None
            } else {
                Some(c.size)
            },
            owner: m.user(c.uid),
            group: m.group(c.gid),
        },
    }
}

/// The children shown: all of them with `show_hidden`, else those not hidden.
pub open spec fn shown_children(cs: Seq<ChildInfo>, show_hidden: bool) -> Seq<ChildInfo>
    decreases cs.len(),
{
    if cs.len() == 0 {
        Seq::empty()
    } else {
        let init = shown_children(cs.drop_last(), show_hidden);
        if show_hidden || !cs.last().hidden {
            init.push(cs.last())
        } else {
            init
        }
    }
}

/// One folder's rows: its children (hidden ones only with `show_hidden`), folders first, then
/// files, each by name ignoring case.
pub fn list_dir(dir: &str, children: &Vec<ChildInfo>, show_hidden: bool, ids: Option<&IdMap>) -> (r:
    Vec<Entry>)
    ensures
        exists|rows: Seq<Entry>|
            rows.len() == shown_children(children@, show_hidden).len() && (forall|k: int|
                0 <= k < rows.len() ==> row_for(
                    #[trigger] rows[k],
                    dir@,
                    shown_children(children@, show_hidden)[k],
                    Seq::empty(),
                    tables_of(ids),
                )) && stable_sort_of(&EntryOrder { key: SortKey::Name, descending: false }, rows, r@),
{
    let mut out: Vec<Entry> = Vec::new();
    let mut i: usize = 0;
    while i < children.len()
        invariant
            0 <= i <= children@.len(),
            out@.len() == shown_children(children@.subrange(0, i as int), show_hidden).len(),
            forall|k: int|
                0 <= k < out@.len() ==> row_for(
                    #[trigger] out@[k],
                    dir@,
                    shown_children(children@.subrange(0, i as int), show_hidden)[k],
                    Seq::empty(),
                    tables_of(ids),
                ),
        decreases children.len() - i,
    {
        let ghost upto = children@.subrange(0, i + 1);
        assert(upto.drop_last() =~= children@.subrange(0, i as int));
        assert(upto.last() == children@[i as int]);
        let c = &children[i];
        if show_hidden || !c.hidden {
            let e = entry_from(dir, c, String::new(), ids);
            out.push(e);
        }
        i += 1;
    }
    assert(children@.subrange(0, children@.len() as int) =~= children@);
    let ghost rows = out@;
    sort_by(&mut out, SortKey::Name, false);
    out
}

/// Whether a child's shown name holds the (lowercased) query, ignoring case.
pub open spec fn child_matches(c: ChildInfo, needle: Seq<char>) -> bool {
    crate::text::has_infix(lowercase(c.display_name@), needle)
}

/// What looking through the children `cs` of one folder gives a search that has room for
/// `room` more matches: the children that match, in order, as many as there is room for; the
/// folders among the children looked at, to look in later; and whether a match was found with
/// no room left, which ends the search there. Hidden children are passed over unless
/// `show_hidden`.
pub open spec fn look_through(cs: Seq<ChildInfo>, show_hidden: bool, needle: Seq<char>, room: nat) -> (
    Seq<ChildInfo>,
    Seq<ChildInfo>,
    bool,
)
    decreases cs.len(),
{
    if cs.len() == 0 {
        (Seq::empty(), Seq::empty(), false)
    } else {
        let c = cs[0];
        let rest = cs.drop_first();
        if !show_hidden && c.hidden {
            look_through(rest, show_hidden, needle, room)
        } else {
            let here: Seq<ChildInfo> = if c.is_dir {
                seq![c]
            } else {
                Seq::empty()
            };
            if child_matches(c, needle) {
                if room == 0 {
                    (Seq::empty(), here, true)
                } else {
                    let (m, d, cut) = look_through(rest, show_hidden, needle, (room - 1) as nat);
                    (seq![c] + m, here + d, cut)
                }
            } else {
                let (m, d, cut) = look_through(rest, show_hidden, needle, room);
                (m, here + d, cut)
            }
        }
    }
}

/// Whether a child is a folder that a search looks in: a folder, and not hidden unless hidden
/// entries are shown.
pub open spec fn searched_folder(show_hidden: bool) -> spec_fn(ChildInfo) -> bool {
    |c: ChildInfo| c.is_dir && (show_hidden || !c.hidden)
}

/// What looking through a folder's children gives a search: every folder it queues is one of
/// the children, a folder, and not hidden unless hidden entries are shown (so with hidden
/// entries off a hidden folder is never looked in); when the cap is not reached those are all
/// such children, in order. Every match is one of the children, not hidden unless shown, whose
/// name holds the query, and there are no more matches than there was room for.
pub proof fn lemma_look_through_queues_visible_folders(
    cs: Seq<ChildInfo>,
    show_hidden: bool,
    needle: Seq<char>,
    room: nat,
)
    ensures
        ({
            let (m, d, cut) = look_through(cs, show_hidden, needle, room);
            &&& forall|k: int|
                0 <= k < d.len() ==> cs.contains(#[trigger] d[k]) && d[k].is_dir && (show_hidden
                    || !d[k].hidden)
            &&& !cut ==> d == cs.filter(searched_folder(show_hidden))
            &&& forall|k: int|
                0 <= k < m.len() ==> cs.contains(#[trigger] m[k]) && (show_hidden || !m[k].hidden)
                    && child_matches(m[k], needle)
            &&& m.len() <= room
        }),
    decreases cs.len(),
{
    if cs.len() > 0 {
        let c = cs[0];
        let rest = cs.drop_first();
        assert(cs =~= seq![c] + rest);
        rest.lemma_filter_prepend(c, searched_folder(show_hidden));
        let (m, d, cut) = look_through(cs, show_hidden, needle, room);
        assert forall|x: ChildInfo| rest.contains(x) implies cs.contains(x) by {
            let j = choose|j: int| 0 <= j < rest.len() && rest[j] == x;
            assert(cs[j + 1] == x);
        }
        if !show_hidden && c.hidden {
            lemma_look_through_queues_visible_folders(rest, show_hidden, needle, room);
        } else {
            let here: Seq<ChildInfo> = if c.is_dir {
                seq![c]
            } else {
                Seq::empty()
            };
            assert(cs.contains(c)) by {
                assert(cs[0] == c);
            }
            if child_matches(c, needle) && room > 0 {
                lemma_look_through_queues_visible_folders(rest, show_hidden, needle, (room - 1) as nat);
                let (m2, d2, cut2) = look_through(rest, show_hidden, needle, (room - 1) as nat);
                assert(m == seq![c] + m2 && d == here + d2);
                assert forall|k: int| 0 <= k < m.len() implies cs.contains(#[trigger] m[k]) && (
                show_hidden || !m[k].hidden) && child_matches(m[k], needle) by {
                    if k > 0 {
                        assert(m[k] == m2[k - 1]);
                    }
                }
                assert forall|k: int| 0 <= k < d.len() implies cs.contains(#[trigger] d[k])
                    && d[k].is_dir && (show_hidden || !d[k].hidden) by {
                    if k >= here.len() {
                        assert(d[k] == d2[k - here.len()]);
                    }
                }
            } else if child_matches(c, needle) {
                assert(m.len() == 0);
                assert forall|k: int| 0 <= k < d.len() implies cs.contains(#[trigger] d[k])
                    && d[k].is_dir && (show_hidden || !d[k].hidden) by {}
            } else {
                lemma_look_through_queues_visible_folders(rest, show_hidden, needle, room);
                let (m2, d2, cut2) = look_through(rest, show_hidden, needle, room);
                assert(m == m2 && d == here + d2);
                assert forall|k: int| 0 <= k < d.len() implies cs.contains(#[trigger] d[k])
                    && d[k].is_dir && (show_hidden || !d[k].hidden) by {
                    if k >= here.len() {
                        assert(d[k] == d2[k - here.len()]);
                    }
                }
            }
        }
    } else {
        reveal(Seq::filter);
    }
}

pub open spec fn child_paths(dir: Seq<char>, cs: Seq<ChildInfo>) -> Seq<Seq<char>> {
    cs.map_values(|c: ChildInfo| path_join(dir, c.name@))
}

/// A recursive search in progress: the folders still to look in, nearest first, and the
/// matches so far. Breadth first, so nearer matches come first; it stops at [`SEARCH_CAP`].
pub struct Search {
    root: String,
    /// The query, lowercased.
    needle: String,
    show_hidden: bool,
    queue: VecDeque<String>,
    found: Vec<Entry>,
    capped: bool,
}

impl Search {
    /// What holds of a search at every step: at most [`SEARCH_CAP`] matches, each a row whose
    /// name holds the query, and the cap reached once the search was cut off.
    pub closed spec fn wf(&self) -> bool {
        &&& self.found@.len() <= SEARCH_CAP
        &&& self.capped ==> self.found@.len() == SEARCH_CAP
        &&& forall|k: int|
            0 <= k < self.found@.len() ==> crate::text::has_infix(
                lowercase((#[trigger] self.found@[k]).name@),
                self.needle@,
            )
    }

    /// The folder searched from.
    pub closed spec fn root_view(&self) -> Seq<char> {
        self.root@
    }

    /// The query, lowercased.
    pub closed spec fn needle_view(&self) -> Seq<char> {
        self.needle@
    }

    pub closed spec fn hidden_shown(&self) -> bool {
        self.show_hidden
    }

    /// The folders still to look in, in the order they will be.
    pub closed spec fn pending(&self) -> Seq<Seq<char>> {
        crate::text::views(self.queue@)
    }

    /// The matches found so far.
    pub closed spec fn matches(&self) -> Seq<Entry> {
        self.found@
    }

    /// Whether the search was cut off at the cap.
    pub closed spec fn was_capped(&self) -> bool {
        self.capped
    }

    /// A search of everything below `root` for names holding `query`, ignoring case, that has
    /// found nothing yet and will look in `root` first.
    pub fn new(root: &str, query: &str, show_hidden: bool) -> (r: Search)
        ensures
            r.wf(),
            r.root_view() == root@,
            r.needle_view() == lowercase(query@),
            r.hidden_shown() == show_hidden,
            r.pending() == seq![root@],
            r.matches().len() == 0,
            !r.was_capped(),
    {
        let mut queue: VecDeque<String> = VecDeque::new();
        queue.push_back(owned(root));
        let r = Search {
            root: owned(root),
            needle: to_lowercase(query),
            show_hidden,
            queue,
            found: Vec::new(),
            capped: false,
        };
        assert(r.pending() =~= seq![root@]);
        r
    }

    /// The next folder to look in: the nearest still pending; `None` when none is, or the
    /// search was cut off.
    pub fn next_dir(&mut self) -> (r: Option<String>)
        requires
            old(self).wf(),
        ensures
            final(self).wf(),
            final(self).root_view() == old(self).root_view(),
            final(self).needle_view() == old(self).needle_view(),
            final(self).hidden_shown() == old(self).hidden_shown(),
            final(self).matches() == old(self).matches(),
            final(self).was_capped() == old(self).was_capped(),
            match r {
                Some(d) => !old(self).was_capped() && old(self).pending().len() > 0
                    && d@ == old(self).pending()[0] && final(self).pending() == old(
                    self,
                ).pending().drop_first(),
                None => (old(self).was_capped() || old(self).pending().len() == 0)
                    && final(self).pending() == old(self).pending(),
            },
    {
        if self.capped {
            return None;
        }
        let ghost before = self.queue@;
        match self.queue.pop_front() {
            Some(d) => {
                assert(crate::text::views(self.queue@) =~= crate::text::views(before).drop_first());
                Some(d)
            },
            None => None,
        }
    }

    /// Looks through the children of the folder `dir` (as read from disk): matching ones are
    /// added, with their folder below the root as subtitle, until the cap; the folders among
    /// them are queued to look in later. `ids` resolves owners and groups when the details
    /// columns are on.
    pub fn visit(&mut self, dir: &str, children: &Vec<ChildInfo>, ids: Option<&IdMap>)
        requires
            old(self).wf(),
        ensures
            final(self).wf(),
            final(self).root_view() == old(self).root_view(),
            final(self).needle_view() == old(self).needle_view(),
            final(self).hidden_shown() == old(self).hidden_shown(),
            ({
                let (m, d, cut) = look_through(
                    children@,
                    old(self).hidden_shown(),
                    old(self).needle_view(),
                    (SEARCH_CAP - old(self).matches().len()) as nat,
                );
                &&& final(self).pending() == old(self).pending() + child_paths(dir@, d)
                &&& final(self).was_capped() == (old(self).was_capped() || cut)
                &&& final(self).matches().len() == old(self).matches().len() + m.len()
                &&& final(self).matches().subrange(0, old(self).matches().len() as int) == old(
                    self,
                ).matches()
                &&& forall|k: int|
                    0 <= k < m.len() ==> row_for(
                        #[trigger] final(self).matches()[old(self).matches().len() + k],
                        dir@,
                        m[k],
                        match path_below(dir@, old(self).root_view()) {
                            Some(p) => p,
                            None => Seq::empty(),
                        },
                        tables_of(ids),
                    )
            }),
    {
        let ghost start = *self;
        let ghost room0 = (SEARCH_CAP - self.found@.len()) as nat;
        let ghost whole = look_through(children@, self.show_hidden, self.needle@, room0);
        let ghost sub = match path_below(dir@, self.root@) {
            Some(p) => p,
            None => Seq::<char>::empty(),
        };
        let mut i: usize = 0;
        let ghost mut taken: Seq<ChildInfo> = Seq::empty();
        let ghost mut dirs: Seq<ChildInfo> = Seq::empty();
        let mut cut = false;
        assert(children@.subrange(0, children@.len() as int) =~= children@);
        while i < children.len() && !cut
            invariant
                0 <= i <= children@.len(),
                self.wf(),
                self.root == start.root,
                self.needle == start.needle,
                self.show_hidden == start.show_hidden,
                self.capped == start.capped,
                room0 == SEARCH_CAP - start.found@.len(),
                whole == look_through(children@, start.show_hidden, start.needle@, room0),
                sub == match path_below(dir@, start.root@) {
                    Some(p) => p,
                    None => Seq::<char>::empty(),
                },
                self.found@.len() == start.found@.len() + taken.len(),
                self.found@.subrange(0, start.found@.len() as int) == start.found@,
                forall|k: int|
                    0 <= k < taken.len() ==> row_for(
                        #[trigger] self.found@[start.found@.len() + k],
                        dir@,
                        taken[k],
                        sub,
                        tables_of(ids),
                    ),
                crate::text::views(self.queue@) == crate::text::views(start.queue@) + child_paths(dir@, dirs),
                !cut ==> ({
                    let (m, d, c) = look_through(
                        children@.subrange(i as int, children@.len() as int),
                        start.show_hidden,
                        start.needle@,
                        (SEARCH_CAP - self.found@.len()) as nat,
                    );
                    whole == (taken + m, dirs + d, c)
                }),
                cut ==> whole == (taken, dirs, true),
                cut ==> self.found@.len() == SEARCH_CAP,
            decreases (children.len() - i) * 2 + if cut {
                0int
            } else {
                1int
            },
        {
            let ghost rest = children@.subrange(i as int, children@.len() as int);
            assert(rest[0] == children@[i as int]);
            assert(rest.drop_first() =~= children@.subrange(i + 1, children@.len() as int));
            let c = &children[i];
            if !self.show_hidden && c.hidden {
                i += 1;
                continue;
            }
            let ghost here: Seq<ChildInfo> = if c.is_dir {
                seq![*c]
            } else {
                Seq::empty()
            };
            if c.is_dir {
                let ghost qb = self.queue@;
                self.queue.push_back(join_path(dir, c.name.as_str()));
                proof {
                    assert(crate::text::views(self.queue@) =~= crate::text::views(qb).push(
                        path_join(dir@, c.name@),
                    ));
                    assert(child_paths(dir@, dirs + here) =~= child_paths(dir@, dirs).push(
                        path_join(dir@, c.name@),
                    ));
                }
            } else {
                assert(dirs + here =~= dirs);
            }
            proof {
                dirs = dirs + here;
            }
            let lname = to_lowercase(c.display_name.as_str());
            if crate::text::contains_str(lname.as_str(), self.needle.as_str()) {
                if self.found.len() >= SEARCH_CAP {
                    cut = true;
                    assert(taken + Seq::<ChildInfo>::empty() =~= taken);
                    assert(dirs + Seq::<ChildInfo>::empty() =~= dirs);
                    continue;
                }
                let subtitle = match strip_path_prefix(dir, self.root.as_str()) {
                    Some(p) => p,
                    None => String::new(),
                };
                let e = entry_from(dir, c, subtitle, ids);
                let ghost fb = self.found@;
                self.found.push(e);
                proof {
                    assert(self.found@.subrange(0, start.found@.len() as int) =~= fb.subrange(
                        0,
                        start.found@.len() as int,
                    ));
                    assert forall|k: int| 0 <= k < taken.len() + 1 implies row_for(
                        #[trigger] self.found@[start.found@.len() + k],
                        dir@,
                        taken.push(*c)[k],
                        sub,
                        tables_of(ids),
                    ) by {
                        if k < taken.len() {
                            assert(self.found@[start.found@.len() + k] == fb[start.found@.len()
                                + k]);
                        }
                    }
                    assert(seq![*c] + look_through(
                        rest.drop_first(),
                        start.show_hidden,
                        start.needle@,
                        (SEARCH_CAP - self.found@.len()) as nat,
                    ).0 =~= seq![*c] + look_through(
                        rest.drop_first(),
                        start.show_hidden,
                        start.needle@,
                        (SEARCH_CAP - self.found@.len()) as nat,
                    ).0);
                    assert(taken + (seq![*c] + look_through(
                        rest.drop_first(),
                        start.show_hidden,
                        start.needle@,
                        (SEARCH_CAP - self.found@.len()) as nat,
                    ).0) =~= taken.push(*c) + look_through(
                        rest.drop_first(),
                        start.show_hidden,
                        start.needle@,
                        (SEARCH_CAP - self.found@.len()) as nat,
                    ).0);
                    taken = taken.push(*c);
                }
            }
            i += 1;
        }
        proof {
            if !cut {
                assert(children@.subrange(i as int, children@.len() as int) =~= Seq::<
                    ChildInfo,
                >::empty());
                assert(taken + Seq::<ChildInfo>::empty() =~= taken);
                assert(dirs + Seq::<ChildInfo>::empty() =~= dirs);
            }
        }
        if cut {
            self.capped = true;
        }
        assert(self.pending() =~= start.pending() + child_paths(dir@, whole.1));
    }

    /// The matches, in the order they were found (breadth first, so nearer ones first), and
    /// whether the search was cut off at the cap.
    pub fn finish(self) -> (r: (Vec<Entry>, bool))
        ensures
            r.0@ == self.matches(),
            r.1 == self.was_capped(),
    {
        (self.found, self.capped)
    }
}

} // verus!
