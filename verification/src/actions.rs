//! What the file list's actions decide before they touch the disk: the names new files, folders,
//! archives and extractions get, which names are refused, which actions the menu offers, and
//! what the status line and the confirmations say.
use vstd::prelude::*;
use crate::entry::{Entry, archive_name, is_archive, stem_and_ext};
use crate::text::{
    decimal, file_name, has_suffix, join_path, owned, path_file_name,
    path_join, push_decimal, push_str, str_eq, trim, trim_str,
};

verus! {

broadcast use vstd::string::group_string_axioms;

// ---------------------------------------------------------------------------------------------
// Counting words
// ---------------------------------------------------------------------------------------------

/// `n` followed by `noun`, with an `s` unless `n` is one: `1 item`, `3 items`.
pub open spec fn counted(n: nat, noun: Seq<char>) -> Seq<char> {
    decimal(n) + seq![' '] + noun + if n == 1 {
        Seq::empty()
    } else {
        "s"@
    }
}

fn push_counted(s: &mut String, n: u64, noun: &str)
    ensures
        final(s)@ == old(s)@ + counted(n as nat, noun@),
{
    proof {
        reveal_strlit(" ");
        reveal_strlit("s");
    }
    let ghost start = s@;
    push_decimal(s, n);
    push_str(s, " ");
    push_str(s, noun);
    if n != 1 {
        push_str(s, "s");
    }
    assert(s@ =~= start + counted(n as nat, noun@));
}

/// `verb` and a count of items, as the status line reports a copy, cut, paste or move:
/// `Copied 1 item`, `Moved 3 items`.
pub fn items_done(verb: &str, n: u64) -> (r: String)
    ensures
        r@ == verb@ + seq![' '] + counted(n as nat, "item"@),
{
    proof {
        reveal_strlit(" ");
    }
    let mut s = owned(verb);
    push_str(&mut s, " ");
    push_counted(&mut s, n, "item");
    assert(s@ =~= verb@ + seq![' '] + counted(n as nat, "item"@));
    s
}

/// The status line after extracting `n` archives.
pub fn archives_extracted(n: u64) -> (r: String)
    ensures
        r@ == "Extracted "@ + counted(n as nat, "archive"@),
{
    let mut s = owned("Extracted ");
    push_counted(&mut s, n, "archive");
    s
}

/// The status line after copying the paths of `n` selected items.
pub fn paths_copied(n: u64) -> (r: &'static str)
    ensures
        r@ == if n == 1 {
            "Path copied"@
        } else {
            "Paths copied"@
        },
{
    if n == 1 {
        "Path copied"
    } else {
        "Paths copied"
    }
}

/// What the status line says after the list is rebuilt: `shown` results of a recursive search
/// (noting when they were cut off at the cap), or `shown` items of the folder.
pub open spec fn listing_status(shown: nat, searching: bool, capped: bool) -> Seq<char> {
    if searching {
        decimal(shown) + " results"@ + if capped {
            " (showing the first 2000)"@
        } else {
            Seq::empty()
        }
    } else {
        counted(shown, "item"@)
    }
}

pub fn status_text(shown: u64, searching: bool, capped: bool) -> (r: String)
    ensures
        r@ == listing_status(shown as nat, searching, capped),
{
    let mut s = String::new();
    if searching {
        push_decimal(&mut s, shown);
        push_str(&mut s, " results");
        if capped {
            push_str(&mut s, " (showing the first 2000)");
        }
    } else {
        push_counted(&mut s, shown, "item");
    }
    s
}

// ---------------------------------------------------------------------------------------------
// The filter box
// ---------------------------------------------------------------------------------------------

/// Whether an entry named `name` stays in the list while `query` is typed in the filter: always
/// for an empty query, else when its name holds the query, ignoring case.
pub open spec fn passes_filter(name: Seq<char>, query: Seq<char>) -> bool {
    let q = crate::text::lowercase(query);
    q.len() == 0 || crate::text::has_infix(crate::text::lowercase(name), q)
}

pub fn filter_accepts(name: &str, query: &str) -> (r: bool)
    ensures
        r == passes_filter(name@, query@),
{
    let q = crate::text::to_lowercase(query);
    if q.as_str().is_empty() {
        return true;
    }
    let n = crate::text::to_lowercase(name);
    crate::text::contains_str(n.as_str(), q.as_str())
}

/// How many of `entries` pass the filter for `query`.
pub fn count_passing(entries: &Vec<Entry>, query: &str) -> (r: u64)
    requires
        entries@.len() <= u64::MAX,
    ensures
        r == count_filtered(entries@, query@),
{
    let mut n: u64 = 0;
    let mut i: usize = 0;
    while i < entries.len()
        invariant
            0 <= i <= entries@.len(),
            entries@.len() <= u64::MAX,
            n == count_filtered(entries@.subrange(0, i as int), query@),
            n <= i,
        decreases entries.len() - i,
    {
        let ghost upto = entries@.subrange(0, i + 1);
        assert(upto.drop_last() =~= entries@.subrange(0, i as int));
        if filter_accepts(entries[i].name.as_str(), query) {
            n = n + 1;
        }
        i += 1;
    }
    assert(entries@.subrange(0, entries@.len() as int) =~= entries@);
    n
}

/// The number of `es` whose names pass the filter for `query`.
pub open spec fn count_filtered(es: Seq<Entry>, query: Seq<char>) -> nat
    decreases es.len(),
{
    if es.len() == 0 {
        0
    } else {
        count_filtered(es.drop_last(), query) + if passes_filter(es.last().name@, query) {
            1nat
        } else {
            0nat
        }
    }
}

// ---------------------------------------------------------------------------------------------
// The context menu
// ---------------------------------------------------------------------------------------------

/// Whether every selected item is an archive file (and something is selected): then Extract is
/// offered, and otherwise Compress.
pub open spec fn all_archives(sel: Seq<Entry>) -> bool {
    sel.len() > 0 && forall|k: int|
        0 <= k < sel.len() ==> !(#[trigger] sel[k]).is_dir && archive_name(sel[k].name@)
}

/// Which of Extract and Compress the menu offers for the selection `sel`: Extract when every
/// selected item is an archive, Compress when something else is selected. With nothing
/// selected, neither.
pub fn archive_actions(sel: &Vec<Entry>) -> (r: (bool, bool))
    ensures
        r.0 == all_archives(sel@),
        r.1 == (sel@.len() > 0 && !all_archives(sel@)),
{
    let mut all = sel.len() > 0;
    let mut i: usize = 0;
    while i < sel.len()
        invariant
            0 <= i <= sel@.len(),
            all == (sel@.len() > 0 && forall|k: int|
                0 <= k < i ==> !(#[trigger] sel@[k]).is_dir && archive_name(sel@[k].name@)),
        decreases sel.len() - i,
    {
        if sel[i].is_dir || !is_archive(sel[i].name.as_str()) {
            all = false;
        }
        i += 1;
    }
    (all, sel.len() > 0 && !all)
}

// ---------------------------------------------------------------------------------------------
// Opening
// ---------------------------------------------------------------------------------------------

/// What opening an entry does.
pub enum OpenAction {
    /// A folder: the list moves into it.
    Navigate(String),
    /// A file with an association: the program runs with the file's path.
    Launch(String),
    /// A file with none: the system default is asked, and failing that the user chooses.
    SystemDefault,
}

/// What opening `e` does, given the program its extension is associated with, if any.
pub fn open_action(e: &Entry, program: Option<String>) -> (r: OpenAction)
    ensures
        e.is_dir ==> r == OpenAction::Navigate(e.path),
        !e.is_dir ==> r == match program {
            Some(p) => OpenAction::Launch(p),
            None => OpenAction::SystemDefault,
        },
{
    if e.is_dir {
        return OpenAction::Navigate(e.path.clone());
    }
    match program {
        Some(p) => OpenAction::Launch(p),
        None => OpenAction::SystemDefault,
    }
}

/// The "remember" check box of the Open With dialog: for a file with an extension, the promise
/// to open all such files this way; without one it cannot be ticked.
pub fn remember_label(ext: &Option<String>) -> (r: String)
    ensures
        r@ == match ext {
            Some(x) => "Always open ."@ + x@ + " files this way"@,
            None => "Remember for this file type"@,
        },
{
    match ext {
        Some(x) => {
            let mut s = owned("Always open .");
            push_str(&mut s, x.as_str());
            push_str(&mut s, " files this way");
            s
        },
        None => owned("Remember for this file type"),
    }
}

// ---------------------------------------------------------------------------------------------
// New, rename and delete
// ---------------------------------------------------------------------------------------------

/// What a typed name comes to.
pub enum NameCheck {
    /// Nothing to do: the name is blank, or (for a rename) unchanged.
    Nothing,
    /// Refused: a name cannot hold a `/`.
    HasSlash,
    /// The name to use, trimmed.
    Name(String),
}

/// What the name typed for a new file or folder comes to: trimmed, nothing when blank, refused
/// when it holds a `/`.
pub fn check_new_name(typed: &str) -> (r: NameCheck)
    ensures
        match r {
            NameCheck::Nothing => trim(typed@).len() == 0,
            NameCheck::HasSlash => trim(typed@).len() > 0 && trim(typed@).contains('/'),
            NameCheck::Name(n) => n@ == trim(typed@) && n@.len() > 0 && !n@.contains('/'),
        },
{
    let name = trim_str(typed);
    if name.as_str().is_empty() {
        NameCheck::Nothing
    } else if crate::text::contains_char(name.as_str(), '/') {
        NameCheck::HasSlash
    } else {
        NameCheck::Name(name)
    }
}

/// What the name typed to rename `old_name` comes to: as for a new name, and also nothing when
/// it is the old name.
pub fn check_rename(typed: &str, old_name: &str) -> (r: NameCheck)
    ensures
        match r {
            NameCheck::Nothing => trim(typed@).len() == 0 || trim(typed@) == old_name@,
            NameCheck::HasSlash => trim(typed@).len() > 0 && trim(typed@) != old_name@ && trim(
                typed@,
            ).contains('/'),
            NameCheck::Name(n) => n@ == trim(typed@) && n@.len() > 0 && n@ != old_name@
                && !n@.contains('/'),
        },
{
    let name = trim_str(typed);
    if name.as_str().is_empty() || str_eq(name.as_str(), old_name) {
        NameCheck::Nothing
    } else if crate::text::contains_char(name.as_str(), '/') {
        NameCheck::HasSlash
    } else {
        NameCheck::Name(name)
    }
}

/// Why a name was refused for holding a `/`.
pub fn slash_refusal() -> (r: &'static str)
    ensures
        r@ == "A name can\u{2019}t contain \u{201c}/\u{201d}."@,
{
    "A name can\u{2019}t contain \u{201c}/\u{201d}."
}

/// Why a name was refused for being taken: `“name” already exists.`
pub fn exists_refusal(name: &str) -> (r: String)
    ensures
        r@ == seq!['\u{201c}'] + name@ + "\u{201d} already exists."@,
{
    proof {
        reveal_strlit("\u{201c}");
    }
    let mut s = owned("\u{201c}");
    push_str(&mut s, name);
    push_str(&mut s, "\u{201d} already exists.");
    assert(s@ =~= seq!['\u{201c}'] + name@ + "\u{201d} already exists."@);
    s
}

/// The title, placeholder and kind word of the dialog that creates a folder or a file.
pub fn new_item_words(is_dir: bool) -> (r: (&'static str, &'static str, &'static str))
    ensures
        is_dir ==> r.0@ == "New Folder"@ && r.1@ == "Folder name"@ && r.2@ == "folder"@,
        !is_dir ==> r.0@ == "New File"@ && r.1@ == "File name"@ && r.2@ == "file"@,
{
    if is_dir {
        ("New Folder", "Folder name", "folder")
    } else {
        ("New File", "File name", "file")
    }
}

/// The question asked before deleting the selected items (`names`): the name itself for one,
/// the count for several.
pub fn delete_prompt(names: &Vec<String>) -> (r: String)
    requires
        names@.len() > 0,
    ensures
        names@.len() == 1 ==> r@ == "Permanently delete \u{201c}"@ + names@[0]@
            + "\u{201d}? This cannot be undone."@,
        names@.len() > 1 ==> r@ == "Permanently delete these "@ + decimal(names@.len())
            + " items? This cannot be undone."@,
{
    if names.len() == 1 {
        let mut s = owned("Permanently delete \u{201c}");
        push_str(&mut s, names[0].as_str());
        push_str(&mut s, "\u{201d}? This cannot be undone.");
        s
    } else {
        let mut s = owned("Permanently delete these ");
        push_decimal(&mut s, names.len() as u64);
        push_str(&mut s, " items? This cannot be undone.");
        s
    }
}

// ---------------------------------------------------------------------------------------------
// Archives
// ---------------------------------------------------------------------------------------------

/// The name an archive of the items `names` is given: for one item its file stem (the item's
/// own name when that is empty), for several `Archive`.
pub open spec fn archive_base(names: Seq<Seq<char>>) -> Seq<char> {
    if names.len() == 1 {
        let stem = stem_and_ext(names[0]).0;
        if stem.len() > 0 {
            stem
        } else {
            names[0]
        }
    } else {
        "Archive"@
    }
}

/// The `n`th path tried for the archive: `base.zip`, then `base (1).zip`, `base (2).zip`, ...
pub open spec fn archive_candidate(dir: Seq<char>, base: Seq<char>, n: nat) -> Seq<char> {
    if n == 0 {
        path_join(dir, base + ".zip"@)
    } else {
        path_join(dir, base + " ("@ + decimal(n) + ").zip"@)
    }
}

/// The `n`th folder tried for extracting an archive: `stem`, then `stem (1)`, `stem (2)`, ...
pub open spec fn extract_candidate(dir: Seq<char>, stem: Seq<char>, n: nat) -> Seq<char> {
    if n == 0 {
        path_join(dir, stem)
    } else {
        path_join(dir, stem + " ("@ + decimal(n) + ")"@)
    }
}

/// The folder name an archive extracts into: its name without the extension, and without a
/// `.tar` left before that (`foo.tar.gz` gives `foo`).
pub open spec fn extract_stem(name: Seq<char>) -> Seq<char> {
    let (stem, _) = stem_and_ext(name);
    let s = match file_name(name) {
        Some(_) => stem,
        None => name,
    };
    if has_suffix(s, ".tar"@) {
        s.subrange(0, s.len() - 4)
    } else {
        s
    }
}

/// The name an archive of the items named `names` gets; an error when nothing is selected.
pub fn archive_base_of(names: &Vec<String>) -> (r: Result<String, String>)
    ensures
        match r {
            Ok(b) => names@.len() > 0 && b@ == archive_base(crate::text::views(names@)),
            Err(e) => names@.len() == 0 && e@ == "Nothing selected to compress."@,
        },
{
    if names.len() == 0 {
        return Err(owned("Nothing selected to compress."));
    }
    if names.len() == 1 {
        let stem = crate::entry::stem_of(names[0].as_str());
        assert(crate::text::views(names@)[0] == names@[0]@);
        if stem.as_str().is_empty() {
            Ok(names[0].clone())
        } else {
            Ok(stem)
        }
    } else {
        Ok(owned("Archive"))
    }
}

/// The `n`th path tried for an archive named `base` in `dir`.
pub fn archive_path(dir: &str, base: &str, n: u32) -> (r: String)
    ensures
        r@ == archive_candidate(dir@, base@, n as nat),
{
    let mut name = owned(base);
    if n == 0 {
        push_str(&mut name, ".zip");
    } else {
        push_str(&mut name, " (");
        push_decimal(&mut name, n as u64);
        push_str(&mut name, ").zip");
    }
    join_path(dir, name.as_str())
}

/// The `n`th folder tried for extracting into, from the stem `stem`, in `dir`.
pub fn extract_path(dir: &str, stem: &str, n: u32) -> (r: String)
    ensures
        r@ == extract_candidate(dir@, stem@, n as nat),
{
    if n == 0 {
        return join_path(dir, stem);
    }
    let mut name = owned(stem);
    push_str(&mut name, " (");
    push_decimal(&mut name, n as u64);
    push_str(&mut name, ")");
    join_path(dir, name.as_str())
}

/// `k` is the last `.` at or before `i` when nothing after it, up to `i`, is a dot.
proof fn lemma_last_dot_at(f: Seq<char>, i: int, k: int)
    requires
        0 <= k <= i < f.len(),
        f[k] == '.',
        forall|j: int| k < j <= i ==> f[j] != '.',
    ensures
        crate::entry::last_dot(f, i) == k,
    decreases i,
{
    if i > k {
        lemma_last_dot_at(f, i - 1, k);
    }
}

/// The folder an archive extracts into is its file name with only the last extension taken
/// off, dots before it kept, and then a trailing `.tar` taken off: for a name `s` and an
/// extension `e` without a dot, `s.e` extracts into `s`, and `t.tar.e` into `t`.
pub proof fn lemma_extract_stem_drops_one_extension(s: Seq<char>, e: Seq<char>)
    requires
        s.len() > 0,
        !s.contains('/'),
        !e.contains('/'),
        !e.contains('.'),
        s + "."@ + e != ".."@,
    ensures
        !has_suffix(s, ".tar"@) ==> extract_stem(s + "."@ + e) == s,
        has_suffix(s, ".tar"@) ==> extract_stem(s + "."@ + e) + ".tar"@ == s,
{
    reveal_strlit(".");
    reveal_strlit("..");
    reveal_strlit(".tar");
    let name = s + "."@ + e;
    let n = s.len() as int;
    assert(name.len() == n + 1 + e.len());
    assert(name[n] == '.');
    assert forall|j: int| 0 <= j < n implies name[j] == s[j] by {}
    assert forall|j: int| n < j < name.len() implies name[j] == e[j - n - 1] by {}
    assert(!name.contains('/')) by {
        if name.contains('/') {
            let j = choose|j: int| 0 <= j < name.len() && name[j] == '/';
            if j < n {
                assert(s[j] == '/');
            } else if j > n {
                assert(e[j - n - 1] == '/');
            }
        }
    }
    assert forall|j: int| n < j <= name.len() - 1 implies name[j] != '.' by {
        assert(name[j] == e[j - n - 1]);
        if e[j - n - 1] == '.' {
            assert(e.contains('.'));
        }
    }
    lemma_last_dot_at(name, name.len() - 1, n);
    crate::text::lemma_split_no_sep(name, '/');
    let raw = crate::text::split(name, '/');
    assert(raw == seq![name]);
    assert(name[0] != '/') by {
        assert(name[0] == s[0]);
        if s[0] == '/' {
            assert(s.contains('/'));
        }
    }
    assert(name != seq!['.']);
    assert(raw.drop_last() =~= Seq::<Seq<char>>::empty());
    assert(raw.last() == name);
    assert(crate::text::kept_pieces(raw.drop_last()) =~= Seq::<Seq<char>>::empty());
    assert(crate::text::kept_pieces(raw) =~= seq![name]);
    assert(crate::text::components(name) =~= seq![name]);
    assert(".."@ =~= seq!['.', '.']);
    assert(file_name(name) == Some(name));
    assert(name.subrange(0, n) =~= s);
    assert(stem_and_ext(name).0 == s);
    if has_suffix(s, ".tar"@) {
        assert(s.subrange(0, s.len() - 4) + ".tar"@ =~= s);
    }
}

/// The folder name the archive called `name` extracts into.
pub fn extract_stem_of(name: &str) -> (r: String)
    ensures
        r@ == extract_stem(name@),
{
    let s = match path_file_name(name) {
        Some(_) => crate::entry::stem_of(name),
        None => owned(name),
    };
    proof {
        reveal_strlit(".tar");
    }
    if crate::text::ends_with(s.as_str(), ".tar") {
        let v = crate::text::chars_of(s.as_str());
        crate::text::string_of_range(&v, 0, v.len() - 4)
    } else {
        s
    }
}

/// Whether `is_taken` said `answer` of some path whose text is `p`.
pub open spec fn answered<F: Fn(&String) -> bool>(is_taken: &F, p: Seq<char>, answer: bool) -> bool {
    exists|s: String| s@ == p && #[trigger] is_taken.ensures((&s,), answer)
}

/// The path the archive of `names` is written to in `dir`: the first of [`archive_candidate`]s
/// for their [`archive_base`] that `is_taken` says is free. An error when nothing is selected;
/// `None` once every candidate the counter can number has been found taken.
pub fn archive_target(dir: &str, names: &Vec<String>, is_taken: impl Fn(&String) -> bool) -> (r:
    Result<Option<String>, String>)
    requires
        forall|p: &String| is_taken.requires((p,)),
    ensures
        match r {
            Ok(Some(t)) => names@.len() > 0 && exists|n: nat|
                #![trigger archive_candidate(dir@, archive_base(crate::text::views(names@)), n)]
                t@ == archive_candidate(dir@, archive_base(crate::text::views(names@)), n)
                    && is_taken.ensures((&t,), false) && forall|k: nat|
                    k < n ==> answered(
                        &is_taken,
                        archive_candidate(dir@, archive_base(crate::text::views(names@)), k),
                        true,
                    ),
            Ok(None) => names@.len() > 0 && forall|k: nat|
                k <= u32::MAX ==> answered(
                    &is_taken,
                    archive_candidate(dir@, archive_base(crate::text::views(names@)), k),
                    true,
                ),
            Err(e) => names@.len() == 0 && e@ == "Nothing selected to compress."@,
        },
{
    let base = match archive_base_of(names) {
        Ok(b) => b,
        Err(e) => {
            return Err(e);
        },
    };
    let ghost b = base@;
    let mut n: u32 = 0;
    loop
        invariant
            forall|p: &String| is_taken.requires((p,)),
            b == base@,
            names@.len() > 0,
            b == archive_base(crate::text::views(names@)),
            forall|k: nat| k < n ==> answered(&is_taken, archive_candidate(dir@, b, k), true),
        decreases u32::MAX - n,
    {
        let candidate = archive_path(dir, base.as_str(), n);
        if !is_taken(&candidate) {
            return Ok(Some(candidate));
        }
        assert(answered(&is_taken, archive_candidate(dir@, b, n as nat), true));
        if n == u32::MAX {
            return Ok(None);
        }
        n = n + 1;
    }
}

/// The folder the archive called `name` is extracted into, in `dir`: the first of
/// [`extract_candidate`]s for its [`extract_stem`] that `is_taken` says is free; `None` once
/// every candidate the counter can number has been found taken.
pub fn extract_target(dir: &str, name: &str, is_taken: impl Fn(&String) -> bool) -> (r: Option<
    String,
>)
    requires
        forall|p: &String| is_taken.requires((p,)),
    ensures
        match r {
            Some(t) => exists|n: nat|
                #![trigger extract_candidate(dir@, extract_stem(name@), n)]
                t@ == extract_candidate(dir@, extract_stem(name@), n) && is_taken.ensures(
                    (&t,),
                    false,
                ) && forall|k: nat|
                    k < n ==> answered(&is_taken, extract_candidate(dir@, extract_stem(name@), k), true),
            None => forall|k: nat|
                k <= u32::MAX ==> answered(
                    &is_taken,
                    extract_candidate(dir@, extract_stem(name@), k),
                    true,
                ),
        },
{
    let stem = extract_stem_of(name);
    let mut n: u32 = 0;
    loop
        invariant
            forall|p: &String| is_taken.requires((p,)),
            stem@ == extract_stem(name@),
            forall|k: nat|
                k < n ==> answered(&is_taken, extract_candidate(dir@, extract_stem(name@), k), true),
        decreases u32::MAX - n,
    {
        let candidate = extract_path(dir, stem.as_str(), n);
        if !is_taken(&candidate) {
            return Some(candidate);
        }
        assert(answered(&is_taken, extract_candidate(dir@, extract_stem(name@), n as nat), true));
        if n == u32::MAX {
            return None;
        }
        n = n + 1;
    }
}

/// The arguments of `zip` that pack the items `names` (relative to the folder it runs in) into
/// `archive`, recursively and quietly.
pub fn zip_args(archive: &str, names: &Vec<String>) -> (r: Vec<String>)
    ensures
        crate::text::views(r@) == seq!["-r"@, "-q"@, archive@] + crate::text::views(names@),
{
    let mut r: Vec<String> = Vec::new();
    r.push(owned("-r"));
    r.push(owned("-q"));
    r.push(owned(archive));
    let ghost head = crate::text::views(r@);
    assert(head =~= seq!["-r"@, "-q"@, archive@]);
    let mut i: usize = 0;
    while i < names.len()
        invariant
            0 <= i <= names.len(),
            crate::text::views(r@) == head + crate::text::views(names@.subrange(0, i as int)),
        decreases names.len() - i,
    {
        let ghost before = r@;
        r.push(names[i].clone());
        assert(crate::text::views(r@) =~= crate::text::views(before).push(names@[i as int]@));
        assert(crate::text::views(names@.subrange(0, i + 1)) =~= crate::text::views(
            names@.subrange(0, i as int),
        ).push(names@[i as int]@));
        i += 1;
    }
    assert(names@.subrange(0, names@.len() as int) =~= names@);
    r
}

/// The arguments of `bsdtar` that extract `archive` into the folder `out`.
pub fn bsdtar_args(archive: &str, out: &str) -> (r: Vec<String>)
    ensures
        crate::text::views(r@) == seq!["-x"@, "-f"@, archive@, "-C"@, out@],
{
    let mut r: Vec<String> = Vec::new();
    r.push(owned("-x"));
    r.push(owned("-f"));
    r.push(owned(archive));
    r.push(owned("-C"));
    r.push(owned(out));
    assert(crate::text::views(r@) =~= seq!["-x"@, "-f"@, archive@, "-C"@, out@]);
    r
}

// ---------------------------------------------------------------------------------------------
// Keys
// ---------------------------------------------------------------------------------------------

/// The keys the window answers to (letters in either case).
#[derive(Clone, Copy, PartialEq, Eq, Debug)]
pub enum Key {
    N,
    C,
    X,
    V,
    Delete,
    F2,
    Other,
}

pub open spec fn shortcut_of(key: Key, ctrl: bool) -> Option<Seq<char>> {
    match key {
        Key::N => if ctrl {
            Some("files.new-file"@)
        } else {
            None
        },
        Key::C => if ctrl {
            Some("files.copy"@)
        } else {
            None
        },
        Key::X => if ctrl {
            Some("files.cut"@)
        } else {
            None
        },
        Key::V => if ctrl {
            Some("files.paste"@)
        } else {
            None
        },
        Key::Delete => Some("files.delete"@),
        Key::F2 => Some("files.rename"@),
        Key::Other => None,
    }
}

/// The action a key press runs: Ctrl+N a new file, Ctrl+C copy, Ctrl+X cut, Ctrl+V paste,
/// Delete delete, F2 rename; `None` lets the key through.
pub fn shortcut(key: Key, ctrl: bool) -> (r: Option<&'static str>)
    ensures
        match r {
            Some(a) => shortcut_of(key, ctrl) == Some(a@),
            None => shortcut_of(key, ctrl) is None,
        },
{
    match key {
        Key::N => if ctrl {
            Some("files.new-file")
        } else {
            None
        },
        Key::C => if ctrl {
            Some("files.copy")
        } else {
            None
        },
        Key::X => if ctrl {
            Some("files.cut")
        } else {
            None
        },
        Key::V => if ctrl {
            Some("files.paste")
        } else {
            None
        },
        Key::Delete => Some("files.delete"),
        Key::F2 => Some("files.rename"),
        Key::Other => None,
    }
}

// ---------------------------------------------------------------------------------------------
// The folder tree
// ---------------------------------------------------------------------------------------------

/// Folders in the tree: by on-disk name, ignoring case.
pub struct ByLowerName;

impl crate::sort::Ranking<crate::entry::ChildInfo> for ByLowerName {
    open spec fn precedes(&self, a: crate::entry::ChildInfo, b: crate::entry::ChildInfo) -> bool {
        crate::text::lex_lt(crate::text::lowercase(a.name@), crate::text::lowercase(b.name@))
    }

    proof fn lemma_weak_order(&self, a: crate::entry::ChildInfo, b: crate::entry::ChildInfo, c: crate::entry::ChildInfo) {
        crate::text::lemma_lex_weak(
            crate::text::lowercase(a.name@),
            crate::text::lowercase(b.name@),
            crate::text::lowercase(c.name@),
        );
    }

    fn goes_before(&self, a: &crate::entry::ChildInfo, b: &crate::entry::ChildInfo) -> (r: bool) {
        crate::text::lower_before(a.name.as_str(), b.name.as_str())
    }
}

/// The children a folder shows in the tree: its subfolders, hidden ones only with
/// `show_hidden`, in order.
pub open spec fn tree_folders(cs: Seq<crate::entry::ChildInfo>, show_hidden: bool) -> Seq<crate::entry::ChildInfo>
    decreases cs.len(),
{
    if cs.len() == 0 {
        Seq::empty()
    } else {
        let init = tree_folders(cs.drop_last(), show_hidden);
        let c = cs.last();
        if c.is_dir && (show_hidden || !c.hidden) {
            init.push(c)
        } else {
            init
        }
    }
}

/// The subfolders of a folder in the tree, by name ignoring case; `None` when it has none, so
/// its row shows no expander.
pub fn tree_children(children: &Vec<crate::entry::ChildInfo>, show_hidden: bool) -> (r: Option<
    Vec<crate::entry::ChildInfo>,
>)
    ensures
        match r {
            Some(v) => tree_folders(children@, show_hidden).len() > 0 && crate::sort::stable_sort_of(
                &ByLowerName,
                tree_folders(children@, show_hidden),
                v@,
            ),
            None => tree_folders(children@, show_hidden).len() == 0,
        },
{
    let mut v: Vec<crate::entry::ChildInfo> = Vec::new();
    let mut i: usize = 0;
    while i < children.len()
        invariant
            0 <= i <= children@.len(),
            v@ == tree_folders(children@.subrange(0, i as int), show_hidden),
        decreases children.len() - i,
    {
        let ghost upto = children@.subrange(0, i + 1);
        assert(upto.drop_last() =~= children@.subrange(0, i as int));
        assert(upto.last() == children@[i as int]);
        let c = &children[i];
        if c.is_dir && (show_hidden || !c.hidden) {
            let ghost before = v@;
            v.push(
                crate::entry::ChildInfo {
                    name: c.name.clone(),
                    display_name: c.display_name.clone(),
                    is_dir: c.is_dir,
                    hidden: c.hidden,
                    size: c.size,
                    uid: c.uid,
                    gid: c.gid,
                },
            );
            assert(v@ =~= before.push(children@[i as int]));
        }
        i += 1;
    }
    assert(children@.subrange(0, children@.len() as int) =~= children@);
    if v.len() == 0 {
        return None;
    }
    Some(crate::sort::stable_sort(&ByLowerName, v))
}

/// What a tree row is called: its folder's base name, or `Computer` for the root (`/`) or a
/// folder with none.
pub fn tree_label(basename: Option<String>) -> (r: String)
    ensures
        r@ == match basename {
            Some(b) => if b@ == "/"@ {
                "Computer"@
            } else {
                b@
            },
            None => "Computer"@,
        },
{
    match basename {
        Some(b) => if str_eq(b.as_str(), "/") {
            owned("Computer")
        } else {
            b
        },
        None => owned("Computer"),
    }
}

} // verus!
