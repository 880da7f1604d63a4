//! The shared "Opens With" file-association store.
//!
//! Associations are system-wide, so they live in their own registry namespace rather than any
//! one app's. Each row maps one lowercase extension (no dot) to one launch command. An index key
//! lists every extension that has ever had an association, because the registry cannot list its
//! keys.
use vstd::prelude::*;
use crate::registry::Store;
use crate::sort::{Ranking, stable_sort, stable_sort_of};
use crate::text::{
    chars_of, index_names, index_ready, is_blank, join_strs, lex_lt, lowercase, owned, split, split_str,
    str_eq, str_is_blank, string_of_range, to_lowercase, trim_str, views, ascii_lower,
    all_ascii,
};

verus! {

broadcast use vstd::string::group_string_axioms;

/// Registry namespace holding the extension → command map.
pub const NS: &'static str = "com.webgen.OpensWith";

/// Index key: the comma-separated list of every extension that has had an association.
pub const INDEX: &'static str = "@index";

pub open spec fn ns() -> Seq<char> {
    "com.webgen.OpensWith"@
}

pub open spec fn index_key() -> Seq<char> {
    "@index"@
}

/// A known WebGen program, for showing an icon and a friendly name next to a command.
pub struct Program {
    pub command: &'static str,
    pub name: &'static str,
    pub icon: &'static str,
}

/// The WebGen family apps offered as open-with targets: browser, editor, terminal.
pub open spec fn program_rows() -> Seq<(Seq<char>, Seq<char>, Seq<char>)> {
    seq![
        ("webgen"@, "Browser"@, "com.webgen.WebGen"@),
        ("webgen-edit"@, "Edit"@, "com.webgen.Edit"@),
        ("webgen-terminal"@, "Terminal"@, "com.webgen.Terminal"@),
    ]
}

pub open spec fn program_view(p: Program) -> (Seq<char>, Seq<char>, Seq<char>) {
    (p.command@, p.name@, p.icon@)
}

/// The programs offered as open-with targets.
pub fn programs() -> (r: Vec<Program>)
    ensures
        r@.len() == program_rows().len(),
        forall|i: int| 0 <= i < r@.len() ==> program_view(#[trigger] r@[i]) == program_rows()[i],
{
    let mut r: Vec<Program> = Vec::new();
    r.push(Program { command: "webgen", name: "Browser", icon: "com.webgen.WebGen" });
    r.push(Program { command: "webgen-edit", name: "Edit", icon: "com.webgen.Edit" });
    r.push(Program { command: "webgen-terminal", name: "Terminal", icon: "com.webgen.Terminal" });
    r
}

/// The associations seeded on first run: htm*→Browser, txt/csv/php→Edit, sh→Terminal.
pub open spec fn default_rows() -> Seq<(Seq<char>, Seq<char>)> {
    seq![
        ("htm"@, "webgen"@),
        ("html"@, "webgen"@),
        ("xhtml"@, "webgen"@),
        ("txt"@, "webgen-edit"@),
        ("csv"@, "webgen-edit"@),
        ("php"@, "webgen-edit"@),
        ("sh"@, "webgen-terminal"@),
    ]
}

/// The associations seeded on first run.
pub fn defaults() -> (r: Vec<(&'static str, &'static str)>)
    ensures
        r@.len() == default_rows().len(),
        forall|i: int| 0 <= i < r@.len() ==> (#[trigger] r@[i].0@, r@[i].1@) == default_rows()[i],
{
    let mut r: Vec<(&'static str, &'static str)> = Vec::new();
    r.push(("htm", "webgen"));
    r.push(("html", "webgen"));
    r.push(("xhtml", "webgen"));
    r.push(("txt", "webgen-edit"));
    r.push(("csv", "webgen-edit"));
    r.push(("php", "webgen-edit"));
    r.push(("sh", "webgen-terminal"));
    r
}

/// The index of the last `c` in `s`.
pub open spec fn last_index_of(s: Seq<char>, c: char) -> Option<int>
    decreases s.len(),
{
    if s.len() == 0 {
        None
    } else if s.last() == c {
        Some(s.len() - 1)
    } else {
        last_index_of(s.drop_last(), c)
    }
}

/// The lowercase extension (no dot) of a file name: what follows the last `.`, lowercased.
/// None when there is no dot, when it is the first character (a dotfile such as `.bashrc`) or
/// the last (a trailing dot).
pub open spec fn extension(name: Seq<char>) -> Option<Seq<char>> {
    match last_index_of(name, '.') {
        Some(k) => if k == 0 || k + 1 >= name.len() {
            None
        } else {
            Some(lowercase(name.subrange(k + 1, name.len() as int)))
        },
        None => None,
    }
}

/// [`extension`] for a name of ASCII characters, where lowercasing only turns `A`..=`Z` into
/// `a`..=`z`.
pub open spec fn ascii_extension(name: Seq<char>) -> Option<Seq<char>> {
    match last_index_of(name, '.') {
        Some(k) => if k == 0 || k + 1 >= name.len() {
            None
        } else {
            Some(ascii_lower(name.subrange(k + 1, name.len() as int)))
        },
        None => None,
    }
}

/// The lowercase extension of a file name, e.g. `Report.TXT` → `txt`.
pub fn extension_of(name: &str) -> (r: Option<String>)
    ensures
        match r {
            Some(e) => extension(name@) == Some(e@),
            None => extension(name@) is None,
        },
        all_ascii(name@) ==> match r {
            Some(e) => ascii_extension(name@) == Some(e@),
            None => ascii_extension(name@) is None,
        },
{
    let v = chars_of(name);
    let mut i = v.len();
    assert(v@.subrange(0, v@.len() as int) =~= v@);
    while i > 0 && v[i - 1] != '.'
        invariant
            v@ == name@,
            0 <= i <= v.len(),
            last_index_of(name@, '.') == last_index_of(v@.subrange(0, i as int), '.'),
        decreases i,
    {
        let ghost pre = v@.subrange(0, i as int);
        assert(pre.drop_last() =~= v@.subrange(0, i - 1));
        i -= 1;
    }
    proof {
        if i > 0 {
            let pre = v@.subrange(0, i as int);
            assert(pre.last() == '.');
        } else {
            assert(v@.subrange(0, 0) =~= Seq::<char>::empty());
        }
    }
    if i == 0 {
        return None;
    }
    let dot = i - 1;
    if dot == 0 || dot + 1 >= v.len() {
        return None;
    }
    let rest = string_of_range(&v, dot + 1, v.len());
    proof {
        if all_ascii(name@) {
            assert forall|k: int| 0 <= k < rest@.len() implies (#[trigger] rest@[k] as u32) < 128 by {
                assert(rest@[k] == name@[dot + 1 + k]);
            }
        }
    }
    Some(to_lowercase(rest.as_str()))
}

/// The friendly name and icon of a command; a command outside [`programs`] shows as itself
/// with a generic icon.
pub open spec fn description(command: Seq<char>) -> (Seq<char>, Seq<char>) {
    if command == "webgen"@ {
        ("Browser"@, "com.webgen.WebGen"@)
    } else if command == "webgen-edit"@ {
        ("Edit"@, "com.webgen.Edit"@)
    } else if command == "webgen-terminal"@ {
        ("Terminal"@, "com.webgen.Terminal"@)
    } else {
        (command, "application-x-executable"@)
    }
}

pub fn describe(command: &str) -> (r: (String, String))
    ensures
        (r.0@, r.1@) == description(command@),
{
    let ps = programs();
    let mut i: usize = 0;
    while i < ps.len()
        invariant
            0 <= i <= ps@.len(),
            ps@.len() == program_rows().len(),
            forall|k: int| 0 <= k < ps@.len() ==> program_view(#[trigger] ps@[k]) == program_rows()[k],
            forall|k: int| 0 <= k < i ==> program_rows()[k].0 != command@,
        decreases ps.len() - i,
    {
        let p = &ps[i];
        assert(program_view(ps@[i as int]) == program_rows()[i as int]);
        if str_eq(p.command, command) {
            return (owned(p.name), owned(p.icon));
        }
        i += 1;
    }
    (owned(command), owned("application-x-executable"))
}

/// The command associated with `ext` in a store: the value under its lowercase form, unless
/// that is blank.
pub open spec fn program_in(e: Map<(Seq<char>, Seq<char>), Seq<char>>, ext: Seq<char>) -> Option<
    Seq<char>,
> {
    let key = (ns(), lowercase(ext));
    if e.contains_key(key) && !is_blank(e[key]) {
        Some(e[key])
    } else {
        None
    }
}

/// The command associated with an extension, if any.
pub fn program_for<S: Store>(reg: &S, ext: &str) -> (r: Option<String>)
    ensures
        match r {
            Some(c) => program_in(reg.entries(), ext@) == Some(c@),
            None => program_in(reg.entries(), ext@) is None,
        },
{
    proof {
        reveal_strlit("com.webgen.OpensWith");
    }
    let key = to_lowercase(ext);
    match reg.get_string(NS, key.as_str()) {
        Some(v) => if str_is_blank(v.as_str()) {
            None
        } else {
            Some(v)
        },
        None => None,
    }
}

/// The index text of a store, empty when there is none.
pub open spec fn index_text(e: Map<(Seq<char>, Seq<char>), Seq<char>>) -> Seq<char> {
    if e.contains_key((ns(), index_key())) {
        e[(ns(), index_key())]
    } else {
        Seq::empty()
    }
}

/// The extensions currently in the index (may include some whose value was cleared).
pub open spec fn indexed(e: Map<(Seq<char>, Seq<char>), Seq<char>>) -> Seq<Seq<char>> {
    index_names(split(index_text(e), ','))
}

fn index<S: Store>(reg: &S) -> (r: Vec<String>)
    ensures
        views(r@) == indexed(reg.entries()),
{
    proof {
        reveal_strlit("com.webgen.OpensWith");
        reveal_strlit("@index");
    }
    let text = match reg.get_string(NS, INDEX) {
        Some(v) => v,
        None => String::new(),
    };
    let pieces = split_str(text.as_str(), ',');
    let mut r: Vec<String> = Vec::new();
    let mut i: usize = 0;
    while i < pieces.len()
        invariant
            0 <= i <= pieces.len(),
            views(pieces@) == split(index_text(reg.entries()), ','),
            views(r@) == index_names(views(pieces@).subrange(0, i as int)),
        decreases pieces.len() - i,
    {
        let ghost upto = views(pieces@).subrange(0, i + 1);
        assert(upto.drop_last() =~= views(pieces@).subrange(0, i as int));
        assert(upto.last() == pieces@[i as int]@);
        let t = trim_str(pieces[i].as_str());
        if !t.as_str().is_empty() {
            let ghost before = r@;
            r.push(t);
            assert(views(r@) =~= views(before).push(t@));
        }
        i += 1;
    }
    assert(views(pieces@).subrange(0, pieces@.len() as int) =~= views(pieces@));
    r
}

/// `String`s in order.
pub struct Alphabetical;

impl Ranking<String> for Alphabetical {
    open spec fn precedes(&self, a: String, b: String) -> bool {
        lex_lt(a@, b@)
    }

    proof fn lemma_weak_order(&self, a: String, b: String, c: String) {
        crate::text::lemma_lex_weak(a@, b@, c@);
    }

    fn goes_before(&self, a: &String, b: &String) -> (r: bool) {
        crate::text::lex_before(a.as_str(), b.as_str())
    }
}

/// Whether `after` is `before` with the index rewritten to list `ext` too: the names it listed
/// and `ext`, sorted, joined with commas.
pub open spec fn index_rewritten(
    before: Map<(Seq<char>, Seq<char>), Seq<char>>,
    after: Map<(Seq<char>, Seq<char>), Seq<char>>,
    ext: Seq<char>,
) -> bool {
    exists|listed: Seq<String>, sorted: Seq<String>|
        views(listed) == indexed(before).push(ext) && stable_sort_of(&Alphabetical, listed, sorted)
            && after == before.insert((ns(), index_key()), crate::text::join(views(sorted), ","@))
}

/// Makes sure the index lists `ext`: if it does not, `ext` is added and the list is written
/// back sorted.
fn index_add<S: Store>(reg: &mut S, ext: &str)
    ensures
        indexed(old(reg).entries()).contains(ext@) ==> final(reg).entries() == old(reg).entries(),
        forall|k: (Seq<char>, Seq<char>)|
            k != (ns(), index_key()) ==> #[trigger] final(reg).entries().contains_key(k)
                == old(reg).entries().contains_key(k) && (old(reg).entries().contains_key(k)
                ==> final(reg).entries()[k] == old(reg).entries()[k]),
        index_ready(ext@) ==> indexed(final(reg).entries()).contains(ext@),
        index_ready(ext@) ==> forall|x: Seq<char>|
            #[trigger] indexed(old(reg).entries()).contains(x) ==> indexed(
                final(reg).entries(),
            ).contains(x),
        !indexed(old(reg).entries()).contains(ext@) ==> index_rewritten(
            old(reg).entries(),
            final(reg).entries(),
            ext@,
        ),
{
    let mut exts = index(reg);
    let mut found = false;
    let mut i: usize = 0;
    while i < exts.len()
        invariant
            0 <= i <= exts.len(),
            found ==> views(exts@).contains(ext@),
            !found ==> forall|k: int| 0 <= k < i ==> views(exts@)[k] != ext@,
        decreases exts.len() - i,
    {
        if str_eq(exts[i].as_str(), ext) {
            assert(views(exts@)[i as int] == ext@);
            found = true;
        }
        i += 1;
    }
    if !found {
        let ghost old_names = views(exts@);
        exts.push(owned(ext));
        let ghost listed = exts@;
        assert(views(listed) =~= old_names.push(ext@));
        let sorted = stable_sort(&Alphabetical, exts);
        let text = join_strs(&sorted, ",");
        proof {
            reveal_strlit("com.webgen.OpensWith");
            reveal_strlit("@index");
            crate::sort::lemma_sort_members(&Alphabetical, listed, sorted@);
            if index_ready(ext@) {
                crate::text::lemma_split_pieces(index_text(old(reg).entries()), ',');
                crate::text::lemma_index_names_ready(split(index_text(old(reg).entries()), ','));
                assert forall|i: int| 0 <= i < views(sorted@).len() implies index_ready(
                    #[trigger] views(sorted@)[i],
                ) by {
                    assert(listed.contains(sorted@[i]));
                    let j = choose|j: int| 0 <= j < listed.len() && listed[j] == sorted@[i];
                    assert(views(listed)[j] == listed[j]@);
                    if j < old_names.len() {
                        assert(old_names[j] == indexed(old(reg).entries())[j]);
                    }
                }
                crate::text::lemma_index_of_join(views(sorted@));
            }
        }
        reg.set_string(NS, INDEX, text.as_str());
        assert(index_rewritten(old(reg).entries(), reg.entries(), ext@));
        proof {
            if index_ready(ext@) {
                assert(index_text(reg.entries()) == text@);
                assert(indexed(reg.entries()) == views(sorted@));
                assert(listed.contains(listed[listed.len() - 1]));
                assert(sorted@.contains(listed[listed.len() - 1]));
                let j = choose|j: int| 0 <= j < sorted@.len() && sorted@[j] == listed[listed.len() - 1];
                assert(views(sorted@)[j] == ext@);
                assert forall|x: Seq<char>| #[trigger] indexed(old(reg).entries()).contains(x) implies indexed(
                    reg.entries(),
                ).contains(x) by {
                    let k = choose|k: int| 0 <= k < old_names.len() && old_names[k] == x;
                    assert(views(listed)[k] == x);
                    assert(listed[k]@ == x);
                    assert(sorted@.contains(listed[k]));
                    let m = choose|m: int| 0 <= m < sorted@.len() && sorted@[m] == listed[k];
                    assert(views(sorted@)[m] == x);
                }
            }
        }
    }
}

/// Associates (or re-associates) an extension with a command.
pub fn set_program<S: Store>(reg: &mut S, ext: &str, command: &str)
    ensures
        forall|k: (Seq<char>, Seq<char>)|
            k != (ns(), index_key()) ==> #[trigger] final(reg).entries().contains_key(k)
                == old(reg).entries().insert((ns(), lowercase(ext@)), command@).contains_key(k)
                && (final(reg).entries().contains_key(k) ==> final(reg).entries()[k] == old(reg).entries().insert((ns(), lowercase(ext@)), command@)[k]),
        (ns(), lowercase(ext@)) != (ns(), index_key()) ==> final(reg).entries().contains_key(
            (ns(), lowercase(ext@)),
        ) && final(reg).entries()[(ns(), lowercase(ext@))] == command@,
        all_ascii(ext@) ==> lowercase(ext@) == ascii_lower(ext@),
        !is_blank(command@) && lowercase(ext@) != index_key() ==> program_in(
            final(reg).entries(),
            ext@,
        ) == Some(command@),
        index_ready(lowercase(ext@)) && lowercase(ext@) != index_key() ==> indexed(
            final(reg).entries(),
        ).contains(lowercase(ext@)),
        index_ready(lowercase(ext@)) && lowercase(ext@) != index_key() ==> forall|x: Seq<char>|
            #[trigger] indexed(old(reg).entries()).contains(x) ==> indexed(
                final(reg).entries(),
            ).contains(x),
        lowercase(ext@) != index_key() && !indexed(old(reg).entries()).contains(lowercase(ext@))
            ==> index_rewritten(
            old(reg).entries().insert((ns(), lowercase(ext@)), command@),
            final(reg).entries(),
            lowercase(ext@),
        ),
        lowercase(ext@) != index_key() && indexed(old(reg).entries()).contains(lowercase(ext@))
            ==> final(reg).entries() == old(reg).entries().insert((ns(), lowercase(ext@)), command@),
        index_ready(lowercase(ext@)) && lowercase(ext@) != index_key() && !is_blank(command@)
            && lowercase(lowercase(ext@)) == lowercase(ext@) ==> rows_of(
            final(reg).entries(),
            indexed(final(reg).entries()),
        ).contains((lowercase(ext@), command@)),
{
    proof {
        reveal_strlit("com.webgen.OpensWith");
    }
    let lower = to_lowercase(ext);
    let ghost before = reg.entries();
    reg.set_string(NS, lower.as_str(), command);
    proof {
        if lower@ != index_key() {
            assert(index_text(reg.entries()) == index_text(before));
        }
    }
    index_add(reg, lower.as_str());
    proof {
        let e = reg.entries();
        if index_ready(lower@) && lower@ != index_key() && !is_blank(command@) && lowercase(lower@)
            == lower@ {
            assert(e.contains_key((ns(), lower@)) && e[(ns(), lower@)] == command@);
            assert(program_in(e, lower@) == Some(command@));
            lemma_rows_of_member(e, indexed(e), lower@);
        }
    }
}

/// An indexed extension with a command is among the rows.
proof fn lemma_rows_of_member(e: Map<(Seq<char>, Seq<char>), Seq<char>>, exts: Seq<Seq<char>>, x: Seq<char>)
    requires
        exts.contains(x),
        program_in(e, x) is Some,
    ensures
        rows_of(e, exts).contains((x, program_in(e, x)->0)),
    decreases exts.len(),
{
    if exts.last() == x {
        let r = rows_of(e, exts);
        assert(r[r.len() - 1] == (x, program_in(e, x)->0));
    } else {
        let init = exts.drop_last();
        let k = choose|k: int| 0 <= k < exts.len() && exts[k] == x;
        assert(k < exts.len() - 1);
        assert(init[k] == x);
        lemma_rows_of_member(e, init, x);
        let r0 = rows_of(e, init);
        let j = choose|j: int| 0 <= j < r0.len() && r0[j] == (x, program_in(e, x)->0);
        match program_in(e, exts.last()) {
            Some(c) => {
                assert(rows_of(e, exts)[j] == r0[j]);
            },
            None => {},
        }
    }
}

/// Removes an association: an empty string is stored (the registry has no delete), which reads
/// back as no association. The extension stays in the index.
pub fn clear<S: Store>(reg: &mut S, ext: &str)
    ensures
        final(reg).entries() == old(reg).entries().insert((ns(), lowercase(ext@)), Seq::empty()),
        program_in(final(reg).entries(), ext@) is None,
{
    proof {
        reveal_strlit("com.webgen.OpensWith");
        reveal_strlit("");
        assert(""@ =~= Seq::<char>::empty());
    }
    let ext = to_lowercase(ext);
    reg.set_string(NS, ext.as_str(), "");
}

/// The indexed extensions that have a non-blank association, each with its command, in index
/// order.
pub open spec fn rows_of(e: Map<(Seq<char>, Seq<char>), Seq<char>>, exts: Seq<Seq<char>>) -> Seq<
    (Seq<char>, Seq<char>),
>
    decreases exts.len(),
{
    if exts.len() == 0 {
        Seq::empty()
    } else {
        let init = rows_of(e, exts.drop_last());
        match program_in(e, exts.last()) {
            Some(c) => init.push((exts.last(), c)),
            None => init,
        }
    }
}

/// A row of the association table.
pub struct Association {
    pub ext: String,
    pub command: String,
}

/// Rows ordered by extension.
pub struct ByExtension;

impl Ranking<Association> for ByExtension {
    open spec fn precedes(&self, a: Association, b: Association) -> bool {
        lex_lt(a.ext@, b.ext@)
    }

    proof fn lemma_weak_order(&self, a: Association, b: Association, c: Association) {
        crate::text::lemma_lex_weak(a.ext@, b.ext@, c.ext@);
    }

    fn goes_before(&self, a: &Association, b: &Association) -> (r: bool) {
        crate::text::lex_before(a.ext.as_str(), b.ext.as_str())
    }
}

pub open spec fn association_rows(v: Seq<Association>) -> Seq<(Seq<char>, Seq<char>)> {
    v.map_values(|a: Association| (a.ext@, a.command@))
}

/// Every non-empty association, sorted by extension.
pub fn all<S: Store>(reg: &S) -> (r: Vec<Association>)
    ensures
        exists|unsorted: Seq<Association>|
            association_rows(unsorted) == rows_of(reg.entries(), indexed(reg.entries()))
                && stable_sort_of(&ByExtension, unsorted, r@),
{
    let exts = index(reg);
    let mut rows: Vec<Association> = Vec::new();
    let mut i: usize = 0;
    while i < exts.len()
        invariant
            0 <= i <= exts.len(),
            views(exts@) == indexed(reg.entries()),
            association_rows(rows@) == rows_of(reg.entries(), views(exts@).subrange(0, i as int)),
        decreases exts.len() - i,
    {
        let ghost upto = views(exts@).subrange(0, i + 1);
        assert(upto.drop_last() =~= views(exts@).subrange(0, i as int));
        assert(upto.last() == exts@[i as int]@);
        match program_for(reg, exts[i].as_str()) {
            Some(cmd) => {
                let ghost before = rows@;
                let ghost c = cmd@;
                rows.push(Association { ext: exts[i].clone(), command: cmd });
                assert(association_rows(rows@) =~= association_rows(before).push((exts@[i as int]@, c)));
            },
            None => {},
        }
        i += 1;
    }
    assert(views(exts@).subrange(0, exts@.len() as int) =~= views(exts@));
    let ghost unsorted = rows@;
    stable_sort(&ByExtension, rows)
}

/// Seeds the default associations the first time anyone opens the store. Only keys that are
/// entirely absent are written, so a user's edits, or a row they cleared, are never replaced.
pub fn seed_defaults<S: Store>(reg: &mut S)
    ensures
        forall|k: (Seq<char>, Seq<char>)|
            k != (ns(), index_key()) && #[trigger] old(reg).entries().contains_key(k) ==> final(reg).entries().contains_key(k) && final(reg).entries()[k] == old(reg).entries()[k],
        forall|i: int|
            0 <= i < default_rows().len() ==> #[trigger] final(reg).entries().contains_key(
                (ns(), default_rows()[i].0),
            ),
        forall|i: int|
            0 <= i < default_rows().len() && !old(reg).entries().contains_key(
                (ns(), default_rows()[i].0),
            ) ==> #[trigger] final(reg).entries()[(ns(), default_rows()[i].0)]
                == default_rows()[i].1,
        forall|x: Seq<char>|
            #[trigger] indexed(old(reg).entries()).contains(x) ==> indexed(
                final(reg).entries(),
            ).contains(x),
        forall|i: int|
            #![trigger default_rows()[i]]
            0 <= i < default_rows().len() && !old(reg).entries().contains_key(
                (ns(), default_rows()[i].0),
            ) ==> indexed(final(reg).entries()).contains(default_rows()[i].0),
        forall|k: (Seq<char>, Seq<char>)|
            #[trigger] final(reg).entries().contains_key(k) && !old(reg).entries().contains_key(k)
                ==> k == (ns(), index_key()) || exists|i: int|
                0 <= i < default_rows().len() && k == (ns(), #[trigger] default_rows()[i].0),
{
    let ds = defaults();
    proof {
        reveal_strlit("com.webgen.OpensWith");
        reveal_strlit("@index");
        reveal_strlit("htm");
        reveal_strlit("html");
        reveal_strlit("xhtml");
        reveal_strlit("txt");
        reveal_strlit("csv");
        reveal_strlit("php");
        reveal_strlit("sh");
        lemma_default_keys();
    }
    let ghost start = reg.entries();
    let mut i: usize = 0;
    while i < ds.len()
        invariant
            0 <= i <= ds@.len(),
            ds@.len() == default_rows().len(),
            forall|k: int| 0 <= k < ds@.len() ==> (#[trigger] ds@[k].0@, ds@[k].1@) == default_rows()[k],
            forall|k: int, l: int| 0 <= k < l < default_rows().len() ==> #[trigger] default_rows()[k].0 != #[trigger] default_rows()[l].0,
            forall|k: int| 0 <= k < default_rows().len() ==> all_ascii(#[trigger] default_rows()[k].0) && ascii_lower(default_rows()[k].0) == default_rows()[k].0 && default_rows()[k].0 != index_key(),
            forall|k: (Seq<char>, Seq<char>)|
                k != (ns(), index_key()) && #[trigger] start.contains_key(k) ==> reg.entries().contains_key(k) && reg.entries()[k] == start[k],
            forall|k: int| 0 <= k < i ==> #[trigger] reg.entries().contains_key((ns(), default_rows()[k].0)),
            forall|k: int|
                0 <= k < i && !start.contains_key((ns(), default_rows()[k].0)) ==> #[trigger] reg.entries()[(ns(), default_rows()[k].0)] == default_rows()[k].1,
            forall|k: int|
                i <= k < default_rows().len() ==> (#[trigger] reg.entries().contains_key((ns(), default_rows()[k].0))) == start.contains_key((ns(), default_rows()[k].0)),
            forall|k: int| 0 <= k < default_rows().len() ==> index_ready(#[trigger] default_rows()[k].0),
            forall|x: Seq<char>| #[trigger] indexed(start).contains(x) ==> indexed(reg.entries()).contains(x),
            forall|k: int|
                #![trigger default_rows()[k]]
                0 <= k < i && !start.contains_key((ns(), default_rows()[k].0)) ==> indexed(reg.entries()).contains(default_rows()[k].0),
            forall|k: (Seq<char>, Seq<char>)|
                #[trigger] reg.entries().contains_key(k) && !start.contains_key(k) ==> k == (ns(), index_key())
                    || exists|j: int| 0 <= j < i && k == (ns(), #[trigger] default_rows()[j].0),
        decreases ds.len() - i,
    {
        let (ext, command) = ds[i];
        proof {
            reveal_strlit("com.webgen.OpensWith");
            reveal_strlit("@index");
        }
        assert((ext@, command@) == default_rows()[i as int]);
        assert(all_ascii(default_rows()[i as int].0));
        assert(ascii_lower(default_rows()[i as int].0) == default_rows()[i as int].0);
        if reg.get_string(NS, ext).is_none() {
            let ghost before = reg.entries();
            assert(!before.contains_key((ns(), ext@)));
            set_program(reg, ext, command);
            assert(lowercase(ext@) == ext@);
            assert(index_ready(default_rows()[i as int].0));
            assert(indexed(reg.entries()).contains(ext@));
            assert((ns(), ext@) != (ns(), index_key()));
            assert(reg.entries()[(ns(), ext@)] == command@);
            assert forall|k: int|
                0 <= k < i && !start.contains_key((ns(), default_rows()[k].0)) implies #[trigger] reg.entries()[(ns(), default_rows()[k].0)] == default_rows()[k].1 by {
                assert(default_rows()[k].0 != ext@);
                let key = (ns(), default_rows()[k].0);
                assert(before.contains_key(key));
                assert(reg.entries().contains_key(key));
            }
            assert forall|k: (Seq<char>, Seq<char>)|
                #[trigger] reg.entries().contains_key(k) && !start.contains_key(k) implies k == (ns(), index_key())
                    || exists|j: int| 0 <= j < i + 1 && k == (ns(), #[trigger] default_rows()[j].0) by {
                if k != (ns(), index_key()) {
                    if before.contains_key(k) {
                        let j = choose|j: int| 0 <= j < i && k == (ns(), #[trigger] default_rows()[j].0);
                        assert(0 <= j < i + 1 && k == (ns(), default_rows()[j].0));
                    } else {
                        assert(k == (ns(), default_rows()[i as int].0));
                    }
                }
            }
            assert forall|k: int| 0 <= k < default_rows().len() && k != i implies default_rows()[k].0 != ext@ by {
                if k < i {
                    assert(default_rows()[k].0 != default_rows()[i as int].0);
                } else {
                    assert(default_rows()[i as int].0 != default_rows()[k].0);
                }
            }
        }
        i += 1;
    }
}

proof fn lemma_default_keys()
    ensures
        forall|k: int, l: int| 0 <= k < l < default_rows().len() ==> #[trigger] default_rows()[k].0 != #[trigger] default_rows()[l].0,
        forall|k: int| 0 <= k < default_rows().len() ==> all_ascii(#[trigger] default_rows()[k].0) && ascii_lower(default_rows()[k].0) == default_rows()[k].0 && default_rows()[k].0 != index_key(),
        forall|k: int| 0 <= k < default_rows().len() ==> index_ready(#[trigger] default_rows()[k].0),
{
    reveal_strlit("@index");
    reveal_strlit("htm");
    reveal_strlit("html");
    reveal_strlit("xhtml");
    reveal_strlit("txt");
    reveal_strlit("csv");
    reveal_strlit("php");
    reveal_strlit("sh");
    let d = default_rows();
    assert forall|k: int| 0 <= k < d.len() implies all_ascii(#[trigger] d[k].0) && ascii_lower(d[k].0) == d[k].0 && d[k].0 != index_key() by {
        let s = d[k].0;
        assert(ascii_lower(s) =~= s);
        assert(s[0] != index_key()[0]);
    }
    assert forall|k: int, l: int| 0 <= k < l < d.len() implies #[trigger] d[k].0 != #[trigger] d[l].0 by {
        let a = d[k].0;
        let b = d[l].0;
        if a.len() == b.len() {
            assert(a[0] != b[0] || a[1] != b[1] || a[2] != b[2]);
        }
    }
    assert forall|k: int| 0 <= k < d.len() implies index_ready(#[trigger] d[k].0) by {
        let s = d[k].0;
        assert(!crate::text::is_space(s.last()));
        assert(!crate::text::is_space(s[0]));
        assert(crate::text::trim_end(s) == s);
        assert(crate::text::trim_start(s) == s);
        assert(!s.contains(',')) by {
            if s.contains(',') {
                let j = choose|j: int| 0 <= j < s.len() && s[j] == ',';
            }
        }
    }
}

} // verus!
