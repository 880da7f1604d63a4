use webgen_files::actions::{
    archive_actions, archive_base_of, archive_path, archive_target, archives_extracted,
    bsdtar_args, check_new_name, check_rename, count_passing, delete_prompt, exists_refusal,
    extract_stem_of, extract_target, filter_accepts, items_done, new_item_words, open_action,
    paths_copied, remember_label, shortcut, slash_refusal, status_text, tree_children,
    tree_label, zip_args, Key, NameCheck, OpenAction,
};
use webgen_files::entry::{ChildInfo, Entry};

fn e(name: &str, is_dir: bool) -> Entry {
    Entry {
        name: name.into(),
        path: format!("/d/{name}"),
        is_dir,
        subtitle: String::new(),
        size: None,
        owner: String::new(),
        group: String::new(),
    }
}

#[test]
fn status_lines_count_in_words() {
    assert_eq!(items_done("Copied", 1), "Copied 1 item");
    assert_eq!(items_done("Moved", 3), "Moved 3 items");
    assert_eq!(archives_extracted(1), "Extracted 1 archive");
    assert_eq!(archives_extracted(2), "Extracted 2 archives");
    assert_eq!(paths_copied(1), "Path copied");
    assert_eq!(paths_copied(4), "Paths copied");
    assert_eq!(status_text(0, false, false), "0 items");
    assert_eq!(status_text(1, false, false), "1 item");
    assert_eq!(status_text(12, true, false), "12 results");
    assert_eq!(status_text(2000, true, true), "2000 results (showing the first 2000)");
}

#[test]
fn the_filter_ignores_case() {
    assert!(filter_accepts("Report.TXT", "port.t"));
    assert!(filter_accepts("anything", ""));
    assert!(!filter_accepts("notes", "x"));
    let v = vec![e("Alpha", false), e("beta", true), e("ALPHABET", false)];
    assert_eq!(count_passing(&v, "alph"), 2);
    assert_eq!(count_passing(&v, ""), 3);
}

#[test]
fn extract_is_offered_only_when_every_selected_item_is_an_archive() {
    assert_eq!(archive_actions(&vec![]), (false, false));
    assert_eq!(archive_actions(&vec![e("a.zip", false), e("b.tar.gz", false)]), (true, false));
    assert_eq!(archive_actions(&vec![e("a.zip", false), e("notes.txt", false)]), (false, true));
    assert_eq!(archive_actions(&vec![e("stuff.zip", true)]), (false, true), "a folder named like one is not an archive");
}

#[test]
fn opening_navigates_folders_and_launches_files() {
    assert!(matches!(open_action(&e("docs", true), Some("webgen".into())), OpenAction::Navigate(p) if p == "/d/docs"));
    assert!(matches!(open_action(&e("a.txt", false), Some("webgen-edit".into())), OpenAction::Launch(c) if c == "webgen-edit"));
    assert!(matches!(open_action(&e("a.bin", false), None), OpenAction::SystemDefault));
    assert_eq!(remember_label(&Some("txt".into())), "Always open .txt files this way");
    assert_eq!(remember_label(&None), "Remember for this file type");
}

#[test]
fn names_typed_for_new_items_and_renames() {
    assert!(matches!(check_new_name("   "), NameCheck::Nothing));
    assert!(matches!(check_new_name(" a/b "), NameCheck::HasSlash));
    assert!(matches!(check_new_name("  notes.txt "), NameCheck::Name(n) if n == "notes.txt"));
    assert!(matches!(check_rename(" old.txt ", "old.txt"), NameCheck::Nothing));
    assert!(matches!(check_rename("new.txt", "old.txt"), NameCheck::Name(n) if n == "new.txt"));
    assert!(matches!(check_rename("x/y", "old.txt"), NameCheck::HasSlash));
    assert_eq!(slash_refusal(), "A name can\u{2019}t contain \u{201c}/\u{201d}.");
    assert_eq!(exists_refusal("notes"), "\u{201c}notes\u{201d} already exists.");
    assert_eq!(new_item_words(true), ("New Folder", "Folder name", "folder"));
    assert_eq!(new_item_words(false), ("New File", "File name", "file"));
}

#[test]
fn deleting_asks_once_by_name_or_by_count() {
    assert_eq!(delete_prompt(&vec!["a.txt".into()]), "Permanently delete \u{201c}a.txt\u{201d}? This cannot be undone.");
    assert_eq!(delete_prompt(&vec!["a".into(), "b".into(), "c".into()]), "Permanently delete these 3 items? This cannot be undone.");
}

#[test]
fn archives_are_named_after_their_content_and_never_clobber() {
    assert_eq!(archive_base_of(&vec!["report.pdf".into()]), Ok("report".to_string()));
    assert_eq!(archive_base_of(&vec![".bashrc".into()]), Ok(".bashrc".to_string()));
    assert_eq!(archive_base_of(&vec!["a".into(), "b".into()]), Ok("Archive".to_string()));
    assert_eq!(archive_base_of(&vec![]), Err("Nothing selected to compress.".to_string()));
    assert_eq!(archive_path("/d", "report", 0), "/d/report.zip");
    assert_eq!(archive_path("/d", "report", 2), "/d/report (2).zip");
    let taken = ["/d/report.zip", "/d/report (1).zip"];
    let t = archive_target("/d", &vec!["report.pdf".into()], |p: &String| taken.contains(&p.as_str()));
    assert_eq!(t, Ok(Some("/d/report (2).zip".to_string())));
    assert_eq!(zip_args("/d/report.zip", &vec!["report.pdf".into()]), vec!["-r", "-q", "/d/report.zip", "report.pdf"]);
}

#[test]
fn archives_extract_into_a_fresh_folder_named_after_them() {
    assert_eq!(extract_stem_of("foo.tar.gz"), "foo");
    assert_eq!(extract_stem_of("photos.zip"), "photos");
    assert_eq!(extract_stem_of("a.tar"), "a");
    assert_eq!(extract_stem_of(".tar"), "", "as `strip_suffix` leaves it");
    let taken = ["/d/foo"];
    let out = extract_target("/d", "foo.tar.gz", |p: &String| taken.contains(&p.as_str()));
    assert_eq!(out.as_deref(), Some("/d/foo (1)"));
    assert_eq!(bsdtar_args("/d/foo.tar.gz", "/d/foo (1)"), vec!["-x", "-f", "/d/foo.tar.gz", "-C", "/d/foo (1)"]);
}

#[test]
fn keys_run_their_actions() {
    assert_eq!(shortcut(Key::N, true), Some("files.new-file"));
    assert_eq!(shortcut(Key::N, false), None);
    assert_eq!(shortcut(Key::V, true), Some("files.paste"));
    assert_eq!(shortcut(Key::Delete, false), Some("files.delete"));
    assert_eq!(shortcut(Key::F2, true), Some("files.rename"));
    assert_eq!(shortcut(Key::Other, true), None);
}

fn dir(name: &str, hidden: bool) -> ChildInfo {
    ChildInfo { name: name.into(), display_name: name.into(), is_dir: true, hidden, size: 0, uid: 0, gid: 0 }
}

#[test]
fn the_tree_shows_subfolders_by_name() {
    let mut file = dir("z.txt", false);
    file.is_dir = false;
    let kids = vec![dir("src", false), dir(".git", true), file, dir("Docs", false)];
    let shown: Vec<String> = tree_children(&kids, false).unwrap().into_iter().map(|c| c.name).collect();
    assert_eq!(shown, ["Docs", "src"]);
    assert!(tree_children(&vec![dir(".git", true)], false).is_none(), "no expander without subfolders");
    assert_eq!(tree_label(Some("/".into())), "Computer");
    assert_eq!(tree_label(Some("piers".into())), "piers");
    assert_eq!(tree_label(None), "Computer");
}
