use webgen_files::assoc::{
    all, clear, defaults, describe, extension_of, program_for, programs, seed_defaults,
    set_program, INDEX, NS,
};
use webgen_files::registry::{MemoryRegistry, Store};

#[test]
fn extensions_are_lowercased_and_dotfiles_have_none() {
    assert_eq!(extension_of("Report.TXT").as_deref(), Some("txt"));
    assert_eq!(extension_of("archive.tar.gz").as_deref(), Some("gz"));
    assert_eq!(extension_of(".bashrc"), None);
    assert_eq!(extension_of("trailing."), None);
    assert_eq!(extension_of("Makefile"), None);
}

#[test]
fn known_programs_are_described_and_others_fall_back() {
    assert_eq!(describe("webgen-edit"), ("Edit".to_string(), "com.webgen.Edit".to_string()));
    assert_eq!(
        describe("vim"),
        ("vim".to_string(), "application-x-executable".to_string())
    );
    let ps = programs();
    assert_eq!(ps.len(), 3);
    assert_eq!(ps[0].command, "webgen");
    assert_eq!(ps[2].name, "Terminal");
}

#[test]
fn an_association_reads_back_and_clearing_it_removes_it() {
    let mut reg = MemoryRegistry::new();
    set_program(&mut reg, "TXT", "webgen-edit");
    assert_eq!(program_for(&reg, "txt").as_deref(), Some("webgen-edit"));
    assert_eq!(program_for(&reg, "Txt").as_deref(), Some("webgen-edit"));
    assert_eq!(reg.get_string(NS, INDEX).as_deref(), Some("txt"));
    clear(&mut reg, "txt");
    assert_eq!(program_for(&reg, "txt"), None);
    assert!(all(&reg).is_empty(), "a cleared row is filtered out");
}

#[test]
fn defaults_are_seeded_once_and_never_clobber() {
    let mut reg = MemoryRegistry::new();
    set_program(&mut reg, "txt", "gedit");
    clear(&mut reg, "sh");
    seed_defaults(&mut reg);
    assert_eq!(program_for(&reg, "txt").as_deref(), Some("gedit"), "a user's edit is kept");
    assert_eq!(program_for(&reg, "sh"), None, "a cleared row is not re-added");
    assert_eq!(program_for(&reg, "html").as_deref(), Some("webgen"));
    let rows: Vec<(String, String)> = all(&reg).into_iter().map(|a| (a.ext, a.command)).collect();
    assert_eq!(
        rows,
        vec![
            ("csv".to_string(), "webgen-edit".to_string()),
            ("htm".to_string(), "webgen".to_string()),
            ("html".to_string(), "webgen".to_string()),
            ("php".to_string(), "webgen-edit".to_string()),
            ("txt".to_string(), "gedit".to_string()),
            ("xhtml".to_string(), "webgen".to_string()),
        ]
    );
    assert_eq!(defaults().len(), 7);
}

#[test]
fn seeding_a_fresh_store_writes_only_the_defaults_and_the_index() {
    let mut reg = MemoryRegistry::new();
    seed_defaults(&mut reg);
    let index = reg.get_string(NS, INDEX).expect("the index is written");
    let mut listed: Vec<&str> = index.split(',').collect();
    listed.sort();
    let mut exts: Vec<&str> = defaults().iter().map(|(e, _)| *e).collect();
    exts.sort();
    assert_eq!(listed, exts);
    for (e, c) in defaults() {
        assert_eq!(reg.get_string(NS, e).as_deref(), Some(c));
    }
    assert_eq!(reg.get_string(NS, "md"), None);
}
