use webgen_files::nav::History;

#[test]
fn back_and_forward_retrace_the_folders_visited() {
    let mut h = History::new("/home/piers".into());
    h.go("/home/piers/Documents".into());
    h.go("/tmp".into());
    assert_eq!(h.back, vec!["/home/piers", "/home/piers/Documents"]);
    assert!(h.go_back());
    assert_eq!(h.current, "/home/piers/Documents");
    assert_eq!(h.forward, vec!["/tmp"]);
    assert!(h.go_forward());
    assert_eq!(h.current, "/tmp");
    assert!(!h.go_forward(), "nothing left to go forward to");
    assert_eq!(h.current, "/tmp");
}

#[test]
fn going_somewhere_new_forgets_forward_and_the_same_folder_changes_nothing() {
    let mut h = History::new("/a".into());
    h.go("/b".into());
    assert!(h.go_back());
    h.go("/c".into());
    assert!(h.forward.is_empty());
    h.go("/c/".into());
    assert_eq!(h.current, "/c", "the same folder written differently is no move");
    assert_eq!(h.back, vec!["/a"]);
    let mut fresh = History::new("/x".into());
    assert!(!fresh.go_back());
    assert_eq!(fresh.current, "/x");
}
