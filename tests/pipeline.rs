use xml_table::progress::{percent, should_report};
use xml_table::traverse::{is_archive, is_document, member_path, next_step, EntryKind, Step};

#[test]
fn entry_steps() {
    assert_eq!(next_step(EntryKind::Directory, "d"), Step::Descend);
    assert_eq!(next_step(EntryKind::File, "x/a.zip"), Step::OpenArchive);
    assert_eq!(next_step(EntryKind::File, "x/a.xml"), Step::Deliver);
    assert_eq!(next_step(EntryKind::Other, "x/a.xml"), Step::Skip);
}

#[test]
fn file_kinds() {
    assert!(is_document("a/b.xml"));
    assert!(!is_document("a/b.xmlx"));
    assert!(!is_document("ml"));
    assert!(is_archive("c.zip"));
    assert!(!is_archive("zip"));
}

#[test]
fn archive_member_paths() {
    assert_eq!(member_path("data/a.zip", "inner/b.xml"), "data/a.zip/inner/b.xml");
}

#[test]
fn progress_cadence() {
    assert!(should_report(7, 7, 0));
    assert!(!should_report(101, 500, 500));
    assert!(should_report(202, 500, 501));
    assert!(!should_report(100, 500, 10_000));
    assert_eq!(percent(1, 3), 33);
    assert_eq!(percent(3, 3), 100);
    assert_eq!(percent(0, 5), 0);
}
