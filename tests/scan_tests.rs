use creepdir::catalog::Catalog;
use creepdir::extension::{dotted_key, extension, extension_key};
use creepdir::order::key_less;
use creepdir::outcome::{check_root, output_file_name, ScanError};
use creepdir::scan::{DirEntry, EntryKind, Scan};

fn entry(name: &str, kind: EntryKind) -> DirEntry {
    DirEntry { name: name.to_string(), kind }
}

fn keys(c: &Catalog) -> Vec<String> {
    c.groups().iter().map(|g| g.key.clone()).collect()
}

fn proj_scan(root_listing: Vec<DirEntry>, sub_listing: Vec<DirEntry>) -> Catalog {
    let mut scan = Scan::new("/");
    assert_eq!(scan.next_directory(), Some(String::new()));
    scan.add_listing("", root_listing);
    assert_eq!(scan.next_directory(), Some("sub".to_string()));
    scan.add_listing("sub", sub_listing);
    assert_eq!(scan.next_directory(), None);
    scan.finish()
}

#[test]
fn proj_scenario_output() {
    let c = proj_scan(
        vec![entry("a.txt", EntryKind::File), entry("sub", EntryKind::Directory)],
        vec![entry("b.TXT", EntryKind::File), entry("c", EntryKind::File)],
    );
    assert_eq!(c.render(), "---  ---\nsub/c\n\n--- .txt ---\na.txt\nsub/b.TXT\n\n");
}

#[test]
fn same_tree_other_listing_order() {
    let c1 = proj_scan(
        vec![entry("a.txt", EntryKind::File), entry("sub", EntryKind::Directory)],
        vec![entry("b.TXT", EntryKind::File), entry("c", EntryKind::File)],
    );
    let c2 = proj_scan(
        vec![entry("sub", EntryKind::Directory), entry("a.txt", EntryKind::File)],
        vec![entry("c", EntryKind::File), entry("b.TXT", EntryKind::File)],
    );
    assert_eq!(keys(&c1), keys(&c2));
    for (g1, g2) in c1.groups().iter().zip(c2.groups().iter()) {
        let mut p1 = g1.paths.clone();
        let mut p2 = g2.paths.clone();
        p1.sort();
        p2.sort();
        assert_eq!(p1, p2);
    }
    assert_eq!(c2.render(), "---  ---\nsub/c\n\n--- .txt ---\nsub/b.TXT\na.txt\n\n");
}

#[test]
fn depth_first_order_within_group() {
    let mut scan = Scan::new("/");
    assert_eq!(scan.next_directory(), Some(String::new()));
    scan.add_listing(
        "",
        vec![
            entry("x.rs", EntryKind::File),
            entry("d", EntryKind::Directory),
            entry("z.rs", EntryKind::File),
        ],
    );
    assert_eq!(scan.next_directory(), Some("d".to_string()));
    scan.add_listing("d", vec![entry("y.rs", EntryKind::File)]);
    assert_eq!(scan.next_directory(), None);
    let c = scan.finish();
    assert_eq!(c.render(), "--- .rs ---\nx.rs\nd/y.rs\nz.rs\n\n");
}

#[test]
fn empty_root_gives_empty_text() {
    let mut scan = Scan::new("/");
    assert_eq!(scan.next_directory(), Some(String::new()));
    scan.add_listing("", vec![]);
    assert_eq!(scan.next_directory(), None);
    let c = scan.finish();
    assert!(c.groups().is_empty());
    assert_eq!(c.render(), "");
}

#[test]
fn empty_directories_only_give_empty_text() {
    let mut scan = Scan::new("/");
    assert_eq!(scan.next_directory(), Some(String::new()));
    scan.add_listing("", vec![entry("e", EntryKind::Directory), entry("l", EntryKind::Other)]);
    assert_eq!(scan.next_directory(), Some("e".to_string()));
    scan.add_listing("e", vec![]);
    assert_eq!(scan.next_directory(), None);
    assert_eq!(scan.finish().render(), "");
}

#[test]
fn other_entries_are_skipped() {
    let mut scan = Scan::new("/");
    assert_eq!(scan.next_directory(), Some(String::new()));
    scan.add_listing(
        "",
        vec![entry("link.txt", EntryKind::Other), entry("f.txt", EntryKind::File)],
    );
    assert_eq!(scan.next_directory(), None);
    assert_eq!(scan.finish().render(), "--- .txt ---\nf.txt\n\n");
}

#[test]
fn separator_is_used_between_segments() {
    let mut scan = Scan::new("\\");
    assert_eq!(scan.next_directory(), Some(String::new()));
    scan.add_listing("", vec![entry("a", EntryKind::Directory)]);
    assert_eq!(scan.next_directory(), Some("a".to_string()));
    scan.add_listing("a", vec![entry("b", EntryKind::Directory)]);
    assert_eq!(scan.next_directory(), Some("a\\b".to_string()));
    scan.add_listing("a\\b", vec![entry("f.md", EntryKind::File)]);
    assert_eq!(scan.next_directory(), None);
    assert_eq!(scan.finish().render(), "--- .md ---\na\\b\\f.md\n\n");
}

#[test]
fn groups_sorted_with_empty_key_first() {
    let mut c = Catalog::new();
    c.add(".txt".to_string(), "a.txt".to_string());
    c.add(".rs".to_string(), "m.rs".to_string());
    c.add(String::new(), "README".to_string());
    c.add(".a".to_string(), "lib.a".to_string());
    c.add(".rs".to_string(), "n.rs".to_string());
    assert_eq!(keys(&c), vec!["", ".a", ".rs", ".txt"]);
    assert_eq!(
        c.render(),
        "---  ---\nREADME\n\n--- .a ---\nlib.a\n\n--- .rs ---\nm.rs\nn.rs\n\n--- .txt ---\na.txt\n\n"
    );
}

#[test]
fn keys_follow_byte_order() {
    let mut c = Catalog::new();
    c.add(".b".to_string(), "1.b".to_string());
    c.add(".B".to_string(), "2.B".to_string());
    c.add(".é".to_string(), "3.é".to_string());
    c.add(".ab".to_string(), "4.ab".to_string());
    c.add(".a".to_string(), "5.a".to_string());
    assert_eq!(keys(&c), vec![".B", ".a", ".ab", ".b", ".é"]);
}

#[test]
fn key_less_compares_lexicographically() {
    assert!(key_less("", ".txt"));
    assert!(!key_less(".txt", ""));
    assert!(!key_less("", ""));
    assert!(key_less(".a", ".ab"));
    assert!(!key_less(".ab", ".a"));
    assert!(key_less(".Z", ".a"));
    assert!(!key_less(".rs", ".rs"));
    assert!(key_less(".z", ".ä"));
}

#[test]
fn readme_has_empty_key() {
    assert_eq!(extension("README"), None);
    assert_eq!(extension_key("README"), "");
}

#[test]
fn only_final_suffix_counts() {
    assert_eq!(extension("archive.TAR.GZ"), Some("GZ".to_string()));
    assert_eq!(extension_key("archive.TAR.GZ"), ".gz");
}

#[test]
fn hidden_and_dotted_names() {
    assert_eq!(extension_key(".bashrc"), "");
    assert_eq!(extension_key(".hidden.TXT"), ".txt");
    assert_eq!(extension_key("name."), ".");
    assert_eq!(extension("name."), Some(String::new()));
    assert_eq!(extension_key(".."), "");
    assert_eq!(extension_key("..."), ".");
    assert_eq!(extension_key("."), "");
    assert_eq!(extension_key(""), "");
}

#[test]
fn lowercasing_covers_non_ascii() {
    assert_eq!(extension_key("Bild.ÄÖ"), ".äö");
    assert_eq!(extension_key("x.Rs"), ".rs");
}

#[test]
fn dotted_key_prefixes_a_dot() {
    assert_eq!(dotted_key("gz"), ".gz");
    assert_eq!(dotted_key(""), ".");
}

#[test]
fn missing_root_is_not_found() {
    assert_eq!(check_root(false, false), Err(ScanError::NotFound));
}

#[test]
fn root_checks() {
    assert_eq!(check_root(true, false), Err(ScanError::NotADirectory));
    assert_eq!(check_root(true, true), Ok(()));
}

#[test]
fn default_output_names() {
    assert_eq!(output_file_name(Some("proj")), "proj.txt");
    assert_eq!(output_file_name(None), "output.txt");
}
