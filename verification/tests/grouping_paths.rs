use unfrag::fragname::{base_filename, is_fragment_path};
use unfrag::grouping::{group_fragments, FragmentGroup};
use unfrag::lexorder::str_le;

fn paths(ps: &[&str]) -> Vec<String> {
    ps.iter().map(|p| p.to_string()).collect()
}

fn flat(gs: &[FragmentGroup]) -> Vec<(String, Vec<String>)> {
    gs.iter().map(|g| (g.base.clone(), g.fragments.clone())).collect()
}

#[test]
fn recognizes_fragment_paths() {
    assert!(is_fragment_path("a.FRAG-00000"));
    assert!(is_fragment_path("dir/file.bin.FRAG-12345"));
    assert!(!is_fragment_path("a.txt"));
    assert!(!is_fragment_path("FRAG-00000"));
    assert!(!is_fragment_path(""));
}

#[test]
fn base_is_prefix_before_first_marker() {
    assert_eq!(base_filename("report.txt.FRAG-00000"), "report.txt");
    assert_eq!(base_filename("a.FRAG-1.FRAG-2"), "a");
    assert_eq!(base_filename("plain.txt"), "plain.txt");
    assert_eq!(base_filename(".FRAG-0"), "");
}

#[test]
fn lexicographic_comparison() {
    assert!(str_le("a", "b"));
    assert!(!str_le("b", "a"));
    assert!(str_le("abc", "abc"));
    assert!(str_le("ab", "abc"));
    assert!(!str_le("abc", "ab"));
    assert!(str_le("x.FRAG-00002", "x.FRAG-00010"));
}

#[test]
fn groups_are_sorted_and_filtered() {
    let input = paths(&[
        "b.FRAG-00001",
        "notes.txt",
        "a.FRAG-00001",
        "b.FRAG-00000",
        "a.FRAG-00000",
    ]);
    let gs = group_fragments(&input);
    assert_eq!(
        flat(&gs),
        vec![
            ("a".to_string(), paths(&["a.FRAG-00000", "a.FRAG-00001"])),
            ("b".to_string(), paths(&["b.FRAG-00000", "b.FRAG-00001"])),
        ]
    );
}

#[test]
fn grouping_insensitive_to_discovery_order() {
    let one = paths(&[
        "x.FRAG-00002",
        "y.FRAG-00000",
        "x.FRAG-00000",
        "skip.me",
        "x.FRAG-00001",
    ]);
    let two = paths(&[
        "skip.me",
        "x.FRAG-00000",
        "x.FRAG-00001",
        "x.FRAG-00002",
        "y.FRAG-00000",
    ]);
    assert_eq!(flat(&group_fragments(&one)), flat(&group_fragments(&two)));
}

#[test]
fn grouping_of_empty_input() {
    let gs = group_fragments(&Vec::new());
    assert!(gs.is_empty());
}
