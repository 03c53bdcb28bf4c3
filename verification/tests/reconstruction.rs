use unfrag::modelfs::ModelFs;

fn fs_with(files: &[(&str, &[u8])]) -> ModelFs {
    let mut fs = ModelFs::new();
    for (path, data) in files {
        fs.insert_file(path.to_string(), data.to_vec());
    }
    fs
}

fn paths(ps: &[&str]) -> Vec<String> {
    ps.iter().map(|p| p.to_string()).collect()
}

#[test]
fn concrete_three_fragments_batch_two() {
    let mut fs = fs_with(&[
        ("report.txt.FRAG-00000", b"AAA"),
        ("report.txt.FRAG-00001", b"BBB"),
        ("report.txt.FRAG-00002", b"CCC"),
    ]);
    let frags = paths(&[
        "report.txt.FRAG-00000",
        "report.txt.FRAG-00001",
        "report.txt.FRAG-00002",
    ]);
    fs.reconstruct(&"report.txt".to_string(), &frags, 2);
    let out = fs.read_file(&"report.txt".to_string()).expect("reconstructed file must exist");
    assert_eq!(out, b"AAABBBCCC".to_vec());
    for f in &frags {
        assert!(!fs.contains_path(f));
    }
}

#[test]
fn fragments_consumed_and_target_created() {
    let mut fs = fs_with(&[
        ("d/x.bin.FRAG-00000", b"one"),
        ("d/x.bin.FRAG-00001", b"two"),
        ("d/x.bin.FRAG-00002", b"three"),
        ("d/x.bin.FRAG-00003", b"four"),
        ("unrelated.txt", b"keep me"),
    ]);
    let frags = paths(&[
        "d/x.bin.FRAG-00000",
        "d/x.bin.FRAG-00001",
        "d/x.bin.FRAG-00002",
        "d/x.bin.FRAG-00003",
    ]);
    fs.reconstruct(&"d/x.bin".to_string(), &frags, 3);
    assert!(fs.contains_path(&"d/x.bin".to_string()));
    assert_eq!(
        fs.read_file(&"d/x.bin".to_string()).unwrap(),
        b"onetwothreefour".to_vec()
    );
    for f in &frags {
        assert!(!fs.contains_path(f));
    }
    assert_eq!(
        fs.read_file(&"unrelated.txt".to_string()).unwrap(),
        b"keep me".to_vec()
    );
}

#[test]
fn single_fragment_copies_content() {
    let mut fs = fs_with(&[("solo.dat.FRAG-00000", b"only piece")]);
    let frags = paths(&["solo.dat.FRAG-00000"]);
    fs.reconstruct(&"solo.dat".to_string(), &frags, 32);
    assert_eq!(
        fs.read_file(&"solo.dat".to_string()).unwrap(),
        b"only piece".to_vec()
    );
    assert!(!fs.contains_path(&"solo.dat.FRAG-00000".to_string()));
}

#[test]
fn batch_sizes_give_identical_output() {
    let names: Vec<String> = (0..7).map(|i| format!("big.FRAG-{:05}", i)).collect();
    let contents: Vec<Vec<u8>> = (0..7).map(|i| format!("part{}", i).into_bytes()).collect();
    let expected: Vec<u8> = contents.concat();
    for batch in [2usize, 3, 32, 100] {
        let mut fs = ModelFs::new();
        for (n, c) in names.iter().zip(contents.iter()) {
            fs.insert_file(n.clone(), c.clone());
        }
        fs.reconstruct(&"big".to_string(), &names, batch);
        assert_eq!(fs.read_file(&"big".to_string()).unwrap(), expected);
        for n in &names {
            assert!(!fs.contains_path(n));
        }
    }
}

#[test]
fn run_cat_appends_and_deletes() {
    let mut fs = fs_with(&[("lead", b"LL"), ("a", b"aa"), ("b", b"bb")]);
    fs.run_cat(&paths(&["lead", "a", "b"]));
    assert_eq!(fs.read_file(&"lead".to_string()).unwrap(), b"LLaabb".to_vec());
    assert!(!fs.contains_path(&"a".to_string()));
    assert!(!fs.contains_path(&"b".to_string()));
}

#[test]
fn run_cat_single_entry_is_noop() {
    let mut fs = fs_with(&[("lead", b"LL")]);
    fs.run_cat(&paths(&["lead"]));
    assert_eq!(fs.read_file(&"lead".to_string()).unwrap(), b"LL".to_vec());
}

#[test]
fn run_cat_skips_missing_secondary() {
    let mut fs = fs_with(&[("lead", b"LL"), ("b", b"bb")]);
    fs.run_cat(&paths(&["lead", "gone", "b"]));
    assert_eq!(fs.read_file(&"lead".to_string()).unwrap(), b"LLbb".to_vec());
    assert!(!fs.contains_path(&"b".to_string()));
}

#[test]
fn run_cat_skips_empty_names() {
    let mut fs = fs_with(&[("lead", b"LL"), ("a", b"aa")]);
    fs.run_cat(&paths(&["lead", "", "a", ""]));
    assert_eq!(fs.read_file(&"lead".to_string()).unwrap(), b"LLaa".to_vec());
    assert!(!fs.contains_path(&"a".to_string()));
}

#[test]
fn pipeline_groups_then_reconstructs() {
    let mut fs = fs_with(&[
        ("a.txt.FRAG-00000", b"Hello, "),
        ("b.txt.FRAG-00001", b"crumbs"),
        ("a.txt.FRAG-00001", b"world"),
        ("b.txt.FRAG-00000", b"bread"),
        ("README", b"not a fragment"),
    ]);
    let discovered = paths(&[
        "b.txt.FRAG-00001",
        "README",
        "a.txt.FRAG-00000",
        "b.txt.FRAG-00000",
        "a.txt.FRAG-00001",
    ]);
    let groups = unfrag::grouping::group_fragments(&discovered);
    assert_eq!(groups.len(), 2);
    for group in &groups {
        fs.reconstruct(&group.base, &group.fragments, 2);
    }
    assert_eq!(
        fs.read_file(&"a.txt".to_string()).unwrap(),
        b"Hello, world".to_vec()
    );
    assert_eq!(
        fs.read_file(&"b.txt".to_string()).unwrap(),
        b"breadcrumbs".to_vec()
    );
    assert_eq!(
        fs.read_file(&"README".to_string()).unwrap(),
        b"not a fragment".to_vec()
    );
    for f in &discovered {
        if f != "README" {
            assert!(!fs.contains_path(f));
        }
    }
}

#[test]
fn rename_replaces_destination() {
    let mut fs = fs_with(&[("from", b"new"), ("to", b"old")]);
    fs.rename_file(&"from".to_string(), "to".to_string());
    assert!(!fs.contains_path(&"from".to_string()));
    assert_eq!(fs.read_file(&"to".to_string()).unwrap(), b"new".to_vec());
}
