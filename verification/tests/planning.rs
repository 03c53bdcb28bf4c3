use unfrag::plan::{build_plan, Task};

fn paths(ps: &[&str]) -> Vec<String> {
    ps.iter().map(|p| p.to_string()).collect()
}

fn level_files(level: &[Task]) -> Vec<Vec<String>> {
    level.iter().map(|t| t.files.clone()).collect()
}

#[test]
fn plan_for_three_fragments_batch_two() {
    let frags = paths(&["f.FRAG-00000", "f.FRAG-00001", "f.FRAG-00002"]);
    let levels = build_plan(&frags, 2);
    assert_eq!(levels.len(), 2);
    assert_eq!(
        level_files(&levels[0]),
        vec![
            paths(&["f.FRAG-00000", "f.FRAG-00001"]),
            paths(&["f.FRAG-00002"]),
        ]
    );
    assert_eq!(
        level_files(&levels[1]),
        vec![paths(&["f.FRAG-00000", "f.FRAG-00002"])]
    );
}

#[test]
fn plan_single_level_when_batch_covers_all() {
    let frags = paths(&["f.FRAG-00000", "f.FRAG-00001", "f.FRAG-00002"]);
    let levels = build_plan(&frags, 100);
    assert_eq!(levels.len(), 1);
    assert_eq!(level_files(&levels[0]), vec![frags.clone()]);
}

#[test]
fn plan_depth_for_batch_two() {
    let frags: Vec<String> = (0..5).map(|i| format!("g.FRAG-{:05}", i)).collect();
    let levels = build_plan(&frags, 2);
    // 5 leaves -> 3 tasks -> 2 tasks -> 1 task
    assert_eq!(levels.len(), 3);
    assert_eq!(levels[0].len(), 3);
    assert_eq!(levels[1].len(), 2);
    assert_eq!(levels[2].len(), 1);
    // the surviving leader is the first fragment
    assert_eq!(levels[2][0].files[0], "g.FRAG-00000");
}

#[test]
fn plan_single_fragment() {
    let frags = paths(&["one.FRAG-00000"]);
    let levels = build_plan(&frags, 2);
    assert_eq!(levels.len(), 1);
    assert_eq!(level_files(&levels[0]), vec![paths(&["one.FRAG-00000"])]);
}
