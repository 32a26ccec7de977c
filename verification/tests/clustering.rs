use smartcore::cluster::kmeans::KMeans;
use smartcore::cluster::kmeans::KMeansParameters;
use smartcore::linalg::naive::dense_matrix::DenseMatrix;

use grouper::GroupError;
use grouper::bisect::Bisection;
use grouper::captions::build_vocabulary;
use grouper::captions::presence_rows;
use grouper::captions::select_rows;
use grouper::captions::tokenize;
use grouper::distance::distance;
use grouper::materialize::MaterializeAction;
use grouper::materialize::plan_delete_after_copy;
use grouper::materialize::plan_materialize;
use grouper::partition::cut;
use grouper::partition::target_group_count;
use grouper::tags::TaggedItem;
use grouper::tags::normalize;
use grouper::tags::parse_tag_list;

fn unit_item(id: &str, tags: &str) -> TaggedItem {
    let raw = parse_tag_list(tags);
    TaggedItem { id: id.to_string(), tags: normalize(&raw).unwrap() }
}

fn kmeans_labels(rows: &Vec<Vec<u8>>, k: usize) -> Option<Vec<u8>> {
    let values: Vec<Vec<f64>> = rows
        .iter()
        .map(|r| r.iter().map(|&b| b as f64).collect())
        .collect();
    let x = DenseMatrix::from_2d_vec(&values);
    let model = KMeans::fit(&x, KMeansParameters::default().with_k(k)).ok()?;
    let labels = model.predict(&x).ok()?;
    Some(labels.iter().map(|&v| v as u8).collect())
}

#[test]
fn self_distance_is_zero_within_tolerance() {
    let a = normalize(&parse_tag_list("(cat:0.8),(dog:0.2)")).unwrap();
    let d = distance(&a, &a);
    assert!(d.abs() <= 1_000, "self distance {d}");
}

#[test]
fn distance_is_symmetric() {
    let a = normalize(&parse_tag_list("(cat:0.8),(dog:0.2)")).unwrap();
    let b = normalize(&parse_tag_list("(dog:0.5),(bird:-0.5)")).unwrap();
    assert_eq!(distance(&a, &b), distance(&b, &a));
}

#[test]
fn distance_of_disjoint_vectors_is_one() {
    let a = normalize(&parse_tag_list("(cat:1.0)")).unwrap();
    let b = normalize(&parse_tag_list("(dog:1.0)")).unwrap();
    assert_eq!(distance(&a, &b), 1_000_000);
}

#[test]
fn target_group_count_is_one_per_fifty() {
    assert_eq!(target_group_count(0), 1);
    assert_eq!(target_group_count(49), 1);
    assert_eq!(target_group_count(100), 2);
    assert_eq!(target_group_count(120), 2);
}

#[test]
fn cut_groups_every_item_exactly_once() {
    let mut items = Vec::new();
    for i in 0..60 {
        items.push(unit_item(&format!("a_{i}.png"), "(alpha:1.0)"));
    }
    for i in 0..60 {
        items.push(unit_item(&format!("b_{i}.png"), "(beta:1.0)"));
    }
    let groups = cut(&items, 42).unwrap();
    assert!(groups.len() >= 1 && groups.len() <= 2);
    let mut seen = vec![0usize; items.len()];
    for g in &groups {
        assert!(!g.members.is_empty());
        assert!(g.medoid < items.len());
        for &m in &g.members {
            seen[m] += 1;
        }
    }
    for (i, &c) in seen.iter().enumerate() {
        assert_eq!(c, 1, "item {i} appears {c} times");
    }
}

#[test]
fn cut_separates_two_clear_clusters() {
    let mut items = Vec::new();
    for i in 0..60 {
        items.push(unit_item(&format!("a_{i}.png"), "(alpha:1.0)"));
    }
    for i in 0..60 {
        items.push(unit_item(&format!("b_{i}.png"), "(beta:1.0)"));
    }
    let groups = cut(&items, 7).unwrap();
    assert_eq!(groups.len(), 2);
    for g in &groups {
        assert_eq!(g.members.len(), 60);
        assert_eq!(g.labels.len(), 1);
    }
}

#[test]
fn cut_of_small_input_is_one_group_with_label_union() {
    let items = vec![
        unit_item("x.png", "(cat:0.8),(dog:0.2)"),
        unit_item("y.png", "(dog:1.0)"),
    ];
    let groups = cut(&items, 0).unwrap();
    assert_eq!(groups.len(), 1);
    assert_eq!(groups[0].members, vec![0, 1]);
    let mut labels = groups[0].labels.clone();
    labels.sort();
    assert_eq!(labels, vec!["cat", "dog"]);
}

#[test]
fn cut_of_empty_input_fails_clearly() {
    assert!(matches!(cut(&Vec::new(), 0), Err(GroupError::ClusterFailed)));
}

#[test]
fn cut_reports_broken_self_distance() {
    let items = vec![TaggedItem { id: "bad.png".to_string(), tags: vec![("a".to_string(), 500_000)] }];
    assert!(matches!(cut(&items, 0), Err(GroupError::SelfDistance)));
}

#[test]
fn bisection_small_input_is_one_unchanged_group() {
    let b = Bisection::new(3, 100);
    assert!(b.is_done());
    let groups = b.groups();
    assert_eq!(groups, vec![vec![0, 1, 2]]);
}

#[test]
fn bisection_splits_until_bounded() {
    let mut b = Bisection::new(5, 2);
    let first = b.next_pending().unwrap();
    assert_eq!(first, vec![0, 1, 2, 3, 4]);
    b.apply_split(&vec![0, 0, 1, 1, 1]).unwrap();
    let second = b.next_pending().unwrap();
    assert_eq!(second, vec![2, 3, 4]);
    b.apply_split(&vec![0, 1, 1]).unwrap();
    assert!(b.is_done());
    let groups = b.groups();
    let mut seen = vec![0usize; 5];
    for g in &groups {
        assert!(g.len() <= 2);
        for &m in g {
            seen[m] += 1;
        }
    }
    assert_eq!(seen, vec![1, 1, 1, 1, 1]);
}

#[test]
fn bisection_rejects_useless_splits() {
    let mut b = Bisection::new(5, 2);
    assert_eq!(b.apply_split(&vec![0, 0]), Err(GroupError::ClusterFailed));
    assert_eq!(b.apply_split(&vec![0, 0, 2, 1, 1]), Err(GroupError::ClusterFailed));
    assert_eq!(b.apply_split(&vec![0, 0, 0, 0, 0]), Err(GroupError::NoProgress));
    let mut done = Bisection::new(2, 2);
    assert_eq!(done.apply_split(&vec![0, 1]), Err(GroupError::ClusterFailed));
}

#[test]
fn caption_scenario_three_items() {
    let captions = ["a red cat", "a red dog", "a blue bird"];
    let sets: Vec<Vec<String>> = captions.iter().map(|c| tokenize(c)).collect();
    let vocab = build_vocabulary(&sets);
    let rows = presence_rows(&sets, &vocab);
    assert_eq!(rows.len(), 3);
    for row in &rows {
        assert_eq!(row.len(), 6);
        assert_eq!(row.iter().filter(|&&v| v == 1).count(), 3);
    }
    let mut b = Bisection::new(3, 2);
    while let Some(subset) = b.next_pending() {
        let sub = select_rows(&rows, &subset);
        let labels = kmeans_labels(&sub, 2).unwrap();
        b.apply_split(&labels).unwrap();
    }
    let groups = b.groups();
    assert_eq!(groups.len(), 2);
    let mut sizes: Vec<usize> = groups.iter().map(|g| g.len()).collect();
    sizes.sort();
    assert_eq!(sizes, vec![1, 2]);
    let mut seen = vec![0usize; 3];
    for g in &groups {
        for &m in g {
            seen[m] += 1;
        }
    }
    assert_eq!(seen, vec![1, 1, 1]);
}

#[test]
fn materializer_skips_existing_destination() {
    assert_eq!(plan_materialize(true, true), MaterializeAction::Skip);
    assert_eq!(plan_materialize(true, false), MaterializeAction::Skip);
    assert_eq!(plan_materialize(false, false), MaterializeAction::CopyOnly);
    assert_eq!(plan_materialize(false, true), MaterializeAction::CopyThenDelete);
    assert!(plan_delete_after_copy(true, true));
    assert!(!plan_delete_after_copy(false, true));
    assert!(!plan_delete_after_copy(true, false));
}
