use recipe_analysis::co_occurrence::make_relation;
use recipe_analysis::table::init;
use recipe_analysis::text::parse_coolist;

fn corpus() -> Vec<(i32, Vec<String>)> {
    vec![
        (7, vec!["tomato".to_string(), "basil".to_string()]),
        (9, vec!["tomato".to_string(), "basil".to_string(), "garlic".to_string()]),
    ]
}

#[test]
fn relation_interns_names() {
    let rel = make_relation(&corpus());
    assert_eq!(rel.get_recipe_count(), 2);
    assert_eq!(
        rel.get_ingredient_list().clone(),
        vec!["tomato".to_string(), "basil".to_string(), "garlic".to_string()]
    );
    assert_eq!(
        rel.get_ingredient_map().clone(),
        vec![
            ("tomato".to_string(), (0usize, 2usize)),
            ("basil".to_string(), (1, 2)),
            ("garlic".to_string(), (2, 1)),
        ]
    );
}

#[test]
fn relation_counts_pairs() {
    let rel = make_relation(&corpus());
    // basil-tomato co-occur in both recipes; garlic pairs only in one.
    assert_eq!(
        rel.get_matrix().points.clone(),
        vec![(1usize, 0usize, 2usize), (2, 0, 1), (2, 1, 1)]
    );
}

#[test]
fn relation_text_artifacts() {
    let rel = make_relation(&corpus());
    let coolist = rel.coolist_string();
    // Lines carry the smaller id first.
    assert_eq!(coolist, "0 1 2\n0 2 1\n1 2 1");
    // Reparsing the coolist reproduces the same triples.
    let parsed = parse_coolist(&coolist).unwrap();
    assert_eq!(parsed, vec![((0usize, 1usize), 2usize), ((0, 2), 1), ((1, 2), 1)]);
    assert_eq!(rel.labels_string(), "tomato\nbasil\ngarlic");
}

#[test]
fn relation_empty_corpus() {
    let rel = make_relation(&Vec::new());
    assert_eq!(rel.get_recipe_count(), 0);
    assert!(rel.get_ingredient_list().is_empty());
    assert!(rel.get_matrix().points.is_empty());
}

#[test]
fn init_dedups_recipes() {
    // A repeated name counts twice but contributes one id per recipe.
    let (rvs, table, ri, cooc) = init(vec![
        vec!["a".to_string(), "b".to_string(), "a".to_string()],
        vec!["b".to_string()],
    ]);
    assert_eq!(table.recipe_count, 2);
    assert_eq!(table.ingredients_vec, vec!["a".to_string(), "b".to_string()]);
    assert_eq!(table.ingredients, vec![("a".to_string(), 0usize), ("b".to_string(), 1)]);
    assert_eq!(table.ingredients_count, vec![2usize, 2]);
    assert_eq!(rvs.recipes, vec![vec![0usize, 1], vec![1usize]]);
    assert_eq!(ri.points, vec![(0usize, 0usize), (0, 1), (1, 1)]);
    assert_eq!(cooc.points, vec![(1usize, 0usize, 1usize)]);
    assert_eq!(cooc.make_coolist(), "0 1 1");
}
