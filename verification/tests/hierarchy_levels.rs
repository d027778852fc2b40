use recipe_analysis::error::Error;
use recipe_analysis::expanded::ExpandedIngredientRelation;
use recipe_analysis::hierarchy::{build_interpolation_matrices, Hierarchy};
use recipe_analysis::text::parse_usize_tokens;

fn p7_records() -> Vec<(usize, usize)> {
    // One level over 10 fine vertices, 3 aggregates: aggregate 0 holds
    // vertices {5, 6, 7, 8}; hubs go to aggregates 1 and 2.
    vec![
        (0, 1),
        (1, 1),
        (2, 1),
        (3, 2),
        (4, 2),
        (5, 0),
        (6, 0),
        (7, 0),
        (8, 0),
        (9, 1),
    ]
}

fn p7_hierarchy() -> Hierarchy {
    let relation =
        ExpandedIngredientRelation::build_stars(vec![vec![0, 1], vec![0, 1, 2]], 3).unwrap();
    let matrices = build_interpolation_matrices(&p7_records(), 10).unwrap();
    let names = vec![
        "tomato".to_string(),
        "basil".to_string(),
        "garlic".to_string(),
    ];
    let map = vec![
        ("tomato".to_string(), (0usize, 2usize)),
        ("basil".to_string(), (1, 2)),
        ("garlic".to_string(), (2, 1)),
    ];
    Hierarchy::new(matrices, names, map, relation)
}

#[test]
fn parser_infers_levels() {
    let ms = build_interpolation_matrices(&p7_records(), 10).unwrap();
    assert_eq!(ms.len(), 1);
    assert_eq!(ms[0].rows(), 10);
    assert_eq!(ms[0].num_columns(), 3);
    assert_eq!(ms[0].aggregate_of(5), 0);
    assert_eq!(ms[0].aggregate_of(0), 1);
}

#[test]
fn parser_chains_levels() {
    // Level 0: 4 vertices into 2 aggregates; level 1: 2 vertices into 1.
    let records = vec![(0, 0), (1, 0), (2, 1), (3, 1), (0, 0), (1, 0)];
    let ms = build_interpolation_matrices(&records, 4).unwrap();
    assert_eq!(ms.len(), 2);
    assert_eq!(ms[0].rows(), 4);
    assert_eq!(ms[0].num_columns(), 2);
    assert_eq!(ms[1].rows(), 2);
    assert_eq!(ms[1].num_columns(), 1);
}

#[test]
fn parser_rejects_uneven_stream() {
    // 4 vertices but only 3 records.
    let records = vec![(0, 0), (1, 0), (2, 1)];
    let r = build_interpolation_matrices(&records, 4);
    assert_eq!(r.unwrap_err(), Error::MalformedHierarchyStream);
}

#[test]
fn parser_rejects_repeated_vertex() {
    let records = vec![(0, 0), (0, 1)];
    let r = build_interpolation_matrices(&records, 2);
    assert_eq!(r.unwrap_err(), Error::MalformedHierarchyStream);
}

#[test]
fn stream_tokens_parse() {
    assert_eq!(parse_usize_tokens("0 0\n1 2\t3 4"), Ok(vec![0, 0, 1, 2, 3, 4]));
    assert_eq!(
        parse_usize_tokens("1 -2").unwrap_err(),
        Error::MalformedHierarchyStream
    );
    assert_eq!(
        parse_usize_tokens("99999999999999999999999999").unwrap_err(),
        Error::MalformedHierarchyStream
    );
}

#[test]
fn num_levels_counts_matrices() {
    let h = p7_hierarchy();
    assert_eq!(h.num_levels(), 2);
}

#[test]
fn level_zero_is_identity() {
    let h = p7_hierarchy();
    let p = h.partition_at_level(0);
    assert_eq!(p.rows(), 10);
    assert_eq!(p.num_columns(), 10);
    for v in 0..10 {
        assert_eq!(p.aggregate_of(v), v);
    }
    // Level 0 reconstruction: every vertex its own aggregate; only
    // instance vertices contribute entries.
    let out = h.generate_recipes(0, Vec::new()).unwrap();
    assert_eq!(out.len(), 10);
    assert_eq!(out[5], vec![("tomato".to_string(), vec![0usize])]);
    assert_eq!(out[9], vec![("garlic".to_string(), vec![1usize])]);
    assert!(out[0].is_empty()); // pure hub
}

#[test]
fn reconstruction_at_level_one() {
    let h = p7_hierarchy();
    let out = h.generate_recipes(1, Vec::new()).unwrap();
    assert_eq!(out.len(), 3);
    // Aggregate 0: tomato and basil instances of both recipes; equal
    // counts, so the tie breaks by name.
    assert_eq!(
        out[0],
        vec![
            ("basil".to_string(), vec![0usize, 1]),
            ("tomato".to_string(), vec![0, 1]),
        ]
    );
    // Aggregate 1 holds the garlic instance (vertex 9); hubs are skipped.
    assert_eq!(out[1], vec![("garlic".to_string(), vec![1usize])]);
    // Aggregate 2 holds only hubs.
    assert!(out[2].is_empty());
}

#[test]
fn target_filter_drops_aggregates() {
    let h = p7_hierarchy();
    let out = h
        .generate_recipes(1, vec!["garlic".to_string()])
        .unwrap();
    assert_eq!(out.len(), 1);
    assert_eq!(out[0], vec![("garlic".to_string(), vec![1usize])]);
    let out2 = h
        .generate_recipes(1, vec!["tomato".to_string(), "basil".to_string()])
        .unwrap();
    assert_eq!(out2.len(), 1);
    assert_eq!(out2[0].len(), 2);
    let none = h
        .generate_recipes(1, vec!["saffron".to_string()])
        .unwrap();
    assert!(none.is_empty());
}

#[test]
fn level_out_of_range() {
    let h = p7_hierarchy();
    assert_eq!(h.generate_recipes(2, Vec::new()).unwrap_err(), Error::LevelOutOfRange);
    assert!(h.generate_recipes(1, Vec::new()).is_ok());
}

#[test]
fn composed_partition_is_iterated_product() {
    // Two levels: 4 vertices -> 2 aggregates -> 1 aggregate.
    let records = vec![(0, 0), (1, 0), (2, 1), (3, 1), (0, 0), (1, 0)];
    let ms = build_interpolation_matrices(&records, 4).unwrap();
    // A star expansion with exactly 4 vertices: 2 ingredient hubs, one
    // recipe hub, one instance.
    let relation = ExpandedIngredientRelation::build_stars(vec![vec![0]], 2).unwrap();
    assert_eq!(relation.number_of_vertices(), 4);
    let names = vec!["a".to_string(), "b".to_string()];
    let map = vec![("a".to_string(), (0usize, 1usize)), ("b".to_string(), (1, 0))];
    let h = Hierarchy::new(ms, names, map, relation);
    assert_eq!(h.num_levels(), 3);
    let p1 = h.partition_at_level(1);
    assert_eq!(p1.num_columns(), 2);
    assert_eq!(
        (0..4).map(|v| p1.aggregate_of(v)).collect::<Vec<_>>(),
        vec![0, 0, 1, 1]
    );
    // Level 2 composes both matrices; every row keeps exactly one
    // aggregate.
    let p2 = h.partition_at_level(2);
    assert_eq!(p2.num_columns(), 1);
    assert_eq!(
        (0..4).map(|v| p2.aggregate_of(v)).collect::<Vec<_>>(),
        vec![0, 0, 0, 0]
    );
}
