use recipe_analysis::error::Error;
use recipe_analysis::expanded::ExpandedIngredientRelation;
use recipe_analysis::text::parse_coolist;

fn two_recipe_corpus() -> Vec<Vec<usize>> {
    // recipe 0 = [tomato, basil], recipe 1 = [tomato, basil, garlic]
    // with ids tomato: 0, basil: 1, garlic: 2.
    vec![vec![0, 1], vec![0, 1, 2]]
}

#[test]
fn star_expansion_two_recipes() {
    let rel = ExpandedIngredientRelation::build_stars(two_recipe_corpus(), 3).unwrap();
    // 3 ingredient hubs + 2 recipe hubs + 5 instances.
    assert_eq!(rel.number_of_vertices(), 10);
    assert_eq!(rel.number_of_edges(), 10);
    let expected: Vec<((usize, usize), usize)> = vec![
        ((0, 5), 1),
        ((0, 7), 1),
        ((1, 6), 1),
        ((1, 8), 1),
        ((2, 9), 1),
        ((3, 5), 1),
        ((3, 6), 1),
        ((4, 7), 1),
        ((4, 8), 1),
        ((4, 9), 1),
    ];
    assert_eq!(rel.edge_list().clone(), expected);
}

#[test]
fn star_expansion_vertex_roles() {
    let rel = ExpandedIngredientRelation::build_stars(two_recipe_corpus(), 3).unwrap();
    // ingredient hub
    assert_eq!(rel.get_ingredient_id(0), Some(0));
    assert_eq!(rel.get_recipe_id(0), None);
    // recipe hub of recipe 0
    assert_eq!(rel.get_ingredient_id(3), None);
    assert_eq!(rel.get_recipe_id(3), Some(0));
    // first instance of recipe 0
    assert_eq!(rel.get_ingredient_id(5), Some(0));
    assert_eq!(rel.get_recipe_id(5), Some(0));
    // garlic instance of recipe 1
    assert_eq!(rel.get_ingredient_id(9), Some(2));
    assert_eq!(rel.get_recipe_id(9), Some(1));
}

#[test]
fn star_expansion_vertex_count_formula() {
    // number_of_vertices == num_ingredients + recipes.len() + total occurrences
    let recipes = vec![vec![0usize], vec![1, 2, 3], vec![], vec![0, 0]];
    let rel = ExpandedIngredientRelation::build_stars(recipes, 7).unwrap();
    assert_eq!(rel.number_of_vertices(), 7 + 4 + 6);
    assert_eq!(rel.number_of_edges(), 2 * 6);
}

#[test]
fn star_expansion_rejects_bad_id() {
    let r = ExpandedIngredientRelation::build_stars(vec![vec![0, 3]], 3);
    assert_eq!(r.unwrap_err(), Error::InvalidIngredientId);
}

#[test]
fn star_expansion_empty_corpus() {
    let rel = ExpandedIngredientRelation::build_stars(Vec::new(), 2).unwrap();
    assert_eq!(rel.number_of_vertices(), 2);
    assert_eq!(rel.number_of_edges(), 0);
    assert_eq!(rel.build_coolist(), "");
}

#[test]
fn clique_expansion_weights() {
    // recipe 0 = [0, 1], recipe 1 = [1, 2]; targets {0, 2}.
    // Instances: v0 = (0, r0), v1 = (1, r0), v2 = (1, r1), v3 = (2, r1).
    let rel =
        ExpandedIngredientRelation::build_cliques(vec![vec![0, 1], vec![1, 2]], vec![0, 2], 3)
            .unwrap();
    assert_eq!(rel.number_of_vertices(), 4);
    let expected: Vec<((usize, usize), usize)> = vec![
        ((0, 1), 1), // same recipe
        ((0, 3), 1), // target pair (0, 2), created by the boost
        ((1, 2), 1), // same ingredient
        ((2, 3), 1), // same recipe
    ];
    assert_eq!(rel.edge_list().clone(), expected);
}

#[test]
fn clique_expansion_boost_raises_weight() {
    // One recipe [0, 1] with both ingredients targeted: the in-recipe edge
    // gets its weight raised to 2.
    let rel = ExpandedIngredientRelation::build_cliques(vec![vec![0, 1]], vec![0, 1], 2).unwrap();
    assert_eq!(rel.edge_list().clone(), vec![((0, 1), 2)]);
}

#[test]
fn clique_expansion_rejects_bad_target() {
    let r = ExpandedIngredientRelation::build_cliques(vec![vec![0]], vec![5], 3);
    assert_eq!(r.unwrap_err(), Error::InvalidIngredientId);
}

#[test]
fn coolist_round_trip() {
    let rel = ExpandedIngredientRelation::build_stars(two_recipe_corpus(), 3).unwrap();
    let text = rel.build_coolist();
    assert_eq!(
        text,
        "0 5 1\n0 7 1\n1 6 1\n1 8 1\n2 9 1\n3 5 1\n3 6 1\n4 7 1\n4 8 1\n4 9 1"
    );
    let parsed = parse_coolist(&text).unwrap();
    assert_eq!(&parsed, rel.edge_list());
}

#[test]
fn adjacency_elements_are_symmetric() {
    let rel = ExpandedIngredientRelation::build_stars(vec![vec![0]], 1).unwrap();
    // vertices: hub 0, recipe hub 1, instance 2; edges (0,2) and (1,2).
    let elements = rel.adjacency_elements();
    // 1-based, mirrored pair per stored edge, in stored-edge order.
    assert_eq!(elements, vec![(1, 3, 1), (3, 1, 1), (2, 3, 1), (3, 2, 1)]);
    for &(a, b, w) in &elements {
        assert!(elements.contains(&(b, a, w)));
    }
    let _ = rel.build_adjacency_matrix();
}

#[test]
fn csr_export_text() {
    // An unused ingredient hub leaves row 2 of the adjacency matrix
    // empty; the row-pointer array must still attribute every element to
    // its own row.
    let rel = ExpandedIngredientRelation::build_stars(vec![vec![0]], 2).unwrap();
    // vertices: hubs 0 and 1, recipe hub 2, instance 3; edges (0,3), (2,3).
    // Row-major elements: (1,4,1), (3,4,1), (4,1,1), (4,3,1).
    let text = rel.export_adjacency();
    assert_eq!(text, "4\n4\n0\n1\n1\n2\n4\n4\n4\n1\n3\n1\n1\n1\n1");
}
