use recipe_analysis::models::NytcQueryable;
use recipe_analysis::nytc::{Nytc, Rating};
use recipe_analysis::process_ny::filter_title;
use recipe_analysis::text::{parse_coolist, parse_usize_tokens};
use recipe_analysis::Databases;
use recipe_analysis::Error;

#[test]
fn tokens_parse_decimal() {
    assert_eq!(parse_usize_tokens(""), Ok(vec![]));
    assert_eq!(parse_usize_tokens("  42  "), Ok(vec![42]));
    assert_eq!(parse_usize_tokens("0 10 205"), Ok(vec![0, 10, 205]));
    assert_eq!(parse_usize_tokens("a1").unwrap_err(), Error::MalformedHierarchyStream);
}

#[test]
fn coolist_needs_triples() {
    assert_eq!(parse_coolist("0 1 2 3").unwrap_err(), Error::MalformedHierarchyStream);
    assert_eq!(parse_coolist("0 1 2"), Ok(vec![((0usize, 1usize), 2usize)]));
}

#[test]
fn database_names() {
    assert_eq!(Databases::Recipes.to_str(), "recipes");
    assert_eq!(Databases::RecipeAPI.to_str(), "recipe_api");
}

#[test]
fn rating_from_raw() {
    assert_eq!(Rating::new(1), Rating::One);
    assert_eq!(Rating::new(5), Rating::Five);
    assert_eq!(Rating::new(0), Rating::Zero);
    assert_eq!(Rating::new(-3), Rating::Zero);
    assert_eq!(Rating::new(17), Rating::Zero);
}

fn row(title: &str) -> NytcQueryable {
    NytcQueryable {
        id: 1,
        title: title.to_string(),
        author: Some("someone".to_string()),
        yield_: "4 servings".to_string(),
        time: None,
        description: None,
        featured: None,
        tags: vec!["weeknight".to_string()],
        ratings: 12,
        rating: 4,
        sub_components: Some(vec!["sauce".to_string()]),
        indices: Some(vec![3]),
        ingredients: vec!["tomato".to_string(), "basil".to_string()],
        quantities: vec!["2".to_string(), "".to_string()],
        steps: vec!["cook".to_string()],
        comments: None,
        comment_votes: None,
        url_id: "x1".to_string(),
    }
}

#[test]
fn record_zips_columns() {
    let n = Nytc::new(row("Tomato Soup"));
    assert_eq!(n.rating, Rating::Four);
    assert_eq!(
        n.ingredients.ingredients,
        vec![
            ("2".to_string(), "tomato".to_string()),
            ("".to_string(), "basil".to_string()),
        ]
    );
    assert_eq!(n.ingredients.sub_components, Some(vec![("sauce".to_string(), 3)]));
    assert_eq!(n.comments, None);
    let back = n.serialize();
    assert_eq!(back.rating, 4);
    assert_eq!(back.quantities, vec!["2".to_string(), "".to_string()]);
    assert_eq!(back.ingredients, vec!["tomato".to_string(), "basil".to_string()]);
    assert_eq!(back.sub_components, Some(vec!["sauce".to_string()]));
    assert_eq!(back.indices, Some(vec![3]));
}

#[test]
fn title_filter_ignores_case() {
    let recipes = vec![Nytc::new(row("Tomato Soup")), Nytc::new(row("Garlic Bread"))];
    let hits = filter_title(recipes, "toMATO");
    assert_eq!(hits.len(), 1);
    assert_eq!(hits[0].title, "Tomato Soup");
    let recipes2 = vec![Nytc::new(row("Tomato Soup"))];
    assert!(filter_title(recipes2, "pizza").is_empty());
}
