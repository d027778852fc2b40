//! Simple ingredient co-occurrence relation over a recipe corpus: a
//! symmetric sparse count matrix over ingredient-id pairs, together with
//! the interning tables that assign the ids, and the flat text artifacts
//! (edge list and label file) handed to external tools.
use crate::table::{
    build_ri_points, flat_names, ingredient_map, ingredient_map_post, name_views,
    ri_points, IngredientCooccurrence, RecipeIngredient,
};
use crate::text::{coolist_text, joined_lines, lines_string};
use vstd::prelude::*;

verus! {

/// What the relation builders promise, given the (internal) deduplicated
/// per-recipe id lists `rvs`: the lookup list pairs each distinct name
/// with its id and occurrence count, and the count-matrix facts of
/// [`ingredient_map_post`] hold.
pub open spec fn relation_post(
    nv: Seq<Seq<Seq<char>>>,
    map: Seq<(String, (usize, usize))>,
    names: Seq<String>,
    points: Seq<(usize, usize, usize)>,
    rvs: Seq<Vec<usize>>,
) -> bool {
    &&& ingredient_map_post(
        nv,
        map.map_values(|e: (String, (usize, usize))| (e.0, e.1.0)),
        names,
        map.map_values(|e: (String, (usize, usize))| e.1.1),
        points,
        rvs,
    )
    &&& forall|k: int| 0 <= k < map.len() ==> (#[trigger] map[k]).1.0 == k
}

/// The names of a queried corpus as character sequences, row ids
/// dropped.
pub open spec fn corpus_names(recipes: Seq<(i32, Vec<String>)>) -> Seq<Seq<Seq<char>>> {
    recipes.map_values(|e: (i32, Vec<String>)| e.1@.map_values(|t: String| t@))
}

/// The simple co-occurrence relation: name lookup (id and occurrence
/// count per name), the id-to-name table, the symmetric count matrix
/// stored as its canonical lower triangle, and the corpus size.
pub struct Relation {
    ingredient_map: Vec<(String, (usize, usize))>,
    ingredients_list: Vec<String>,
    ingredient_ingredient: IngredientCooccurrence,
    recipe_count: usize,
}

impl Relation {
    pub closed spec fn spec_map(self) -> Seq<(String, (usize, usize))> {
        self.ingredient_map@
    }

    pub closed spec fn spec_list(self) -> Seq<String> {
        self.ingredients_list@
    }

    pub closed spec fn spec_points(self) -> Seq<(usize, usize, usize)> {
        self.ingredient_ingredient.points@
    }

    pub closed spec fn spec_recipe_count(self) -> usize {
        self.recipe_count
    }

    /// Name-to-(id, occurrence count) lookup list, in id order.
    pub fn get_ingredient_map(&self) -> (r: &Vec<(String, (usize, usize))>)
        ensures
            r@ == self.spec_map(),
    {
        &self.ingredient_map
    }

    /// Ingredient names in id order.
    pub fn get_ingredient_list(&self) -> (r: &Vec<String>)
        ensures
            r@ == self.spec_list(),
    {
        &self.ingredients_list
    }

    /// The symmetric co-occurrence count matrix (canonical lower
    /// triangle).
    pub fn get_matrix(&self) -> (r: &IngredientCooccurrence)
        ensures
            r.points@ == self.spec_points(),
    {
        &self.ingredient_ingredient
    }

    /// Number of recipes the relation was built from.
    pub fn get_recipe_count(&self) -> (r: usize)
        ensures
            r == self.spec_recipe_count(),
    {
        self.recipe_count
    }

    /// Take the relation apart.
    pub fn into_parts(self) -> (r: (
        Vec<(String, (usize, usize))>,
        Vec<String>,
        IngredientCooccurrence,
        usize,
    ))
        ensures
            r.0@ == self.spec_map(),
            r.1@ == self.spec_list(),
            r.2.points@ == self.spec_points(),
            r.3 == self.spec_recipe_count(),
    {
        (
            self.ingredient_map,
            self.ingredients_list,
            self.ingredient_ingredient,
            self.recipe_count,
        )
    }

    /// The coolist text of the co-occurrence matrix: one `i j count` line
    /// per stored pair with `i < j` (the smaller id first, as the edge
    /// list format demands), in stored order; no self-loop is ever
    /// stored, so none is emitted.
    pub fn coolist_string(&self) -> (r: String)
        ensures
            r@ == coolist_text(
                self.spec_points().map_values(|p: (usize, usize, usize)| ((p.1, p.0), p.2)),
            ),
    {
        self.ingredient_ingredient.make_coolist()
    }

    /// The ingredient label file: the names in id order, one per line.
    pub fn labels_string(&self) -> (r: String)
        ensures
            r@ == joined_lines(self.spec_list().map_values(|t: String| t@)),
    {
        lines_string(&self.ingredients_list)
    }
}

/// Clone a list of names.
fn clone_names(v: &Vec<String>) -> (r: Vec<String>)
    ensures
        r@ == v@,
{
    let n = v.len();
    let mut out: Vec<String> = Vec::new();
    let mut i: usize = 0;
    while i < n
        invariant
            i <= n,
            n == v@.len(),
            out@ == v@.take(i as int),
        decreases n - i,
    {
        out.push(v[i].clone());
        proof {
            assert(out@ =~= v@.take(i as int + 1));
        }
        i = i + 1;
    }
    proof {
        assert(v@.take(n as int) =~= v@);
    }
    out
}

/// Drop the database row ids of a queried corpus, keeping the name lists.
fn name_lists(recipes: &Vec<(i32, Vec<String>)>) -> (r: Vec<Vec<String>>)
    ensures
        name_views(r@) == corpus_names(recipes@),
{
    let n = recipes.len();
    let mut out: Vec<Vec<String>> = Vec::new();
    let mut i: usize = 0;
    while i < n
        invariant
            i <= n,
            n == recipes@.len(),
            out@.len() == i,
            forall|k: int|
                0 <= k < i ==> (#[trigger] out@[k])@.map_values(|t: String| t@)
                    == recipes@[k].1@.map_values(|t: String| t@),
        decreases n - i,
    {
        out.push(clone_names(&recipes[i].1));
        i = i + 1;
    }
    proof {
        assert(name_views(out@) =~= corpus_names(recipes@));
    }
    out
}

/// Combine the id lookup with the occurrence counts into the
/// name-to-(id, count) map.
fn combine_map(map: Vec<(String, usize)>, counts: &Vec<usize>) -> (r: Vec<(String, (usize, usize))>)
    requires
        map@.len() == counts@.len(),
    ensures
        r@.len() == map@.len(),
        forall|k: int|
            0 <= k < r@.len() ==> (#[trigger] r@[k]).0 == map@[k].0 && r@[k].1.0 == map@[k].1
                && r@[k].1.1 == counts@[k],
{
    let n = counts.len();
    let mut out: Vec<(String, (usize, usize))> = Vec::new();
    let mut rest = map;
    let mut i: usize = 0;
    while i < n
        invariant
            i <= n,
            n == counts@.len(),
            n == map@.len(),
            rest@.len() == n - i,
            forall|k: int| 0 <= k < n - i ==> #[trigger] rest@[k] == map@[k + i],
            out@.len() == i,
            forall|k: int|
                0 <= k < i ==> (#[trigger] out@[k]).0 == map@[k].0 && out@[k].1.0 == map@[k].1
                    && out@[k].1.1 == counts@[k],
        decreases n - i,
    {
        let (nm, id) = rest.remove(0);
        out.push((nm, (id, counts[i])));
        i = i + 1;
    }
    out
}

/// Intern a queried corpus and build its bipartite recipe-ingredient
/// incidence points, name map and name table. The row ids of the query
/// are ignored; recipes are numbered by position.
pub fn recipe_ingredient(recipes: &Vec<(i32, Vec<String>)>) -> (r: (
    RecipeIngredient,
    Vec<(String, (usize, usize))>,
    Vec<String>,
))
    requires
        flat_names(corpus_names(recipes@)).len() <= usize::MAX,
    ensures
        exists|rvs: Seq<Vec<usize>>, points: Seq<(usize, usize, usize)>|
            {
                &&& #[trigger] relation_post(corpus_names(recipes@), r.1@, r.2@, points, rvs)
                &&& r.0.points@ == ri_points(crate::expanded::views(rvs))
            },
{
    let lists = name_lists(recipes);
    let (map, vec, counts, cooc, rvs) = ingredient_map(&lists);
    let ghost m0 = map@;
    let ghost c0 = counts@;
    let ri = build_ri_points(&rvs);
    let full = combine_map(map, &counts);
    let rr = (ri, full, vec);
    proof {
        assert(rr.1@.map_values(|e: (String, (usize, usize))| (e.0, e.1.0)) =~= m0);
        assert(rr.1@.map_values(|e: (String, (usize, usize))| e.1.1) =~= c0);
        assert(relation_post(corpus_names(recipes@), rr.1@, rr.2@, cooc.points@, rvs@));
        assert(rr.0.points@ == ri_points(crate::expanded::views(rvs@)));
    }
    rr
}

/// Build the full co-occurrence relation of a queried corpus: intern the
/// names, count for every canonical ingredient-id pair the recipes
/// sharing it, and keep the corpus size. An empty corpus yields an empty
/// relation, not a failure.
pub fn make_relation(recipes: &Vec<(i32, Vec<String>)>) -> (r: Relation)
    requires
        flat_names(corpus_names(recipes@)).len() <= usize::MAX,
    ensures
        r.spec_recipe_count() == recipes@.len(),
        exists|rvs: Seq<Vec<usize>>|
            #[trigger] relation_post(
                corpus_names(recipes@),
                r.spec_map(),
                r.spec_list(),
                r.spec_points(),
                rvs,
            ),
{
    let recipe_count = recipes.len();
    let lists = name_lists(recipes);
    let (map, vec, counts, cooc, rvs) = ingredient_map(&lists);
    let ghost m0 = map@;
    let ghost c0 = counts@;
    let full = combine_map(map, &counts);
    let rel = Relation {
        ingredient_map: full,
        ingredients_list: vec,
        ingredient_ingredient: cooc,
        recipe_count,
    };
    proof {
        assert(rel.spec_map().map_values(|e: (String, (usize, usize))| (e.0, e.1.0)) =~= m0);
        assert(rel.spec_map().map_values(|e: (String, (usize, usize))| e.1.1) =~= c0);
        assert(relation_post(
            corpus_names(recipes@),
            rel.spec_map(),
            rel.spec_list(),
            rel.spec_points(),
            rvs@,
        ));
    }
    rel
}

} // verus!
