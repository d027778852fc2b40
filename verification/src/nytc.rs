//! The in-memory recipe record of the scraping pipeline and its
//! conversions from and to the storage row shapes: parallel column lists
//! are zipped into pair lists on the way in and unzipped on the way out.
use crate::models::{NytcInsertable, NytcQueryable};
use vstd::prelude::*;

verus! {

/// The ingredient section of a recipe: optional named sub-components
/// (name and starting index) and `(quantity, ingredient)` pairs; the
/// quantity may be an empty string.
#[derive(Debug)]
pub struct Ingredients {
    pub sub_components: Option<Vec<(String, i32)>>,
    pub ingredients: Vec<(String, String)>,
}

/// A star rating, clamped to the known values; anything unknown is zero.
#[derive(Debug, Copy, Clone, PartialEq, Eq, Structural)]
pub enum Rating {
    Zero,
    One,
    Two,
    Three,
    Four,
    Five,
}

impl Rating {
    /// The rating a raw integer stands for; out-of-range values mean no
    /// rating.
    pub fn new(rating: i32) -> (r: Self)
        ensures
            r == Self::spec_new(rating),
    {
        match rating {
            1 => Rating::One,
            2 => Rating::Two,
            3 => Rating::Three,
            4 => Rating::Four,
            5 => Rating::Five,
            _ => Rating::Zero,
        }
    }

    pub open spec fn spec_new(rating: i32) -> Rating {
        if rating == 1 {
            Rating::One
        } else if rating == 2 {
            Rating::Two
        } else if rating == 3 {
            Rating::Three
        } else if rating == 4 {
            Rating::Four
        } else if rating == 5 {
            Rating::Five
        } else {
            Rating::Zero
        }
    }

    /// The raw integer of a rating.
    pub fn as_i32(&self) -> (r: i32)
        ensures
            r == self.spec_i32(),
    {
        match self {
            Rating::Zero => 0,
            Rating::One => 1,
            Rating::Two => 2,
            Rating::Three => 3,
            Rating::Four => 4,
            Rating::Five => 5,
        }
    }

    pub open spec fn spec_i32(self) -> i32 {
        match self {
            Rating::Zero => 0,
            Rating::One => 1,
            Rating::Two => 2,
            Rating::Three => 3,
            Rating::Four => 4,
            Rating::Five => 5,
        }
    }
}

/// One recipe record of the scraping pipeline.
#[derive(Debug)]
pub struct Nytc {
    pub title: String,
    pub author: Option<String>,
    pub yield_: String,
    pub time: Option<String>,
    pub description: Option<String>,
    pub featured: Option<String>,
    pub tags: Vec<String>,
    pub ratings: i32,
    pub rating: Rating,
    pub ingredients: Ingredients,
    pub steps: Vec<String>,
    pub comments: Option<Vec<(String, i32)>>,
    pub url_id: String,
}

/// Zip two parallel lists into pairs; the shorter list bounds the result.
fn zip_lists<A, B>(a: Vec<A>, b: Vec<B>) -> (r: Vec<(A, B)>)
    ensures
        r@.len() == (if a@.len() <= b@.len() {
            a@.len()
        } else {
            b@.len()
        }),
        forall|i: int| 0 <= i < r@.len() ==> #[trigger] r@[i] == (a@[i], b@[i]),
{
    let ghost av = a@;
    let ghost bv = b@;
    let mut a = a;
    let mut b = b;
    let mut out: Vec<(A, B)> = Vec::new();
    while a.len() > 0 && b.len() > 0
        invariant
            out@.len() + a@.len() == av.len() || out@.len() + b@.len() == bv.len(),
            out@.len() <= av.len() && out@.len() <= bv.len(),
            out@.len() + a@.len() == av.len() && out@.len() + b@.len() == bv.len(),
            forall|i: int| 0 <= i < a@.len() ==> #[trigger] a@[i] == av[out@.len() + i],
            forall|i: int| 0 <= i < b@.len() ==> #[trigger] b@[i] == bv[out@.len() + i],
            forall|i: int| 0 <= i < out@.len() ==> #[trigger] out@[i] == (av[i], bv[i]),
        decreases a@.len(),
    {
        let x = a.remove(0);
        let y = b.remove(0);
        out.push((x, y));
    }
    out
}

/// Unzip a pair list into two parallel lists.
fn unzip_lists<A, B>(v: Vec<(A, B)>) -> (r: (Vec<A>, Vec<B>))
    ensures
        r.0@.len() == v@.len(),
        r.1@.len() == v@.len(),
        forall|i: int| 0 <= i < v@.len() ==> (#[trigger] v@[i]) == (r.0@[i], r.1@[i]),
{
    let ghost vv = v@;
    let mut v = v;
    let mut xs: Vec<A> = Vec::new();
    let mut ys: Vec<B> = Vec::new();
    while v.len() > 0
        invariant
            xs@.len() == ys@.len(),
            xs@.len() + v@.len() == vv.len(),
            forall|i: int| 0 <= i < v@.len() ==> #[trigger] v@[i] == vv[xs@.len() + i],
            forall|i: int| 0 <= i < xs@.len() ==> (#[trigger] vv[i]) == (xs@[i], ys@[i]),
        decreases v@.len(),
    {
        let (x, y) = v.remove(0);
        xs.push(x);
        ys.push(y);
    }
    (xs, ys)
}

impl Nytc {
    /// Assemble the pipeline record from a queried row: parallel columns
    /// are zipped into pairs; paired optional columns stay together only
    /// when both are present.
    pub fn new(recipe: NytcQueryable) -> (r: Self)
        ensures
            r.title == recipe.title,
            r.author == recipe.author,
            r.yield_ == recipe.yield_,
            r.time == recipe.time,
            r.description == recipe.description,
            r.featured == recipe.featured,
            r.tags == recipe.tags,
            r.ratings == recipe.ratings,
            r.rating == Rating::spec_new(recipe.rating),
            r.steps == recipe.steps,
            r.url_id == recipe.url_id,
            match (recipe.sub_components, recipe.indices) {
                (Some(sc), Some(ix)) => match r.ingredients.sub_components {
                    Some(z) => z@.len() == (if sc@.len() <= ix@.len() {
                        sc@.len()
                    } else {
                        ix@.len()
                    }) && forall|i: int| 0 <= i < z@.len() ==> #[trigger] z@[i] == (sc@[i], ix@[i]),
                    None => false,
                },
                _ => r.ingredients.sub_components is None,
            },
            r.ingredients.ingredients@.len() == (if recipe.quantities@.len()
                <= recipe.ingredients@.len() {
                recipe.quantities@.len()
            } else {
                recipe.ingredients@.len()
            }),
            forall|i: int|
                0 <= i < r.ingredients.ingredients@.len()
                    ==> #[trigger] r.ingredients.ingredients@[i] == (
                    recipe.quantities@[i],
                    recipe.ingredients@[i],
                ),
            match (recipe.comments, recipe.comment_votes) {
                (Some(cs), Some(cv)) => match r.comments {
                    Some(z) => z@.len() == (if cs@.len() <= cv@.len() {
                        cs@.len()
                    } else {
                        cv@.len()
                    }) && forall|i: int| 0 <= i < z@.len() ==> #[trigger] z@[i] == (cs@[i], cv@[i]),
                    None => false,
                },
                _ => r.comments is None,
            },
    {
        let NytcQueryable {
            id: _,
            title,
            author,
            yield_,
            time,
            description,
            featured,
            tags,
            ratings,
            rating,
            sub_components,
            indices,
            ingredients,
            quantities,
            steps,
            comments,
            comment_votes,
            url_id,
        } = recipe;
        let sub_components = match (sub_components, indices) {
            (Some(sc), Some(ix)) => Some(zip_lists(sc, ix)),
            _ => None,
        };
        let ingredients = Ingredients { ingredients: zip_lists(quantities, ingredients), sub_components };
        let comments = match (comments, comment_votes) {
            (Some(cs), Some(cv)) => Some(zip_lists(cs, cv)),
            _ => None,
        };
        Nytc {
            title,
            author,
            yield_,
            time,
            description,
            featured,
            tags,
            ratings,
            rating: Rating::new(rating),
            ingredients,
            steps,
            comments,
            url_id,
        }
    }

    /// Take the pipeline record apart into the column-per-list row shape
    /// the storage layer inserts.
    pub fn serialize(self) -> (r: NytcInsertable)
        ensures
            r.title == self.title,
            r.author == self.author,
            r.yield_ == self.yield_,
            r.time == self.time,
            r.description == self.description,
            r.featured == self.featured,
            r.tags == self.tags,
            r.ratings == self.ratings,
            r.rating == self.rating.spec_i32(),
            r.steps == self.steps,
            r.url_id == self.url_id,
            match self.ingredients.sub_components {
                Some(z) => match (r.sub_components, r.indices) {
                    (Some(sc), Some(ix)) => sc@.len() == z@.len() && ix@.len() == z@.len()
                        && forall|i: int|
                        0 <= i < z@.len() ==> (#[trigger] z@[i]) == (sc@[i], ix@[i]),
                    _ => false,
                },
                None => r.sub_components is None && r.indices is None,
            },
            r.quantities@.len() == self.ingredients.ingredients@.len(),
            r.ingredients@.len() == self.ingredients.ingredients@.len(),
            forall|i: int|
                0 <= i < self.ingredients.ingredients@.len()
                    ==> (#[trigger] self.ingredients.ingredients@[i]) == (
                    r.quantities@[i],
                    r.ingredients@[i],
                ),
            match self.comments {
                Some(z) => match (r.comments, r.comment_votes) {
                    (Some(cs), Some(cv)) => cs@.len() == z@.len() && cv@.len() == z@.len()
                        && forall|i: int|
                        0 <= i < z@.len() ==> (#[trigger] z@[i]) == (cs@[i], cv@[i]),
                    _ => false,
                },
                None => r.comments is None && r.comment_votes is None,
            },
    {
        let Nytc {
            title,
            author,
            yield_,
            time,
            description,
            featured,
            tags,
            ratings,
            rating,
            ingredients,
            steps,
            comments,
            url_id,
        } = self;
        let (sub_components, indices) = match ingredients.sub_components {
            None => (None, None),
            Some(components) => {
                let (a, b) = unzip_lists(components);
                (Some(a), Some(b))
            },
        };
        let (quantities, ing_names) = unzip_lists(ingredients.ingredients);
        let (comments, votes) = match comments {
            None => (None, None),
            Some(cs) => {
                let (a, b) = unzip_lists(cs);
                (Some(a), Some(b))
            },
        };
        NytcInsertable {
            title,
            author,
            yield_,
            time,
            description,
            featured,
            tags,
            ratings,
            rating: rating.as_i32(),
            sub_components,
            indices,
            ingredients: ing_names,
            quantities,
            steps,
            comments,
            comment_votes: votes,
            url_id,
        }
    }
}

} // verus!
