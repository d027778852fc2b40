//! Expanded relation graph over a recipe corpus.
//!
//! The star expansion creates one hub vertex per ingredient, one hub vertex
//! per recipe, and one instance vertex per (ingredient, recipe) occurrence;
//! each instance is wired to both of its hubs with weight-one edges. The
//! clique expansion instead creates only instance vertices and connects them
//! pairwise within a recipe and across occurrences of the same ingredient,
//! raising the weight of pairs that join two distinct target ingredients.
//! (Of the known clique-injection designs this crate implements the pairwise
//! weight-raising variant, not a synthetic target-hub vertex.)
use crate::error::Error;
use crate::matrix::row_major_sorted;
use crate::text::{coolist_line, coolist_text, push_decimal};
use vstd::multiset::Multiset;
use vstd::pervasive::VecAdditionalExecFns;
use vstd::prelude::*;
use vstd::string::StringExecFns;

verus! {

/// A vertex of the expanded relation graph.
#[derive(Clone, Copy, Debug, PartialEq, Eq)]
pub enum ExpandedVertex {
    /// Internal hub for one distinct ingredient; in a star expansion its
    /// vertex index equals the ingredient id.
    IngredientHub(usize),
    /// Internal hub for one recipe.
    RecipeHub(usize),
    /// One (ingredient id, recipe id) occurrence.
    Vertex((usize, usize)),
}

impl ExpandedVertex {
    /// The ingredient this vertex stands for, if any.
    pub open spec fn spec_ingredient_id(self) -> Option<usize> {
        match self {
            ExpandedVertex::IngredientHub(id) => Some(id),
            ExpandedVertex::Vertex((id, _)) => Some(id),
            ExpandedVertex::RecipeHub(_) => None,
        }
    }

    /// The recipe this vertex stands for, if any.
    pub open spec fn spec_recipe_id(self) -> Option<usize> {
        match self {
            ExpandedVertex::IngredientHub(_) => None,
            ExpandedVertex::Vertex((_, id)) => Some(id),
            ExpandedVertex::RecipeHub(id) => Some(id),
        }
    }

    pub fn get_ingredient_id(&self) -> (r: Option<usize>)
        ensures
            r == self.spec_ingredient_id(),
    {
        match self {
            ExpandedVertex::IngredientHub(id) => Some(*id),
            ExpandedVertex::Vertex((id, _)) => Some(*id),
            ExpandedVertex::RecipeHub(_) => None,
        }
    }

    pub fn get_recipe_id(&self) -> (r: Option<usize>)
        ensures
            r == self.spec_recipe_id(),
    {
        match self {
            ExpandedVertex::IngredientHub(_) => None,
            ExpandedVertex::Vertex((_, id)) => Some(*id),
            ExpandedVertex::RecipeHub(id) => Some(*id),
        }
    }
}

/// Strict order on canonical vertex pairs: first coordinate, then second.
pub open spec fn key_lt(a: (usize, usize), b: (usize, usize)) -> bool {
    a.0 < b.0 || (a.0 == b.0 && a.1 < b.1)
}

/// The finite weight map described by an association sequence.
pub open spec fn edge_map_of(s: Seq<((usize, usize), usize)>) -> Map<(usize, usize), usize> {
    Map::new(
        |k: (usize, usize)| exists|x: int| 0 <= x < s.len() && (#[trigger] s[x]).0 == k,
        |k: (usize, usize)|
            {
                let x = choose|x: int| 0 <= x < s.len() && (#[trigger] s[x]).0 == k;
                s[x].1
            },
    )
}

/// Ordered edge map: unordered vertex pairs stored canonically as
/// `(min, max)` with an integer weight, kept sorted by key so that
/// iteration and serialization are deterministic and a repeated
/// insertion lands on the same entry.
#[derive(Debug)]
pub struct EdgeMap {
    entries: Vec<((usize, usize), usize)>,
}

impl View for EdgeMap {
    type V = Seq<((usize, usize), usize)>;

    closed spec fn view(&self) -> Seq<((usize, usize), usize)> {
        self.entries@
    }
}

/// Well-formed edge list: keys strictly increasing (hence unique), every
/// key a canonical pair `i < j`, every weight at least one.
pub open spec fn edge_seq_wf(s: Seq<((usize, usize), usize)>) -> bool {
    &&& forall|x: int, y: int|
        0 <= x < y < s.len() ==> key_lt((#[trigger] s[x]).0, (#[trigger] s[y]).0)
    &&& forall|x: int|
        0 <= x < s.len() ==> (#[trigger] s[x]).0.0 < s[x].0.1 && s[x].1 >= 1
}

impl EdgeMap {
    /// Well-formed: see [`edge_seq_wf`].
    pub open spec fn wf(self) -> bool {
        edge_seq_wf(self@)
    }

    /// The weight map this edge list denotes.
    pub open spec fn m(self) -> Map<(usize, usize), usize> {
        edge_map_of(self@)
    }

    pub fn new() -> (r: EdgeMap)
        ensures
            r.wf(),
            r@.len() == 0,
            r.m() =~= Map::<(usize, usize), usize>::empty(),
    {
        EdgeMap { entries: Vec::new() }
    }

    /// Index of the first entry whose key is not below `key`.
    fn position(&self, key: (usize, usize)) -> (r: usize)
        requires
            self.wf(),
        ensures
            r <= self@.len(),
            forall|x: int| 0 <= x < r ==> key_lt((#[trigger] self@[x]).0, key),
            forall|x: int| r <= x < self@.len() ==> !key_lt((#[trigger] self@[x]).0, key),
    {
        let n = self.entries.len();
        let mut p: usize = 0;
        while p < n
            invariant
                p <= n,
                n == self@.len(),
                self.wf(),
                forall|x: int| 0 <= x < p ==> key_lt((#[trigger] self@[x]).0, key),
            decreases n - p,
        {
            let k = self.entries[p].0;
            if !(k.0 < key.0 || (k.0 == key.0 && k.1 < key.1)) {
                assert(forall|x: int|
                    p <= x < self@.len() ==> !key_lt((#[trigger] self@[x]).0, key));
                return p;
            }
            p = p + 1;
        }
        p
    }

    /// With unique keys, the denoted map takes any present key to the weight
    /// stored beside it.
    proof fn lemma_value_at(s: Seq<((usize, usize), usize)>, x: int)
        requires
            forall|a: int, b: int|
                0 <= a < b < s.len() ==> key_lt((#[trigger] s[a]).0, (#[trigger] s[b]).0),
            0 <= x < s.len(),
        ensures
            edge_map_of(s).dom().contains(s[x].0),
            edge_map_of(s)[s[x].0] == s[x].1,
    {
        let k = s[x].0;
        let w = choose|y: int| 0 <= y < s.len() && (#[trigger] s[y]).0 == k;
        if w != x {
            if w < x {
                assert(key_lt(s[w].0, s[x].0));
            } else {
                assert(key_lt(s[x].0, s[w].0));
            }
            assert(false);
        }
    }

    /// Insert the edge or overwrite its weight.
    pub fn set(&mut self, i: usize, j: usize, w: usize)
        requires
            old(self).wf(),
            i < j,
            w >= 1,
        ensures
            final(self).wf(),
            final(self).m() =~= old(self).m().insert((i, j), w),
            final(self)@.len() == old(self)@.len() + (if old(self).m().dom().contains((i, j)) {
                0int
            } else {
                1int
            }),
    {
        let key = (i, j);
        let p = self.position(key);
        let n = self.entries.len();
        if p < n && self.entries[p].0.0 == i && self.entries[p].0.1 == j {
            proof {
                Self::lemma_value_at(self@, p as int);
            }
            self.entries.set(p, (key, w));
            proof {
                let sold = old(self)@;
                let snew = self@;
                let mgoal = old(self).m().insert(key, w);
                assert(snew[p as int].0 == key);
                assert(forall|x: int|
                    0 <= x < snew.len() ==> (#[trigger] snew[x]).0 == sold[x].0);
                assert forall|k: (usize, usize)|
                    edge_map_of(snew).dom().contains(k) == mgoal.dom().contains(k) by {
                    if edge_map_of(snew).dom().contains(k) {
                        let x = choose|x: int|
                            0 <= x < snew.len() && (#[trigger] snew[x]).0 == k;
                        assert(sold[x].0 == k);
                    }
                    if mgoal.dom().contains(k) && k != key {
                        let x = choose|x: int|
                            0 <= x < sold.len() && (#[trigger] sold[x]).0 == k;
                        assert(snew[x].0 == k);
                    }
                }
                assert forall|k: (usize, usize)|
                    edge_map_of(snew).dom().contains(k) implies edge_map_of(snew)[k]
                    == mgoal[k] by {
                    if k == key {
                        Self::lemma_value_at(snew, p as int);
                    } else {
                        let x = choose|x: int|
                            0 <= x < snew.len() && (#[trigger] snew[x]).0 == k;
                        assert(x != p as int);
                        Self::lemma_value_at(snew, x);
                        assert(sold[x].0 == k);
                        Self::lemma_value_at(sold, x);
                    }
                }
            }
        } else {
            proof {
                if old(self).m().dom().contains(key) {
                    let x = choose|x: int|
                        0 <= x < old(self)@.len() && (#[trigger] old(self)@[x]).0 == key;
                    assert(!key_lt(old(self)@[x].0, key) && !key_lt(key, old(self)@[x].0));
                    assert(false);
                }
            }
            self.entries.insert(p, (key, w));
            proof {
                let sold = old(self)@;
                let snew = self@;
                let mgoal = old(self).m().insert(key, w);
                assert(forall|x: int| 0 <= x < p ==> #[trigger] snew[x] == sold[x]);
                assert(snew[p as int] == (key, w));
                assert(forall|x: int|
                    p < x < snew.len() ==> #[trigger] snew[x] == sold[x - 1]);
                assert forall|a: int, b: int| 0 <= a < b < snew.len() implies key_lt(
                    (#[trigger] snew[a]).0,
                    (#[trigger] snew[b]).0,
                ) by {
                    if a == p as int {
                        assert(snew[b] == sold[b - 1]);
                        assert(!key_lt(sold[b - 1].0, key));
                        assert(sold[b - 1].0 != key);
                    } else if b == p as int {
                        assert(snew[a] == sold[a]);
                        assert(key_lt(sold[a].0, key));
                    }
                }
                assert forall|k: (usize, usize)|
                    edge_map_of(snew).dom().contains(k) == mgoal.dom().contains(k) by {
                    if edge_map_of(snew).dom().contains(k) {
                        let x = choose|x: int|
                            0 <= x < snew.len() && (#[trigger] snew[x]).0 == k;
                        if x < p as int {
                            assert(sold[x].0 == k);
                        } else if x > p as int {
                            assert(sold[x - 1].0 == k);
                        }
                    }
                    if mgoal.dom().contains(k) {
                        if k == key {
                            assert(snew[p as int].0 == k);
                        } else {
                            let x = choose|x: int|
                                0 <= x < sold.len() && (#[trigger] sold[x]).0 == k;
                            if x < p as int {
                                assert(snew[x].0 == k);
                            } else {
                                assert(snew[x + 1].0 == k);
                            }
                        }
                    }
                }
                assert forall|k: (usize, usize)|
                    edge_map_of(snew).dom().contains(k) implies edge_map_of(snew)[k]
                    == mgoal[k] by {
                    if k == key {
                        Self::lemma_value_at(snew, p as int);
                    } else {
                        let x = choose|x: int|
                            0 <= x < snew.len() && (#[trigger] snew[x]).0 == k;
                        assert(x != p as int);
                        Self::lemma_value_at(snew, x);
                        if x < p as int {
                            assert(sold[x].0 == k);
                            Self::lemma_value_at(sold, x);
                        } else {
                            assert(sold[x - 1].0 == k);
                            Self::lemma_value_at(sold, x - 1);
                        }
                    }
                }
            }
        }
    }

    /// Number of stored edges.
    pub fn len(&self) -> (r: usize)
        ensures
            r == self@.len(),
    {
        self.entries.len()
    }

    /// The stored entries, in increasing key order.
    pub fn entries(&self) -> (r: &Vec<((usize, usize), usize)>)
        ensures
            r@ == self@,
    {
        &self.entries
    }
}


// ---- star expansion: specification model ----

/// The recipe corpus as a sequence of ingredient-id sequences.
pub open spec fn views(rs: Seq<Vec<usize>>) -> Seq<Seq<usize>> {
    rs.map_values(|v: Vec<usize>| v@)
}

/// Total number of ingredient occurrences in the first `t` recipes.
pub open spec fn flat_count_upto(rv: Seq<Seq<usize>>, t: int) -> nat
    decreases t,
{
    if t <= 0 {
        0
    } else {
        flat_count_upto(rv, t - 1) + rv[t - 1].len()
    }
}

/// Total number of ingredient occurrences in the corpus.
pub open spec fn flat_count(rv: Seq<Seq<usize>>) -> nat {
    flat_count_upto(rv, rv.len() as int)
}

/// Every ingredient id lies below the declared ingredient count.
pub open spec fn ids_ok(rv: Seq<Seq<usize>>, k: int) -> bool {
    forall|t: int, p: int|
        0 <= t < rv.len() && 0 <= p < rv[t].len() ==> (#[trigger] rv[t][p]) < k
}

/// Vertex index of the hub of recipe `t` in a star expansion over `k`
/// ingredients: the ingredient hubs come first, then the recipe hubs.
pub open spec fn star_hub(k: int, t: int) -> int {
    k + t
}

/// Vertex index of occurrence `p` of recipe `t`: instances follow all
/// hubs, grouped by recipe.
pub open spec fn star_inst(rv: Seq<Seq<usize>>, k: int, t: int, p: int) -> int {
    k + rv.len() + flat_count_upto(rv, t) + p
}

/// Number of vertices of the star expansion: one hub per ingredient, one
/// hub per recipe, one instance per occurrence.
pub open spec fn star_vertex_count(rv: Seq<Seq<usize>>, k: int) -> int {
    k + rv.len() + flat_count(rv)
}

/// Whether `e` joins instance `p` of recipe `t` to one of its two hubs.
pub open spec fn star_edge_at(rv: Seq<Seq<usize>>, k: int, t: int, p: int, e: (usize, usize)) -> bool {
    let inst = star_inst(rv, k, t, p);
    (e.0 == rv[t][p] && e.1 as int == inst) || (e.0 as int == star_hub(k, t) && e.1 as int
        == inst)
}

/// The canonical pairs connected after the first `tlim` recipes plus
/// `plim` occurrences of recipe `tlim` have been expanded: each instance
/// is joined to its ingredient hub and to its recipe hub.
pub open spec fn is_star_edge_upto(
    rv: Seq<Seq<usize>>,
    k: int,
    tlim: int,
    plim: int,
    e: (usize, usize),
) -> bool {
    exists|t: int, p: int|
        #![trigger rv[t][p]]
        {
            &&& 0 <= t < rv.len()
            &&& 0 <= p < rv[t].len()
            &&& t <= tlim
            &&& (t < tlim || p < plim)
            &&& star_edge_at(rv, k, t, p, e)
        }
}

/// The canonical pairs connected by the full star expansion.
pub open spec fn is_star_edge(rv: Seq<Seq<usize>>, k: int, e: (usize, usize)) -> bool {
    is_star_edge_upto(rv, k, rv.len() as int, 0, e)
}

/// The edge weights of the star expansion: every star edge has weight one.
pub open spec fn star_edge_map(rv: Seq<Seq<usize>>, k: int) -> Map<(usize, usize), usize> {
    Map::new(|e: (usize, usize)| is_star_edge(rv, k, e), |e: (usize, usize)| 1usize)
}

proof fn lemma_flat_count_mono(rv: Seq<Seq<usize>>, a: int, b: int)
    requires
        a <= b,
    ensures
        flat_count_upto(rv, a) <= flat_count_upto(rv, b),
    decreases b - a,
{
    if a < b {
        lemma_flat_count_mono(rv, a, b - 1);
    }
}

proof fn lemma_star_edge_intro(
    rv: Seq<Seq<usize>>,
    k: int,
    tlim: int,
    plim: int,
    t: int,
    p: int,
    e: (usize, usize),
)
    requires
        0 <= t < rv.len(),
        0 <= p < rv[t].len(),
        t <= tlim,
        t < tlim || p < plim,
        star_edge_at(rv, k, t, p, e),
    ensures
        is_star_edge_upto(rv, k, tlim, plim, e),
{
    assert(0 <= t < rv.len() && 0 <= p < rv[t].len() && t <= tlim && (t < tlim || p < plim)
        && star_edge_at(rv, k, t, p, e) && rv[t][p] == rv[t][p]);
}

proof fn lemma_star_edge_elim(
    rv: Seq<Seq<usize>>,
    k: int,
    tlim: int,
    plim: int,
    e: (usize, usize),
) -> (w: (int, int))
    requires
        is_star_edge_upto(rv, k, tlim, plim, e),
    ensures
        0 <= w.0 < rv.len(),
        0 <= w.1 < rv[w.0].len(),
        w.0 <= tlim,
        w.0 < tlim || w.1 < plim,
        star_edge_at(rv, k, w.0, w.1, e),
{
    let (t, p) = choose|t: int, p: int|
        #![trigger rv[t][p]]
        {
            &&& 0 <= t < rv.len()
            &&& 0 <= p < rv[t].len()
            &&& t <= tlim
            &&& (t < tlim || p < plim)
            &&& star_edge_at(rv, k, t, p, e)
        };
    (t, p)
}

// ---- the relation ----

/// The expanded relation graph: an index-stable vertex arena and an
/// ordered weighted edge map over canonical vertex pairs.
#[derive(Debug)]
pub struct ExpandedIngredientRelation {
    vertices: Vec<ExpandedVertex>,
    edges: EdgeMap,
}

impl ExpandedIngredientRelation {
    /// The vertex arena, indexed by vertex id.
    pub closed spec fn spec_vertices(self) -> Seq<ExpandedVertex> {
        self.vertices@
    }

    /// The stored edge entries, in increasing canonical-key order.
    pub closed spec fn edge_entries(self) -> Seq<((usize, usize), usize)> {
        self.edges@
    }

    /// The weight map the stored edges denote.
    pub open spec fn edge_weights(self) -> Map<(usize, usize), usize> {
        edge_map_of(self.edge_entries())
    }

    /// Well-formed: the edge list is ordered and canonical and every edge
    /// endpoint is a vertex of the arena.
    pub open spec fn wf(self) -> bool {
        &&& edge_seq_wf(self.edge_entries())
        &&& forall|x: int|
            0 <= x < self.edge_entries().len() ==> (#[trigger] self.edge_entries()[x]).0.1
                < self.spec_vertices().len()
    }

    /// Star expansion of a recipe corpus over `num_ingredients` ingredient
    /// ids: one ingredient hub per id (vertex index equal to the id),
    /// then one hub per recipe, then per recipe one instance vertex per
    /// occurrence, each instance joined by weight-one edges to its
    /// ingredient hub and to its recipe hub. Fails with
    /// `InvalidIngredientId` exactly when some recipe names an id at or
    /// above `num_ingredients`.
    pub fn build_stars(recipes: Vec<Vec<usize>>, num_ingredients: usize) -> (r: Result<
        ExpandedIngredientRelation,
        Error,
    >)
        requires
            star_vertex_count(views(recipes@), num_ingredients as int) <= usize::MAX,
        ensures
            match r {
                Ok(rel) => {
                    let rv = views(recipes@);
                    let k = num_ingredients as int;
                    &&& ids_ok(rv, k)
                    &&& rel.wf()
                    &&& rel.spec_vertices().len() == star_vertex_count(rv, k)
                    &&& forall|i: int|
                        0 <= i < k ==> rel.spec_vertices()[i] == ExpandedVertex::IngredientHub(
                            i as usize,
                        )
                    &&& forall|t: int|
                        0 <= t < rv.len() ==> rel.spec_vertices()[star_hub(k, t)]
                            == ExpandedVertex::RecipeHub(t as usize)
                    &&& forall|t: int, p: int|
                        0 <= t < rv.len() && 0 <= p < rv[t].len()
                            ==> rel.spec_vertices()[star_inst(rv, k, t, p)]
                            == ExpandedVertex::Vertex(((#[trigger] rv[t][p]), t as usize))
                    &&& rel.edge_weights() =~= star_edge_map(rv, k)
                    &&& rel.edge_entries().len() == 2 * flat_count(rv)
                },
                Err(e) => {
                    &&& e == Error::InvalidIngredientId
                    &&& !ids_ok(views(recipes@), num_ingredients as int)
                },
            },
    {
        let ghost rv = views(recipes@);
        let k = num_ingredients;
        let m = recipes.len();

        // Reject out-of-range ingredient ids up front.
        let mut t: usize = 0;
        while t < m
            invariant
                t <= m,
                k == num_ingredients,
                m == recipes@.len(),
                rv == views(recipes@),
                forall|t2: int, p2: int|
                    0 <= t2 < t && 0 <= p2 < rv[t2].len() ==> (#[trigger] rv[t2][p2]) < k,
            decreases m - t,
        {
            let rl = recipes[t].len();
            let mut p: usize = 0;
            while p < rl
                invariant
                    p <= rl,
                    t < m,
                    k == num_ingredients,
                    m == recipes@.len(),
                    rl == recipes@[t as int]@.len(),
                    rv == views(recipes@),
                    forall|t2: int, p2: int|
                        0 <= t2 < t && 0 <= p2 < rv[t2].len() ==> (#[trigger] rv[t2][p2]) < k,
                    forall|p2: int| 0 <= p2 < p ==> (#[trigger] rv[t as int][p2]) < k,
                decreases rl - p,
            {
                if recipes[t][p] >= k {
                    assert(rv[t as int][p as int] >= k);
                    return Err(Error::InvalidIngredientId);
                }
                p = p + 1;
            }
            t = t + 1;
        }
        assert(ids_ok(rv, k as int));

        let mut vertices: Vec<ExpandedVertex> = Vec::new();
        let mut i: usize = 0;
        while i < k
            invariant
                i <= k,
                k == num_ingredients,
                vertices@.len() == i,
                forall|x: int|
                    0 <= x < i ==> vertices@[x] == ExpandedVertex::IngredientHub(x as usize),
            decreases k - i,
        {
            vertices.push(ExpandedVertex::IngredientHub(i));
            i = i + 1;
        }
        let mut t: usize = 0;
        while t < m
            invariant
                t <= m,
                k == num_ingredients,
                m == recipes@.len(),
                rv == views(recipes@),
                star_vertex_count(rv, k as int) <= usize::MAX,
                vertices@.len() == k + t,
                forall|x: int|
                    0 <= x < k ==> vertices@[x] == ExpandedVertex::IngredientHub(x as usize),
                forall|t2: int|
                    0 <= t2 < t ==> vertices@[star_hub(k as int, t2)]
                        == ExpandedVertex::RecipeHub(t2 as usize),
            decreases m - t,
        {
            proof {
                lemma_flat_count_mono(rv, 0, rv.len() as int);
            }
            vertices.push(ExpandedVertex::RecipeHub(t));
            t = t + 1;
        }

        let mut edges = EdgeMap::new();
        let mut counter: usize = vertices.len();
        assert(counter == k + m);
        let mut t: usize = 0;
        while t < m
            invariant
                t <= m,
                k == num_ingredients,
                m == recipes@.len(),
                rv == views(recipes@),
                ids_ok(rv, k as int),
                star_vertex_count(rv, k as int) <= usize::MAX,
                counter as int == star_inst(rv, k as int, t as int, 0),
                vertices@.len() == counter,
                forall|x: int|
                    0 <= x < k ==> vertices@[x] == ExpandedVertex::IngredientHub(x as usize),
                forall|t2: int|
                    0 <= t2 < m ==> vertices@[star_hub(k as int, t2)]
                        == ExpandedVertex::RecipeHub(t2 as usize),
                forall|t2: int, p2: int|
                    0 <= t2 < t && 0 <= p2 < rv[t2].len()
                        ==> vertices@[star_inst(rv, k as int, t2, p2)]
                        == ExpandedVertex::Vertex(((#[trigger] rv[t2][p2]), t2 as usize)),
                edges.wf(),
                edges.m() =~= Map::new(
                    |e: (usize, usize)| is_star_edge_upto(rv, k as int, t as int, 0, e),
                    |e: (usize, usize)| 1usize,
                ),
                edges@.len() == 2 * flat_count_upto(rv, t as int),
                forall|e: (usize, usize)| #[trigger] edges.m().dom().contains(e) ==> e.1 < counter,
            decreases m - t,
        {
            let recipe_index = k + t;
            let rl = recipes[t].len();
            let mut p: usize = 0;
            while p < rl
                invariant
                    p <= rl,
                    t < m,
                    k == num_ingredients,
                    m == recipes@.len(),
                    rl == rv[t as int].len(),
                    rv == views(recipes@),
                    ids_ok(rv, k as int),
                    star_vertex_count(rv, k as int) <= usize::MAX,
                    recipe_index == k + t,
                    counter as int == star_inst(rv, k as int, t as int, p as int),
                    vertices@.len() == counter,
                    forall|x: int|
                        0 <= x < k ==> vertices@[x] == ExpandedVertex::IngredientHub(x as usize),
                    forall|t2: int|
                        0 <= t2 < m ==> vertices@[star_hub(k as int, t2)]
                            == ExpandedVertex::RecipeHub(t2 as usize),
                    forall|t2: int, p2: int|
                        0 <= t2 < t && 0 <= p2 < rv[t2].len()
                            ==> vertices@[star_inst(rv, k as int, t2, p2)]
                            == ExpandedVertex::Vertex(((#[trigger] rv[t2][p2]), t2 as usize)),
                    forall|p2: int|
                        0 <= p2 < p ==> vertices@[star_inst(rv, k as int, t as int, p2)]
                            == ExpandedVertex::Vertex(((#[trigger] rv[t as int][p2]), t as usize)),
                    edges.wf(),
                    edges.m() =~= Map::new(
                        |e: (usize, usize)| is_star_edge_upto(rv, k as int, t as int, p as int, e),
                        |e: (usize, usize)| 1usize,
                    ),
                    edges@.len() == 2 * (flat_count_upto(rv, t as int) + p),
                    forall|e: (usize, usize)| #[trigger] edges.m().dom().contains(e) ==> e.1
                        < counter,
                decreases rl - p,
            {
                proof {
                    lemma_flat_count_mono(rv, t as int + 1, rv.len() as int);
                    assert(flat_count_upto(rv, t as int) + rv[t as int].len() == flat_count_upto(
                        rv,
                        t as int + 1,
                    ));
                    assert forall|t2: int, p2: int|
                        #![trigger rv[t2][p2]]
                        0 <= t2 < t as int && 0 <= p2 < rv[t2].len() implies flat_count_upto(
                        rv,
                        t2,
                    ) + p2 < flat_count_upto(rv, t as int) by {
                        assert(flat_count_upto(rv, t2 + 1) == flat_count_upto(rv, t2)
                            + rv[t2].len());
                        lemma_flat_count_mono(rv, t2 + 1, t as int);
                    }
                }
                let ing = recipes[t][p];
                assert(ing == rv[t as int][p as int]);
                vertices.push(ExpandedVertex::Vertex((ing, t)));
                let ghost pre = edges.m();
                assert(ing < k && k <= recipe_index && recipe_index < counter);
                edges.set(ing, counter, 1);
                edges.set(recipe_index, counter, 1);
                proof {
                    let kk = k as int;
                    let tt = t as int;
                    let pp = p as int;
                    let e1 = (ing, counter);
                    let e2 = (recipe_index, counter);
                    assert(!pre.dom().contains(e1));
                    assert(!pre.dom().contains(e2));
                    assert(e1 != e2);
                    let goal = Map::new(
                        |e: (usize, usize)| is_star_edge_upto(rv, kk, tt, pp + 1, e),
                        |e: (usize, usize)| 1usize,
                    );
                    assert(star_edge_at(rv, kk, tt, pp, e1));
                    assert(star_edge_at(rv, kk, tt, pp, e2));
                    lemma_star_edge_intro(rv, kk, tt, pp + 1, tt, pp, e1);
                    lemma_star_edge_intro(rv, kk, tt, pp + 1, tt, pp, e2);
                    assert forall|e: (usize, usize)| #[trigger]
                        goal.dom().contains(e) implies edges.m().dom().contains(e) by {
                        if e != e1 && e != e2 {
                            let w = lemma_star_edge_elim(rv, kk, tt, pp + 1, e);
                            if w.0 == tt && w.1 == pp {
                                assert(e.1 == counter);
                                if e.0 == rv[w.0][w.1] {
                                    assert(e == e1);
                                } else {
                                    assert(e.0 as int == star_hub(kk, tt));
                                    assert(e == e2);
                                }
                                assert(false);
                            } else {
                                lemma_star_edge_intro(rv, kk, tt, pp, w.0, w.1, e);
                            }
                        }
                    }
                    assert forall|e: (usize, usize)| #[trigger]
                        edges.m().dom().contains(e) implies goal.dom().contains(e) by {
                        if e != e1 && e != e2 {
                            assert(pre.dom().contains(e));
                            assert(is_star_edge_upto(rv, kk, tt, pp, e));
                            let w = lemma_star_edge_elim(rv, kk, tt, pp, e);
                            lemma_star_edge_intro(rv, kk, tt, pp + 1, w.0, w.1, e);
                        }
                    }
                    assert(edges.m() =~= goal);
                }
                counter = counter + 1;
                p = p + 1;
            }
            proof {
                let kk = k as int;
                let tt = t as int;
                let goal = Map::new(
                    |e: (usize, usize)| is_star_edge_upto(rv, kk, tt + 1, 0, e),
                    |e: (usize, usize)| 1usize,
                );
                assert forall|e: (usize, usize)| #[trigger]
                    goal.dom().contains(e) implies edges.m().dom().contains(e) by {
                    let w = lemma_star_edge_elim(rv, kk, tt + 1, 0, e);
                    lemma_star_edge_intro(rv, kk, tt, rv[tt].len() as int, w.0, w.1, e);
                }
                assert forall|e: (usize, usize)| #[trigger]
                    edges.m().dom().contains(e) implies goal.dom().contains(e) by {
                    let w = lemma_star_edge_elim(rv, kk, tt, rv[tt].len() as int, e);
                    lemma_star_edge_intro(rv, kk, tt + 1, 0, w.0, w.1, e);
                }
                assert(edges.m() =~= goal);
                assert(flat_count_upto(rv, tt) + rv[tt].len() == flat_count_upto(rv, tt + 1));
            }
            t = t + 1;
        }
        assert(counter as int == star_vertex_count(rv, k as int));
        let rel = ExpandedIngredientRelation { vertices, edges };
        proof {
            assert forall|x: int|
                0 <= x < rel.edge_entries().len() implies (#[trigger] rel.edge_entries()[x]).0.1
                < rel.spec_vertices().len() by {
                EdgeMap::lemma_value_at(rel.edge_entries(), x);
                assert(rel.edge_weights().dom().contains(rel.edge_entries()[x].0));
            }
        }
        Ok(rel)
    }
}


// ---- clique expansion: specification model ----

/// Both endpoints lie in the same recipe or stand for the same ingredient.
pub open spec fn clique_base(vs: Seq<ExpandedVertex>, u: int, v: int) -> bool {
    ||| match (vs[u].spec_recipe_id(), vs[v].spec_recipe_id()) {
        (Some(a), Some(b)) => a == b,
        _ => false,
    }
    ||| match (vs[u].spec_ingredient_id(), vs[v].spec_ingredient_id()) {
        (Some(a), Some(b)) => a == b,
        _ => false,
    }
}

/// The endpoints stand for two distinct ingredients that both belong to
/// the target set.
pub open spec fn clique_boost(
    vs: Seq<ExpandedVertex>,
    targets: Seq<usize>,
    u: int,
    v: int,
) -> bool {
    match (vs[u].spec_ingredient_id(), vs[v].spec_ingredient_id()) {
        (Some(a), Some(b)) => a != b && targets.contains(a) && targets.contains(b),
        _ => false,
    }
}

/// Weight of a candidate pair in the clique expansion: one for lying in a
/// common clique, plus one where the target set strengthens the pair.
pub open spec fn clique_weight(
    vs: Seq<ExpandedVertex>,
    targets: Seq<usize>,
    e: (usize, usize),
) -> usize {
    if clique_base(vs, e.0 as int, e.1 as int) && clique_boost(
        vs,
        targets,
        e.0 as int,
        e.1 as int,
    ) {
        2usize
    } else if clique_base(vs, e.0 as int, e.1 as int) || clique_boost(
        vs,
        targets,
        e.0 as int,
        e.1 as int,
    ) {
        1usize
    } else {
        0usize
    }
}

/// The edge weights of the clique expansion over a given vertex arena.
pub open spec fn clique_edge_map(
    vs: Seq<ExpandedVertex>,
    targets: Seq<usize>,
) -> Map<(usize, usize), usize> {
    Map::new(
        |e: (usize, usize)| e.0 < e.1 && (e.1 as int) < vs.len() && clique_weight(vs, targets, e)
            != 0,
        |e: (usize, usize)| clique_weight(vs, targets, e),
    )
}

/// Whether `xs` holds `x`, by linear scan.
fn contains_id(xs: &Vec<usize>, x: usize) -> (r: bool)
    ensures
        r == xs@.contains(x),
{
    let n = xs.len();
    let mut i: usize = 0;
    while i < n
        invariant
            i <= n,
            n == xs@.len(),
            forall|y: int| 0 <= y < i ==> xs@[y] != x,
        decreases n - i,
    {
        if xs[i] == x {
            return true;
        }
        i = i + 1;
    }
    false
}

impl ExpandedIngredientRelation {
    /// Clique expansion of a recipe corpus: one instance vertex per
    /// (ingredient, recipe) occurrence and no hubs; weight-one edges
    /// connect every pair of instances that share a recipe or share an
    /// ingredient; every pair of instances of two distinct ingredients
    /// that both lie in the target set gets its weight raised by one
    /// (which may create the edge). The target list is read as a set:
    /// repeated entries change nothing. Fails with `InvalidIngredientId`
    /// exactly when a recipe or the target list names an id at or above
    /// `num_ingredients`.
    pub fn build_cliques(
        recipes: Vec<Vec<usize>>,
        target_ingredients: Vec<usize>,
        num_ingredients: usize,
    ) -> (r: Result<ExpandedIngredientRelation, Error>)
        requires
            flat_count(views(recipes@)) <= usize::MAX,
        ensures
            match r {
                Ok(rel) => {
                    let rv = views(recipes@);
                    let k = num_ingredients as int;
                    &&& ids_ok(rv, k)
                    &&& forall|i: int|
                        0 <= i < target_ingredients@.len() ==> (#[trigger] target_ingredients@[i])
                            < k
                    &&& rel.wf()
                    &&& rel.spec_vertices().len() == flat_count(rv)
                    &&& forall|t: int, p: int|
                        0 <= t < rv.len() && 0 <= p < rv[t].len()
                            ==> rel.spec_vertices()[flat_count_upto(rv, t) + p]
                            == ExpandedVertex::Vertex(((#[trigger] rv[t][p]), t as usize))
                    &&& rel.edge_weights() =~= clique_edge_map(
                        rel.spec_vertices(),
                        target_ingredients@,
                    )
                },
                Err(e) => {
                    &&& e == Error::InvalidIngredientId
                    &&& !(ids_ok(views(recipes@), num_ingredients as int) && forall|i: int|
                        0 <= i < target_ingredients@.len() ==> (#[trigger] target_ingredients@[i])
                            < num_ingredients)
                },
            },
    {
        let ghost rv = views(recipes@);
        let k = num_ingredients;
        let m = recipes.len();

        // Reject out-of-range ingredient ids up front.
        let mut t: usize = 0;
        while t < m
            invariant
                t <= m,
                k == num_ingredients,
                m == recipes@.len(),
                rv == views(recipes@),
                forall|t2: int, p2: int|
                    0 <= t2 < t && 0 <= p2 < rv[t2].len() ==> (#[trigger] rv[t2][p2]) < k,
            decreases m - t,
        {
            let rl = recipes[t].len();
            let mut p: usize = 0;
            while p < rl
                invariant
                    p <= rl,
                    t < m,
                    k == num_ingredients,
                    m == recipes@.len(),
                    rl == recipes@[t as int]@.len(),
                    rv == views(recipes@),
                    forall|t2: int, p2: int|
                        0 <= t2 < t && 0 <= p2 < rv[t2].len() ==> (#[trigger] rv[t2][p2]) < k,
                    forall|p2: int| 0 <= p2 < p ==> (#[trigger] rv[t as int][p2]) < k,
                decreases rl - p,
            {
                if recipes[t][p] >= k {
                    assert(rv[t as int][p as int] >= k);
                    return Err(Error::InvalidIngredientId);
                }
                p = p + 1;
            }
            t = t + 1;
        }
        assert(ids_ok(rv, k as int));
        let tn = target_ingredients.len();
        let mut i: usize = 0;
        while i < tn
            invariant
                i <= tn,
                k == num_ingredients,
                tn == target_ingredients@.len(),
                forall|y: int| 0 <= y < i ==> (#[trigger] target_ingredients@[y]) < k,
            decreases tn - i,
        {
            if target_ingredients[i] >= k {
                return Err(Error::InvalidIngredientId);
            }
            i = i + 1;
        }

        // One instance vertex per occurrence, in corpus order.
        let mut vertices: Vec<ExpandedVertex> = Vec::new();
        let mut t: usize = 0;
        while t < m
            invariant
                t <= m,
                m == recipes@.len(),
                rv == views(recipes@),
                flat_count(rv) <= usize::MAX,
                vertices@.len() == flat_count_upto(rv, t as int),
                forall|t2: int, p2: int|
                    0 <= t2 < t && 0 <= p2 < rv[t2].len()
                        ==> vertices@[flat_count_upto(rv, t2) + p2] == ExpandedVertex::Vertex(
                        ((#[trigger] rv[t2][p2]), t2 as usize),
                    ),
            decreases m - t,
        {
            proof {
                lemma_flat_count_mono(rv, t as int + 1, rv.len() as int);
                assert forall|t2: int, p2: int|
                    #![trigger rv[t2][p2]]
                    0 <= t2 < t as int && 0 <= p2 < rv[t2].len() implies flat_count_upto(rv, t2)
                    + p2 < flat_count_upto(rv, t as int) by {
                    assert(flat_count_upto(rv, t2 + 1) == flat_count_upto(rv, t2) + rv[t2].len());
                    lemma_flat_count_mono(rv, t2 + 1, t as int);
                }
            }
            let rl = recipes[t].len();
            let mut p: usize = 0;
            while p < rl
                invariant
                    p <= rl,
                    t < m,
                    m == recipes@.len(),
                    rl == rv[t as int].len(),
                    rv == views(recipes@),
                    flat_count(rv) <= usize::MAX,
                    vertices@.len() == flat_count_upto(rv, t as int) + p,
                    forall|t2: int, p2: int|
                        0 <= t2 < t && 0 <= p2 < rv[t2].len()
                            ==> vertices@[flat_count_upto(rv, t2) + p2] == ExpandedVertex::Vertex(
                            ((#[trigger] rv[t2][p2]), t2 as usize),
                        ),
                    forall|p2: int|
                        0 <= p2 < p ==> vertices@[flat_count_upto(rv, t as int) + p2]
                            == ExpandedVertex::Vertex(((#[trigger] rv[t as int][p2]), t as usize)),
                decreases rl - p,
            {
                proof {
                    lemma_flat_count_mono(rv, t as int + 1, rv.len() as int);
                    assert(flat_count_upto(rv, t as int) + rv[t as int].len() == flat_count_upto(
                        rv,
                        t as int + 1,
                    ));
                    assert forall|t2: int, p2: int|
                        #![trigger rv[t2][p2]]
                        0 <= t2 < t as int && 0 <= p2 < rv[t2].len() implies flat_count_upto(
                        rv,
                        t2,
                    ) + p2 < flat_count_upto(rv, t as int) by {
                        assert(flat_count_upto(rv, t2 + 1) == flat_count_upto(rv, t2)
                            + rv[t2].len());
                        lemma_flat_count_mono(rv, t2 + 1, t as int);
                    }
                }
                let ing = recipes[t][p];
                vertices.push(ExpandedVertex::Vertex((ing, t)));
                p = p + 1;
            }
            t = t + 1;
        }
        let n = vertices.len();
        assert(n == flat_count(rv));

        // Decide every candidate pair independently, in canonical order.
        let ghost vs = vertices@;
        let mut edges = EdgeMap::new();
        let mut u: usize = 0;
        while u < n
            invariant
                u <= n,
                n == vs.len(),
                vs == vertices@,
                edges.wf(),
                edges.m() =~= Map::new(
                    |e: (usize, usize)| e.0 < e.1 && (e.1 as int) < vs.len() && clique_weight(
                        vs,
                        target_ingredients@,
                        e,
                    ) != 0 && e.0 < u,
                    |e: (usize, usize)| clique_weight(vs, target_ingredients@, e),
                ),
            decreases n - u,
        {
            let mut v: usize = u + 1;
            while v < n
                invariant
                    u < v <= n || (u + 1 == v && v <= n),
                    u < n,
                    n == vs.len(),
                    vs == vertices@,
                    edges.wf(),
                    edges.m() =~= Map::new(
                        |e: (usize, usize)| e.0 < e.1 && (e.1 as int) < vs.len() && clique_weight(
                            vs,
                            target_ingredients@,
                            e,
                        ) != 0 && (e.0 < u || (e.0 == u && e.1 < v)),
                        |e: (usize, usize)| clique_weight(vs, target_ingredients@, e),
                    ),
                decreases n - v,
            {
                let iu = vertices[u].get_ingredient_id();
                let ru = vertices[u].get_recipe_id();
                let iv = vertices[v].get_ingredient_id();
                let rvv = vertices[v].get_recipe_id();
                let base = (match (ru, rvv) {
                    (Some(a), Some(b)) => a == b,
                    _ => false,
                }) || (match (iu, iv) {
                    (Some(a), Some(b)) => a == b,
                    _ => false,
                });
                let boost = match (iu, iv) {
                    (Some(a), Some(b)) => a != b && contains_id(&target_ingredients, a)
                        && contains_id(&target_ingredients, b),
                    _ => false,
                };
                assert(base == clique_base(vs, u as int, v as int));
                assert(boost == clique_boost(vs, target_ingredients@, u as int, v as int));
                let ghost pre = edges.m();
                if base && boost {
                    edges.set(u, v, 2);
                } else if base || boost {
                    edges.set(u, v, 1);
                }
                proof {
                    let goal = Map::new(
                        |e: (usize, usize)| e.0 < e.1 && (e.1 as int) < vs.len() && clique_weight(
                            vs,
                            target_ingredients@,
                            e,
                        ) != 0 && (e.0 < u || (e.0 == u && e.1 < v + 1)),
                        |e: (usize, usize)| clique_weight(vs, target_ingredients@, e),
                    );
                    assert(edges.m() =~= goal);
                }
                v = v + 1;
            }
            proof {
                let goal = Map::new(
                    |e: (usize, usize)| e.0 < e.1 && (e.1 as int) < vs.len() && clique_weight(
                        vs,
                        target_ingredients@,
                        e,
                    ) != 0 && e.0 < u + 1,
                    |e: (usize, usize)| clique_weight(vs, target_ingredients@, e),
                );
                assert forall|e: (usize, usize)| #[trigger]
                    goal.dom().contains(e) implies edges.m().dom().contains(e) by {
                    assert(e.0 < u || (e.0 == u && e.1 < n));
                }
                assert(edges.m() =~= goal);
            }
            u = u + 1;
        }
        let rel = ExpandedIngredientRelation { vertices, edges };
        proof {
            assert forall|x: int|
                0 <= x < rel.edge_entries().len() implies (#[trigger] rel.edge_entries()[x]).0.1
                < rel.spec_vertices().len() by {
                EdgeMap::lemma_value_at(rel.edge_entries(), x);
                assert(rel.edge_weights().dom().contains(rel.edge_entries()[x].0));
            }
            assert(rel.edge_weights() =~= clique_edge_map(rel.spec_vertices(), target_ingredients@));
        }
        Ok(rel)
    }

    /// Ingredient id of vertex `node`, if it has one.
    pub fn get_ingredient_id(&self, node: usize) -> (r: Option<usize>)
        requires
            node < self.spec_vertices().len(),
        ensures
            r == self.spec_vertices()[node as int].spec_ingredient_id(),
    {
        self.vertices[node].get_ingredient_id()
    }

    /// Recipe id of vertex `node`, if it has one.
    pub fn get_recipe_id(&self, node: usize) -> (r: Option<usize>)
        requires
            node < self.spec_vertices().len(),
        ensures
            r == self.spec_vertices()[node as int].spec_recipe_id(),
    {
        self.vertices[node].get_recipe_id()
    }

    /// Size of the vertex arena.
    pub fn number_of_vertices(&self) -> (r: usize)
        ensures
            r == self.spec_vertices().len(),
    {
        self.vertices.len()
    }

    /// Number of stored edges.
    pub fn number_of_edges(&self) -> (r: usize)
        ensures
            r == self.edge_entries().len(),
    {
        self.edges.len()
    }

    /// The stored edges in increasing canonical-key order:
    /// `((i, j), weight)` with `i < j`.
    pub fn edge_list(&self) -> (r: &Vec<((usize, usize), usize)>)
        ensures
            r@ == self.edge_entries(),
    {
        self.edges.entries()
    }
}


// ---- adjacency matrix materialization ----

/// The mirrored 1-based element list of an edge list: each stored edge
/// `((i, j), w)` appears as `(i + 1, j + 1, w)` followed by
/// `(j + 1, i + 1, w)`.
pub open spec fn adjacency_triples(s: Seq<((usize, usize), usize)>) -> Seq<(usize, usize, usize)>
    decreases s.len(),
{
    if s.len() == 0 {
        Seq::empty()
    } else {
        let e = s.last();
        adjacency_triples(s.drop_last()) + seq![
            (((e.0.0 + 1) as usize), ((e.0.1 + 1) as usize), e.1),
            (((e.0.1 + 1) as usize), ((e.0.0 + 1) as usize), e.1),
        ]
    }
}

proof fn lemma_adjacency_index(s: Seq<((usize, usize), usize)>, a: int)
    requires
        0 <= a < 2 * s.len(),
        forall|x: int| 0 <= x < s.len() ==> (#[trigger] s[x]).0.1 < usize::MAX,
    ensures
        adjacency_triples(s).len() == 2 * s.len(),
        a % 2 == 0 ==> adjacency_triples(s)[a] == (
            ((s[a / 2].0.0 + 1) as usize),
            ((s[a / 2].0.1 + 1) as usize),
            s[a / 2].1,
        ),
        a % 2 == 1 ==> adjacency_triples(s)[a] == (
            ((s[a / 2].0.1 + 1) as usize),
            ((s[a / 2].0.0 + 1) as usize),
            s[a / 2].1,
        ),
    decreases s.len(),
{
    lemma_adjacency_len(s);
    if a < 2 * (s.len() - 1) {
        lemma_adjacency_index(s.drop_last(), a);
        assert(s.drop_last()[a / 2] == s[a / 2]);
    } else {
        assert(a / 2 == s.len() - 1);
    }
}

proof fn lemma_adjacency_len(s: Seq<((usize, usize), usize)>)
    ensures
        adjacency_triples(s).len() == 2 * s.len(),
    decreases s.len(),
{
    if s.len() > 0 {
        lemma_adjacency_len(s.drop_last());
    }
}

/// Non-strict lexicographic order on whole adjacency elements: row,
/// then column, then value.
pub open spec fn triple_le(a: (usize, usize, usize), b: (usize, usize, usize)) -> bool {
    a.0 < b.0 || (a.0 == b.0 && (a.1 < b.1 || (a.1 == b.1 && a.2 <= b.2)))
}

/// The order above as a relation value, for `sort_by`.
pub open spec fn triple_order() -> spec_fn((usize, usize, usize), (usize, usize, usize)) -> bool {
    |a: (usize, usize, usize), b: (usize, usize, usize)| triple_le(a, b)
}

pub proof fn lemma_triple_order_total()
    ensures
        vstd::relations::total_ordering(triple_order()),
{
    assert forall|a: (usize, usize, usize), b: (usize, usize, usize)|
        #[trigger] triple_order()(a, b) || #[trigger] triple_order()(b, a) by {
        if !triple_le(a, b) {
            assert(triple_le(b, a));
        }
    }
    assert forall|a: (usize, usize, usize), b: (usize, usize, usize)|
        #[trigger] triple_order()(a, b) && #[trigger] triple_order()(b, a) implies a == b by {
        assert(a.0 == b.0 && a.1 == b.1 && a.2 == b.2);
    }
    assert forall|a: (usize, usize, usize), b: (usize, usize, usize), c: (usize, usize, usize)|
        #[trigger] triple_order()(a, b) && #[trigger] triple_order()(b, c) implies triple_order()(
        a,
        c,
    ) by {
        assert(triple_le(a, b) && triple_le(b, c));
    }
    assert(vstd::relations::reflexive(triple_order()));
}

/// Sort an element list into row-major order. Where the input's cell
/// keys are pairwise distinct, the result is strictly row-major sorted.
fn sort_triples(input: Vec<(usize, usize, usize)>) -> (out: Vec<(usize, usize, usize)>)
    ensures
        out@ == input@.sort_by(triple_order()),
        out@.to_multiset() == input@.to_multiset(),
        forall|e: (usize, usize, usize)| out@.contains(e) <==> input@.contains(e),
        (forall|x: int, y: int|
            0 <= x < y < input@.len() ==> !((#[trigger] input@[x]).0 == (#[trigger] input@[y]).0
                && input@[x].1 == input@[y].1)) ==> row_major_sorted(out@),
{
    broadcast use vstd::seq_lib::group_to_multiset_ensures;

    let ghost orig = input@;
    let ghost distinct_keys = forall|x: int, y: int|
        0 <= x < y < orig.len() ==> !((#[trigger] orig[x]).0 == (#[trigger] orig[y]).0
            && orig[x].1 == orig[y].1);
    let mut rest = input;
    let mut out: Vec<(usize, usize, usize)> = Vec::new();
    while rest.len() > 0
        invariant
            out@.to_multiset().add(rest@.to_multiset()) =~= orig.to_multiset(),
            vstd::relations::sorted_by(out@, triple_order()),
            forall|o: int, r: int|
                0 <= o < out@.len() && 0 <= r < rest@.len() ==> triple_le(
                    #[trigger] out@[o],
                    #[trigger] rest@[r],
                ),
            distinct_keys == (forall|x: int, y: int|
                0 <= x < y < orig.len() ==> !((#[trigger] orig[x]).0 == (#[trigger] orig[y]).0
                    && orig[x].1 == orig[y].1)),
            distinct_keys ==> {
                &&& forall|o: int, r: int|
                    0 <= o < out@.len() && 0 <= r < rest@.len() ==> !((#[trigger] out@[o]).0 == (
                    #[trigger] rest@[r]).0 && out@[o].1 == rest@[r].1)
                &&& row_major_sorted(out@)
                &&& forall|x: int, y: int|
                    0 <= x < y < rest@.len() ==> !((#[trigger] rest@[x]).0 == (
                    #[trigger] rest@[y]).0 && rest@[x].1 == rest@[y].1)
            },
        decreases rest@.len(),
    {
        let m = rest.len();
        let mut best: usize = 0;
        let mut x: usize = 1;
        while x < m
            invariant
                1 <= m,
                m == rest@.len(),
                best < x,
                x <= m,
                forall|y: int| 0 <= y < x ==> triple_le(rest@[best as int], #[trigger] rest@[y]),
            decreases m - x,
        {
            let b = rest[best];
            let c = rest[x];
            let b_le = b.0 < c.0 || (b.0 == c.0 && (b.1 < c.1 || (b.1 == c.1 && b.2 <= c.2)));
            if !b_le {
                assert(triple_le(rest@[x as int], rest@[best as int]));
                assert forall|y: int| 0 <= y < x + 1 implies triple_le(
                    rest@[x as int],
                    #[trigger] rest@[y],
                ) by {}
                best = x;
            }
            x = x + 1;
        }
        let ghost pre = rest@;
        let ghost oldout = out@;
        let e = rest.remove(best);
        out.push(e);
        proof {
            pre.to_multiset_ensures();
            oldout.to_multiset_ensures();
            assert(e == pre[best as int]);
            assert(forall|r: int| 0 <= r < best ==> #[trigger] rest@[r] == pre[r]);
            assert(forall|r: int|
                best <= r < rest@.len() ==> #[trigger] rest@[r] == pre[r + 1]);
            assert(pre.to_multiset().count(e) > 0) by {
                assert(pre.contains(e));
            }
            assert(rest@.to_multiset() =~= pre.to_multiset().remove(e));
            assert(out@.to_multiset() =~= oldout.to_multiset().insert(e));
            assert(out@.to_multiset().add(rest@.to_multiset()) =~= orig.to_multiset());
            assert forall|o: int, r: int|
                0 <= o < out@.len() && 0 <= r < rest@.len() implies triple_le(
                #[trigger] out@[o],
                #[trigger] rest@[r],
            ) by {
                if r < best {
                    assert(rest@[r] == pre[r]);
                } else {
                    assert(rest@[r] == pre[r + 1]);
                }
                if o == out@.len() - 1 {
                    assert(out@[o] == e);
                }
            }
            assert(vstd::relations::sorted_by(out@, triple_order())) by {
                assert forall|a: int, b: int| 0 <= a < b < out@.len() implies #[trigger] triple_order()(
                    out@[a],
                    out@[b],
                ) by {
                    if b == out@.len() - 1 {
                        assert(out@[a] == oldout[a]);
                        assert(triple_le(oldout[a], pre[best as int]));
                    }
                }
            }
            if distinct_keys {
                assert forall|o: int, r: int|
                    0 <= o < out@.len() && 0 <= r < rest@.len() implies !((#[trigger] out@[o]).0
                    == (#[trigger] rest@[r]).0 && out@[o].1 == rest@[r].1) by {
                    if r < best {
                        assert(rest@[r] == pre[r]);
                    } else {
                        assert(rest@[r] == pre[r + 1]);
                    }
                    if o == out@.len() - 1 {
                        assert(out@[o] == pre[best as int]);
                    } else {
                        assert(out@[o] == oldout[o]);
                    }
                }
                assert(row_major_sorted(out@)) by {
                    assert forall|a: int, b: int| 0 <= a < b < out@.len() implies ((
                    #[trigger] out@[a]).0 < (#[trigger] out@[b]).0 || (out@[a].0 == out@[b].0
                        && out@[a].1 < out@[b].1)) by {
                        if b == out@.len() - 1 {
                            assert(out@[a] == oldout[a]);
                            assert(triple_le(oldout[a], pre[best as int]));
                            assert(!(oldout[a].0 == pre[best as int].0 && oldout[a].1
                                == pre[best as int].1));
                        } else {
                            assert(triple_le(out@[a], out@[b]));
                            assert(!(out@[a].0 == out@[b].0 && out@[a].1 == out@[b].1));
                        }
                    }
                }
                assert forall|x2: int, y2: int|
                    0 <= x2 < y2 < rest@.len() implies !((#[trigger] rest@[x2]).0 == (
                #[trigger] rest@[y2]).0 && rest@[x2].1 == rest@[y2].1) by {
                    if x2 < best {
                        assert(rest@[x2] == pre[x2]);
                    } else {
                        assert(rest@[x2] == pre[x2 + 1]);
                    }
                    if y2 < best {
                        assert(rest@[y2] == pre[y2]);
                    } else {
                        assert(rest@[y2] == pre[y2 + 1]);
                    }
                }
            }
        }
    }
    proof {
        lemma_triple_order_total();
        assert(rest@.to_multiset() =~= Multiset::<(usize, usize, usize)>::empty()) by {
            assert(rest@ =~= Seq::<(usize, usize, usize)>::empty());
        }
        assert(out@.to_multiset() =~= orig.to_multiset());
        orig.lemma_sort_by_ensures(triple_order());
        vstd::seq_lib::lemma_sorted_unique(out@, orig.sort_by(triple_order()), triple_order());
        assert(out@ =~= orig.sort_by(triple_order()));
        assert forall|e: (usize, usize, usize)| out@.contains(e) <==> input@.contains(e) by {
            out@.to_multiset_ensures();
            input@.to_multiset_ensures();
            assert(out@.contains(e) <==> out@.to_multiset().count(e) > 0);
            assert(input@.contains(e) <==> input@.to_multiset().count(e) > 0);
        }
    }
    out
}

impl ExpandedIngredientRelation {
    /// The mirrored 1-based element list of the adjacency matrix: for
    /// every stored edge `((i, j), w)`, the element `(i + 1, j + 1, w)`
    /// followed by `(j + 1, i + 1, w)`, in stored-edge order.
    pub fn adjacency_elements(&self) -> (r: Vec<(usize, usize, usize)>)
        requires
            self.wf(),
        ensures
            r@ == adjacency_triples(self.edge_entries()),
    {
        let n = self.number_of_vertices();
        let entries = self.edge_list();
        let en = entries.len();
        let ghost es = self.edge_entries();
        let mut triples: Vec<(usize, usize, usize)> = Vec::new();
        let mut x: usize = 0;
        while x < en
            invariant
                x <= en,
                en == es.len(),
                entries@ == es,
                es == self.edge_entries(),
                n == self.spec_vertices().len(),
                self.wf(),
                triples@ == adjacency_triples(es.subrange(0, x as int)),
                triples@.len() == 2 * x,
            decreases en - x,
        {
            let ((i, j), w) = entries[x];
            assert(es[x as int] == ((i, j), w));
            assert(self.edge_entries()[x as int] == ((i, j), w));
            assert(i < j && j < n);
            triples.push((i + 1, j + 1, w));
            triples.push((j + 1, i + 1, w));
            proof {
                let sub = es.subrange(0, x as int + 1);
                assert(sub.drop_last() =~= es.subrange(0, x as int));
                assert(sub.last() == es[x as int]);
                assert(triples@ =~= adjacency_triples(sub));
            }
            x = x + 1;
        }
        proof {
            assert(es.subrange(0, en as int) =~= es);
        }
        triples
    }

    /// Materialize the symmetric adjacency matrix of the graph: a square
    /// matrix with one row and one column per vertex (1-based, as the
    /// carrier stores them) holding, for every stored edge `((i, j), w)`,
    /// the value `w` at both cells `(i + 1, j + 1)` and `(j + 1, i + 1)`.
    /// The carrier stores the row-major sorting of the mirrored element
    /// list, exactly.
    pub fn build_adjacency_matrix(&self) -> (r: crate::matrix::SparseCsr)
        requires
            self.wf(),
        ensures
            crate::matrix::sm_dims(r).0 == self.spec_vertices().len(),
            crate::matrix::sm_dims(r).1 == self.spec_vertices().len(),
            crate::matrix::sm_entries(r) == adjacency_triples(self.edge_entries()).sort_by(
                triple_order(),
            ),
            crate::matrix::sm_entries(r).to_multiset() == adjacency_triples(
                self.edge_entries(),
            ).to_multiset(),
            crate::matrix::row_major_sorted(crate::matrix::sm_entries(r)),
    {
        let n = self.number_of_vertices();
        let ghost es = self.edge_entries();
        let triples = self.adjacency_elements();
        proof {
            lemma_adjacency_len(es);
            assert(triples@.len() == 2 * es.len());
            assert forall|a: int| 0 <= a < es.len() implies (#[trigger] es[a]).0.1
                < usize::MAX by {
                assert(es[a].0.1 < self.spec_vertices().len());
                assert(self.spec_vertices().len() <= usize::MAX);
            }
            assert forall|a: int| 0 <= a < triples@.len() implies 1 <= (#[trigger] triples@[a]).0
                && triples@[a].0 <= n && 1 <= triples@[a].1 && triples@[a].1 <= n by {
                lemma_adjacency_index(es, a);
                let e = es[a / 2];
                assert(e.0.0 < e.0.1 && e.0.1 < n);
            }
            assert forall|a: int, b: int| 0 <= a < b < triples@.len() implies !((
            #[trigger] triples@[a]).0 == (#[trigger] triples@[b]).0 && triples@[a].1
                == triples@[b].1) by {
                lemma_adjacency_index(es, a);
                lemma_adjacency_index(es, b);
                let ea = es[a / 2];
                let eb = es[b / 2];
                assert(ea.0.0 < ea.0.1 && eb.0.0 < eb.0.1);
                if a / 2 == b / 2 {
                    assert(a % 2 == 0 && b % 2 == 1);
                } else {
                    assert(key_lt(ea.0, eb.0));
                }
            }
        }
        let sorted = sort_triples(triples);
        proof {
            assert forall|a: int| 0 <= a < sorted@.len() implies 1 <= (#[trigger] sorted@[a]).0
                && sorted@[a].0 <= n && 1 <= sorted@[a].1 && sorted@[a].1 <= n by {
                assert(sorted@.contains(sorted@[a]));
                assert(triples@.contains(sorted@[a]));
                let w = choose|w: int|
                    0 <= w < triples@.len() && #[trigger] triples@[w] == sorted@[a];
            }
            assert forall|a: int, b: int| 0 <= a < b < sorted@.len() implies !((
            #[trigger] sorted@[a]).0 == (#[trigger] sorted@[b]).0 && sorted@[a].1
                == sorted@[b].1) by {
                assert(crate::matrix::row_major_sorted(sorted@));
            }
        }
        crate::matrix::sparse_from_triples(n, n, &sorted)
    }

    /// The CSR text form of the adjacency matrix, computed here from the
    /// verified element list (the carrier's own row-pointer array is not
    /// read back; see `crate::matrix`).
    pub fn export_adjacency(&self) -> (r: String)
        requires
            self.wf(),
            self.spec_vertices().len() < usize::MAX,
        ensures
            r@ == crate::csr_text(
                self.spec_vertices().len(),
                self.spec_vertices().len(),
                adjacency_triples(self.edge_entries()).sort_by(triple_order()),
            ),
    {
        let n = self.number_of_vertices();
        let triples = self.adjacency_elements();
        let sorted = sort_triples(triples);
        crate::export(n, n, &sorted)
    }
}


pub(crate) fn render_coolist_from(entries: &Vec<((usize, usize), usize)>, x: usize, out: &mut String)
    requires
        x <= entries@.len(),
    ensures
        final(out)@ == old(out)@ + coolist_text(entries@.skip(x as int)),
    decreases entries@.len() - x,
{
    if x < entries.len() {
        let ((i, j), w) = entries[x];
        push_decimal(out, i);
        out.append(" ");
        push_decimal(out, j);
        out.append(" ");
        push_decimal(out, w);
        let ghost mid = out@;
        if x + 1 < entries.len() {
            out.append("\n");
        }
        render_coolist_from(entries, x + 1, out);
        proof {
            reveal_strlit(" ");
            reveal_strlit("\n");
            assert(" "@ =~= seq![' ']) by {
                assert(" "@.len() == 1);
                assert(" "@[0] == ' ');
            }
            assert("\n"@ =~= seq!['\n']) by {
                assert("\n"@.len() == 1);
                assert("\n"@[0] == '\n');
            }
            let u = entries@.skip(x as int);
            assert(u[0] == entries@[x as int]);
            assert(u.skip(1) =~= entries@.skip(x as int + 1));
            assert(mid =~= old(out)@ + coolist_line(entries@[x as int]));
            assert(final(out)@ =~= old(out)@ + coolist_text(u));
        }
    } else {
        proof {
            assert(entries@.skip(x as int) =~= Seq::<((usize, usize), usize)>::empty());
        }
    }
}

impl ExpandedIngredientRelation {
    /// Serialize the stored edges to the coolist text: one `i j weight`
    /// line per edge, in increasing canonical order, newline-separated,
    /// no trailing newline, never a self-loop.
    pub fn build_coolist(&self) -> (r: String)
        ensures
            r@ == coolist_text(self.edge_entries()),
    {
        let mut out = String::new();
        render_coolist_from(self.edges.entries(), 0, &mut out);
        proof {
            assert(self.edge_entries().skip(0) =~= self.edge_entries());
        }
        out
    }
}

proof fn lemma_adjacency_contains(s: Seq<((usize, usize), usize)>, a: usize, b: usize, w: usize)
    requires
        forall|x: int| 0 <= x < s.len() ==> (#[trigger] s[x]).0.1 < usize::MAX,
        adjacency_triples(s).contains((a, b, w)),
    ensures
        adjacency_triples(s).contains((b, a, w)),
{
    lemma_adjacency_len(s);
    let x = choose|x: int|
        0 <= x < adjacency_triples(s).len() && #[trigger] adjacency_triples(s)[x] == (a, b, w);
    lemma_adjacency_index(s, x);
    if x % 2 == 0 {
        lemma_adjacency_index(s, x + 1);
        assert(adjacency_triples(s)[x + 1] == (b, a, w));
    } else {
        lemma_adjacency_index(s, x - 1);
        assert(adjacency_triples(s)[x - 1] == (b, a, w));
    }
}

/// Law: the materialized adjacency matrix is symmetric. A matrix holding
/// exactly the mirrored triples of a well-formed edge list holds, for
/// every stored edge `((i, j), w)`, the value `w` at both `(i+1, j+1)`
/// and `(j+1, i+1)` (1-based cells); and each of its cells holds the same
/// value as the mirrored cell.
pub proof fn lemma_adjacency_symmetric(rel: ExpandedIngredientRelation, m: crate::matrix::SparseCsr)
    requires
        rel.wf(),
        rel.spec_vertices().len() <= usize::MAX,
        crate::matrix::sm_entries(m).to_multiset() == adjacency_triples(
            rel.edge_entries(),
        ).to_multiset(),
    ensures
        forall|a: usize, b: usize, w: usize|
            #[trigger] crate::matrix::sm_entries(m).contains((a, b, w))
                <==> crate::matrix::sm_entries(m).contains((b, a, w)),
        forall|x: int|
            0 <= x < rel.edge_entries().len() ==> {
                let e = #[trigger] rel.edge_entries()[x];
                crate::matrix::sm_entries(m).contains(
                    (((e.0.0 + 1) as usize), ((e.0.1 + 1) as usize), e.1),
                ) && crate::matrix::sm_entries(m).contains(
                    (((e.0.1 + 1) as usize), ((e.0.0 + 1) as usize), e.1),
                )
            },
{
    let es = rel.edge_entries();
    let sm = crate::matrix::sm_entries(m);
    sm.to_multiset_ensures();
    adjacency_triples(es).to_multiset_ensures();
    assert(forall|x: int| 0 <= x < es.len() ==> (#[trigger] es[x]).0.1 < usize::MAX);
    assert forall|a: usize, b: usize, w: usize| #[trigger] sm.contains((a, b, w)) implies
        sm.contains((b, a, w)) by {
        assert(sm.to_multiset().count(((a, b, w))) > 0);
        assert(adjacency_triples(es).contains((a, b, w)));
        lemma_adjacency_contains(es, a, b, w);
        assert(adjacency_triples(es).to_multiset().count(((b, a, w))) > 0);
    }
    assert forall|x: int| 0 <= x < es.len() implies {
        let e = #[trigger] es[x];
        sm.contains((((e.0.0 + 1) as usize), ((e.0.1 + 1) as usize), e.1)) && sm.contains(
            (((e.0.1 + 1) as usize), ((e.0.0 + 1) as usize), e.1),
        )
    } by {
        let e = es[x];
        lemma_adjacency_len(es);
        lemma_adjacency_index(es, 2 * x);
        lemma_adjacency_index(es, 2 * x + 1);
        assert(adjacency_triples(es)[2 * x] == (((e.0.0 + 1) as usize), ((e.0.1 + 1) as usize), e.1));
        assert(adjacency_triples(es).contains(
            (((e.0.0 + 1) as usize), ((e.0.1 + 1) as usize), e.1),
        ));
        assert(adjacency_triples(es).contains(
            (((e.0.1 + 1) as usize), ((e.0.0 + 1) as usize), e.1),
        ));
        assert(sm.to_multiset().count((((e.0.0 + 1) as usize), ((e.0.1 + 1) as usize), e.1)) > 0);
        assert(sm.to_multiset().count((((e.0.1 + 1) as usize), ((e.0.0 + 1) as usize), e.1)) > 0);
    }
}

} // verus!
