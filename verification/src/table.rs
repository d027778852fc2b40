//! Ingredient interning and co-occurrence counting over a recipe corpus:
//! stable zero-based ids in first-sight order, per-recipe id lists
//! (deduplicated, sorted), occurrence counts, and the symmetric sparse
//! co-occurrence count matrix stored as its canonical lower triangle.
use crate::expanded::views;
use crate::text::{coolist_text, push_decimal};
use vstd::pervasive::VecAdditionalExecFns;
use vstd::prelude::*;
use vstd::string::StringExecFns;

verus! {

/// Recipes given as lists of ingredient ids; the outer index is the
/// recipe id.
pub struct RecipeVecs {
    pub recipes: Vec<Vec<usize>>,
}

/// The interning table of a corpus: how many recipes were seen, the name
/// of every distinct ingredient by id, the name-to-id lookup list, and
/// how often each ingredient occurs.
pub struct Table {
    pub recipe_count: usize,
    pub ingredients_vec: Vec<String>,
    pub ingredients: Vec<(String, usize)>,
    pub ingredients_count: Vec<usize>,
}

/// Every recipe-ingredient co-occurrence as `(recipe id, ingredient id)`
/// points of the bipartite incidence matrix.
pub struct RecipeIngredient {
    pub points: Vec<(usize, usize)>,
}

/// The ingredient co-occurrence counts as `(id, id, count)` points of the
/// canonical lower triangle (second id strictly below the first).
pub struct IngredientCooccurrence {
    pub points: Vec<(usize, usize, usize)>,
}

// ---- specification model ----

/// The corpus as character sequences.
pub open spec fn name_views(rs: Seq<Vec<String>>) -> Seq<Seq<Seq<char>>> {
    rs.map_values(|r: Vec<String>| r@.map_values(|s: String| s@))
}

/// All names of the first `t` recipes, in reading order.
pub open spec fn flat_prefix(nv: Seq<Seq<Seq<char>>>, t: int) -> Seq<Seq<char>>
    decreases t,
{
    if t <= 0 {
        Seq::empty()
    } else {
        flat_prefix(nv, t - 1) + nv[t - 1]
    }
}

/// All names of the corpus, in reading order.
pub open spec fn flat_names(nv: Seq<Seq<Seq<char>>>) -> Seq<Seq<char>> {
    flat_prefix(nv, nv.len() as int)
}

/// The distinct names of `s` in first-appearance order: the id table.
pub open spec fn uniq_names(s: Seq<Seq<char>>) -> Seq<Seq<char>>
    decreases s.len(),
{
    if s.len() == 0 {
        Seq::empty()
    } else {
        let p = uniq_names(s.drop_last());
        if p.contains(s.last()) {
            p
        } else {
            p.push(s.last())
        }
    }
}

/// How often `nm` occurs in `s`.
pub open spec fn occ_count(s: Seq<Seq<char>>, nm: Seq<char>) -> nat
    decreases s.len(),
{
    if s.len() == 0 {
        0
    } else {
        occ_count(s.drop_last(), nm) + (if s.last() == nm {
            1nat
        } else {
            0nat
        })
    }
}

/// Number of the first `t` id lists containing both `x` and `y`.
pub open spec fn co_count_upto(ids: Seq<Seq<usize>>, x: usize, y: usize, t: int) -> nat
    decreases t,
{
    if t <= 0 {
        0
    } else {
        co_count_upto(ids, x, y, t - 1) + (if ids[t - 1].contains(x) && ids[t - 1].contains(y) {
            1nat
        } else {
            0nat
        })
    }
}

/// Number of recipes containing both ingredient `x` and ingredient `y`.
pub open spec fn co_count(ids: Seq<Seq<usize>>, x: usize, y: usize) -> nat {
    co_count_upto(ids, x, y, ids.len() as int)
}

/// Strictly increasing id list.
pub open spec fn strictly_sorted(s: Seq<usize>) -> bool {
    forall|a: int, b: int| 0 <= a < b < s.len() ==> (#[trigger] s[a]) < (#[trigger] s[b])
}

/// The id table has no repeated names and holds exactly the names seen.
pub proof fn lemma_uniq_names(s: Seq<Seq<char>>)
    ensures
        forall|a: int, b: int|
            0 <= a < b < uniq_names(s).len() ==> (#[trigger] uniq_names(s)[a]) != (
            #[trigger] uniq_names(s)[b]),
        forall|nm: Seq<char>| #[trigger] uniq_names(s).contains(nm) <==> s.contains(nm),
        uniq_names(s).len() <= s.len(),
    decreases s.len(),
{
    if s.len() > 0 {
        lemma_uniq_names(s.drop_last());
        let p = uniq_names(s.drop_last());
        assert forall|nm: Seq<char>| #[trigger] uniq_names(s).contains(nm) <==> s.contains(
            nm,
        ) by {
            if uniq_names(s).contains(nm) {
                let a = choose|a: int|
                    0 <= a < uniq_names(s).len() && #[trigger] uniq_names(s)[a] == nm;
                if a < p.len() {
                    assert(p.contains(nm));
                    let b = choose|b: int|
                        0 <= b < s.drop_last().len() && #[trigger] s.drop_last()[b] == nm;
                    assert(s[b] == nm);
                } else {
                    assert(nm == s.last());
                    assert(s[s.len() - 1] == nm);
                }
            }
            if s.contains(nm) {
                let b = choose|b: int| 0 <= b < s.len() && #[trigger] s[b] == nm;
                if b < s.len() - 1 {
                    assert(s.drop_last()[b] == nm);
                    assert(s.drop_last().contains(nm));
                    assert(p.contains(nm));
                    let a = choose|a: int| 0 <= a < p.len() && #[trigger] p[a] == nm;
                    assert(uniq_names(s)[a] == nm);
                } else {
                    if p.contains(s.last()) {
                        let a = choose|a: int| 0 <= a < p.len() && #[trigger] p[a] == nm;
                        assert(uniq_names(s)[a] == nm);
                    } else {
                        assert(uniq_names(s)[p.len() as int] == nm);
                    }
                }
            }
        }
        if !p.contains(s.last()) {
            assert forall|a: int, b: int|
                0 <= a < b < uniq_names(s).len() implies (#[trigger] uniq_names(s)[a]) != (
            #[trigger] uniq_names(s)[b]) by {
                if b == uniq_names(s).len() - 1 {
                    assert(uniq_names(s)[a] == p[a]);
                    assert(p.contains(p[a]));
                }
            }
        }
    }
}

proof fn lemma_occ_zero(s: Seq<Seq<char>>, nm: Seq<char>)
    requires
        !s.contains(nm),
    ensures
        occ_count(s, nm) == 0,
    decreases s.len(),
{
    if s.len() > 0 {
        assert(!s.drop_last().contains(nm)) by {
            if s.drop_last().contains(nm) {
                let b = choose|b: int|
                    0 <= b < s.drop_last().len() && #[trigger] s.drop_last()[b] == nm;
                assert(s[b] == nm);
            }
        }
        lemma_occ_zero(s.drop_last(), nm);
        assert(s[s.len() - 1] != nm);
    }
}

proof fn lemma_occ_bound(s: Seq<Seq<char>>, nm: Seq<char>)
    ensures
        occ_count(s, nm) <= s.len(),
    decreases s.len(),
{
    if s.len() > 0 {
        lemma_occ_bound(s.drop_last(), nm);
    }
}

proof fn lemma_flat_prefix_len(nv: Seq<Seq<Seq<char>>>, a: int, b: int)
    requires
        a <= b,
    ensures
        flat_prefix(nv, a).len() <= flat_prefix(nv, b).len(),
    decreases b - a,
{
    if a < b {
        lemma_flat_prefix_len(nv, a, b - 1);
    }
}

/// Index of the entry carrying `name`, if any.
fn find_id(map: &Vec<(String, usize)>, name: &String) -> (r: Option<usize>)
    ensures
        match r {
            Some(i) => i < map@.len() && map@[i as int].0@ == name@,
            None => forall|y: int| 0 <= y < map@.len() ==> (#[trigger] map@[y]).0@ != name@,
        },
{
    let n = map.len();
    let mut i: usize = 0;
    while i < n
        invariant
            i <= n,
            n == map@.len(),
            forall|y: int| 0 <= y < i ==> (#[trigger] map@[y]).0@ != name@,
        decreases n - i,
    {
        if map[i].0 == *name {
            return Some(i);
        }
        i = i + 1;
    }
    None
}

/// Whether the sorted id list holds `x`.
fn holds_id(ids: &Vec<usize>, x: usize) -> (r: bool)
    ensures
        r == ids@.contains(x),
{
    let n = ids.len();
    let mut i: usize = 0;
    while i < n
        invariant
            i <= n,
            n == ids@.len(),
            forall|y: int| 0 <= y < i ==> (#[trigger] ids@[y]) != x,
        decreases n - i,
    {
        if ids[i] == x {
            assert(ids@[i as int] == x);
            return true;
        }
        i = i + 1;
    }
    false
}

/// The ids of `v`, deduplicated and sorted increasingly.
fn sorted_unique(v: &Vec<usize>) -> (out: Vec<usize>)
    ensures
        strictly_sorted(out@),
        forall|e: usize| out@.contains(e) <==> v@.contains(e),
{
    let n = v.len();
    let mut out: Vec<usize> = Vec::new();
    let mut i: usize = 0;
    while i < n
        invariant
            i <= n,
            n == v@.len(),
            strictly_sorted(out@),
            forall|e: usize| #[trigger] out@.contains(e) <==> v@.take(i as int).contains(e),
        decreases n - i,
    {
        let x = v[i];
        let m = out.len();
        let mut p: usize = 0;
        while p < m
            invariant
                p <= m,
                m == out@.len(),
                strictly_sorted(out@),
                forall|y: int| 0 <= y < p ==> (#[trigger] out@[y]) < x,
            ensures
                p <= m,
                m == out@.len(),
                forall|y: int| 0 <= y < p ==> (#[trigger] out@[y]) < x,
                p < m ==> out@[p as int] >= x,
            decreases m - p,
        {
            if out[p] >= x {
                break;
            }
            p = p + 1;
        }
        let ghost oldout = out@;
        if p < m && out[p] == x {
            // already present
        } else {
            out.insert(p, x);
            proof {
                assert(forall|y: int| 0 <= y < p ==> #[trigger] out@[y] == oldout[y]);
                assert(out@[p as int] == x);
                assert(forall|y: int|
                    p < y < out@.len() ==> #[trigger] out@[y] == oldout[y - 1]);
                assert forall|a: int, b: int| 0 <= a < b < out@.len() implies (
                #[trigger] out@[a]) < (#[trigger] out@[b]) by {
                    if a == p as int {
                        assert(out@[b] == oldout[b - 1]);
                        assert(oldout[b - 1] >= x);
                        assert(oldout[b - 1] != x) by {
                            if p < m {
                                assert(oldout[p as int] != x);
                                if b - 1 > p {
                                    assert(oldout[p as int] < oldout[b - 1]);
                                }
                            }
                        }
                    } else if b == p as int {
                        assert(out@[a] == oldout[a]);
                    }
                }
            }
        }
        proof {
            assert(v@.take(i as int + 1).drop_last() =~= v@.take(i as int));
            assert(v@.take(i as int + 1).last() == x);
            assert forall|e: usize| #[trigger] out@.contains(e) <==> v@.take(
                i as int + 1,
            ).contains(e) by {
                let tk = v@.take(i as int + 1);
                if out@.contains(e) {
                    let y = choose|y: int| 0 <= y < out@.len() && #[trigger] out@[y] == e;
                    if e == x {
                        assert(tk[tk.len() - 1] == e);
                    } else {
                        assert(oldout.contains(e)) by {
                            if p < m && oldout[p as int] == x {
                                assert(out@ == oldout);
                            } else {
                                if y < p {
                                    assert(oldout[y] == e);
                                } else if y > p {
                                    assert(oldout[y - 1] == e);
                                }
                            }
                        }
                        assert(v@.take(i as int).contains(e));
                        let z = choose|z: int|
                            0 <= z < v@.take(i as int).len() && #[trigger] v@.take(i as int)[z]
                                == e;
                        assert(tk[z] == e);
                    }
                }
                if tk.contains(e) {
                    let z = choose|z: int| 0 <= z < tk.len() && #[trigger] tk[z] == e;
                    if z < tk.len() - 1 {
                        assert(v@.take(i as int)[z] == e);
                        assert(v@.take(i as int).contains(e));
                        assert(oldout.contains(e));
                        let y = choose|y: int|
                            0 <= y < oldout.len() && #[trigger] oldout[y] == e;
                        if p < m && oldout[p as int] == x {
                            assert(out@[y] == e);
                        } else {
                            if y < p {
                                assert(out@[y] == e);
                            } else {
                                assert(out@[y + 1] == e);
                            }
                        }
                    } else {
                        assert(e == x);
                        if p < m && oldout[p as int] == x {
                            assert(out@[p as int] == e);
                        } else {
                            assert(out@[p as int] == e);
                        }
                    }
                }
            }
        }
        i = i + 1;
    }
    proof {
        assert(v@.take(n as int) =~= v@);
    }
    out
}


/// Everything `ingredient_map` promises of its results: the name table
/// is the distinct names in first-sight order; the lookup list pairs each
/// name with its id; the counts are occurrence counts; every recipe
/// becomes its sorted deduplicated id set; and the co-occurrence points
/// are exactly the canonical pairs of ids that share a recipe, with their
/// recipe counts, in increasing key order.
pub open spec fn ingredient_map_post(
    nv: Seq<Seq<Seq<char>>>,
    map: Seq<(String, usize)>,
    names: Seq<String>,
    counts: Seq<usize>,
    points: Seq<(usize, usize, usize)>,
    rvs: Seq<Vec<usize>>,
) -> bool {
    let u = uniq_names(flat_names(nv));
    let ids = views(rvs);
    &&& names.map_values(|t: String| t@) == u
    &&& map.len() == u.len()
    &&& forall|k: int| 0 <= k < u.len() ==> (#[trigger] map[k]).0@ == u[k] && map[k].1 == k
    &&& counts.len() == u.len()
    &&& forall|k: int|
        0 <= k < u.len() ==> (#[trigger] counts[k]) as nat == occ_count(flat_names(nv), u[k])
    &&& rvs.len() == nv.len()
    &&& forall|t: int| 0 <= t < ids.len() ==> strictly_sorted(#[trigger] ids[t])
    &&& forall|t: int, id: usize|
        0 <= t < ids.len() ==> (#[trigger] ids[t].contains(id) <==> ((id as int) < u.len()
            && nv[t].contains(u[id as int])))
    &&& strictly_sorted_points(points)
    &&& forall|e: int|
        0 <= e < points.len() ==> {
            let p = #[trigger] points[e];
            &&& (p.1 as int) < p.0 as int
            &&& (p.0 as int) < u.len()
            &&& p.2 as nat == co_count(ids, p.0, p.1)
            &&& p.2 > 0
        }
    &&& forall|x: usize, y: usize|
        (y as int) < x as int && (x as int) < u.len() && co_count(ids, x, y) > 0 ==> exists|e: int|
            0 <= e < points.len() && (#[trigger] points[e]) == (x, y, co_count(ids, x, y) as usize)
}

/// Intern a corpus of ingredient-name lists: assign zero-based ids in
/// first-sight order, count occurrences, rewrite every recipe as its
/// sorted deduplicated id list, and count pairwise co-occurrence over
/// recipes into the canonical lower triangle. Returns the name-to-id
/// lookup list, the id-to-name table, the occurrence counts, the
/// co-occurrence points and the per-recipe id lists.
#[verifier::rlimit(80)]
pub fn ingredient_map(ingredients: &Vec<Vec<String>>) -> (r: (
    Vec<(String, usize)>,
    Vec<String>,
    Vec<usize>,
    IngredientCooccurrence,
    Vec<Vec<usize>>,
))
    requires
        flat_names(name_views(ingredients@)).len() <= usize::MAX,
    ensures
        ingredient_map_post(name_views(ingredients@), r.0@, r.1@, r.2@, r.3.points@, r.4@),
{

    let ghost nv = name_views(ingredients@);
    let m = ingredients.len();
    let mut map: Vec<(String, usize)> = Vec::new();
    let mut vec: Vec<String> = Vec::new();
    let mut counts: Vec<usize> = Vec::new();
    let mut raw: Vec<Vec<usize>> = Vec::new();
    let mut t: usize = 0;
    proof {
        lemma_uniq_names(flat_prefix(nv, 0));
    }
    while t < m
        invariant
            t <= m,
            m == nv.len(),
            nv == name_views(ingredients@),
            flat_names(nv).len() <= usize::MAX,
            vec@.map_values(|s: String| s@) == uniq_names(flat_prefix(nv, t as int)),
            map@.len() == vec@.len(),
            counts@.len() == vec@.len(),
            forall|k: int|
                0 <= k < map@.len() ==> (#[trigger] map@[k]).0@ == vec@.map_values(
                    |s: String| s@,
                )[k] && map@[k].1 == k,
            forall|k: int|
                0 <= k < counts@.len() ==> (#[trigger] counts@[k]) as nat == occ_count(
                    flat_prefix(nv, t as int),
                    vec@.map_values(|s: String| s@)[k],
                ),
            raw@.len() == t,
            forall|t2: int|
                0 <= t2 < t ==> (#[trigger] raw@[t2])@.len() == nv[t2].len(),
            forall|t2: int, p2: int|
                0 <= t2 < t && 0 <= p2 < nv[t2].len() ==> ((#[trigger] raw@[t2]@[p2]) as int)
                    < vec@.len() && vec@.map_values(|s: String| s@)[raw@[t2]@[p2] as int]
                    == nv[t2][p2],
        decreases m - t,
    {
        let rl = ingredients[t].len();
        let mut cur: Vec<usize> = Vec::new();
        let mut p: usize = 0;
        proof {
            assert(nv[t as int] =~= ingredients@[t as int]@.map_values(|s: String| s@));
        }
        while p < rl
            invariant
                p <= rl,
                t < m,
                m == nv.len(),
                nv == name_views(ingredients@),
                rl == nv[t as int].len(),
                rl == ingredients@[t as int]@.len(),
                flat_names(nv).len() <= usize::MAX,
                vec@.map_values(|s: String| s@) == uniq_names(
                    flat_prefix(nv, t as int) + nv[t as int].take(p as int),
                ),
                map@.len() == vec@.len(),
                counts@.len() == vec@.len(),
                forall|k: int|
                    0 <= k < map@.len() ==> (#[trigger] map@[k]).0@ == vec@.map_values(
                        |s: String| s@,
                    )[k] && map@[k].1 == k,
                forall|k: int|
                    0 <= k < counts@.len() ==> (#[trigger] counts@[k]) as nat == occ_count(
                        flat_prefix(nv, t as int) + nv[t as int].take(p as int),
                        vec@.map_values(|s: String| s@)[k],
                    ),
                cur@.len() == p,
                forall|p2: int|
                    0 <= p2 < p ==> ((#[trigger] cur@[p2]) as int) < vec@.len()
                        && vec@.map_values(|s: String| s@)[cur@[p2] as int] == nv[t as int][p2],
                raw@.len() == t,
                forall|t2: int|
                    0 <= t2 < t ==> (#[trigger] raw@[t2])@.len() == nv[t2].len(),
                forall|t2: int, p2: int|
                    0 <= t2 < t && 0 <= p2 < nv[t2].len() ==> ((#[trigger] raw@[t2]@[p2]) as int)
                        < vec@.len() && vec@.map_values(|s: String| s@)[raw@[t2]@[p2] as int]
                        == nv[t2][p2],
            decreases rl - p,
        {
            let ghost pref = flat_prefix(nv, t as int) + nv[t as int].take(p as int);
            let ghost prefp = flat_prefix(nv, t as int) + nv[t as int].take(p as int + 1);
            let ghost uv = vec@.map_values(|s: String| s@);
            proof {
                assert(prefp.drop_last() =~= pref);
                assert(prefp.last() == nv[t as int][p as int]);
                lemma_uniq_names(pref);
                lemma_flat_prefix_len(nv, t as int + 1, nv.len() as int);
                assert(flat_prefix(nv, t as int + 1) =~= flat_prefix(nv, t as int)
                    + nv[t as int]);
                assert(prefp.len() <= flat_prefix(nv, t as int + 1).len());
            }
            let name = &ingredients[t][p];
            assert(name@ == nv[t as int][p as int]);
            match find_id(&map, name) {
                Some(k) => {
                    proof {
                        assert(uv[k as int] == name@);
                        assert(uniq_names(prefp) == uniq_names(pref)) by {
                            assert(uniq_names(pref).contains(prefp.last()));
                        }
                        lemma_occ_bound(pref, uv[k as int]);
                    }
                    let c = counts[k];
                    counts.set(k, c + 1);
                    cur.push(k);
                    proof {
                        assert forall|k2: int| 0 <= k2 < counts@.len() implies (
                        #[trigger] counts@[k2]) as nat == occ_count(prefp, uv[k2]) by {
                            if k2 == k as int {
                                assert(prefp.last() == uv[k2]);
                            } else {
                                assert(uv[k2] != uv[k as int]);
                                assert(prefp.last() != uv[k2]);
                            }
                        }
                    }
                },
                None => {
                    proof {
                        assert(!uniq_names(pref).contains(name@)) by {
                            if uniq_names(pref).contains(name@) {
                                let a = choose|a: int|
                                    0 <= a < uniq_names(pref).len() && #[trigger] uniq_names(
                                        pref,
                                    )[a] == name@;
                                assert(map@[a].0@ == uv[a]);
                                assert(false);
                            }
                        }
                        assert(uniq_names(prefp) == uniq_names(pref).push(name@));
                        lemma_occ_zero(pref, name@);
                    }
                    let id = vec.len();
                    vec.push(name.clone());
                    map.push((name.clone(), id));
                    counts.push(1);
                    cur.push(id);
                    proof {
                        let uv2 = vec@.map_values(|s: String| s@);
                        assert(uv2 =~= uv.push(name@));
                        assert forall|k2: int| 0 <= k2 < counts@.len() implies (
                        #[trigger] counts@[k2]) as nat == occ_count(prefp, uv2[k2]) by {
                            if k2 < counts@.len() - 1 {
                                assert(uv2[k2] == uv[k2]);
                                assert(uv[k2] != name@) by {
                                    lemma_uniq_names(prefp);
                                    assert(uniq_names(prefp)[k2] == uv[k2]);
                                    assert(uniq_names(prefp)[uv.len() as int] == name@);
                                }
                                assert(prefp.last() != uv2[k2]);
                            } else {
                                assert(uv2[k2] == name@);
                                assert(occ_count(prefp, name@) == 1);
                            }
                        }
                    }
                },
            }
            proof {
                assert(nv[t as int].take(p as int + 1).drop_last() =~= nv[t as int].take(
                    p as int,
                ));
            }
            p = p + 1;
        }
        proof {
            assert(nv[t as int].take(rl as int) =~= nv[t as int]);
            assert(flat_prefix(nv, t as int) + nv[t as int] =~= flat_prefix(nv, t as int + 1));
        }
        raw.push(cur);
        t = t + 1;
    }
    proof {
        assert(flat_prefix(nv, m as int) == flat_names(nv));
    }

    // Deduplicate and sort every recipe's id list.
    let ghost u = uniq_names(flat_names(nv));
    let mut rvs: Vec<Vec<usize>> = Vec::new();
    let mut t: usize = 0;
    while t < m
        invariant
            t <= m,
            m == nv.len(),
            m == raw@.len(),
            nv == name_views(ingredients@),
            u == uniq_names(flat_names(nv)),
            vec@.map_values(|s: String| s@) == u,
            forall|t2: int|
                0 <= t2 < m ==> (#[trigger] raw@[t2])@.len() == nv[t2].len(),
            forall|t2: int, p2: int|
                0 <= t2 < m && 0 <= p2 < nv[t2].len() ==> ((#[trigger] raw@[t2]@[p2]) as int)
                    < u.len() && u[raw@[t2]@[p2] as int] == nv[t2][p2],
            rvs@.len() == t,
            forall|t2: int| 0 <= t2 < t ==> strictly_sorted((#[trigger] rvs@[t2])@),
            forall|t2: int, id: usize|
                0 <= t2 < t ==> (#[trigger] rvs@[t2]@.contains(id) <==> ((id as int) < u.len()
                    && nv[t2].contains(u[id as int]))),
        decreases m - t,
    {
        let ded = sorted_unique(&raw[t]);
        proof {
            lemma_uniq_names(flat_names(nv));
            assert forall|id: usize|
                ded@.contains(id) <==> ((id as int) < u.len() && nv[t as int].contains(
                    u[id as int],
                )) by {
                if ded@.contains(id) {
                    assert(raw@[t as int]@.contains(id));
                    let p2 = choose|p2: int|
                        0 <= p2 < raw@[t as int]@.len() && (#[trigger] raw@[t as int]@[p2]) == id;
                    assert(u[id as int] == nv[t as int][p2]);
                    assert(nv[t as int].contains(u[id as int]));
                }
                if (id as int) < u.len() && nv[t as int].contains(u[id as int]) {
                    let p2 = choose|p2: int|
                        0 <= p2 < nv[t as int].len() && (#[trigger] nv[t as int][p2]) == u[id as int];
                    let id2 = raw@[t as int]@[p2];
                    assert(u[id2 as int] == nv[t as int][p2]);
                    assert(id2 == id) by {
                        if id2 != id {
                            assert(u[id2 as int] == u[id as int]);
                        }
                    }
                    assert(raw@[t as int]@.contains(id));
                    assert(ded@.contains(id));
                }
            }
        }
        rvs.push(ded);
        t = t + 1;
    }

    // Count pairwise co-occurrence into the canonical lower triangle.
    let k = vec.len();
    let ghost ids = views(rvs@);
    let mut points: Vec<(usize, usize, usize)> = Vec::new();
    let mut x: usize = 0;
    while x < k
        invariant
            x <= k,
            k == u.len(),
            m == rvs@.len(),
            ids == views(rvs@),
            strictly_sorted_points(points@),
            forall|e: int|
                0 <= e < points@.len() ==> {
                    let pt = #[trigger] points@[e];
                    &&& (pt.1 as int) < pt.0 as int
                    &&& (pt.0 as int) < x as int
                    &&& pt.2 as nat == co_count(ids, pt.0, pt.1)
                    &&& pt.2 > 0
                },
            forall|x2: usize, y2: usize|
                (y2 as int) < x2 as int && (x2 as int) < x as int && co_count(ids, x2, y2) > 0
                    ==> exists|e: int|
                    0 <= e < points@.len() && (#[trigger] points@[e]) == (
                        x2,
                        y2,
                        co_count(ids, x2, y2) as usize,
                    ),
        decreases k - x,
    {
        let mut y: usize = 0;
        while y < x
            invariant
                y <= x,
                x < k,
                k == u.len(),
                m == rvs@.len(),
                ids == views(rvs@),
                strictly_sorted_points(points@),
                forall|e: int|
                    0 <= e < points@.len() ==> {
                        let pt = #[trigger] points@[e];
                        &&& (pt.1 as int) < pt.0 as int
                        &&& ((pt.0 as int) < x as int || (pt.0 == x && (pt.1 as int) < y as int))
                        &&& pt.2 as nat == co_count(ids, pt.0, pt.1)
                        &&& pt.2 > 0
                    },
                forall|x2: usize, y2: usize|
                    (y2 as int) < x2 as int && ((x2 as int) < x as int || (x2 == x && (
                    y2 as int) < y as int)) && co_count(ids, x2, y2) > 0 ==> exists|e: int|
                        0 <= e < points@.len() && (#[trigger] points@[e]) == (
                            x2,
                            y2,
                            co_count(ids, x2, y2) as usize,
                        ),
            decreases x - y,
        {
            let mut c: usize = 0;
            let mut t2: usize = 0;
            while t2 < m
                invariant
                    t2 <= m,
                    m == rvs@.len(),
                    ids == views(rvs@),
                    c as nat == co_count_upto(ids, x, y, t2 as int),
                    c <= t2,
                decreases m - t2,
            {
                if holds_id(&rvs[t2], x) && holds_id(&rvs[t2], y) {
                    c = c + 1;
                }
                t2 = t2 + 1;
            }
            assert(c as nat == co_count(ids, x, y));
            let ghost oldpoints = points@;
            if c != 0 {
                points.push((x, y, c));
            }
            proof {
                assert forall|x2: usize, y2: usize|
                    (y2 as int) < x2 as int && ((x2 as int) < x as int || (x2 == x && (
                    y2 as int) < y as int + 1)) && co_count(ids, x2, y2) > 0 implies exists|
                    e: int,
                |
                    0 <= e < points@.len() && (#[trigger] points@[e]) == (
                        x2,
                        y2,
                        co_count(ids, x2, y2) as usize,
                    ) by {
                    if x2 == x && y2 == y {
                        assert(points@[points@.len() - 1] == (x, y, c));
                    } else {
                        let e = choose|e: int|
                            0 <= e < oldpoints.len() && (#[trigger] oldpoints[e]) == (
                                x2,
                                y2,
                                co_count(ids, x2, y2) as usize,
                            );
                        assert(points@[e] == oldpoints[e]);
                    }
                }
            }
            y = y + 1;
        }
        x = x + 1;
    }
    proof {
        let nvv = name_views(ingredients@);
        let uu = uniq_names(flat_names(nvv));
        let idsv = views(rvs@);
        assert(vec@.map_values(|s: String| s@) == uu);
        assert(map@.len() == uu.len());
        assert(forall|k2: int|
            0 <= k2 < uu.len() ==> (#[trigger] map@[k2]).0@ == uu[k2] && map@[k2].1 == k2);
        assert(counts@.len() == uu.len());
        assert(forall|k2: int|
            0 <= k2 < uu.len() ==> (#[trigger] counts@[k2]) as nat == occ_count(
                flat_names(nvv),
                uu[k2],
            ));
        assert(rvs@.len() == nvv.len());
        assert(forall|t2: int| 0 <= t2 < idsv.len() ==> strictly_sorted(#[trigger] idsv[t2]));
        assert(forall|t2: int, id: usize|
            0 <= t2 < idsv.len() ==> (#[trigger] idsv[t2].contains(id) <==> ((id as int)
                < uu.len() && nvv[t2].contains(uu[id as int]))));
        assert(strictly_sorted_points(points@));
        assert(forall|e: int|
            0 <= e < points@.len() ==> {
                let pt = #[trigger] points@[e];
                &&& (pt.1 as int) < pt.0 as int
                &&& (pt.0 as int) < uu.len()
                &&& pt.2 as nat == co_count(idsv, pt.0, pt.1)
                &&& pt.2 > 0
            });
        assert(forall|x2: usize, y2: usize|
            (y2 as int) < x2 as int && (x2 as int) < uu.len() && co_count(idsv, x2, y2) > 0
                ==> exists|e: int|
                0 <= e < points@.len() && (#[trigger] points@[e]) == (
                    x2,
                    y2,
                    co_count(idsv, x2, y2) as usize,
                ));
        assert(ingredient_map_post(nv, map@, vec@, counts@, points@, rvs@));
    }
    (map, vec, counts, IngredientCooccurrence { points }, rvs)
}

/// Lexicographically increasing `(x, y)` keys.
pub open spec fn strictly_sorted_points(s: Seq<(usize, usize, usize)>) -> bool {
    forall|a: int, b: int|
        0 <= a < b < s.len() ==> ((#[trigger] s[a]).0 < (#[trigger] s[b]).0 || (s[a].0 == s[b].0
            && s[a].1 < s[b].1))
}


/// The `(recipe, ingredient)` incidence points of the first `t` recipes,
/// one per deduplicated id, in recipe order.
pub open spec fn ri_points_upto(ids: Seq<Seq<usize>>, t: int) -> Seq<(usize, usize)>
    decreases t,
{
    if t <= 0 {
        Seq::empty()
    } else {
        ri_points_upto(ids, t - 1) + ids[t - 1].map_values(|id: usize| (((t - 1) as usize), id))
    }
}

/// The full bipartite incidence point list.
pub open spec fn ri_points(ids: Seq<Seq<usize>>) -> Seq<(usize, usize)> {
    ri_points_upto(ids, ids.len() as int)
}

/// Build the bipartite `(recipe, ingredient)` point list of deduplicated
/// per-recipe id lists.
pub(crate) fn build_ri_points(rvs: &Vec<Vec<usize>>) -> (r: RecipeIngredient)
    ensures
        r.points@ == ri_points(views(rvs@)),
{
    let ghost ids = views(rvs@);
    let m = rvs.len();
    let mut points: Vec<(usize, usize)> = Vec::new();
    let mut t: usize = 0;
    while t < m
        invariant
            t <= m,
            m == rvs@.len(),
            ids == views(rvs@),
            points@ == ri_points_upto(ids, t as int),
        decreases m - t,
    {
        let rl = rvs[t].len();
        let mut p: usize = 0;
        while p < rl
            invariant
                p <= rl,
                t < m,
                m == rvs@.len(),
                rl == ids[t as int].len(),
                ids == views(rvs@),
                points@ == ri_points_upto(ids, t as int) + ids[t as int].take(p as int).map_values(
                    |id: usize| ((t as usize), id),
                ),
            decreases rl - p,
        {
            let id = rvs[t][p];
            points.push((t, id));
            proof {
                assert(ids[t as int].take(p as int + 1).drop_last() =~= ids[t as int].take(
                    p as int,
                ));
                assert(ids[t as int].take(p as int + 1).map_values(|id2: usize| ((t as usize), id2))
                    =~= ids[t as int].take(p as int).map_values(|id2: usize| ((t as usize), id2))
                    + seq![((t as usize), id)]);
                assert(points@ =~= ri_points_upto(ids, t as int) + ids[t as int].take(
                    p as int + 1,
                ).map_values(|id2: usize| ((t as usize), id2)));
            }
            p = p + 1;
        }
        proof {
            assert(ids[t as int].take(rl as int) =~= ids[t as int]);
            assert(points@ =~= ri_points_upto(ids, t as int + 1));
        }
        t = t + 1;
    }
    RecipeIngredient { points }
}

impl IngredientCooccurrence {
    /// The coolist text of the co-occurrence points: one `i j count` line
    /// per stored pair with `i < j` (the smaller id first, as the edge
    /// list format demands), in stored order. Self-loops are never
    /// stored, so none are emitted.
    pub fn make_coolist(&self) -> (r: String)
        ensures
            r@ == coolist_text(
                self.points@.map_values(|p: (usize, usize, usize)| ((p.1, p.0), p.2)),
            ),
    {
        let n = self.points.len();
        let mut entries: Vec<((usize, usize), usize)> = Vec::new();
        let mut i: usize = 0;
        while i < n
            invariant
                i <= n,
                n == self.points@.len(),
                entries@ == self.points@.take(i as int).map_values(
                    |p: (usize, usize, usize)| ((p.1, p.0), p.2),
                ),
            decreases n - i,
        {
            let (x, y, c) = self.points[i];
            entries.push(((y, x), c));
            proof {
                assert(self.points@.take(i as int + 1).drop_last() =~= self.points@.take(i as int));
                assert(entries@ =~= self.points@.take(i as int + 1).map_values(
                    |p: (usize, usize, usize)| ((p.1, p.0), p.2),
                ));
            }
            i = i + 1;
        }
        let mut out = String::new();
        crate::expanded::render_coolist_from(&entries, 0, &mut out);
        proof {
            assert(self.points@.take(n as int) =~= self.points@);
            assert(entries@.skip(0) =~= entries@);
        }
        out
    }
}

/// Intern a corpus and assemble the full tables: the per-recipe id lists,
/// the interning table (with the corpus size), the bipartite
/// recipe-ingredient incidence points, and the co-occurrence counts.
pub fn init(ingredients: Vec<Vec<String>>) -> (r: (
    RecipeVecs,
    Table,
    RecipeIngredient,
    IngredientCooccurrence,
))
    requires
        flat_names(name_views(ingredients@)).len() <= usize::MAX,
    ensures
        ingredient_map_post(
            name_views(ingredients@),
            r.1.ingredients@,
            r.1.ingredients_vec@,
            r.1.ingredients_count@,
            r.3.points@,
            r.0.recipes@,
        ),
        r.1.recipe_count == ingredients@.len(),
        r.2.points@ == ri_points(views(r.0.recipes@)),
{
    let recipe_count = ingredients.len();
    let (map, vec, counts, cooc, rvs) = ingredient_map(&ingredients);
    let ri = build_ri_points(&rvs);
    let table = Table {
        recipe_count,
        ingredients_vec: vec,
        ingredients: map,
        ingredients_count: counts,
    };
    (RecipeVecs { recipes: rvs }, table, ri, cooc)
}

} // verus!
