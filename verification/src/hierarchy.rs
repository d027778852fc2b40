//! Interpolation hierarchy: parsing the per-level vertex-to-aggregate
//! assignment stream of the external community-detection pass into a chain
//! of partition matrices, composing prefixes of that chain, and
//! reconstructing ingredient/recipe aggregates at any level.
use crate::error::Error;
use crate::expanded::{adjacency_triples, triple_order, ExpandedIngredientRelation, ExpandedVertex};
use crate::matrix::{row_major_sorted, sm_dims, sm_entries, SparseCsr};
use crate::text::{lemma_str_lt_asymmetric, lemma_str_lt_connex, lemma_str_lt_trans, str_lt, string_lt};
use vstd::multiset::Multiset;
use vstd::pervasive::VecAdditionalExecFns;
use vstd::prelude::*;

verus! {

/// A sparse 0/1 partition matrix with exactly one nonzero per row: row
/// `v` (a fine vertex) has its single 1 in column `assign[v]` (the
/// aggregate that absorbs it).
#[derive(Debug)]
pub struct InterpolationMatrix {
    assign: Vec<usize>,
    cols: usize,
}

impl InterpolationMatrix {
    /// Column of the single nonzero of each row.
    pub closed spec fn spec_assign(self) -> Seq<usize> {
        self.assign@
    }

    /// Number of columns (aggregates of the coarser level).
    pub closed spec fn spec_cols(self) -> nat {
        self.cols as nat
    }

    /// Every row's nonzero lies inside the column range.
    pub open spec fn wf(self) -> bool {
        forall|v: int| 0 <= v < self.spec_assign().len() ==> (#[trigger] self.spec_assign()[v])
            < self.spec_cols()
    }

    /// Number of rows (fine vertices of this level).
    pub fn rows(&self) -> (r: usize)
        ensures
            r == self.spec_assign().len(),
    {
        self.assign.len()
    }

    /// Number of columns (aggregates of the next level).
    pub fn num_columns(&self) -> (r: usize)
        ensures
            r == self.spec_cols(),
    {
        self.cols
    }

    /// The aggregate that absorbs fine vertex `v`.
    pub fn aggregate_of(&self, v: usize) -> (r: usize)
        requires
            v < self.spec_assign().len(),
        ensures
            r == self.spec_assign()[v as int],
    {
        self.assign[v]
    }
}

// ---- parsing one level ----

/// Whether some record of the chunk assigns vertex `v`.
pub open spec fn node_covered(chunk: Seq<(usize, usize)>, v: int) -> bool {
    exists|i: int| 0 <= i < chunk.len() && (#[trigger] chunk[i]).0 as int == v
}

/// Largest aggregate id among the first `c` records.
pub open spec fn max_group_upto(chunk: Seq<(usize, usize)>, c: int) -> nat
    decreases c,
{
    if c <= 0 {
        0
    } else {
        let prev = max_group_upto(chunk, c - 1);
        if chunk[c - 1].1 > prev {
            chunk[c - 1].1 as nat
        } else {
            prev
        }
    }
}

/// Largest aggregate id of the chunk.
pub open spec fn max_group(chunk: Seq<(usize, usize)>) -> nat {
    max_group_upto(chunk, chunk.len() as int)
}

/// A well-formed level chunk: one record per vertex of the level — every
/// vertex id below `n`, none repeated, all covered — and the largest
/// aggregate id below the machine limit, so that the aggregate count
/// `max + 1` is representable.
pub open spec fn chunk_ok(chunk: Seq<(usize, usize)>, n: nat) -> bool {
    &&& chunk.len() == n
    &&& forall|i: int| 0 <= i < chunk.len() ==> ((#[trigger] chunk[i]).0 as nat) < n
    &&& forall|i: int, j: int|
        0 <= i < j < chunk.len() ==> (#[trigger] chunk[i]).0 != (#[trigger] chunk[j]).0
    &&& forall|v: int| 0 <= v < n ==> node_covered(chunk, v)
    &&& max_group(chunk) < usize::MAX
}

/// The assignment a well-formed chunk describes: vertex `v` goes to the
/// aggregate of its one record.
pub open spec fn chunk_assign(chunk: Seq<(usize, usize)>, n: nat) -> Seq<usize> {
    Seq::new(
        n,
        |v: int|
            {
                let i = choose|i: int| 0 <= i < chunk.len() && (#[trigger] chunk[i]).0 as int == v;
                chunk[i].1
            },
    )
}

/// What one level of the stream means: `None` where the chunk is not a
/// partition of `0..n`, else the assignment together with the aggregate
/// count `max + 1`.
pub open spec fn spec_level(chunk: Seq<(usize, usize)>, n: nat) -> Option<(Seq<usize>, nat)> {
    if chunk_ok(chunk, n) {
        Some((chunk_assign(chunk, n), max_group(chunk) + 1))
    } else {
        None
    }
}

/// What the whole record stream from `start` on means when the current
/// level holds `n` vertices: the sequence of `(assignment, columns)`
/// pairs, or `None` where some level is malformed or the level sizes do
/// not exactly exhaust the stream.
pub open spec fn spec_levels(records: Seq<(usize, usize)>, start: int, n: nat) -> Option<
    Seq<(Seq<usize>, nat)>,
>
    decreases records.len() - start,
{
    if start == records.len() {
        Some(Seq::empty())
    } else if n == 0 || start < 0 || start + n > records.len() {
        None
    } else {
        match spec_level(records.subrange(start, start + n), n) {
            None => None,
            Some((assign, cols)) => match spec_levels(records, start + n, cols) {
                None => None,
                Some(rest) => Some(seq![(assign, cols)] + rest),
            },
        }
    }
}

/// Parse one level of `n` records beginning at `start`.
fn level_assign(records: &Vec<(usize, usize)>, start: usize, n: usize) -> (r: Result<
    InterpolationMatrix,
    Error,
>)
    requires
        n >= 1,
        start + n <= records@.len(),
    ensures
        match r {
            Ok(m) => {
                &&& spec_level(records@.subrange(start as int, start as int + n), n as nat)
                    == Some((m.spec_assign(), m.spec_cols()))
                &&& m.wf()
                &&& m.spec_assign().len() == n
                &&& m.spec_cols() >= 1
            },
            Err(e) => {
                &&& e == Error::MalformedHierarchyStream
                &&& spec_level(
                    records@.subrange(start as int, start as int + n),
                    n as nat,
                ) is None
            },
        },
{
    let len = records.len();
    let ghost chunk = records@.subrange(start as int, start as int + n);
    let mut assign: Vec<usize> = Vec::new();
    let mut seen: Vec<bool> = Vec::new();
    let mut v: usize = 0;
    while v < n
        invariant
            v <= n,
            assign@.len() == v,
            seen@.len() == v,
            forall|x: int| 0 <= x < v ==> !(#[trigger] seen@[x]),
        decreases n - v,
    {
        assign.push(0);
        seen.push(false);
        v = v + 1;
    }

    let mut maxg: usize = 0;
    let mut c: usize = 0;
    while c < n
        invariant
            c <= n,
            n >= 1,
            len == records@.len(),
            start + n <= len,
            chunk == records@.subrange(start as int, start as int + n),
            chunk.len() == n,
            assign@.len() == n,
            seen@.len() == n,
            maxg as nat == max_group_upto(chunk, c as int),
            maxg < usize::MAX,
            forall|i: int| 0 <= i < c ==> ((#[trigger] chunk[i]).0 as nat) < n as nat,
            forall|i: int, j: int|
                0 <= i < j < c ==> (#[trigger] chunk[i]).0 != (#[trigger] chunk[j]).0,
            forall|i: int|
                0 <= i < c ==> seen@[(#[trigger] chunk[i]).0 as int] && assign@[chunk[i].0 as int]
                    == chunk[i].1,
            forall|x: int|
                0 <= x < n && #[trigger] seen@[x] ==> exists|i: int|
                    0 <= i < c && (#[trigger] chunk[i]).0 as int == x,
        decreases n - c,
    {
        let (node, group) = records[start + c];
        assert(chunk[c as int] == (node, group));
        if node >= n {
            assert(!chunk_ok(chunk, n as nat));
            return Err(Error::MalformedHierarchyStream);
        }
        if seen[node] {
            proof {
                let i0 = choose|i: int|
                    0 <= i < c && (#[trigger] chunk[i]).0 as int == node as int;
                assert(chunk[i0].0 == chunk[c as int].0);
                assert(!chunk_ok(chunk, n as nat));
            }
            return Err(Error::MalformedHierarchyStream);
        }
        if group == usize::MAX {
            proof {
                assert(max_group_upto(chunk, c as int + 1) >= usize::MAX) by {
                    assert(chunk[c as int].1 == group);
                }
                lemma_max_group_mono(chunk, c as int + 1, chunk.len() as int);
                assert(!chunk_ok(chunk, n as nat));
            }
            return Err(Error::MalformedHierarchyStream);
        }
        seen.set(node, true);
        assign.set(node, group);
        if group > maxg {
            maxg = group;
        }
        proof {
            assert(seen@[chunk[c as int].0 as int]);
            assert forall|x: int|
                0 <= x < n && #[trigger] seen@[x] implies exists|i: int|
                0 <= i < c as int + 1 && (#[trigger] chunk[i]).0 as int == x by {
                if x == node as int {
                    assert(chunk[c as int].0 as int == x);
                } else {
                    let i0 = choose|i: int| 0 <= i < c && (#[trigger] chunk[i]).0 as int == x;
                    assert(0 <= i0 && i0 < c as int + 1 && chunk[i0].0 as int == x);
                }
            }
        }
        c = c + 1;
    }
    // Every vertex of the level must be covered.
    let mut v: usize = 0;
    while v < n
        invariant
            v <= n,
            n >= 1,
            start + n <= records@.len(),
            chunk == records@.subrange(start as int, start as int + n),
            seen@.len() == n,
            chunk.len() == n,
            maxg < usize::MAX,
            maxg as nat == max_group(chunk),
            assign@.len() == n,
            forall|i: int| 0 <= i < n ==> ((#[trigger] chunk[i]).0 as nat) < n as nat,
            forall|i: int, j: int|
                0 <= i < j < n ==> (#[trigger] chunk[i]).0 != (#[trigger] chunk[j]).0,
            forall|i: int|
                0 <= i < n ==> seen@[(#[trigger] chunk[i]).0 as int] && assign@[chunk[i].0 as int]
                    == chunk[i].1,
            forall|x: int|
                0 <= x < n && #[trigger] seen@[x] ==> exists|i: int|
                    0 <= i < n && (#[trigger] chunk[i]).0 as int == x,
            forall|x: int| 0 <= x < v ==> #[trigger] seen@[x],
        decreases n - v,
    {
        if !seen[v] {
            proof {
                if node_covered(chunk, v as int) {
                    let i = choose|i: int|
                        0 <= i < chunk.len() && (#[trigger] chunk[i]).0 as int == v as int;
                    assert(seen@[v as int]);
                }
                assert(!chunk_ok(chunk, n as nat));
            }
            return Err(Error::MalformedHierarchyStream);
        }
        v = v + 1;
    }
    let cols = maxg + 1;
    let mat = InterpolationMatrix { assign, cols };
    proof {
        assert forall|x: int| 0 <= x < n implies node_covered(chunk, x) by {
            assert(seen@[x]);
            let i = choose|i: int| 0 <= i < n && (#[trigger] chunk[i]).0 as int == x;
            assert(0 <= i && i < chunk.len() && chunk[i].0 as int == x);
        }
        assert(chunk_ok(chunk, n as nat));
        assert forall|x: int| 0 <= x < n implies mat.spec_assign()[x] == chunk_assign(
            chunk,
            n as nat,
        )[x] by {
            assert(node_covered(chunk, x));
            let i = choose|i: int| 0 <= i < chunk.len() && (#[trigger] chunk[i]).0 as int == x;
            assert(mat.spec_assign()[chunk[i].0 as int] == chunk[i].1);
        }
        assert(mat.spec_assign() =~= chunk_assign(chunk, n as nat));
        assert forall|x: int| 0 <= x < n implies (#[trigger] mat.spec_assign()[x])
            < mat.spec_cols() by {
            assert(node_covered(chunk, x));
            let i = choose|i: int| 0 <= i < chunk.len() && (#[trigger] chunk[i]).0 as int == x;
            assert(mat.spec_assign()[x] == chunk[i].1);
            lemma_max_group_bound(chunk, i);
        }
    }
    Ok(mat)
}

proof fn lemma_max_group_mono(chunk: Seq<(usize, usize)>, a: int, b: int)
    requires
        a <= b,
    ensures
        max_group_upto(chunk, a) <= max_group_upto(chunk, b),
    decreases b - a,
{
    if a < b {
        lemma_max_group_mono(chunk, a, b - 1);
    }
}

proof fn lemma_max_group_bound(chunk: Seq<(usize, usize)>, i: int)
    requires
        0 <= i < chunk.len(),
    ensures
        chunk[i].1 as nat <= max_group(chunk),
{
    assert(chunk[i].1 as nat <= max_group_upto(chunk, i + 1));
    lemma_max_group_mono(chunk, i + 1, chunk.len() as int);
}

/// The views of a matrix chain: `(assignment, columns)` per level.
pub open spec fn matrix_views(ms: Seq<InterpolationMatrix>) -> Seq<(Seq<usize>, nat)> {
    ms.map_values(|m: InterpolationMatrix| (m.spec_assign(), m.spec_cols()))
}

/// A chain of well-formed matrices whose row counts follow from `n` and
/// from the previous level's column count.
pub open spec fn chain_ok(ms: Seq<InterpolationMatrix>, n: nat) -> bool {
    &&& forall|l: int| 0 <= l < ms.len() ==> (#[trigger] ms[l]).wf()
    &&& forall|l: int|
        0 <= l < ms.len() ==> (#[trigger] ms[l]).spec_assign().len() == (if l == 0 {
            n
        } else {
            ms[l - 1].spec_cols()
        })
}

/// Parse the flat assignment stream of the external community-detection
/// pass into the chain of interpolation matrices it describes. Level 0
/// holds `n` records; each later level holds as many records as the
/// previous level had aggregates; the stream must be exhausted exactly.
/// Fails with `MalformedHierarchyStream` exactly when the stream does not
/// have this shape.
#[verifier::rlimit(40)]
pub fn build_interpolation_matrices(records: &Vec<(usize, usize)>, n: usize) -> (r: Result<
    Vec<InterpolationMatrix>,
    Error,
>)
    ensures
        match r {
            Ok(ms) => {
                &&& spec_levels(records@, 0, n as nat) == Some(matrix_views(ms@))
                &&& chain_ok(ms@, n as nat)
                &&& ms@.len() > 0 ==> ms@[0].spec_assign().len() == n
            },
            Err(e) => {
                &&& e == Error::MalformedHierarchyStream
                &&& spec_levels(records@, 0, n as nat) is None
            },
        },
{
    let len = records.len();
    let mut ms: Vec<InterpolationMatrix> = Vec::new();
    let mut start: usize = 0;
    let mut ncur: usize = n;
    while start < len
        invariant
            start <= len,
            len == records@.len(),
            chain_ok(ms@, n as nat),
            ms@.len() > 0 ==> ms@[0].spec_assign().len() == n,
            ms@.len() > 0 ==> ncur as nat == ms@[ms@.len() - 1].spec_cols(),
            ms@.len() == 0 ==> ncur == n && start == 0,
            match spec_levels(records@, start as int, ncur as nat) {
                Some(rest) => spec_levels(records@, 0, n as nat) == Some(matrix_views(ms@) + rest),
                None => spec_levels(records@, 0, n as nat) is None,
            },
        decreases len - start,
    {
        if ncur == 0 || ncur > len - start {
            return Err(Error::MalformedHierarchyStream);
        }
        let mat = match level_assign(records, start, ncur) {
            Ok(mat) => mat,
            Err(e) => {
                return Err(e);
            },
        };
        let cols = mat.num_columns();
        let ghost oldms = ms@;
        let ghost oldstart = start as int;
        let ghost oldn = ncur as nat;
        ms.push(mat);
        proof {
            assert(matrix_views(ms@) =~= matrix_views(oldms) + seq![
                (ms@[ms@.len() - 1].spec_assign(), ms@[ms@.len() - 1].spec_cols()),
            ]);
            assert forall|rest: Seq<(Seq<usize>, nat)>|
                spec_levels(records@, oldstart + oldn, cols as nat) == Some(rest) implies
                spec_levels(records@, 0, n as nat) == Some(matrix_views(ms@) + rest) by {
                assert(spec_levels(records@, oldstart, oldn) == Some(
                    seq![(ms@[ms@.len() - 1].spec_assign(), ms@[ms@.len() - 1].spec_cols())]
                        + rest,
                ));
                assert(matrix_views(oldms) + (seq![
                    (ms@[ms@.len() - 1].spec_assign(), ms@[ms@.len() - 1].spec_cols()),
                ] + rest) =~= matrix_views(ms@) + rest);
            }
            if spec_levels(records@, oldstart + oldn, cols as nat) is None {
                assert(spec_levels(records@, oldstart, oldn) is None);
            }
        }
        start = start + ncur;
        ncur = cols;
    }
    proof {
        assert(spec_levels(records@, start as int, ncur as nat) == Some(
            Seq::<(Seq<usize>, nat)>::empty(),
        ));
        assert(matrix_views(ms@) + Seq::<(Seq<usize>, nat)>::empty() =~= matrix_views(ms@));
    }
    Ok(ms)
}


// ---- composing the chain ----

/// Composition of two partition assignments: first map through `a`, then
/// through `b`.
pub open spec fn compose_assign(a: Seq<usize>, b: Seq<usize>) -> Seq<usize> {
    Seq::new(a.len(), |v: int| b[a[v] as int])
}

/// The 0/1 entry of the partition matrix of an assignment: row `r` holds
/// a 1 exactly in column `assign[r]`.
pub open spec fn pmat_entry(assign: Seq<usize>, cols: nat, r: int, c: int) -> nat {
    if 0 <= r < assign.len() && 0 <= c < cols && assign[r] as int == c {
        1
    } else {
        0
    }
}

/// Partial dot product of row `r` of the first partition matrix with
/// column `c` of the second, over inner indices below `jlim`.
pub open spec fn mat_prod_partial(
    a_assign: Seq<usize>,
    a_cols: nat,
    b_assign: Seq<usize>,
    b_cols: nat,
    r: int,
    c: int,
    jlim: int,
) -> nat
    decreases jlim,
{
    if jlim <= 0 {
        0
    } else {
        mat_prod_partial(a_assign, a_cols, b_assign, b_cols, r, c, jlim - 1) + pmat_entry(
            a_assign,
            a_cols,
            r,
            jlim - 1,
        ) * pmat_entry(b_assign, b_cols, jlim - 1, c)
    }
}

/// Entry `(r, c)` of the matrix product of two partition matrices: the
/// dot product over the full inner dimension.
pub open spec fn mat_prod_entry(
    a_assign: Seq<usize>,
    a_cols: nat,
    b_assign: Seq<usize>,
    b_cols: nat,
    r: int,
    c: int,
) -> nat {
    mat_prod_partial(a_assign, a_cols, b_assign, b_cols, r, c, a_cols as int)
}

proof fn lemma_prod_partial_value(
    a_assign: Seq<usize>,
    a_cols: nat,
    b_assign: Seq<usize>,
    b_cols: nat,
    r: int,
    c: int,
    jlim: int,
)
    requires
        0 <= r < a_assign.len(),
        (a_assign[r] as nat) < a_cols,
        0 <= jlim <= a_cols,
    ensures
        mat_prod_partial(a_assign, a_cols, b_assign, b_cols, r, c, jlim) == (
        if (a_assign[r] as int) < jlim {
            pmat_entry(b_assign, b_cols, a_assign[r] as int, c)
        } else {
            0
        }),
    decreases jlim,
{
    if jlim > 0 {
        lemma_prod_partial_value(a_assign, a_cols, b_assign, b_cols, r, c, jlim - 1);
        assert(pmat_entry(b_assign, b_cols, jlim - 1, c) <= 1);
    }
}

/// Composition law: the matrix product of two partition matrices is the
/// partition matrix of the composed assignment. In particular every row
/// of the product again has exactly one nonzero entry, of value 1, so the
/// partition invariant is preserved under composition.
pub proof fn lemma_partition_product(a: InterpolationMatrix, b: InterpolationMatrix)
    ensures
        a.wf() && b.wf() && a.spec_cols() == b.spec_assign().len() ==> forall|r: int, c: int|
            #![trigger mat_prod_entry(a.spec_assign(), a.spec_cols(), b.spec_assign(), b.spec_cols(), r, c)]
            0 <= r < a.spec_assign().len() ==> mat_prod_entry(
                a.spec_assign(),
                a.spec_cols(),
                b.spec_assign(),
                b.spec_cols(),
                r,
                c,
            ) == pmat_entry(
                compose_assign(a.spec_assign(), b.spec_assign()),
                b.spec_cols(),
                r,
                c,
            ),
{
    if a.wf() && b.wf() && a.spec_cols() == b.spec_assign().len() {
        assert forall|r: int, c: int|
            0 <= r < a.spec_assign().len() implies #[trigger] mat_prod_entry(
            a.spec_assign(),
            a.spec_cols(),
            b.spec_assign(),
            b.spec_cols(),
            r,
            c,
        ) == pmat_entry(compose_assign(a.spec_assign(), b.spec_assign()), b.spec_cols(), r, c) by {
            lemma_prod_partial_value(
                a.spec_assign(),
                a.spec_cols(),
                b.spec_assign(),
                b.spec_cols(),
                r,
                c,
                a.spec_cols() as int,
            );
            assert(compose_assign(a.spec_assign(), b.spec_assign())[r] == b.spec_assign()[a.spec_assign()[r] as int]);
        }
    }
}

/// The composed partition at `level`: the identity for level 0, else the
/// previous level's partition pushed through matrix `level - 1`. This is
/// the assignment form of the left-to-right matrix product
/// of the first `level` interpolation matrices.
pub open spec fn spec_partition(ms: Seq<InterpolationMatrix>, n: nat, level: int) -> Seq<usize>
    decreases level,
{
    if level <= 0 {
        Seq::new(n, |v: int| v as usize)
    } else {
        compose_assign(spec_partition(ms, n, level - 1), ms[level - 1].spec_assign())
    }
}

/// Number of aggregates at a level: `n` for level 0, else the column
/// count of the matrix producing that level.
pub open spec fn level_width(ms: Seq<InterpolationMatrix>, n: nat, level: int) -> nat {
    if level <= 0 {
        n
    } else {
        ms[level - 1].spec_cols()
    }
}

/// Level 0 is the identity partition: every vertex is its own aggregate.
pub proof fn lemma_level_zero_identity(ms: Seq<InterpolationMatrix>, n: nat)
    requires
        n <= usize::MAX,
    ensures
        spec_partition(ms, n, 0).len() == n,
        forall|v: int| 0 <= v < n ==> (#[trigger] spec_partition(ms, n, 0)[v]) as int == v,
{
}

/// Along a well-formed chain the composed partition keeps `n` rows and
/// its values stay below the level's aggregate count.
pub proof fn lemma_spec_partition_wf(ms: Seq<InterpolationMatrix>, n: nat, level: int)
    requires
        chain_ok(ms, n),
        0 <= level <= ms.len(),
    ensures
        spec_partition(ms, n, level).len() == n,
        forall|v: int|
            0 <= v < n ==> (#[trigger] spec_partition(ms, n, level)[v] as nat) < level_width(
                ms,
                n,
                level,
            ),
    decreases level,
{
    if level > 0 {
        lemma_spec_partition_wf(ms, n, level - 1);
        assert(ms[level - 1].wf());
        assert(ms[level - 1].spec_assign().len() == level_width(ms, n, level - 1));
    }
}

/// Compose two partition matrices.
fn compose(a: &InterpolationMatrix, b: &InterpolationMatrix) -> (r: InterpolationMatrix)
    requires
        a.wf(),
        b.wf(),
        a.spec_cols() == b.spec_assign().len(),
    ensures
        r.spec_assign() == compose_assign(a.spec_assign(), b.spec_assign()),
        r.spec_cols() == b.spec_cols(),
        r.wf(),
{
    let n = a.assign.len();
    let mut assign: Vec<usize> = Vec::new();
    let mut v: usize = 0;
    while v < n
        invariant
            v <= n,
            n == a.spec_assign().len(),
            a.wf(),
            b.wf(),
            a.spec_cols() == b.spec_assign().len(),
            assign@.len() == v,
            forall|x: int| 0 <= x < v ==> (#[trigger] assign@[x]) == b.spec_assign()[a.spec_assign()[x] as int],
        decreases n - v,
    {
        let j = a.assign[v];
        assign.push(b.assign[j]);
        v = v + 1;
    }
    let r = InterpolationMatrix { assign, cols: b.cols };
    proof {
        assert(r.spec_assign() =~= compose_assign(a.spec_assign(), b.spec_assign()));
    }
    r
}


// ---- sorting aggregate entries ----

/// Order on aggregate entries: more contributing recipes first; among
/// equal counts, names in increasing lexicographic order.
pub open spec fn entry_le(x: (String, Vec<usize>), y: (String, Vec<usize>)) -> bool {
    x.1@.len() > y.1@.len() || (x.1@.len() == y.1@.len() && !str_lt(y.0@, x.0@))
}

/// Pairwise sortedness under [`entry_le`].
pub open spec fn entries_sorted(s: Seq<(String, Vec<usize>)>) -> bool {
    forall|x: int, y: int| 0 <= x < y < s.len() ==> entry_le(#[trigger] s[x], #[trigger] s[y])
}

proof fn lemma_entry_le_refl(x: (String, Vec<usize>))
    ensures
        entry_le(x, x),
{
    if str_lt(x.0@, x.0@) {
        lemma_str_lt_asymmetric(x.0@, x.0@);
    }
}

proof fn lemma_entry_le_connex(x: (String, Vec<usize>), y: (String, Vec<usize>))
    ensures
        entry_le(x, y) || entry_le(y, x),
{
    if x.1@.len() == y.1@.len() {
        lemma_str_lt_connex(x.0@, y.0@);
        if str_lt(x.0@, y.0@) {
            lemma_str_lt_asymmetric(x.0@, y.0@);
        }
    }
}

proof fn lemma_entry_le_trans(x: (String, Vec<usize>), y: (String, Vec<usize>), z: (String, Vec<usize>))
    requires
        entry_le(x, y),
        entry_le(y, z),
    ensures
        entry_le(x, z),
{
    if x.1@.len() == y.1@.len() && y.1@.len() == z.1@.len() {
        if str_lt(z.0@, x.0@) {
            lemma_str_lt_connex(x.0@, y.0@);
            lemma_str_lt_connex(y.0@, z.0@);
            if str_lt(x.0@, y.0@) {
                lemma_str_lt_trans(z.0@, x.0@, y.0@);
                lemma_str_lt_asymmetric(z.0@, y.0@);
            } else if str_lt(y.0@, z.0@) {
                lemma_str_lt_trans(y.0@, z.0@, x.0@);
                lemma_str_lt_asymmetric(y.0@, x.0@);
            } else if x.0@ == y.0@ {
                lemma_str_lt_asymmetric(z.0@, x.0@);
            } else {
                lemma_str_lt_asymmetric(z.0@, x.0@);
            }
        }
    }
}

/// Whether `x` comes no later than `y` when sorting aggregate entries.
fn entry_le_exec(x: &(String, Vec<usize>), y: &(String, Vec<usize>)) -> (r: bool)
    ensures
        r == entry_le(*x, *y),
{
    x.1.len() > y.1.len() || (x.1.len() == y.1.len() && !string_lt(y.0.as_str(), x.0.as_str()))
}

/// Sort aggregate entries by descending recipe count, ties by name. The
/// result holds exactly the input entries; distinct names stay distinct.
fn sort_entries(input: Vec<(String, Vec<usize>)>) -> (out: Vec<(String, Vec<usize>)>)
    ensures
        entries_sorted(out@),
        out@.to_multiset() == input@.to_multiset(),
        forall|e: (String, Vec<usize>)| out@.contains(e) <==> input@.contains(e),
        names_unique(input@) ==> names_unique(out@),
{
    broadcast use vstd::seq_lib::group_to_multiset_ensures;

    let ghost orig = input@;
    let mut rest = input;
    let mut out: Vec<(String, Vec<usize>)> = Vec::new();
    while rest.len() > 0
        invariant
            out@.to_multiset().add(rest@.to_multiset()) =~= orig.to_multiset(),
            entries_sorted(out@),
            forall|o: int, r: int|
                0 <= o < out@.len() && 0 <= r < rest@.len() ==> entry_le(
                    #[trigger] out@[o],
                    #[trigger] rest@[r],
                ),
            names_unique(orig) ==> {
                &&& forall|o: int, r: int|
                    0 <= o < out@.len() && 0 <= r < rest@.len() ==> (#[trigger] out@[o]).0@ != (
                    #[trigger] rest@[r]).0@
                &&& names_unique(out@)
                &&& names_unique(rest@)
            },
        decreases rest@.len(),
    {
        let m = rest.len();
        let mut best: usize = 0;
        let mut x: usize = 1;
        proof {
            lemma_entry_le_refl(rest@[0]);
        }
        while x < m
            invariant
                1 <= m,
                m == rest@.len(),
                best < x,
                x <= m,
                forall|y: int| 0 <= y < x ==> entry_le(rest@[best as int], #[trigger] rest@[y]),
            decreases m - x,
        {
            if !entry_le_exec(&rest[best], &rest[x]) {
                proof {
                    lemma_entry_le_connex(rest@[best as int], rest@[x as int]);
                    assert forall|y: int| 0 <= y < x + 1 implies entry_le(
                        rest@[x as int],
                        #[trigger] rest@[y],
                    ) by {
                        if y < x {
                            lemma_entry_le_trans(rest@[x as int], rest@[best as int], rest@[y]);
                        } else {
                            lemma_entry_le_refl(rest@[x as int]);
                        }
                    }
                }
                best = x;
            }
            x = x + 1;
        }
        let ghost pre = rest@;
        let ghost oldout = out@;
        let e = rest.remove(best);
        out.push(e);
        proof {
            pre.to_multiset_ensures();
            oldout.to_multiset_ensures();
            assert(e == pre[best as int]);
            assert(rest@ == pre.remove(best as int));
            assert(forall|r: int| 0 <= r < best ==> #[trigger] rest@[r] == pre[r]);
            assert(forall|r: int|
                best <= r < rest@.len() ==> #[trigger] rest@[r] == pre[r + 1]);
            assert(pre.to_multiset().count(e) > 0) by {
                assert(pre[best as int] == e);
                assert(pre.contains(e));
            }
            assert(rest@.to_multiset() =~= pre.to_multiset().remove(e));
            assert(out@.to_multiset() =~= oldout.to_multiset().insert(e));
            assert(out@.to_multiset().add(rest@.to_multiset()) =~= orig.to_multiset());
            assert forall|o: int, r: int|
                0 <= o < out@.len() && 0 <= r < rest@.len() implies entry_le(
                #[trigger] out@[o],
                #[trigger] rest@[r],
            ) by {
                if o < out@.len() - 1 {
                    if r < best {
                        assert(rest@[r] == pre[r]);
                    } else {
                        assert(rest@[r] == pre[r + 1]);
                    }
                } else {
                    assert(out@[o] == e);
                    if r < best {
                        assert(entry_le(pre[best as int], pre[r]));
                    } else {
                        assert(entry_le(pre[best as int], pre[r + 1]));
                    }
                }
            }
            assert(entries_sorted(out@)) by {
                assert forall|a: int, b: int| 0 <= a < b < out@.len() implies entry_le(
                    #[trigger] out@[a],
                    #[trigger] out@[b],
                ) by {
                    if b == out@.len() - 1 {
                        assert(out@[a] == oldout[a]);
                        assert(entry_le(oldout[a], pre[best as int]));
                    }
                }
            }
            if names_unique(orig) {
                assert forall|o: int, r: int|
                    0 <= o < out@.len() && 0 <= r < rest@.len() implies (#[trigger] out@[o]).0@
                    != (#[trigger] rest@[r]).0@ by {
                    if o == out@.len() - 1 {
                        if r < best {
                            assert(rest@[r] == pre[r]);
                            assert(pre[r].0@ != pre[best as int].0@);
                        } else {
                            assert(rest@[r] == pre[r + 1]);
                            assert(pre[best as int].0@ != pre[r + 1].0@);
                        }
                    } else {
                        assert(out@[o] == oldout[o]);
                        if r < best {
                            assert(rest@[r] == pre[r]);
                        } else {
                            assert(rest@[r] == pre[r + 1]);
                        }
                    }
                }
                assert(names_unique(out@)) by {
                    assert forall|a: int, b: int|
                        0 <= a < b < out@.len() implies (#[trigger] out@[a]).0@ != (
                        #[trigger] out@[b]).0@ by {
                        if b == out@.len() - 1 {
                            assert(out@[a] == oldout[a]);
                            assert(oldout[a].0@ != pre[best as int].0@);
                        }
                    }
                }
                assert(names_unique(rest@)) by {
                    assert forall|a: int, b: int|
                        0 <= a < b < rest@.len() implies (#[trigger] rest@[a]).0@ != (
                        #[trigger] rest@[b]).0@ by {
                        if a < best {
                            assert(rest@[a] == pre[a]);
                        } else {
                            assert(rest@[a] == pre[a + 1]);
                        }
                        if b < best {
                            assert(rest@[b] == pre[b]);
                        } else {
                            assert(rest@[b] == pre[b + 1]);
                        }
                    }
                }
            }
        }
    }
    proof {
        assert(rest@.to_multiset() =~= Multiset::<(String, Vec<usize>)>::empty()) by {
            assert(rest@ =~= Seq::<(String, Vec<usize>)>::empty());
        }
        assert(out@.to_multiset() =~= orig.to_multiset());
        assert forall|e: (String, Vec<usize>)| out@.contains(e) <==> input@.contains(e) by {
            assert(out@.contains(e) <==> out@.to_multiset().count(e) > 0);
            assert(input@.contains(e) <==> input@.to_multiset().count(e) > 0);
        }
    }
    out
}

/// All entry names pairwise distinct.
pub open spec fn names_unique(s: Seq<(String, Vec<usize>)>) -> bool {
    forall|x: int, y: int|
        0 <= x < y < s.len() ==> (#[trigger] s[x]).0@ != (#[trigger] s[y]).0@
}


// ---- the hierarchy ----

/// The `(ingredient id, recipe id)` pair a vertex contributes to
/// reconstruction, if it is an instance vertex; pure hubs contribute
/// nothing.
pub open spec fn vertex_pair(vs: Seq<ExpandedVertex>, v: int) -> Option<(usize, usize)> {
    match (vs[v].spec_ingredient_id(), vs[v].spec_recipe_id()) {
        (Some(i), Some(rec)) => Some((i, rec)),
        _ => None,
    }
}

/// Recipes contributed to aggregate `a` under ingredient name `nm` by the
/// first `v` vertices, in vertex order.
pub open spec fn agg_recipes_upto(
    vs: Seq<ExpandedVertex>,
    names: Seq<Seq<char>>,
    part: Seq<usize>,
    a: int,
    nm: Seq<char>,
    v: int,
) -> Seq<usize>
    decreases v,
{
    if v <= 0 {
        Seq::empty()
    } else {
        let prev = agg_recipes_upto(vs, names, part, a, nm, v - 1);
        match vertex_pair(vs, v - 1) {
            Some(pr) => if part[v - 1] as int == a && (pr.0 as int) < names.len() && names[pr.0 as int]
                == nm {
                prev.push(pr.1)
            } else {
                prev
            },
            None => prev,
        }
    }
}

/// Recipes contributed to aggregate `a` under ingredient name `nm` by the
/// whole vertex arena.
pub open spec fn agg_recipes(
    vs: Seq<ExpandedVertex>,
    names: Seq<Seq<char>>,
    part: Seq<usize>,
    a: int,
    nm: Seq<char>,
) -> Seq<usize> {
    agg_recipes_upto(vs, names, part, a, nm, vs.len() as int)
}

/// Whether aggregate `a` survives the target filter: every target name
/// has at least one contributing vertex in `a`.
pub open spec fn agg_keeps(
    vs: Seq<ExpandedVertex>,
    names: Seq<Seq<char>>,
    part: Seq<usize>,
    targets: Seq<Seq<char>>,
    a: int,
) -> bool {
    forall|ti: int|
        0 <= ti < targets.len() ==> agg_recipes(vs, names, part, a, #[trigger] targets[ti]).len()
            > 0
}

/// The aggregate ids below `a` that survive the target filter, in
/// increasing order.
pub open spec fn kept_aggs_upto(
    vs: Seq<ExpandedVertex>,
    names: Seq<Seq<char>>,
    part: Seq<usize>,
    targets: Seq<Seq<char>>,
    a: int,
) -> Seq<int>
    decreases a,
{
    if a <= 0 {
        Seq::empty()
    } else {
        let prev = kept_aggs_upto(vs, names, part, targets, a - 1);
        if agg_keeps(vs, names, part, targets, a - 1) {
            prev.push(a - 1)
        } else {
            prev
        }
    }
}

/// A multilevel view of the expanded relation: the relation itself, its
/// materialized adjacency matrix, the ingredient name table and lookup
/// map, and the chain of interpolation matrices of the external
/// community-detection pass.
pub struct Hierarchy {
    interpolation_matrices: Vec<InterpolationMatrix>,
    ingredients_vec: Vec<String>,
    ingredients_map: Vec<(String, (usize, usize))>,
    ingredient_ingredient: SparseCsr,
    relation: ExpandedIngredientRelation,
}

impl Hierarchy {
    pub closed spec fn spec_matrices(self) -> Seq<InterpolationMatrix> {
        self.interpolation_matrices@
    }

    pub closed spec fn spec_ingredients(self) -> Seq<String> {
        self.ingredients_vec@
    }

    pub closed spec fn spec_ingredients_map(self) -> Seq<(String, (usize, usize))> {
        self.ingredients_map@
    }

    pub closed spec fn spec_relation(self) -> ExpandedIngredientRelation {
        self.relation
    }

    pub closed spec fn spec_adjacency(self) -> SparseCsr {
        self.ingredient_ingredient
    }

    /// The ingredient names as character sequences, indexed by id.
    pub open spec fn spec_names(self) -> Seq<Seq<char>> {
        self.spec_ingredients().map_values(|s: String| s@)
    }

    /// Well-formed: the relation is well-formed, the matrix chain starts
    /// at its vertex count and is chain-composable, and every ingredient
    /// id named by a vertex has a name in the table.
    pub open spec fn wf(self) -> bool {
        &&& self.spec_relation().wf()
        &&& chain_ok(self.spec_matrices(), self.spec_relation().spec_vertices().len())
        &&& forall|v: int|
            0 <= v < self.spec_relation().spec_vertices().len()
                ==> match (#[trigger] self.spec_relation().spec_vertices()[v]).spec_ingredient_id() {
                Some(i) => (i as int) < self.spec_ingredients().len(),
                None => true,
            }
    }

    /// Assemble a hierarchy; the adjacency matrix of the relation is
    /// materialized here once and kept.
    pub fn new(
        interpolation_matrices: Vec<InterpolationMatrix>,
        ingredients_vec: Vec<String>,
        ingredients_map: Vec<(String, (usize, usize))>,
        relation: ExpandedIngredientRelation,
    ) -> (h: Hierarchy)
        requires
            relation.wf(),
            chain_ok(interpolation_matrices@, relation.spec_vertices().len()),
            forall|v: int|
                0 <= v < relation.spec_vertices().len() ==> match (#[trigger] relation.spec_vertices()[v]).spec_ingredient_id() {
                    Some(i) => (i as int) < ingredients_vec@.len(),
                    None => true,
                },
        ensures
            h.wf(),
            h.spec_matrices() == interpolation_matrices@,
            h.spec_ingredients() == ingredients_vec@,
            h.spec_ingredients_map() == ingredients_map@,
            h.spec_relation() == relation,
            sm_dims(h.spec_adjacency()).0 == relation.spec_vertices().len(),
            sm_dims(h.spec_adjacency()).1 == relation.spec_vertices().len(),
            sm_entries(h.spec_adjacency()) == adjacency_triples(relation.edge_entries()).sort_by(
                triple_order(),
            ),
            sm_entries(h.spec_adjacency()).to_multiset() == adjacency_triples(
                relation.edge_entries(),
            ).to_multiset(),
            row_major_sorted(sm_entries(h.spec_adjacency())),
    {
        let ingredient_ingredient = relation.build_adjacency_matrix();
        Hierarchy {
            interpolation_matrices,
            ingredients_map,
            ingredients_vec,
            ingredient_ingredient,
            relation,
        }
    }

    /// The name-to-(id, count) lookup table, keyed by ingredient name.
    pub fn ingredients_map(&self) -> (r: &Vec<(String, (usize, usize))>)
        ensures
            r@ == self.spec_ingredients_map(),
    {
        &self.ingredients_map
    }

    /// The materialized adjacency matrix of the expanded relation.
    pub fn adjacency_matrix(&self) -> (r: &SparseCsr)
        ensures
            *r == self.spec_adjacency(),
    {
        &self.ingredient_ingredient
    }

    /// Number of query levels: every interpolation matrix adds one level
    /// on top of the identity level 0.
    pub fn num_levels(&self) -> (r: usize)
        requires
            self.spec_matrices().len() < usize::MAX,
        ensures
            r == self.spec_matrices().len() + 1,
    {
        self.interpolation_matrices.len() + 1
    }

    /// The composed partition at `level`: the identity partition for
    /// level 0, else the product of the first `level` interpolation
    /// matrices.
    pub fn partition_at_level(&self, level: usize) -> (r: InterpolationMatrix)
        requires
            self.wf(),
            level <= self.spec_matrices().len(),
        ensures
            r.spec_assign() == spec_partition(
                self.spec_matrices(),
                self.spec_relation().spec_vertices().len(),
                level as int,
            ),
            r.spec_cols() == level_width(
                self.spec_matrices(),
                self.spec_relation().spec_vertices().len(),
                level as int,
            ),
            r.wf(),
    {
        let n = self.relation.number_of_vertices();
        let ghost ms = self.spec_matrices();
        let mut assign: Vec<usize> = Vec::new();
        let mut v: usize = 0;
        while v < n
            invariant
                v <= n,
                assign@.len() == v,
                forall|x: int| 0 <= x < v ==> (#[trigger] assign@[x]) == x,
            decreases n - v,
        {
            assign.push(v);
            v = v + 1;
        }
        let mut part = InterpolationMatrix { assign, cols: n };
        proof {
            assert(part.spec_assign() =~= spec_partition(ms, n as nat, 0));
        }
        let mut l: usize = 0;
        while l < level
            invariant
                l <= level,
                level <= ms.len(),
                self.wf(),
                ms == self.spec_matrices(),
                n == self.spec_relation().spec_vertices().len(),
                part.spec_assign() == spec_partition(ms, n as nat, l as int),
                part.spec_cols() == level_width(ms, n as nat, l as int),
                part.wf(),
            decreases level - l,
        {
            assert(ms[l as int].wf());
            assert(ms[l as int].spec_assign().len() == level_width(ms, n as nat, l as int));
            part = compose(&part, &self.interpolation_matrices[l]);
            l = l + 1;
        }
        part
    }
}


/// Index of the entry carrying `name`, if any.
fn find_name(tbl: &Vec<(String, Vec<usize>)>, name: &String) -> (r: Option<usize>)
    ensures
        match r {
            Some(i) => i < tbl@.len() && tbl@[i as int].0@ == name@,
            None => forall|y: int| 0 <= y < tbl@.len() ==> (#[trigger] tbl@[y]).0@ != name@,
        },
{
    let tn = tbl.len();
    let mut i: usize = 0;
    while i < tn
        invariant
            i <= tn,
            tn == tbl@.len(),
            forall|y: int| 0 <= y < i ==> (#[trigger] tbl@[y]).0@ != name@,
        decreases tn - i,
    {
        if tbl[i].0 == *name {
            return Some(i);
        }
        i = i + 1;
    }
    None
}

impl Hierarchy {
    /// Reconstruct the ingredient/recipe aggregates at `level`. Every
    /// instance vertex contributes its recipe id to its aggregate under
    /// its ingredient name; pure hubs contribute nothing. Aggregates that
    /// miss any of the target names are dropped (all aggregates survive an
    /// empty target list); the survivors come in increasing aggregate-id
    /// order, each sorted by descending contributing-recipe count with
    /// ties broken by name. Fails with `LevelOutOfRange` exactly when
    /// `level` exceeds the available interpolation matrices.
    pub fn generate_recipes(&self, level: usize, target_ingredients: Vec<String>) -> (r: Result<
        Vec<Vec<(String, Vec<usize>)>>,
        Error,
    >)
        requires
            self.wf(),
        ensures
            match r {
                Ok(out) => {
                    let vs = self.spec_relation().spec_vertices();
                    let names = self.spec_names();
                    let ms = self.spec_matrices();
                    let part = spec_partition(ms, vs.len(), level as int);
                    let targets = target_ingredients@.map_values(|s: String| s@);
                    let kept = kept_aggs_upto(
                        vs,
                        names,
                        part,
                        targets,
                        level_width(ms, vs.len(), level as int) as int,
                    );
                    &&& level <= ms.len()
                    &&& out@.len() == kept.len()
                    &&& forall|x: int|
                        0 <= x < out@.len() ==> {
                            let tbl = (#[trigger] out@[x])@;
                            let a = kept[x];
                            &&& entries_sorted(tbl)
                            &&& names_unique(tbl)
                            &&& forall|y: int|
                                0 <= y < tbl.len() ==> (#[trigger] tbl[y]).1@ == agg_recipes(
                                    vs,
                                    names,
                                    part,
                                    a,
                                    tbl[y].0@,
                                ) && tbl[y].1@.len() > 0
                            &&& forall|nm: Seq<char>|
                                #![trigger agg_recipes(vs, names, part, a, nm)]
                                agg_recipes(vs, names, part, a, nm).len() > 0 ==> exists|y: int|
                                    0 <= y < tbl.len() && (#[trigger] tbl[y]).0@ == nm
                        }
                },
                Err(e) => {
                    &&& e == Error::LevelOutOfRange
                    &&& level > self.spec_matrices().len()
                },
            },
    {
        if level > self.interpolation_matrices.len() {
            return Err(Error::LevelOutOfRange);
        }
        let ghost vs = self.spec_relation().spec_vertices();
        let ghost names = self.spec_names();
        let ghost ms = self.spec_matrices();
        let ghost targets = target_ingredients@.map_values(|s: String| s@);
        let partm = self.partition_at_level(level);
        let ghost part = partm.spec_assign();
        proof {
            lemma_spec_partition_wf(ms, vs.len(), level as int);
        }
        let n = self.relation.number_of_vertices();
        let width = partm.num_columns();
        let mut out: Vec<Vec<(String, Vec<usize>)>> = Vec::new();
        let mut a: usize = 0;
        while a < width
            invariant
                a <= width,
                self.wf(),
                vs == self.spec_relation().spec_vertices(),
                names == self.spec_names(),
                ms == self.spec_matrices(),
                targets == target_ingredients@.map_values(|s: String| s@),
                level <= ms.len(),
                part == spec_partition(ms, vs.len(), level as int),
                partm.spec_assign() == part,
                partm.wf(),
                partm.spec_cols() == width,
                width as nat == level_width(ms, vs.len(), level as int),
                n == vs.len(),
                part.len() == n,
                out@.len() == kept_aggs_upto(vs, names, part, targets, a as int).len(),
                forall|x: int|
                    0 <= x < out@.len() ==> {
                        let tbl = (#[trigger] out@[x])@;
                        let ag = kept_aggs_upto(vs, names, part, targets, a as int)[x];
                        &&& entries_sorted(tbl)
                        &&& names_unique(tbl)
                        &&& forall|y: int|
                            0 <= y < tbl.len() ==> (#[trigger] tbl[y]).1@ == agg_recipes(
                                vs,
                                names,
                                part,
                                ag,
                                tbl[y].0@,
                            ) && tbl[y].1@.len() > 0
                        &&& forall|nm: Seq<char>|
                            #![trigger agg_recipes(vs, names, part, ag, nm)]
                            agg_recipes(vs, names, part, ag, nm).len() > 0 ==> exists|y: int|
                                0 <= y < tbl.len() && (#[trigger] tbl[y]).0@ == nm
                    },
            decreases width - a,
        {
            let mut tbl: Vec<(String, Vec<usize>)> = Vec::new();
            let mut v: usize = 0;
            while v < n
                invariant
                    v <= n,
                    a < width,
                    self.wf(),
                    vs == self.spec_relation().spec_vertices(),
                    names == self.spec_names(),
                    part == partm.spec_assign(),
                    partm.wf(),
                    n == vs.len(),
                    part.len() == n,
                    names_unique(tbl@),
                    forall|y: int|
                        0 <= y < tbl@.len() ==> (#[trigger] tbl@[y]).1@ == agg_recipes_upto(
                            vs,
                            names,
                            part,
                            a as int,
                            tbl@[y].0@,
                            v as int,
                        ) && tbl@[y].1@.len() > 0,
                    forall|nm: Seq<char>|
                        #![trigger agg_recipes_upto(vs, names, part, a as int, nm, v as int)]
                        agg_recipes_upto(vs, names, part, a as int, nm, v as int).len() > 0
                            ==> exists|y: int|
                            0 <= y < tbl@.len() && (#[trigger] tbl@[y]).0@ == nm,
                decreases n - v,
            {
                let oi = self.relation.get_ingredient_id(v);
                let orr = self.relation.get_recipe_id(v);
                let ghost oldtbl = tbl@;
                match (oi, orr) {
                    (Some(ing), Some(rec)) => {
                        if partm.aggregate_of(v) == a {
                            assert((ing as int) < self.spec_ingredients().len());
                            assert(vertex_pair(vs, v as int) == Some((ing, rec)));
                            let ghost nmv = names[ing as int];
                            let name = &self.ingredients_vec[ing];
                            assert(name@ == nmv);
                            proof {
                                assert forall|nm: Seq<char>|
                                    #![trigger agg_recipes_upto(vs, names, part, a as int, nm, v as int + 1)]
                                    true implies agg_recipes_upto(
                                    vs,
                                    names,
                                    part,
                                    a as int,
                                    nm,
                                    v as int + 1,
                                ) == (if nm == nmv {
                                    agg_recipes_upto(vs, names, part, a as int, nm, v as int).push(
                                        rec,
                                    )
                                } else {
                                    agg_recipes_upto(vs, names, part, a as int, nm, v as int)
                                }) by {
                                    assert(vertex_pair(vs, v as int) == Some((ing, rec)));
                                }
                            }
                            match find_name(&tbl, name) {
                                Some(idx) => {
                                    let (nm0, mut lst) = tbl.remove(idx);
                                    lst.push(rec);
                                    tbl.insert(idx, (nm0, lst));
                                    proof {
                                        assert(tbl@.len() == oldtbl.len());
                                        assert(forall|y: int|
                                            0 <= y < tbl@.len() && y != idx
                                                ==> #[trigger] tbl@[y] == oldtbl[y]);
                                        assert(tbl@[idx as int].0@ == nmv);
                                        assert(tbl@[idx as int].1@ == oldtbl[idx as int].1@.push(
                                            rec,
                                        ));
                                        assert forall|y: int| 0 <= y < tbl@.len() implies (
                                        #[trigger] tbl@[y]).1@ == agg_recipes_upto(
                                            vs,
                                            names,
                                            part,
                                            a as int,
                                            tbl@[y].0@,
                                            v as int + 1,
                                        ) && tbl@[y].1@.len() > 0 by {
                                            if y == idx {
                                                assert(oldtbl[y].0@ == nmv);
                                            } else {
                                                assert(oldtbl[y].0@ != oldtbl[idx as int].0@);
                                                assert(tbl@[y].0@ != nmv);
                                            }
                                        }
                                        assert forall|nm: Seq<char>|
                                            #![trigger agg_recipes_upto(vs, names, part, a as int, nm, v as int + 1)]
                                            agg_recipes_upto(
                                            vs,
                                            names,
                                            part,
                                            a as int,
                                            nm,
                                            v as int + 1,
                                        ).len() > 0 implies exists|y: int|
                                            0 <= y < tbl@.len() && (#[trigger] tbl@[y]).0@
                                                == nm by {
                                            if nm == nmv {
                                                assert(tbl@[idx as int].0@ == nm);
                                            } else {
                                                assert(agg_recipes_upto(
                                                    vs,
                                                    names,
                                                    part,
                                                    a as int,
                                                    nm,
                                                    v as int,
                                                ).len() > 0);
                                                let y = choose|y: int|
                                                    0 <= y < oldtbl.len() && (
                                                    #[trigger] oldtbl[y]).0@ == nm;
                                                assert(tbl@[y].0@ == nm);
                                            }
                                        }
                                        assert(names_unique(tbl@));
                                    }
                                },
                                None => {
                                    let mut lst: Vec<usize> = Vec::new();
                                    lst.push(rec);
                                    tbl.push((name.clone(), lst));
                                    proof {
                                        assert(agg_recipes_upto(
                                            vs,
                                            names,
                                            part,
                                            a as int,
                                            nmv,
                                            v as int,
                                        ).len() == 0) by {
                                            if agg_recipes_upto(
                                                vs,
                                                names,
                                                part,
                                                a as int,
                                                nmv,
                                                v as int,
                                            ).len() > 0 {
                                                let y = choose|y: int|
                                                    0 <= y < oldtbl.len() && (
                                                    #[trigger] oldtbl[y]).0@ == nmv;
                                                assert(false);
                                            }
                                        }
                                        assert(tbl@.len() == oldtbl.len() + 1);
                                        assert(forall|y: int|
                                            0 <= y < oldtbl.len() ==> #[trigger] tbl@[y]
                                                == oldtbl[y]);
                                        assert(tbl@[oldtbl.len() as int].0@ == nmv);
                                        assert(tbl@[oldtbl.len() as int].1@ =~= agg_recipes_upto(
                                            vs,
                                            names,
                                            part,
                                            a as int,
                                            nmv,
                                            v as int,
                                        ).push(rec));
                                        assert forall|y: int| 0 <= y < tbl@.len() implies (
                                        #[trigger] tbl@[y]).1@ == agg_recipes_upto(
                                            vs,
                                            names,
                                            part,
                                            a as int,
                                            tbl@[y].0@,
                                            v as int + 1,
                                        ) && tbl@[y].1@.len() > 0 by {
                                            if y < oldtbl.len() {
                                                assert(tbl@[y].0@ != nmv);
                                            }
                                        }
                                        assert forall|nm: Seq<char>|
                                            #![trigger agg_recipes_upto(vs, names, part, a as int, nm, v as int + 1)]
                                            agg_recipes_upto(
                                            vs,
                                            names,
                                            part,
                                            a as int,
                                            nm,
                                            v as int + 1,
                                        ).len() > 0 implies exists|y: int|
                                            0 <= y < tbl@.len() && (#[trigger] tbl@[y]).0@
                                                == nm by {
                                            if nm == nmv {
                                                assert(tbl@[oldtbl.len() as int].0@ == nm);
                                            } else {
                                                assert(agg_recipes_upto(
                                                    vs,
                                                    names,
                                                    part,
                                                    a as int,
                                                    nm,
                                                    v as int,
                                                ).len() > 0);
                                                let y = choose|y: int|
                                                    0 <= y < oldtbl.len() && (
                                                    #[trigger] oldtbl[y]).0@ == nm;
                                                assert(tbl@[y].0@ == nm);
                                            }
                                        }
                                        assert(names_unique(tbl@));
                                    }
                                },
                            }
                        } else {
                            proof {
                                assert forall|nm: Seq<char>|
                                    #![trigger agg_recipes_upto(vs, names, part, a as int, nm, v as int + 1)]
                                    true implies agg_recipes_upto(
                                    vs,
                                    names,
                                    part,
                                    a as int,
                                    nm,
                                    v as int + 1,
                                ) == agg_recipes_upto(vs, names, part, a as int, nm, v as int) by {
                                    assert(part[v as int] as int != a as int);
                                }
                            }
                        }
                    },
                    _ => {
                        proof {
                            assert(vertex_pair(vs, v as int) is None);
                            assert forall|nm: Seq<char>|
                                #![trigger agg_recipes_upto(vs, names, part, a as int, nm, v as int + 1)]
                                true implies agg_recipes_upto(
                                vs,
                                names,
                                part,
                                a as int,
                                nm,
                                v as int + 1,
                            ) == agg_recipes_upto(vs, names, part, a as int, nm, v as int) by {}
                        }
                    },
                }
                v = v + 1;
            }
            proof {
                assert forall|nm: Seq<char>|
                    #![trigger agg_recipes(vs, names, part, a as int, nm)]
                    true implies agg_recipes(vs, names, part, a as int, nm) == agg_recipes_upto(
                    vs,
                    names,
                    part,
                    a as int,
                    nm,
                    n as int,
                ) by {}
            }
            // Does the aggregate hold every target name?
            let tg = target_ingredients.len();
            let mut keep = true;
            let mut ti: usize = 0;
            while ti < tg
                invariant_except_break
                    keep,
                invariant
                    ti <= tg,
                    tg == target_ingredients@.len(),
                    targets == target_ingredients@.map_values(|s: String| s@),
                    forall|t2: int|
                        #![trigger targets[t2]]
                        0 <= t2 < ti ==> exists|y: int|
                            0 <= y < tbl@.len() && (#[trigger] tbl@[y]).0@ == targets[t2],
                ensures
                    keep ==> ti == tg,
                    !keep ==> ti < tg && forall|y: int|
                        0 <= y < tbl@.len() ==> (#[trigger] tbl@[y]).0@ != targets[ti as int],
                decreases tg - ti,
            {
                match find_name(&tbl, &target_ingredients[ti]) {
                    Some(fy) => {
                        proof {
                            assert(targets[ti as int] == target_ingredients@[ti as int]@);
                            assert(0 <= fy < tbl@.len() && tbl@[fy as int].0@
                                == targets[ti as int]);
                        }
                    },
                    None => {
                        proof {
                            assert(targets[ti as int] == target_ingredients@[ti as int]@);
                        }
                        keep = false;
                        break;
                    },
                }
                ti = ti + 1;
            }
            proof {
                if keep {
                    assert forall|t2: int|
                        0 <= t2 < targets.len() implies agg_recipes(
                        vs,
                        names,
                        part,
                        a as int,
                        #[trigger] targets[t2],
                    ).len() > 0 by {
                        let y = choose|y: int|
                            0 <= y < tbl@.len() && (#[trigger] tbl@[y]).0@ == targets[t2];
                        assert(tbl@[y].1@ == agg_recipes_upto(
                            vs,
                            names,
                            part,
                            a as int,
                            tbl@[y].0@,
                            n as int,
                        ));
                        assert(tbl@[y].1@.len() > 0);
                    }
                    assert(agg_keeps(vs, names, part, targets, a as int));
                } else {
                    assert(ti < tg);
                    assert(forall|y: int|
                        0 <= y < tbl@.len() ==> (#[trigger] tbl@[y]).0@ != targets[ti as int]);
                    if agg_recipes(vs, names, part, a as int, targets[ti as int]).len() > 0 {
                        let y = choose|y: int|
                            0 <= y < tbl@.len() && (#[trigger] tbl@[y]).0@ == targets[ti as int];
                        assert(false);
                    }
                    assert(!agg_keeps(vs, names, part, targets, a as int));
                }
            }
            let ghost oldout = out@;
            if keep {
                let sorted = sort_entries(tbl);
                out.push(sorted);
                proof {
                    let kp = kept_aggs_upto(vs, names, part, targets, a as int);
                    let kn = kept_aggs_upto(vs, names, part, targets, a as int + 1);
                    assert(kn =~= kp.push(a as int));
                    assert forall|x: int|
                        0 <= x < out@.len() implies {
                        let tb = (#[trigger] out@[x])@;
                        let ag = kn[x];
                        &&& entries_sorted(tb)
                        &&& names_unique(tb)
                        &&& forall|y: int|
                            0 <= y < tb.len() ==> (#[trigger] tb[y]).1@ == agg_recipes(
                                vs,
                                names,
                                part,
                                ag,
                                tb[y].0@,
                            ) && tb[y].1@.len() > 0
                        &&& forall|nm: Seq<char>|
                            #![trigger agg_recipes(vs, names, part, ag, nm)]
                            agg_recipes(vs, names, part, ag, nm).len() > 0 ==> exists|y: int|
                                0 <= y < tb.len() && (#[trigger] tb[y]).0@ == nm
                    } by {
                        let tb = out@[x]@;
                        let ag = kn[x];
                        if x < out@.len() - 1 {
                            assert(out@[x] == oldout[x]);
                            assert(kn[x] == kp[x]);
                        } else {
                            assert(out@[x] == sorted);
                            assert(ag == a as int);
                            assert forall|y: int|
                                0 <= y < tb.len() implies (#[trigger] tb[y]).1@ == agg_recipes(
                                vs,
                                names,
                                part,
                                ag,
                                tb[y].0@,
                            ) && tb[y].1@.len() > 0 by {
                                assert(tb.contains(tb[y]));
                                assert(tbl@.contains(tb[y]));
                                let j = choose|j: int| 0 <= j < tbl@.len() && tbl@[j] == tb[y];
                                assert(tbl@[j].1@ == agg_recipes(
                                    vs,
                                    names,
                                    part,
                                    a as int,
                                    tbl@[j].0@,
                                ));
                            }
                            assert forall|nm: Seq<char>|
                                #![trigger agg_recipes(vs, names, part, ag, nm)]
                                agg_recipes(vs, names, part, ag, nm).len() > 0 implies exists|
                                y: int,
                            |
                                0 <= y < tb.len() && (#[trigger] tb[y]).0@ == nm by {
                                let j = choose|j: int|
                                    0 <= j < tbl@.len() && (#[trigger] tbl@[j]).0@ == nm;
                                assert(tbl@.contains(tbl@[j]));
                                assert(tb.contains(tbl@[j]));
                                let y = choose|y: int| 0 <= y < tb.len() && tb[y] == tbl@[j];
                                assert(tb[y].0@ == nm);
                            }
                        }
                    }
                }
            } else {
                proof {
                    assert(kept_aggs_upto(vs, names, part, targets, a as int + 1)
                        =~= kept_aggs_upto(vs, names, part, targets, a as int));
                }
            }
            a = a + 1;
        }
        Ok(out)
    }
}

} // verus!
