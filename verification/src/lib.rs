//! Multilevel analysis of ingredient co-occurrence across a recipe corpus.
//!
//! The crate builds an expanded star graph over recipes and ingredients,
//! serializes it for an external community-detection pass, parses that
//! pass's per-level assignment stream into a chain of partition matrices,
//! and reconstructs ingredient/recipe aggregates at any coarseness level.

pub mod co_occurrence;
pub mod error;
pub mod expanded;
pub mod hierarchy;
pub mod matrix;
pub mod models;
pub mod nytc;
pub mod process_ny;
pub mod table;
pub mod text;

pub use error::Error;

use crate::text::{dec_digits, push_decimal};
use vstd::prelude::*;
use vstd::string::StringExecFns;

verus! {

/// Databases the surrounding system stores recipe corpora in.
#[derive(Clone, Copy, Debug, PartialEq, Eq, Structural)]
pub enum Databases {
    Recipes,
    RecipeAPI,
}

impl Databases {
    /// The database's name.
    pub fn to_str(&self) -> (r: &'static str)
        ensures
            *self == Databases::Recipes ==> r@ == "recipes"@,
            *self == Databases::RecipeAPI ==> r@ == "recipe_api"@,
    {
        match self {
            Databases::Recipes => "recipes",
            Databases::RecipeAPI => "recipe_api",
        }
    }
}

/// The values of `s`, each on a line of its own, each line preceded by a
/// newline.
pub open spec fn prefixed_lines(s: Seq<nat>) -> Seq<char>
    decreases s.len(),
{
    if s.len() == 0 {
        Seq::empty()
    } else {
        seq!['\n'] + dec_digits(s[0]) + prefixed_lines(s.skip(1))
    }
}

/// Number of elements of `s` lying in rows `1..=k`.
pub open spec fn entries_through_row(s: Seq<(usize, usize, usize)>, k: int) -> nat
    decreases s.len(),
{
    if s.len() == 0 {
        0
    } else {
        entries_through_row(s.drop_last(), k) + (if s.last().0 <= k {
            1nat
        } else {
            0nat
        })
    }
}

/// The CSR text form of a sparse matrix with the given dimensions and
/// element list, for tools expecting it: row and column count on the
/// first two lines, then the row-pointer array (element count through
/// each row), the column-index array and the data array, each value on a
/// line of its own, in that fixed order.
pub open spec fn csr_text(
    num_rows: nat,
    num_cols: nat,
    s: Seq<(usize, usize, usize)>,
) -> Seq<char> {
    dec_digits(num_rows) + seq!['\n'] + dec_digits(num_cols) + prefixed_lines(
        Seq::new(num_rows + 1, |k: int| entries_through_row(s, k)),
    ) + prefixed_lines(s.map_values(|e: (usize, usize, usize)| e.1 as nat)) + prefixed_lines(
        s.map_values(|e: (usize, usize, usize)| e.2 as nat),
    )
}

fn append_prefixed(out: &mut String, v: &Vec<usize>, x: usize)
    requires
        x <= v@.len(),
    ensures
        final(out)@ == old(out)@ + prefixed_lines(
            v@.map_values(|t: usize| t as nat).skip(x as int),
        ),
    decreases v@.len() - x,
{
    let ghost vals = v@.map_values(|t: usize| t as nat);
    if x < v.len() {
        out.append("\n");
        push_decimal(out, v[x]);
        append_prefixed(out, v, x + 1);
        proof {
            reveal_strlit("\n");
            assert("\n"@ =~= seq!['\n']) by {
                assert("\n"@.len() == 1);
                assert("\n"@[0] == '\n');
            }
            let u = vals.skip(x as int);
            assert(u[0] == vals[x as int]);
            assert(u.skip(1) =~= vals.skip(x as int + 1));
            assert(final(out)@ =~= old(out)@ + prefixed_lines(u));
        }
    } else {
        proof {
            assert(vals.skip(x as int) =~= Seq::<nat>::empty());
        }
    }
}

/// Number of elements of `triples` lying in rows `1..=k`.
fn count_through_row(triples: &Vec<(usize, usize, usize)>, k: usize) -> (r: usize)
    ensures
        r as nat == entries_through_row(triples@, k as int),
{
    let n = triples.len();
    let mut count: usize = 0;
    let mut x: usize = 0;
    while x < n
        invariant
            x <= n,
            n == triples@.len(),
            count <= x,
            count as nat == entries_through_row(triples@.take(x as int), k as int),
        decreases n - x,
    {
        proof {
            assert(triples@.take(x as int + 1).drop_last() =~= triples@.take(x as int));
            assert(triples@.take(x as int + 1).last() == triples@[x as int]);
        }
        if triples[x].0 <= k {
            count = count + 1;
        }
        x = x + 1;
    }
    proof {
        assert(triples@.take(n as int) =~= triples@);
    }
    count
}

/// Export a sparse matrix — given by its dimensions and its row-major
/// element list — into the CSR text form above. The row-pointer array is
/// computed here from the element list.
pub fn export(num_rows: usize, num_cols: usize, triples: &Vec<(usize, usize, usize)>) -> (r:
    String)
    requires
        num_rows < usize::MAX,
    ensures
        r@ == csr_text(num_rows as nat, num_cols as nat, triples@),
{
    let mut indptr: Vec<usize> = Vec::new();
    let mut k: usize = 0;
    while k <= num_rows
        invariant
            k <= num_rows + 1,
            num_rows < usize::MAX,
            indptr@.len() == k,
            forall|k2: int|
                0 <= k2 < k ==> (#[trigger] indptr@[k2]) as nat == entries_through_row(
                    triples@,
                    k2,
                ),
        decreases num_rows + 1 - k,
    {
        let c = count_through_row(triples, k);
        indptr.push(c);
        k = k + 1;
    }
    let n = triples.len();
    let mut indices: Vec<usize> = Vec::new();
    let mut data: Vec<usize> = Vec::new();
    let mut x: usize = 0;
    while x < n
        invariant
            x <= n,
            n == triples@.len(),
            indices@.len() == x,
            data@.len() == x,
            forall|x2: int| 0 <= x2 < x ==> (#[trigger] indices@[x2]) == triples@[x2].1,
            forall|x2: int| 0 <= x2 < x ==> (#[trigger] data@[x2]) == triples@[x2].2,
        decreases n - x,
    {
        indices.push(triples[x].1);
        data.push(triples[x].2);
        x = x + 1;
    }
    let mut out = String::new();
    push_decimal(&mut out, num_rows);
    out.append("\n");
    push_decimal(&mut out, num_cols);
    append_prefixed(&mut out, &indptr, 0);
    append_prefixed(&mut out, &indices, 0);
    append_prefixed(&mut out, &data, 0);
    proof {
        reveal_strlit("\n");
        assert("\n"@ =~= seq!['\n']) by {
            assert("\n"@.len() == 1);
            assert("\n"@[0] == '\n');
        }
        assert(indptr@.map_values(|t: usize| t as nat) =~= Seq::new(
            num_rows as nat + 1,
            |k2: int| entries_through_row(triples@, k2),
        ));
        assert(indices@.map_values(|t: usize| t as nat) =~= triples@.map_values(
            |e: (usize, usize, usize)| e.1 as nat,
        ));
        assert(data@.map_values(|t: usize| t as nat) =~= triples@.map_values(
            |e: (usize, usize, usize)| e.2 as nat,
        ));
        assert(indptr@.map_values(|t: usize| t as nat).skip(0) =~= indptr@.map_values(
            |t: usize| t as nat,
        ));
        assert(indices@.map_values(|t: usize| t as nat).skip(0) =~= indices@.map_values(
            |t: usize| t as nat,
        ));
        assert(data@.map_values(|t: usize| t as nat).skip(0) =~= data@.map_values(
            |t: usize| t as nat,
        ));
        assert(out@ =~= csr_text(num_rows as nat, num_cols as nat, triples@));
    }
    out
}

} // verus!
