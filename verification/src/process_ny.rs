//! Pure post-processing of queried recipe records. (The storage queries
//! themselves live outside this crate; only their results are handled
//! here.)
use crate::nytc::Nytc;
use crate::text::{ci_contains, contains_ci};
use vstd::prelude::*;

verus! {

/// Keep the recipes whose title contains `title`, ignoring ASCII case.
pub fn filter_title(recipes: Vec<Nytc>, title: &str) -> (r: Vec<Nytc>)
    ensures
        r@ == recipes@.filter(|n: Nytc| ci_contains(n.title@, title@)),
{
    broadcast use vstd::seq_lib::group_filter_ensures;

    let ghost pred = |n: Nytc| ci_contains(n.title@, title@);
    let n = recipes.len();
    let mut rest = recipes;
    let mut out: Vec<Nytc> = Vec::new();
    let mut i: usize = 0;
    proof {
        reveal(Seq::filter);
        assert(recipes@.take(0).filter(pred) =~= Seq::<Nytc>::empty());
    }
    while rest.len() > 0
        invariant
            n == recipes@.len(),
            i <= n,
            i + rest@.len() == recipes@.len(),
            forall|k: int| 0 <= k < rest@.len() ==> #[trigger] rest@[k] == recipes@[i + k],
            out@ == recipes@.take(i as int).filter(|n: Nytc| ci_contains(n.title@, title@)),
        decreases rest@.len(),
    {
        let rec = rest.remove(0);
        assert(rec == recipes@[i as int]);
        let keep = contains_ci(rec.title.as_str(), title);
        proof {
            reveal(Seq::filter);
            let tk = recipes@.take(i as int + 1);
            assert(tk.drop_last() =~= recipes@.take(i as int));
            assert(tk.last() == recipes@[i as int]);
        }
        if keep {
            out.push(rec);
        }
        i = i + 1;
    }
    proof {
        assert(recipes@.take(recipes@.len() as int) =~= recipes@);
    }
    out
}

} // verus!
