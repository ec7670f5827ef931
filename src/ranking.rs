use vstd::prelude::*;

verus! {

/// `ranked` lists, best first, up to `k` of the ids for which `cand` holds,
/// each with its score under `score`: ids are distinct, scores never rise,
/// no id left out scores above one kept, and fewer than `k` are listed only
/// when every candidate is.
pub open spec fn ranked_ok(
    ranked: Seq<(i64, u32)>,
    k: int,
    cand: spec_fn(u32) -> bool,
    score: spec_fn(u32) -> int,
) -> bool {
    &&& ranked.len() <= k
    &&& forall|a: int| 0 <= a < ranked.len() ==> cand(#[trigger] ranked[a].1) && ranked[a].0 == score(ranked[a].1)
    &&& forall|a: int, b: int| 0 <= a < ranked.len() && 0 <= b < ranked.len() && a != b ==> ranked[a].1 != ranked[b].1
    &&& forall|a: int, b: int| 0 <= a < b < ranked.len() ==> ranked[a].0 >= ranked[b].0
    &&& forall|c: u32|
        cand(c) && !has_id(ranked, c) ==> ranked.len() == k && forall|a: int|
            0 <= a < ranked.len() ==> score(c) <= ranked[a].0
}

pub open spec fn has_id(s: Seq<(i64, u32)>, c: u32) -> bool {
    exists|a: int| 0 <= a < s.len() && s[a].1 == c
}

/// Relies on rayon's `par_sort_unstable_by`: it permutes the slice so that
/// the comparator (here: higher score first) holds between every two
/// elements in order.
#[verifier::external_body]
fn par_sort_desc(v: &mut Vec<(i64, u32)>)
    ensures
        final(v)@.to_multiset() == old(v)@.to_multiset(),
        forall|a: int, b: int| 0 <= a < b < final(v)@.len() ==> final(v)@[a].0 >= final(v)@[b].0,
{
    rayon::slice::ParallelSliceMut::par_sort_unstable_by(v.as_mut_slice(), |a, b| b.0.cmp(&a.0));
}

/// The `k` best of `pairs` by score, best first.
pub fn top_scored(pairs: Vec<(i64, u32)>, k: usize) -> (r: Vec<(i64, u32)>)
    requires
        forall|a: int, b: int|
            0 <= a < pairs@.len() && 0 <= b < pairs@.len() && a != b ==> pairs@[a].1 != pairs@[b].1,
    ensures
        r@.len() == if k < pairs@.len() {
            k as int
        } else {
            pairs@.len() as int
        },
        forall|a: int| 0 <= a < r@.len() ==> pairs@.contains(#[trigger] r@[a]),
        forall|a: int, b: int| 0 <= a < r@.len() && 0 <= b < r@.len() && a != b ==> r@[a].1 != r@[b].1,
        forall|a: int, b: int| 0 <= a < b < r@.len() ==> r@[a].0 >= r@[b].0,
        forall|x: (i64, u32)|
            pairs@.contains(x) && !r@.contains(x) ==> forall|a: int|
                0 <= a < r@.len() ==> x.0 <= #[trigger] r@[a].0,
        r@.len() == pairs@.len() ==> forall|x: (i64, u32)| pairs@.contains(x) ==> r@.contains(x),
{
    broadcast use vstd::seq_lib::group_to_multiset_ensures;

    let ghost p = pairs@;
    let mut sorted = pairs;
    par_sort_desc(&mut sorted);
    let ghost s = sorted@;
    proof {
        vstd::seq_lib::to_multiset_len(s);
        vstd::seq_lib::to_multiset_len(p);
        assert forall|x: (i64, u32)| s.contains(x) == p.contains(x) by {
            vstd::seq_lib::to_multiset_contains(s, x);
            vstd::seq_lib::to_multiset_contains(p, x);
        }
        assert forall|a: int, b: int| 0 <= a < s.len() && 0 <= b < s.len() && a != b implies s[a].1
            != s[b].1 by {
            assert(p.no_duplicates());
            p.lemma_multiset_has_no_duplicates();
            s.lemma_multiset_has_no_duplicates_conv();
            assert(s.contains(s[a]) && s.contains(s[b]));
            let ia = choose|i: int| 0 <= i < p.len() && p[i] == s[a];
            let ib = choose|i: int| 0 <= i < p.len() && p[i] == s[b];
            if s[a].1 == s[b].1 {
                assert(ia == ib);
            }
        }
    }
    let n = if k < sorted.len() {
        k
    } else {
        sorted.len()
    };
    let mut out: Vec<(i64, u32)> = Vec::new();
    let mut j: usize = 0;
    while j < n
        invariant
            n <= s.len(),
            sorted@ == s,
            j <= n,
            out@ == s.subrange(0, j as int),
        decreases n - j,
    {
        out.push(sorted[j]);
        j = j + 1;
        assert(out@ =~= s.subrange(0, j as int));
    }
    proof {
        assert forall|a: int| 0 <= a < out@.len() implies p.contains(#[trigger] out@[a]) by {
            assert(s.contains(s[a]));
        }
        assert forall|x: (i64, u32)| p.contains(x) && !out@.contains(x) implies forall|a: int|
            0 <= a < out@.len() ==> x.0 <= #[trigger] out@[a].0 by {
            assert(s.contains(x));
            let m = choose|m: int| 0 <= m < s.len() && s[m] == x;
            if m < n {
                assert(out@[m] == x);
            }
        }
        if n == s.len() {
            assert(out@ =~= s);
        }
    }
    out
}

} // verus!
