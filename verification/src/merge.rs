//! Correctness of the merge tree.
//!
//! Executing the planned levels in order turns a filesystem state holding
//! the fragments into one where the first fragment's path holds the
//! concatenation of all fragment contents in order, every other fragment
//! is gone, and everything else is untouched; the driver then renames
//! that leader to the base filename. The result is the same for every
//! batch size, which is the ordering guarantee: the tree shape decides
//! when work happens, never what order bytes are appended.

use vstd::prelude::*;
use vstd::map::*;

use crate::fsmodel::{
    concat_contents, lemma_concat_contents_add, lemma_concat_contents_congruence,
    lemma_contains_concat, lemma_contains_split, lemma_run_task, run_levels, run_task, run_tasks,
    task_result, Fs,
};
use crate::plan::{
    chunks, leaders, lemma_chunks_count, lemma_chunks_leaders, lemma_chunks_shape, plan_spec,
};

verus! {

/// A well-formed fragment list for a state: at least one fragment, no
/// duplicates, no empty names, and every fragment present in the state.
pub open spec fn wf_fragments(fs: Fs, frags: Seq<Seq<char>>) -> bool {
    &&& frags.len() >= 1
    &&& frags.no_duplicates()
    &&& forall|j: int| 0 <= j < frags.len() ==> #[trigger] frags[j].len() > 0
    &&& forall|j: int| 0 <= j < frags.len() ==> fs.dom().contains(#[trigger] frags[j])
}

/// Whether `p` leads one of the tasks of a level.
pub open spec fn is_leader(c: Seq<Seq<Seq<char>>>, p: Seq<char>) -> bool {
    exists|k: int| 0 <= k < c.len() && c[k][0] == p
}

/// The task of a level that `p` leads.
pub open spec fn chunk_of(c: Seq<Seq<Seq<char>>>, p: Seq<char>) -> Seq<Seq<char>> {
    let k = choose|k: int| 0 <= k < c.len() && c[k][0] == p;
    c[k]
}

/// The state after one whole level over `xs` has completed: each batch
/// leader holds its batch's concatenated contents, the other entries of
/// `xs` are gone, and everything else is untouched.
pub open spec fn level_result(fs: Fs, xs: Seq<Seq<char>>, b: int) -> Fs {
    let c = chunks(xs, b);
    Map::new(
        |p: Seq<char>| fs.dom().contains(p) && (!xs.contains(p) || is_leader(c, p)),
        |p: Seq<char>|
            if is_leader(c, p) {
                concat_contents(fs, chunk_of(c, p))
            } else {
                fs[p]
            },
    )
}

/// The state after the whole merge tree has completed: the first fragment
/// holds the concatenation of all fragment contents in order, the other
/// fragments are gone, and everything else is untouched.
pub open spec fn merge_result(fs: Fs, frags: Seq<Seq<char>>) -> Fs {
    Map::new(
        |p: Seq<char>| fs.dom().contains(p) && (p == frags[0] || !frags.contains(p)),
        |p: Seq<char>|
            if p == frags[0] {
                concat_contents(fs, frags)
            } else {
                fs[p]
            },
    )
}

/// For a duplicate-free list, the leader of batch `k` resolves to batch
/// `k`: no other batch has the same leader.
pub proof fn lemma_chunk_of_resolves(xs: Seq<Seq<char>>, b: int, k: int)
    requires
        b >= 2,
        xs.len() >= 1,
        xs.no_duplicates(),
        0 <= k < chunks(xs, b).len(),
    ensures
        is_leader(chunks(xs, b), chunks(xs, b)[k][0]),
        chunk_of(chunks(xs, b), chunks(xs, b)[k][0]) == chunks(xs, b)[k],
{
    lemma_chunks_leaders(xs, b);
    let c = chunks(xs, b);
    let l = leaders(c);
    assert(is_leader(c, c[k][0])) by {
        assert(0 <= k < c.len() && c[k][0] == c[k][0]);
    }
    let k2 = choose|k2: int| 0 <= k2 < c.len() && c[k2][0] == c[k][0];
    assert(l[k2] == c[k2][0] && l[k] == c[k][0]);
    if k2 != k {
        assert(l[k2] != l[k]);
        assert(false);
    }
}

/// Leading a level and appearing among its leaders are the same thing.
pub proof fn lemma_is_leader_contains(c: Seq<Seq<Seq<char>>>, p: Seq<char>)
    ensures
        is_leader(c, p) <==> leaders(c).contains(p),
{
    let l = leaders(c);
    if is_leader(c, p) {
        let k = choose|k: int| 0 <= k < c.len() && c[k][0] == p;
        assert(l[k] == p);
    }
    if l.contains(p) {
        let k = choose|k: int| 0 <= k < l.len() && l[k] == p;
        assert(c[k][0] == p);
    }
}

/// Running one level of batches over `xs` ends in exactly `level_result`.
pub proof fn lemma_level(fs: Fs, xs: Seq<Seq<char>>, b: int)
    requires
        b >= 2,
        wf_fragments(fs, xs),
    ensures
        run_tasks(fs, chunks(xs, b)) == level_result(fs, xs, b),
    decreases xs.len(),
{
    let c = chunks(xs, b);
    lemma_chunks_shape(xs, b);
    lemma_chunks_leaders(xs, b);
    if xs.len() <= b {
        lemma_run_task(fs, xs);
        assert(c.drop_first() =~= Seq::<Seq<Seq<char>>>::empty());
        assert(c[0] == xs);
        assert(run_tasks(fs, c) == run_tasks(run_task(fs, c[0]), c.drop_first()));
        assert(run_tasks(run_task(fs, xs), Seq::<Seq<Seq<char>>>::empty()) == run_task(fs, xs));
        assert_maps_equal!(task_result(fs, xs), level_result(fs, xs, b), p => {
            lemma_chunk_of_resolves(xs, b, 0);
            if is_leader(c, p) {
                let k = choose|k: int| 0 <= k < c.len() && c[k][0] == p;
                assert(k == 0);
                assert(p == xs[0]);
            }
            lemma_contains_split(xs, p);
            assert(xs.drop_first() =~= xs.skip(1));
        });
    } else {
        let first = xs.take(b);
        let rest = xs.skip(b);
        let cr = chunks(rest, b);
        assert(c == seq![first] + cr);
        assert(c[0] == first);
        assert(c.drop_first() =~= cr);
        assert(first + rest =~= xs);
        assert(forall|m: int| 0 <= m < first.len() ==> #[trigger] first[m] == xs[m]);
        assert(forall|m: int| 0 <= m < rest.len() ==> #[trigger] rest[m] == xs[m + b]);
        assert(first.no_duplicates()) by {
            assert forall|m1: int, m2: int|
                0 <= m1 < m2 < first.len() implies first[m1] != first[m2] by {
                assert(first[m1] == xs[m1] && first[m2] == xs[m2]);
            }
        }
        assert(rest.no_duplicates()) by {
            assert forall|m1: int, m2: int|
                0 <= m1 < m2 < rest.len() implies rest[m1] != rest[m2] by {
                assert(rest[m1] == xs[m1 + b] && rest[m2] == xs[m2 + b]);
            }
        }
        assert(forall|m: int| 0 <= m < first.len() ==> (#[trigger] first[m]).len() > 0);
        assert(forall|m: int| 0 <= m < first.len() ==> fs.dom().contains(#[trigger] first[m]));
        lemma_run_task(fs, first);
        let fsa = task_result(fs, first);
        assert(run_tasks(fs, c) == run_tasks(fsa, cr)) by {
            assert(run_tasks(fs, c) == run_tasks(run_task(fs, c[0]), c.drop_first()));
        }
        lemma_chunks_shape(rest, b);
        lemma_chunks_leaders(rest, b);
        assert(forall|m: int| 0 <= m < rest.len() ==> (#[trigger] rest[m]).len() > 0);
        assert forall|m: int| 0 <= m < rest.len() implies fsa.dom().contains(
            #[trigger] rest[m],
        ) by {
            assert(fs.dom().contains(rest[m]));
            assert(rest[m] == xs[m + b]);
            assert(rest[m] != first[0]) by {
                assert(first[0] == xs[0]);
            }
            assert(!first.skip(1).contains(rest[m])) by {
                if first.skip(1).contains(rest[m]) {
                    let w = choose|w: int|
                        0 <= w < first.skip(1).len() && first.skip(1)[w] == rest[m];
                    assert(first[w + 1] == xs[w + 1]);
                    assert(xs[w + 1] == xs[m + b]);
                }
            }
        }
        lemma_level(fsa, rest, b);
        assert(run_tasks(fsa, cr) == level_result(fsa, rest, b));
        assert_maps_equal!(level_result(fsa, rest, b), level_result(fs, xs, b), p => {
            lemma_contains_concat(first, rest, p);
            assert(xs.contains(p) <==> (first.contains(p) || rest.contains(p)));
            lemma_contains_split(first, p);
            assert(first.drop_first() =~= first.skip(1));
            assert(!(first.contains(p) && rest.contains(p))) by {
                if first.contains(p) && rest.contains(p) {
                    let m1 = choose|m: int| 0 <= m < first.len() && first[m] == p;
                    let m2 = choose|m: int| 0 <= m < rest.len() && rest[m] == p;
                    assert(xs[m1] == p && xs[m2 + b] == p);
                }
            }
            assert(is_leader(c, p) <==> (p == first[0] || is_leader(cr, p))) by {
                if is_leader(c, p) {
                    let k = choose|k: int| 0 <= k < c.len() && c[k][0] == p;
                    if k > 0 {
                        assert(c[k] == cr[k - 1]);
                        assert(is_leader(cr, p)) by {
                            assert(0 <= k - 1 < cr.len() && cr[k - 1][0] == p);
                        }
                    }
                }
                if p == first[0] {
                    assert(0 <= 0 < c.len() && c[0][0] == p);
                }
                if is_leader(cr, p) {
                    let k = choose|k: int| 0 <= k < cr.len() && cr[k][0] == p;
                    assert(c[k + 1] == cr[k]);
                    assert(0 <= k + 1 < c.len() && c[k + 1][0] == p);
                }
            }
            assert(is_leader(cr, p) ==> rest.contains(p)) by {
                if is_leader(cr, p) {
                    lemma_is_leader_contains(cr, p);
                    let k = choose|k: int| 0 <= k < leaders(cr).len() && leaders(cr)[k] == p;
                    assert(leaders(cr)[k] == cr[k][0]);
                    assert(rest.contains(cr[k][0]));
                }
            }
            assert(first[0] == xs[0]);
            if p == first[0] {
                assert(!rest.contains(p));
                assert(fsa.dom().contains(p) <==> fs.dom().contains(p));
                if fs.dom().contains(p) {
                    assert(fsa[p] == concat_contents(fs, first)) by {
                        assert(first.skip(1).contains(p) ==> first.contains(p));
                    }
                    lemma_chunk_of_resolves(xs, b, 0);
                    assert(chunk_of(c, p) == first);
                    assert(level_result(fs, xs, b)[p] == concat_contents(fs, first));
                    assert(!is_leader(cr, p));
                    assert(level_result(fsa, rest, b)[p] == fsa[p]);
                }
            } else if is_leader(cr, p) {
                assert(rest.contains(p));
                let k = choose|k: int| 0 <= k < cr.len() && cr[k][0] == p;
                lemma_chunk_of_resolves(rest, b, k);
                assert(chunk_of(cr, p) == cr[k]);
                assert(c[k + 1] == cr[k]);
                lemma_chunk_of_resolves(xs, b, k + 1);
                assert(chunk_of(c, p) == cr[k]);
                assert(is_leader(c, p));
                assert forall|m: int|
                    0 <= m < cr[k].len() implies fsa[#[trigger] cr[k][m]] == fs[cr[k][m]] by {
                    assert(rest.contains(cr[k][m]));
                    assert(cr[k][m] != first[0]) by {
                        if cr[k][m] == first[0] {
                            assert(first.contains(first[0]));
                        }
                    }
                }
                lemma_concat_contents_congruence(fsa, fs, cr[k]);
                assert(level_result(fsa, rest, b).dom().contains(p) ==> level_result(
                    fsa,
                    rest,
                    b,
                )[p] == concat_contents(fs, cr[k]));
            } else {
                assert(!is_leader(c, p));
                if fsa.dom().contains(p) && !first.contains(p) {
                    assert(fsa[p] == fs[p]);
                }
                if first.contains(p) && p != first[0] {
                    assert(first.skip(1).contains(p));
                    assert(!fsa.dom().contains(p));
                }
            }
        });
    }
}

/// The leaders of a completed level hold, in order, contents that
/// concatenate to the whole list's concatenation.
pub proof fn lemma_concat_leaders(fs: Fs, xs: Seq<Seq<char>>, b: int)
    requires
        b >= 2,
        wf_fragments(fs, xs),
    ensures
        concat_contents(level_result(fs, xs, b), leaders(chunks(xs, b))) == concat_contents(
            fs,
            xs,
        ),
    decreases xs.len(),
{
    let c = chunks(xs, b);
    let l = leaders(c);
    let lev = level_result(fs, xs, b);
    lemma_chunks_shape(xs, b);
    lemma_chunks_leaders(xs, b);
    if xs.len() <= b {
        assert(c[0] == xs);
        assert(l.len() == 1);
        assert(l[0] == xs[0]);
        assert(l.drop_first() =~= Seq::<Seq<char>>::empty());
        assert(concat_contents(lev, l) == lev[l[0]] + concat_contents(lev, l.drop_first()));
        lemma_chunk_of_resolves(xs, b, 0);
        assert(is_leader(c, xs[0]));
        assert(lev[xs[0]] == concat_contents(fs, xs));
        assert(concat_contents(fs, xs) + Seq::<u8>::empty() =~= concat_contents(fs, xs));
    } else {
        let first = xs.take(b);
        let rest = xs.skip(b);
        let cr = chunks(rest, b);
        let lr = leaders(cr);
        assert(c == seq![first] + cr);
        assert(first + rest =~= xs);
        assert(forall|m: int| 0 <= m < first.len() ==> #[trigger] first[m] == xs[m]);
        assert(forall|m: int| 0 <= m < rest.len() ==> #[trigger] rest[m] == xs[m + b]);
        assert(rest.no_duplicates()) by {
            assert forall|m1: int, m2: int|
                0 <= m1 < m2 < rest.len() implies rest[m1] != rest[m2] by {
                assert(rest[m1] == xs[m1 + b] && rest[m2] == xs[m2 + b]);
            }
        }
        assert(forall|m: int| 0 <= m < rest.len() ==> (#[trigger] rest[m]).len() > 0);
        assert(forall|m: int| 0 <= m < rest.len() ==> fs.dom().contains(#[trigger] rest[m]));
        lemma_chunks_leaders(rest, b);
        lemma_chunks_shape(rest, b);
        let levr = level_result(fs, rest, b);
        lemma_concat_leaders(fs, rest, b);
        assert(l =~= seq![first[0]] + lr) by {
            assert(l.len() == c.len());
            assert forall|k: int| 0 <= k < l.len() implies l[k] == (seq![first[0]] + lr)[k] by {
                assert(l[k] == c[k][0]);
                if k > 0 {
                    assert(c[k] == cr[k - 1]);
                    assert(lr[k - 1] == cr[k - 1][0]);
                }
            }
        }
        assert((seq![first[0]] + lr).drop_first() =~= lr);
        assert(concat_contents(lev, l) == lev[first[0]] + concat_contents(lev, lr)) by {
            assert(l[0] == first[0]);
            assert(l.drop_first() =~= lr);
        }
        lemma_chunk_of_resolves(xs, b, 0);
        assert(c[0] == first);
        assert(is_leader(c, first[0]) && chunk_of(c, first[0]) == first);
        assert(fs.dom().contains(first[0])) by {
            assert(first[0] == xs[0]);
        }
        assert(xs.contains(first[0])) by {
            assert(xs[0] == first[0]);
        }
        assert(lev[first[0]] == concat_contents(fs, first));
        assert forall|m: int|
            0 <= m < lr.len() implies lev[#[trigger] lr[m]] == levr[lr[m]] by {
            assert(lr[m] == cr[m][0]);
            lemma_chunk_of_resolves(rest, b, m);
            assert(chunk_of(cr, lr[m]) == cr[m]);
            assert(c[m + 1] == cr[m]);
            lemma_chunk_of_resolves(xs, b, m + 1);
            assert(chunk_of(c, lr[m]) == cr[m]);
            assert(is_leader(c, lr[m]));
            assert(is_leader(cr, lr[m]));
            assert(lev[lr[m]] == concat_contents(fs, cr[m]));
            assert(levr[lr[m]] == concat_contents(fs, cr[m]));
        }
        lemma_concat_contents_congruence(lev, levr, lr);
        assert(concat_contents(lev, lr) == concat_contents(fs, rest));
        lemma_concat_contents_add(fs, first, rest);
        assert(concat_contents(fs, first + rest) == concat_contents(fs, xs));
    }
}

/// The whole merge tree, run level by level, ends in exactly
/// `merge_result`: the fragments' contents concatenated onto the first
/// fragment in their original sorted order, for any batch size.
pub proof fn lemma_plan_reconstructs(fs: Fs, frags: Seq<Seq<char>>, b: int)
    requires
        b >= 2,
        wf_fragments(fs, frags),
    ensures
        run_levels(fs, plan_spec(frags, b)) == merge_result(fs, frags),
    decreases frags.len(),
{
    let c = chunks(frags, b);
    lemma_chunks_count(frags, b);
    lemma_chunks_shape(frags, b);
    lemma_chunks_leaders(frags, b);
    lemma_level(fs, frags, b);
    let lev = level_result(fs, frags, b);
    if c.len() <= 1 {
        assert(frags.len() <= b) by {
            if frags.len() > b {
                assert(c.len() >= 2);
            }
        }
        assert(c[0] == frags);
        assert(plan_spec(frags, b) == seq![c]);
        assert(seq![c].drop_first() =~= Seq::<Seq<Seq<Seq<char>>>>::empty());
        assert(run_levels(fs, seq![c]) == run_levels(run_tasks(fs, c), seq![c].drop_first()));
        assert(run_levels(lev, Seq::<Seq<Seq<Seq<char>>>>::empty()) == lev);
        assert_maps_equal!(lev, merge_result(fs, frags), p => {
            lemma_chunk_of_resolves(frags, b, 0);
            if is_leader(c, p) {
                let k = choose|k: int| 0 <= k < c.len() && c[k][0] == p;
                assert(k == 0);
                assert(p == frags[0]);
            }
            if p == frags[0] {
                assert(is_leader(c, p));
                assert(chunk_of(c, p) == frags);
                assert(frags.contains(p)) by {
                    assert(frags[0] == p);
                }
            }
        });
    } else {
        let ldrs = leaders(c);
        assert(ldrs.len() == c.len() >= 2);
        assert forall|k: int| 0 <= k < ldrs.len() implies (#[trigger] ldrs[k]).len() > 0 by {
            assert(frags.contains(ldrs[k]));
            let m = choose|m: int| 0 <= m < frags.len() && frags[m] == ldrs[k];
        }
        assert forall|k: int| 0 <= k < ldrs.len() implies lev.dom().contains(
            #[trigger] ldrs[k],
        ) by {
            assert(frags.contains(ldrs[k]));
            let m = choose|m: int| 0 <= m < frags.len() && frags[m] == ldrs[k];
            assert(fs.dom().contains(frags[m]));
            assert(is_leader(c, ldrs[k])) by {
                assert(ldrs[k] == c[k][0]);
            }
        }
        assert(wf_fragments(lev, ldrs));
        assert(ldrs.len() < frags.len()) by {
            assert(frags.len() > b >= 2);
        }
        lemma_plan_reconstructs(lev, ldrs, b);
        assert(plan_spec(frags, b) == seq![c] + plan_spec(ldrs, b));
        assert((seq![c] + plan_spec(ldrs, b)).drop_first() =~= plan_spec(ldrs, b));
        assert((seq![c] + plan_spec(ldrs, b))[0] == c);
        assert(run_levels(fs, plan_spec(frags, b)) == run_levels(
            run_tasks(fs, c),
            plan_spec(ldrs, b),
        ));
        assert(run_levels(lev, plan_spec(ldrs, b)) == merge_result(lev, ldrs));
        lemma_concat_leaders(fs, frags, b);
        assert_maps_equal!(merge_result(lev, ldrs), merge_result(fs, frags), p => {
            lemma_is_leader_contains(c, p);
            assert(ldrs[0] == frags[0]);
            assert(ldrs.contains(p) ==> frags.contains(p)) by {
                if ldrs.contains(p) {
                    let k = choose|k: int| 0 <= k < ldrs.len() && ldrs[k] == p;
                    assert(frags.contains(ldrs[k]));
                }
            }
            assert(frags.contains(frags[0])) by {
                assert(frags[0] == frags[0]);
            }
            assert(ldrs.contains(ldrs[0])) by {
                assert(ldrs[0] == ldrs[0]);
            }
            if p == frags[0] {
                assert(merge_result(lev, ldrs)[p] == concat_contents(lev, ldrs));
                assert(lev.dom().contains(p));
            } else if frags.contains(p) {
                assert(p != frags[0]);
                if ldrs.contains(p) {
                    assert(p != ldrs[0]);
                } else {
                    assert(!is_leader(c, p));
                    assert(!lev.dom().contains(p));
                }
            } else {
                assert(!ldrs.contains(p));
                assert(!is_leader(c, p)) by {
                    if is_leader(c, p) {
                        assert(ldrs.contains(p));
                    }
                }
                if fs.dom().contains(p) {
                    assert(lev.dom().contains(p));
                    assert(lev[p] == fs[p]);
                }
            }
        });
    }
}

} // verus!
