//! End-to-end reconstruction of one logical file, and the laws it obeys.
//!
//! The driver runs the merge tree for a base filename's sorted fragment
//! list, waits for the single surviving task, and renames that task's
//! leader — the first fragment — to the base filename. These lemmas state
//! what the reconstructed state looks like: the ordering guarantee, the
//! consumption of every fragment, the trivial single-fragment case, and
//! the insensitivity of the result to the batch size.

use vstd::prelude::*;
use vstd::map::*;

use crate::fsmodel::{concat_contents, run_levels, Fs};
use crate::merge::{lemma_plan_reconstructs, merge_result, wf_fragments};
use crate::plan::plan_spec;

verus! {

/// The state after renaming the file at `from` to `to`.
pub open spec fn rename_result(fs: Fs, from: Seq<char>, to: Seq<char>) -> Fs {
    fs.remove(from).insert(to, fs[from])
}

/// The state after a whole reconstruction: the merge tree is run over the
/// sorted fragments and the surviving leader is renamed to `base`.
pub open spec fn reconstruct_spec(fs: Fs, base: Seq<char>, frags: Seq<Seq<char>>, b: int) -> Fs {
    rename_result(run_levels(fs, plan_spec(frags, b)), frags[0], base)
}

/// Ordering and consumption: reconstruction leaves, at the base path, the
/// concatenation of the fragments' contents in their given (sorted)
/// order; none of the fragment paths exist afterwards; the base path
/// exists; and every unrelated file is untouched.
pub proof fn lemma_reconstruction_correct(fs: Fs, base: Seq<char>, frags: Seq<Seq<char>>, b: int)
    requires
        b >= 2,
        wf_fragments(fs, frags),
        !frags.contains(base),
    ensures
        ({
            let r = reconstruct_spec(fs, base, frags, b);
            &&& r.dom().contains(base)
            &&& r[base] == concat_contents(fs, frags)
            &&& forall|j: int| 0 <= j < frags.len() ==> !r.dom().contains(#[trigger] frags[j])
            &&& forall|p: Seq<char>|
                p != base && !frags.contains(p) && fs.dom().contains(p)
                    ==> #[trigger] r.dom().contains(p) && r[p] == fs[p]
            &&& forall|p: Seq<char>|
                p != base && !fs.dom().contains(p) ==> !(#[trigger] r.dom().contains(p))
        }),
{
    lemma_plan_reconstructs(fs, frags, b);
    let m = merge_result(fs, frags);
    let r = reconstruct_spec(fs, base, frags, b);
    assert(frags.contains(frags[0])) by {
        assert(frags[0] == frags[0]);
    }
    assert(base != frags[0]);
    assert(m.dom().contains(frags[0])) by {
        assert(fs.dom().contains(frags[0]));
    }
    assert(r[base] == m[frags[0]]);
    assert forall|j: int|
        0 <= j < frags.len() implies !r.dom().contains(#[trigger] frags[j]) by {
        assert(frags.contains(frags[j]));
        if j != 0 {
            assert(frags[j] != frags[0]);
            assert(!m.dom().contains(frags[j]));
        }
    }
}

/// A group with exactly one fragment reconstructs to a file with that
/// fragment's content, with no concatenation performed: running the merge
/// tree changes nothing at all, and only the final rename acts.
pub proof fn lemma_single_fragment(fs: Fs, frags: Seq<Seq<char>>, b: int)
    requires
        b >= 2,
        wf_fragments(fs, frags),
        frags.len() == 1,
    ensures
        run_levels(fs, plan_spec(frags, b)) == fs,
{
    lemma_plan_reconstructs(fs, frags, b);
    assert_maps_equal!(merge_result(fs, frags), fs, p => {
        if p == frags[0] {
            assert(frags.drop_first() =~= Seq::<Seq<char>>::empty());
            assert(concat_contents(fs, frags) == fs[frags[0]] + concat_contents(
                fs,
                frags.drop_first(),
            ));
            assert(fs[frags[0]] + Seq::<u8>::empty() =~= fs[frags[0]]);
            assert(fs.dom().contains(p));
        } else {
            if frags.contains(p) {
                let j = choose|j: int| 0 <= j < frags.len() && frags[j] == p;
                assert(j == 0);
            }
        }
    });
}

/// The batch size never changes what is reconstructed: any two valid
/// batch sizes drive the merge tree to the identical final state, deepest
/// tree and shallowest alike.
pub proof fn lemma_batch_size_insensitive(fs: Fs, frags: Seq<Seq<char>>, b1: int, b2: int)
    requires
        b1 >= 2,
        b2 >= 2,
        wf_fragments(fs, frags),
    ensures
        run_levels(fs, plan_spec(frags, b1)) == run_levels(fs, plan_spec(frags, b2)),
{
    lemma_plan_reconstructs(fs, frags, b1);
    lemma_plan_reconstructs(fs, frags, b2);
}

} // verus!
