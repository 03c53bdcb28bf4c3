//! The merge tree: batching fragments into tasks and folding task levels.
//!
//! The scheduler partitions the sorted fragment list into batches of at
//! most the configured batch size, one leaf task per batch, then folds
//! each level of tasks into parent tasks over the leaders of groups of at
//! most batch-size children, until one task remains. The plan records
//! every level; a parent's file list is the list of its children's
//! leaders, so executing the levels in order reassembles the fragments in
//! their original order.

use vstd::prelude::*;

use crate::grouping::views_of;

verus! {

/// A unit of scheduled work: an ordered list of file paths to merge. The
/// first entry is the task's leader; after the task completes, the leader
/// holds the concatenated content of the whole list.
pub struct Task {
    /// The file paths to merge, in order.
    pub files: Vec<String>,
}

impl View for Task {
    type V = Seq<Seq<char>>;

    open spec fn view(&self) -> Seq<Seq<char>> {
        views_of(self.files@)
    }
}

/// The views of a level of tasks.
pub open spec fn tasks_view(ts: Seq<Task>) -> Seq<Seq<Seq<char>>> {
    ts.map_values(|t: Task| t@)
}

/// The views of a whole plan.
pub open spec fn levels_view(ls: Seq<Vec<Task>>) -> Seq<Seq<Seq<Seq<char>>>> {
    ls.map_values(|l: Vec<Task>| tasks_view(l@))
}

/// Splits `xs` into consecutive batches of `b` entries, the last batch
/// holding the 1 to `b` entries that remain.
pub open spec fn chunks(xs: Seq<Seq<char>>, b: int) -> Seq<Seq<Seq<char>>>
    decreases xs.len(),
    when b >= 2
{
    if xs.len() <= b {
        seq![xs]
    } else {
        seq![xs.take(b)] + chunks(xs.skip(b), b)
    }
}

/// The leaders of a level: the first file of each task.
pub open spec fn leaders(ts: Seq<Seq<Seq<char>>>) -> Seq<Seq<char>> {
    ts.map_values(|t: Seq<Seq<char>>| t[0])
}

/// How many batches a split produces: at least one, exactly one when
/// everything fits in one batch, and always fewer than the entries when
/// there are at least two of them.
pub proof fn lemma_chunks_count(xs: Seq<Seq<char>>, b: int)
    requires
        b >= 2,
        xs.len() >= 1,
    ensures
        chunks(xs, b).len() >= 1,
        xs.len() <= b ==> chunks(xs, b).len() == 1,
        xs.len() > b ==> chunks(xs, b).len() >= 2,
        xs.len() >= 2 ==> chunks(xs, b).len() < xs.len(),
    decreases xs.len(),
{
    if xs.len() > b {
        lemma_chunks_count(xs.skip(b), b);
    }
}

/// The shape of a split: every batch holds 1 to `b` entries of `xs`, the
/// batches concatenate back to `xs`, and the first batch starts at the
/// first entry.
pub proof fn lemma_chunks_shape(xs: Seq<Seq<char>>, b: int)
    requires
        b >= 2,
        xs.len() >= 1,
    ensures
        ({
            let c = chunks(xs, b);
            &&& forall|k: int| 0 <= k < c.len() ==> 1 <= #[trigger] c[k].len() <= b
            &&& c.flatten() == xs
            &&& forall|k: int, j: int|
                0 <= k < c.len() && 0 <= j < c[k].len() ==> xs.contains(#[trigger] c[k][j])
            &&& c[0][0] == xs[0]
        }),
    decreases xs.len(),
{
    let c = chunks(xs, b);
    if xs.len() <= b {
        assert(c[0] == xs);
        c.lemma_flatten_one_element();
        assert(c.first() == xs);
        assert forall|k: int, j: int|
            0 <= k < c.len() && 0 <= j < c[k].len() implies xs.contains(#[trigger] c[k][j]) by {
            assert(c[k][j] == xs[j]);
        }
    } else {
        let first = xs.take(b);
        let rest = xs.skip(b);
        let cr = chunks(rest, b);
        lemma_chunks_shape(rest, b);
        assert(c == seq![first] + cr);
        assert(c[0] == first);
        assert(c.drop_first() =~= cr);
        assert(c.flatten() == first + cr.flatten());
        assert(first + rest =~= xs);
        assert forall|k: int| 0 <= k < c.len() implies 1 <= #[trigger] c[k].len() <= b by {
            if k > 0 {
                assert(c[k] == cr[k - 1]);
            }
        }
        assert forall|k: int, j: int|
            0 <= k < c.len() && 0 <= j < c[k].len() implies xs.contains(#[trigger] c[k][j]) by {
            if k == 0 {
                assert(c[0][j] == xs[j]);
            } else {
                assert(c[k][j] == cr[k - 1][j]);
                assert(rest.contains(cr[k - 1][j]));
                let m = choose|m: int| 0 <= m < rest.len() && rest[m] == cr[k - 1][j];
                assert(xs[m + b] == cr[k - 1][j]);
            }
        }
        assert(c[0][0] == xs[0]);
    }
}

/// The leaders of a split of a duplicate-free list: one per batch, each a
/// distinct entry of `xs`, the first being `xs`'s first entry; and every
/// batch is itself duplicate-free.
pub proof fn lemma_chunks_leaders(xs: Seq<Seq<char>>, b: int)
    requires
        b >= 2,
        xs.len() >= 1,
        xs.no_duplicates(),
    ensures
        ({
            let c = chunks(xs, b);
            let l = leaders(c);
            &&& l.len() == c.len()
            &&& forall|k: int| 0 <= k < c.len() ==> #[trigger] l[k] == c[k][0]
            &&& l[0] == xs[0]
            &&& forall|k: int| 0 <= k < l.len() ==> xs.contains(#[trigger] l[k])
            &&& l.no_duplicates()
            &&& forall|k: int| 0 <= k < c.len() ==> (#[trigger] c[k]).no_duplicates()
        }),
    decreases xs.len(),
{
    let c = chunks(xs, b);
    let l = leaders(c);
    lemma_chunks_shape(xs, b);
    if xs.len() <= b {
        assert(c[0] == xs);
        assert(l[0] == xs[0]);
    } else {
        let first = xs.take(b);
        let rest = xs.skip(b);
        let cr = chunks(rest, b);
        let lr = leaders(cr);
        assert(rest.no_duplicates()) by {
            assert forall|i: int, j: int|
                0 <= i < j < rest.len() implies rest[i] != rest[j] by {
                assert(rest[i] == xs[i + b] && rest[j] == xs[j + b]);
            }
        }
        lemma_chunks_leaders(rest, b);
        assert(c == seq![first] + cr);
        assert(forall|k: int| 1 <= k < c.len() ==> #[trigger] c[k] == cr[k - 1]);
        assert forall|k: int| 0 <= k < c.len() implies #[trigger] l[k] == c[k][0] by {}
        assert(l[0] == first[0]);
        assert(first[0] == xs[0]);
        assert forall|k: int| 0 <= k < l.len() implies xs.contains(#[trigger] l[k]) by {
            if k == 0 {
                assert(l[0] == xs[0]);
            } else {
                assert(l[k] == cr[k - 1][0]);
                assert(cr[k - 1][0] == lr[k - 1]);
                assert(rest.contains(lr[k - 1]));
                let m = choose|m: int| 0 <= m < rest.len() && rest[m] == lr[k - 1];
                assert(xs[m + b] == lr[k - 1]);
            }
        }
        assert(l.no_duplicates()) by {
            assert forall|i: int, j: int| 0 <= i < j < l.len() implies l[i] != l[j] by {
                if i == 0 {
                    assert(l[0] == xs[0]);
                    assert(l[j] == lr[j - 1]);
                    assert(rest.contains(lr[j - 1]));
                    let m = choose|m: int| 0 <= m < rest.len() && rest[m] == lr[j - 1];
                    assert(rest[m] == xs[m + b]);
                } else {
                    assert(l[i] == lr[i - 1] && l[j] == lr[j - 1]);
                }
            }
        }
        assert forall|k: int| 0 <= k < c.len() implies (#[trigger] c[k]).no_duplicates() by {
            if k == 0 {
                assert forall|i: int, j: int|
                    0 <= i < j < first.len() implies first[i] != first[j] by {
                    assert(first[i] == xs[i] && first[j] == xs[j]);
                }
            } else {
                assert(c[k] == cr[k - 1]);
            }
        }
    }
}

/// The levels of the merge tree over a fragment list: the batches of the
/// list form the leaf level, and each further level batches the leaders
/// of the level below it, until a level holds a single task.
pub open spec fn plan_spec(frags: Seq<Seq<char>>, b: int) -> Seq<Seq<Seq<Seq<char>>>>
    decreases frags.len(),
    when b >= 2 && frags.len() >= 1
    via plan_spec_decreases
{
    let lvl = chunks(frags, b);
    if lvl.len() <= 1 {
        seq![lvl]
    } else {
        seq![lvl] + plan_spec(leaders(lvl), b)
    }
}

#[via_fn]
proof fn plan_spec_decreases(frags: Seq<Seq<char>>, b: int) {
    let lvl = chunks(frags, b);
    if lvl.len() > 1 {
        lemma_chunks_count(frags, b);
    }
}

/// Builds one level of tasks: consecutive batches of at most `b` of the
/// given paths, in order.
fn make_level(items: &Vec<String>, b: usize) -> (tasks: Vec<Task>)
    requires
        2 <= b,
        items@.len() >= 1,
    ensures
        tasks_view(tasks@) == chunks(views_of(items@), b as int),
        forall|k: int| 0 <= k < tasks@.len() ==> (#[trigger] tasks@[k])@.len() >= 1,
{
    let ghost all = views_of(items@);
    let n = items.len();
    let mut tasks: Vec<Task> = Vec::new();
    let mut i: usize = 0;
    proof {
        assert(all.skip(0) =~= all);
        assert(tasks_view(tasks@) =~= Seq::<Seq<Seq<char>>>::empty());
        assert(Seq::<Seq<Seq<char>>>::empty() + chunks(all, b as int) =~= chunks(all, b as int));
    }
    loop
        invariant
            2 <= b,
            n == items@.len(),
            1 <= n,
            i < n,
            all == views_of(items@),
            tasks_view(tasks@) + chunks(all.skip(i as int), b as int) == chunks(all, b as int),
            forall|k: int| 0 <= k < tasks@.len() ==> (#[trigger] tasks@[k])@.len() >= 1,
        decreases n - i,
    {
        let remaining = n - i;
        let width = if remaining < b {
            remaining
        } else {
            b
        };
        let ghost before = tasks_view(tasks@);
        let mut files: Vec<String> = Vec::new();
        let mut j: usize = i;
        while j < i + width
            invariant
                i <= j <= i + width,
                i + width <= n,
                n == items@.len(),
                all == views_of(items@),
                files@.len() == j - i,
                forall|m: int| 0 <= m < j - i ==> #[trigger] files@[m]@ == all[i + m],
            decreases i + width - j,
        {
            let s = items[j].clone();
            files.push(s);
            proof {
                assert(views_of(items@)[j as int] == items@[j as int]@);
                assert(files@[j - i]@ == all[j as int]);
            }
            j = j + 1;
        }
        proof {
            assert forall|m: int|
                0 <= m < width implies #[trigger] views_of(files@)[m] == all.subrange(
                i as int,
                i + width,
            )[m] by {
                assert(views_of(files@)[m] == files@[m]@);
                assert(files@[m]@ == all[i + m]);
            }
            assert(views_of(files@) =~= all.subrange(i as int, i + width));
        }
        tasks.push(Task { files });
        proof {
            let v = all.skip(i as int);
            assert(tasks_view(tasks@) =~= before.push(all.subrange(i as int, i + width)));
            if remaining <= b {
                assert(all.subrange(i as int, i + width) =~= v);
                assert(chunks(v, b as int) == seq![v]);
                assert(before.push(v) =~= before + seq![v]);
                assert(tasks_view(tasks@) + Seq::<Seq<Seq<char>>>::empty()
                    =~= tasks_view(tasks@));
                assert(tasks_view(tasks@) =~= chunks(all, b as int));
            } else {
                assert(v.len() > b);
                assert(all.subrange(i as int, i + width) =~= v.take(b as int));
                assert(v.skip(b as int) =~= all.skip(i + b));
                assert(chunks(v, b as int) == seq![v.take(b as int)] + chunks(
                    all.skip(i + b),
                    b as int,
                ));
                assert(before.push(v.take(b as int)) + chunks(all.skip(i + b), b as int)
                    =~= before + chunks(v, b as int));
                assert(tasks_view(tasks@) + chunks(all.skip(i + b), b as int) == chunks(
                    all,
                    b as int,
                )) by {
                    assert((before + chunks(v, b as int)) + Seq::<Seq<Seq<char>>>::empty()
                        =~= before + chunks(v, b as int));
                    assert(before + chunks(v, b as int) =~= chunks(all, b as int));
                }
            }
        }
        if remaining <= b {
            proof {
                assert(chunks(all.skip(i as int), b as int).len() >= 1);
            }
            return tasks;
        }
        i = i + b;
    }
}

/// The leaders of a level of tasks, as owned paths.
fn level_leaders(tasks: &Vec<Task>) -> (ls: Vec<String>)
    requires
        forall|k: int| 0 <= k < tasks@.len() ==> (#[trigger] tasks@[k])@.len() >= 1,
    ensures
        views_of(ls@) == leaders(tasks_view(tasks@)),
{
    let n = tasks.len();
    let mut ls: Vec<String> = Vec::new();
    let mut k: usize = 0;
    while k < n
        invariant
            k <= n,
            n == tasks@.len(),
            forall|j: int| 0 <= j < tasks@.len() ==> (#[trigger] tasks@[j])@.len() >= 1,
            views_of(ls@).len() == k,
            forall|j: int|
                0 <= j < k ==> #[trigger] views_of(ls@)[j] == tasks_view(tasks@)[j][0],
        decreases n - k,
    {
        proof {
            assert(tasks@[k as int]@.len() >= 1);
            assert(tasks@[k as int]@[0] == tasks@[k as int].files@[0]@);
            assert(tasks_view(tasks@)[k as int] == tasks@[k as int]@);
        }
        let ghost before = views_of(ls@);
        let s = tasks[k].files[0].clone();
        ls.push(s);
        proof {
            assert forall|j: int|
                0 <= j < k + 1 implies #[trigger] views_of(ls@)[j] == tasks_view(
                tasks@,
            )[j][0] by {
                assert(views_of(ls@)[j] == ls@[j]@);
                if j < k {
                    assert(before[j] == tasks_view(tasks@)[j][0]);
                    assert(before[j] == ls@[j]@);
                }
            }
        }
        k = k + 1;
    }
    proof {
        assert(views_of(ls@) =~= leaders(tasks_view(tasks@)));
    }
    ls
}

/// Builds the whole merge tree for a sorted fragment list: the leaf level
/// of fragment batches, then each folded level over the leaders below it,
/// ending with the single top task.
pub fn build_plan(fragments: &Vec<String>, batch: usize) -> (levels: Vec<Vec<Task>>)
    requires
        2 <= batch,
        fragments@.len() >= 1,
    ensures
        levels_view(levels@) == plan_spec(views_of(fragments@), batch as int),
{
    let ghost all = views_of(fragments@);
    let mut levels: Vec<Vec<Task>> = Vec::new();
    let mut work: Vec<String> = clone_paths(fragments);
    proof {
        assert(levels_view(levels@) =~= Seq::<Seq<Seq<Seq<char>>>>::empty());
    }
    loop
        invariant
            2 <= batch,
            all == views_of(fragments@),
            work@.len() >= 1,
            all.len() >= 1,
            levels_view(levels@) + plan_spec(views_of(work@), batch as int) == plan_spec(
                all,
                batch as int,
            ),
        decreases work@.len(),
    {
        let ghost w = views_of(work@);
        let lvl = make_level(&work, batch);
        let ghost before = levels_view(levels@);
        let done = lvl.len() <= 1;
        proof {
            lemma_chunks_count(w, batch as int);
            assert(tasks_view(lvl@).len() == chunks(w, batch as int).len());
        }
        if done {
            levels.push(lvl);
            proof {
                assert(plan_spec(w, batch as int) == seq![chunks(w, batch as int)]);
                assert(levels_view(levels@) =~= before.push(chunks(w, batch as int)));
                assert(before.push(chunks(w, batch as int)) =~= before + seq![
                    chunks(w, batch as int),
                ]);
                assert(levels_view(levels@) + Seq::<Seq<Seq<Seq<char>>>>::empty()
                    =~= levels_view(levels@));
                assert(levels_view(levels@) =~= plan_spec(all, batch as int));
            }
            return levels;
        }
        let next = level_leaders(&lvl);
        levels.push(lvl);
        proof {
            assert(views_of(next@) == leaders(chunks(w, batch as int)));
            assert(views_of(next@).len() == chunks(w, batch as int).len());
            assert(plan_spec(w, batch as int) == seq![chunks(w, batch as int)] + plan_spec(
                views_of(next@),
                batch as int,
            ));
            assert(levels_view(levels@) =~= before.push(chunks(w, batch as int)));
            assert(before.push(chunks(w, batch as int)) + plan_spec(views_of(next@), batch as int)
                =~= before + plan_spec(w, batch as int));
            assert(w.len() >= 2);
            assert(views_of(next@).len() < w.len());
        }
        work = next;
    }
}

/// A fresh copy of a path list.
fn clone_paths(paths: &Vec<String>) -> (out: Vec<String>)
    ensures
        views_of(out@) == views_of(paths@),
        out@.len() == paths@.len(),
{
    let n = paths.len();
    let mut out: Vec<String> = Vec::new();
    let mut i: usize = 0;
    while i < n
        invariant
            i <= n,
            n == paths@.len(),
            out@.len() == i,
            forall|j: int| 0 <= j < i ==> #[trigger] out@[j]@ == paths@[j]@,
        decreases n - i,
    {
        let s = paths[i].clone();
        out.push(s);
        i = i + 1;
    }
    proof {
        assert(views_of(out@) =~= views_of(paths@));
    }
    out
}

} // verus!
