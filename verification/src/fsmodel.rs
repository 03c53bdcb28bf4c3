//! Model of the filesystem state that reconstruction works on.
//!
//! A filesystem state maps a path to the byte content of the file at that
//! path. The concatenation primitive appends the contents of the secondary
//! files of a task, in list order, onto the task's first file (its leader)
//! and deletes each secondary file as it is absorbed; a missing or
//! empty-named secondary entry is skipped. These spec functions say what
//! one task, one level of tasks, and a whole plan of levels do to a
//! filesystem state.

use vstd::prelude::*;
use vstd::map::*;

verus! {

/// A filesystem state: each existing path maps to its byte content.
pub type Fs = Map<Seq<char>, Seq<u8>>;

/// The concatenation, in order, of the contents of `ps` in `fs`.
pub open spec fn concat_contents(fs: Fs, ps: Seq<Seq<char>>) -> Seq<u8>
    decreases ps.len(),
{
    if ps.len() == 0 {
        Seq::empty()
    } else {
        fs[ps[0]] + concat_contents(fs, ps.drop_first())
    }
}

/// The effect of appending the files of `rest`, in order, onto `leader`:
/// each existing entry's content moves onto the leader and the entry is
/// deleted; an empty-named or missing entry is skipped.
pub open spec fn apply_cat(fs: Fs, leader: Seq<char>, rest: Seq<Seq<char>>) -> Fs
    decreases rest.len(),
{
    if rest.len() == 0 {
        fs
    } else {
        let f = rest[0];
        let fs1 = if f.len() == 0 || !fs.dom().contains(f) || !fs.dom().contains(leader) {
            fs
        } else {
            fs.insert(leader, fs[leader] + fs[f]).remove(f)
        };
        apply_cat(fs1, leader, rest.drop_first())
    }
}

/// The effect of one completed task: nothing for a trivial or placeholder
/// task, otherwise the concatenation of its secondary files onto its
/// leader. A task whose leader is absent never completes (the primitive
/// keeps failing), and the planner never creates one; its result here is
/// the unchanged state.
pub open spec fn run_task(fs: Fs, t: Seq<Seq<char>>) -> Fs {
    if t.len() <= 1 || t[0].len() == 0 || !fs.dom().contains(t[0]) {
        fs
    } else {
        apply_cat(fs, t[0], t.skip(1))
    }
}

/// The effect of one level of tasks, in order. Sibling tasks work on
/// disjoint files, so any execution order of a level ends in this state;
/// list order is as good as any.
pub open spec fn run_tasks(fs: Fs, ts: Seq<Seq<Seq<char>>>) -> Fs
    decreases ts.len(),
{
    if ts.len() == 0 {
        fs
    } else {
        run_tasks(run_task(fs, ts[0]), ts.drop_first())
    }
}

/// The effect of a whole plan: its levels in order, each awaited before
/// the next starts.
pub open spec fn run_levels(fs: Fs, ls: Seq<Seq<Seq<Seq<char>>>>) -> Fs
    decreases ls.len(),
{
    if ls.len() == 0 {
        fs
    } else {
        run_levels(run_tasks(fs, ls[0]), ls.drop_first())
    }
}

/// The state a successful concatenation ends in, written directly: the
/// secondary files are gone, the leader holds its old content followed by
/// theirs, and every other file is untouched.
pub open spec fn cat_result(fs: Fs, leader: Seq<char>, rest: Seq<Seq<char>>) -> Fs {
    Map::new(
        |p: Seq<char>| fs.dom().contains(p) && (p == leader || !rest.contains(p)),
        |p: Seq<char>|
            if p == leader {
                fs[leader] + concat_contents(fs, rest)
            } else {
                fs[p]
            },
    )
}

/// The state a completed task ends in, written directly: its leader holds
/// the concatenation of the whole file list, the other listed files are
/// gone, and every other file is untouched.
pub open spec fn task_result(fs: Fs, t: Seq<Seq<char>>) -> Fs {
    Map::new(
        |p: Seq<char>| fs.dom().contains(p) && (p == t[0] || !t.skip(1).contains(p)),
        |p: Seq<char>|
            if p == t[0] {
                concat_contents(fs, t)
            } else {
                fs[p]
            },
    )
}

/// A non-empty sequence contains an element exactly when its head is that
/// element or its tail contains it.
pub proof fn lemma_contains_split(s: Seq<Seq<char>>, p: Seq<char>)
    requires
        s.len() > 0,
    ensures
        s.contains(p) <==> (s[0] == p || s.drop_first().contains(p)),
{
    if s.contains(p) && s[0] != p {
        let j = choose|j: int| 0 <= j < s.len() && s[j] == p;
        assert(s.drop_first()[j - 1] == p);
    }
    if s.drop_first().contains(p) {
        let j = choose|j: int| 0 <= j < s.drop_first().len() && s.drop_first()[j] == p;
        assert(s[j + 1] == p);
    }
}

/// A concatenation contains an element exactly when one of its halves does.
pub proof fn lemma_contains_concat(a: Seq<Seq<char>>, b: Seq<Seq<char>>, p: Seq<char>)
    ensures
        (a + b).contains(p) <==> (a.contains(p) || b.contains(p)),
{
    if (a + b).contains(p) {
        let j = choose|j: int| 0 <= j < (a + b).len() && (a + b)[j] == p;
        if j < a.len() {
            assert(a[j] == p);
        } else {
            assert(b[j - a.len()] == p);
        }
    }
    if a.contains(p) {
        let j = choose|j: int| 0 <= j < a.len() && a[j] == p;
        assert((a + b)[j] == p);
    }
    if b.contains(p) {
        let j = choose|j: int| 0 <= j < b.len() && b[j] == p;
        assert((a + b)[j + a.len()] == p);
    }
}

/// Two states that agree on the contents of every path of `ps` give the
/// same concatenation over `ps`.
pub proof fn lemma_concat_contents_congruence(fs1: Fs, fs2: Fs, ps: Seq<Seq<char>>)
    requires
        forall|j: int| 0 <= j < ps.len() ==> fs1[#[trigger] ps[j]] == fs2[ps[j]],
    ensures
        concat_contents(fs1, ps) == concat_contents(fs2, ps),
    decreases ps.len(),
{
    if ps.len() > 0 {
        assert(fs1[ps[0]] == fs2[ps[0]]);
        assert(forall|j: int|
            0 <= j < ps.drop_first().len() ==> fs1[#[trigger] ps.drop_first()[j]]
                == fs2[ps.drop_first()[j]]);
        lemma_concat_contents_congruence(fs1, fs2, ps.drop_first());
    }
}

/// Contents concatenate over a split of the path list.
pub proof fn lemma_concat_contents_add(fs: Fs, a: Seq<Seq<char>>, b: Seq<Seq<char>>)
    ensures
        concat_contents(fs, a + b) == concat_contents(fs, a) + concat_contents(fs, b),
    decreases a.len(),
{
    if a.len() == 0 {
        assert(a + b =~= b);
        assert(concat_contents(fs, a) + concat_contents(fs, b) =~= concat_contents(fs, b));
    } else {
        assert((a + b).drop_first() =~= a.drop_first() + b);
        lemma_concat_contents_add(fs, a.drop_first(), b);
        assert((a + b)[0] == a[0]);
        assert(fs[a[0]] + (concat_contents(fs, a.drop_first()) + concat_contents(fs, b)) =~= (
        fs[a[0]] + concat_contents(fs, a.drop_first())) + concat_contents(fs, b));
    }
}

/// The effect of a successful concatenation whose files all exist and are
/// pairwise distinct is exactly `cat_result`.
pub proof fn lemma_apply_cat(fs: Fs, leader: Seq<char>, rest: Seq<Seq<char>>)
    requires
        fs.dom().contains(leader),
        !rest.contains(leader),
        rest.no_duplicates(),
        forall|j: int| 0 <= j < rest.len() ==> #[trigger] rest[j].len() > 0,
        forall|j: int| 0 <= j < rest.len() ==> fs.dom().contains(#[trigger] rest[j]),
    ensures
        apply_cat(fs, leader, rest) == cat_result(fs, leader, rest),
    decreases rest.len(),
{
    if rest.len() == 0 {
        assert(fs[leader] + concat_contents(fs, rest) =~= fs[leader]);
        assert_maps_equal!(apply_cat(fs, leader, rest), cat_result(fs, leader, rest), p => {
            assert(!rest.contains(p));
        });
    } else {
        let f = rest[0];
        assert(rest.contains(f));
        assert(f.len() > 0 && fs.dom().contains(f));
        assert(f != leader);
        let fs1 = fs.insert(leader, fs[leader] + fs[f]).remove(f);
        let tail = rest.drop_first();
        assert(forall|j: int| 0 <= j < tail.len() ==> tail[j] == rest[j + 1]);
        assert(!tail.contains(leader)) by {
            lemma_contains_split(rest, leader);
        }
        assert(!tail.contains(f)) by {
            if tail.contains(f) {
                let j = choose|j: int| 0 <= j < tail.len() && tail[j] == f;
                assert(rest[j + 1] == rest[0]);
            }
        }
        assert(forall|j: int| 0 <= j < tail.len() ==> #[trigger] tail[j].len() > 0);
        assert(forall|j: int| 0 <= j < tail.len() ==> fs1.dom().contains(#[trigger] tail[j]));
        lemma_apply_cat(fs1, leader, tail);
        assert(apply_cat(fs, leader, rest) == cat_result(fs1, leader, tail));
        assert(forall|j: int| 0 <= j < tail.len() ==> fs1[#[trigger] tail[j]] == fs[tail[j]]);
        lemma_concat_contents_congruence(fs1, fs, tail);
        assert(fs1[leader] == fs[leader] + fs[f]);
        assert((fs[leader] + fs[f]) + concat_contents(fs, tail) =~= fs[leader] + (fs[f]
            + concat_contents(fs, tail)));
        assert(concat_contents(fs, rest) == fs[f] + concat_contents(fs, tail));
        assert_maps_equal!(cat_result(fs1, leader, tail), cat_result(fs, leader, rest), p => {
            lemma_contains_split(rest, p);
        });
    }
}

/// The effect of one completed task whose files all exist, have non-empty
/// names, and are pairwise distinct is exactly `task_result`.
pub proof fn lemma_run_task(fs: Fs, t: Seq<Seq<char>>)
    requires
        t.len() >= 1,
        t.no_duplicates(),
        forall|j: int| 0 <= j < t.len() ==> #[trigger] t[j].len() > 0,
        forall|j: int| 0 <= j < t.len() ==> fs.dom().contains(#[trigger] t[j]),
    ensures
        run_task(fs, t) == task_result(fs, t),
{
    let rest = t.skip(1);
    assert(forall|j: int| 0 <= j < rest.len() ==> rest[j] == t[j + 1]);
    assert(t.drop_first() =~= rest);
    if t.len() == 1 {
        assert(rest.len() == 0);
        assert(concat_contents(fs, t) == fs[t[0]] + concat_contents(fs, rest));
        assert(fs[t[0]] + Seq::<u8>::empty() =~= fs[t[0]]);
        assert_maps_equal!(run_task(fs, t), task_result(fs, t), p => {
            assert(!rest.contains(p));
        });
    } else {
        assert(!rest.contains(t[0])) by {
            if rest.contains(t[0]) {
                let j = choose|j: int| 0 <= j < rest.len() && rest[j] == t[0];
                assert(t[j + 1] == t[0]);
            }
        }
        assert(rest.no_duplicates());
        assert(forall|j: int| 0 <= j < rest.len() ==> #[trigger] rest[j].len() > 0);
        assert(forall|j: int| 0 <= j < rest.len() ==> fs.dom().contains(#[trigger] rest[j]));
        lemma_apply_cat(fs, t[0], rest);
        assert(concat_contents(fs, t) == fs[t[0]] + concat_contents(fs, rest));
        assert_maps_equal!(cat_result(fs, t[0], rest), task_result(fs, t), p => {});
    }
}

} // verus!
