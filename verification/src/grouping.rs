//! Discovery-side grouping of fragment paths.
//!
//! Candidate paths are sorted lexicographically, paths without the fragment
//! marker are dropped, and the rest are grouped into runs that share a base
//! filename. The result is a function of the multiset of input paths alone,
//! so the order of filesystem enumeration cannot change it.

use vstd::prelude::*;
use vstd::seq_lib::lemma_sorted_unique;
use vstd::relations::sorted_by;

use crate::fragname::{base_of, is_fragment, is_fragment_path, base_filename};
use crate::lexorder::{
    lex_le, lex_le_rel, lemma_lex_le_connected, lemma_lex_le_total_ordering,
    lemma_lex_le_transitive, str_le,
};

verus! {

/// The views of a sequence of owned strings.
pub open spec fn views_of(v: Seq<String>) -> Seq<Seq<char>> {
    v.map_values(|s: String| s@)
}

/// One reconstruction unit: a base filename and its fragment paths in
/// ascending lexicographic order.
pub struct FragmentGroup {
    /// The path the reconstructed file will live at.
    pub base: String,
    /// The fragment paths, sorted ascending; their contents concatenate,
    /// in this order, to the reconstructed file.
    pub fragments: Vec<String>,
}

impl FragmentGroup {
    /// The mathematical value of a group: its base and fragment paths.
    pub open spec fn view(&self) -> (Seq<char>, Seq<Seq<char>>) {
        (self.base@, views_of(self.fragments@))
    }
}

/// The views of a sequence of groups.
pub open spec fn groups_view(gs: Seq<FragmentGroup>) -> Seq<(Seq<char>, Seq<Seq<char>>)> {
    gs.map_values(|g: FragmentGroup| g.view())
}

/// Appends one fragment path to a run of groups: onto the last group when
/// the base matches, else as a fresh group.
pub open spec fn group_push(
    gs: Seq<(Seq<char>, Seq<Seq<char>>)>,
    p: Seq<char>,
) -> Seq<(Seq<char>, Seq<Seq<char>>)> {
    if gs.len() > 0 && gs.last().0 == base_of(p) {
        gs.update(gs.len() - 1, (gs.last().0, gs.last().1.push(p)))
    } else {
        gs.push((base_of(p), seq![p]))
    }
}

/// Folds a sequence of fragment paths, in order, into groups.
pub open spec fn group_fold(ps: Seq<Seq<char>>) -> Seq<(Seq<char>, Seq<Seq<char>>)>
    decreases ps.len(),
{
    if ps.len() == 0 {
        Seq::empty()
    } else {
        group_push(group_fold(ps.drop_last()), ps.last())
    }
}

/// Whether a path carries the fragment marker, as a first-class predicate.
pub open spec fn fragment_pred() -> spec_fn(Seq<char>) -> bool {
    |p: Seq<char>| is_fragment(p)
}

/// What grouping returns for a set of discovered paths: the paths sorted
/// lexicographically, restricted to fragment paths, grouped into runs of
/// equal base filename.
pub open spec fn group_spec(paths: Seq<Seq<char>>) -> Seq<(Seq<char>, Seq<Seq<char>>)> {
    group_fold(paths.sort_by(lex_le_rel()).filter(fragment_pred()))
}

/// Sorts paths ascending by the lexicographic order of `lex_le`.
///
/// The result is the unique sorted permutation of the input, so it equals
/// `sort_by` of the input's views.
pub fn sort_paths(paths: &Vec<String>) -> (out: Vec<String>)
    ensures
        sorted_by(views_of(out@), lex_le_rel()),
        views_of(out@).to_multiset() == views_of(paths@).to_multiset(),
        views_of(out@) == views_of(paths@).sort_by(lex_le_rel()),
{
    broadcast use vstd::seq_lib::group_to_multiset_ensures;

    let ghost all = views_of(paths@);
    let mut out: Vec<String> = Vec::new();
    proof {
        assert(views_of(out@) =~= Seq::<Seq<char>>::empty());
        assert(all.take(0) =~= Seq::<Seq<char>>::empty());
        assert(views_of(out@).to_multiset() =~= all.take(0).to_multiset());
    }
    let n = paths.len();
    let mut i: usize = 0;
    while i < n
        invariant
            n == paths@.len(),
            i <= n,
            all == views_of(paths@),
            sorted_by(views_of(out@), lex_le_rel()),
            views_of(out@).to_multiset() == all.take(i as int).to_multiset(),
        decreases n - i,
    {
        let p = paths[i].clone();
        proof {
            assert(all[i as int] == paths@[i as int]@);
        }
        let ghost pv = p@;
        insert_sorted(&mut out, p);
        proof {
            assert(all.take(i + 1) =~= all.take(i as int).push(pv));
            vstd::seq_lib::to_multiset_build(all.take(i as int), pv);
        }
        i = i + 1;
    }
    proof {
        assert(all.take(n as int) =~= all);
        lemma_lex_le_total_ordering();
        all.lemma_sort_by_ensures(lex_le_rel());
        lemma_sorted_unique(views_of(out@), all.sort_by(lex_le_rel()), lex_le_rel());
    }
    out
}

/// Inserts `p` into a sorted vector, keeping it sorted; the contents grow
/// by exactly `p`.
fn insert_sorted(out: &mut Vec<String>, p: String)
    requires
        sorted_by(views_of(old(out)@), lex_le_rel()),
    ensures
        sorted_by(views_of(final(out)@), lex_le_rel()),
        views_of(final(out)@).to_multiset() == views_of(old(out)@).to_multiset().insert(p@),
{
    broadcast use vstd::seq_lib::group_to_multiset_ensures;

    let ghost pv = p@;
    let k = find_insert_pos(out, &p);
    proof {
        if k < out@.len() {
            lemma_lex_le_connected(views_of(out@)[k as int], p@);
            assert(lex_le(p@, views_of(out@)[k as int]));
        }
    }
    let ghost before = views_of(out@);
    out.insert(k, p);
    proof {
        assert(views_of(out@) =~= before.insert(k as int, pv));
        vstd::seq_lib::to_multiset_insert(before, k as int, pv);
        assert forall|i: int, j: int|
            0 <= i < j < views_of(out@).len() implies lex_le_rel()(
            #[trigger] views_of(out@)[i],
            #[trigger] views_of(out@)[j],
        ) by {
            let v = views_of(out@);
            if j < k {
                assert(v[i] == before[i] && v[j] == before[j]);
            } else if i > k {
                assert(v[i] == before[i - 1] && v[j] == before[j - 1]);
            } else if i < k && j == k {
                assert(v[i] == before[i] && v[j] == pv);
            } else if i == k && j > k {
                assert(v[i] == pv && v[j] == before[j - 1]);
                if j - 1 > k {
                    assert(lex_le_rel()(before[k as int], before[j - 1]));
                    lemma_lex_le_transitive(pv, before[k as int], before[j - 1]);
                }
            } else if i < k && j > k {
                assert(v[i] == before[i] && v[j] == before[j - 1]);
                assert(lex_le(before[i], pv));
                if j - 1 > k {
                    assert(lex_le_rel()(before[k as int], before[j - 1]));
                    lemma_lex_le_transitive(pv, before[k as int], before[j - 1]);
                }
                lemma_lex_le_transitive(before[i], pv, v[j]);
            }
        }
    }
}

/// Returns the first position whose entry does not compare at most `p`;
/// entries before it all compare at most `p`.
fn find_insert_pos(out: &Vec<String>, p: &String) -> (k: usize)
    ensures
        k <= out@.len(),
        forall|j: int| 0 <= j < k ==> lex_le(#[trigger] views_of(out@)[j], p@),
        k < out@.len() ==> !lex_le(views_of(out@)[k as int], p@),
{
    let n = out.len();
    let mut k: usize = 0;
    while k < n
        invariant
            n == out@.len(),
            k <= n,
            forall|j: int| 0 <= j < k ==> lex_le(#[trigger] views_of(out@)[j], p@),
        decreases n - k,
    {
        proof {
            assert(views_of(out@)[k as int] == out@[k as int]@);
        }
        if !str_le(out[k].as_str(), p.as_str()) {
            return k;
        }
        k = k + 1;
    }
    k
}

/// Filtering a sequence extended by one element keeps the element exactly
/// when the predicate accepts it.
proof fn lemma_filter_push(s: Seq<Seq<char>>, p: Seq<char>, pred: spec_fn(Seq<char>) -> bool)
    ensures
        s.push(p).filter(pred) == if pred(p) {
            s.filter(pred).push(p)
        } else {
            s.filter(pred)
        },
{
    reveal_with_fuel(Seq::<_>::filter, 2);
    let t = s.push(p);
    assert(t.drop_last() =~= s);
    assert(t.last() == p);
    assert(t.len() == s.len() + 1);
}

/// Groups discovered paths into reconstruction units.
///
/// Paths without the fragment marker are dropped; the rest are sorted
/// lexicographically and grouped by base filename. The result depends only
/// on the multiset of paths handed in, never on their order.
pub fn group_fragments(paths: &Vec<String>) -> (gs: Vec<FragmentGroup>)
    ensures
        groups_view(gs@) == group_spec(views_of(paths@)),
{
    let sorted = sort_paths(paths);
    let ghost svs = views_of(sorted@);
    let mut gs: Vec<FragmentGroup> = Vec::new();
    proof {
        reveal_with_fuel(Seq::<_>::filter, 2);
        assert(groups_view(gs@) =~= Seq::<(Seq<char>, Seq<Seq<char>>)>::empty());
        assert(svs.take(0) =~= Seq::<Seq<char>>::empty());
        assert(svs.take(0).filter(fragment_pred()) =~= Seq::<Seq<char>>::empty());
    }
    let n = sorted.len();
    let mut i: usize = 0;
    while i < n
        invariant
            n == sorted@.len(),
            i <= n,
            svs == views_of(sorted@),
            groups_view(gs@) == group_fold(svs.take(i as int).filter(fragment_pred())),
        decreases n - i,
    {
        let ghost gs_before = groups_view(gs@);
        let ghost done = svs.take(i as int).filter(fragment_pred());
        proof {
            assert(svs.take(i + 1) =~= svs.take(i as int).push(sorted@[i as int]@));
            lemma_filter_push(svs.take(i as int), sorted@[i as int]@, fragment_pred());
        }
        if is_fragment_path(sorted[i].as_str()) {
            proof {
                assert(is_fragment(sorted@[i as int]@));
                assert(fragment_pred()(sorted@[i as int]@));
            }
            let base = base_filename(sorted[i].as_str());
            let p = sorted[i].clone();
            let m = gs.len();
            let same_base = m > 0 && gs[m - 1].base == base;
            if same_base {
                let mut g = match gs.pop() {
                    Some(g) => g,
                    None => {
                        proof {
                            assert(false);
                        }
                        FragmentGroup { base: String::new(), fragments: Vec::new() }
                    },
                };
                g.fragments.push(p);
                gs.push(g);
                proof {
                    assert(views_of(gs@.last().fragments@) =~= gs_before.last().1.push(
                        sorted@[i as int]@,
                    ));
                    assert(groups_view(gs@) =~= group_push(gs_before, sorted@[i as int]@));
                }
            } else {
                let mut fragments: Vec<String> = Vec::new();
                fragments.push(p);
                gs.push(FragmentGroup { base, fragments });
                proof {
                    assert(views_of(gs@.last().fragments@) =~= seq![sorted@[i as int]@]);
                    assert(groups_view(gs@) =~= group_push(gs_before, sorted@[i as int]@));
                }
            }
            proof {
                assert(svs.take(i + 1).filter(fragment_pred()) == done.push(sorted@[i as int]@));
                assert(done.push(sorted@[i as int]@).drop_last() =~= done);
            }
        } else {
            proof {
                assert(!fragment_pred()(sorted@[i as int]@));
                assert(svs.take(i + 1).filter(fragment_pred()) == done);
            }
        }
        i = i + 1;
    }
    proof {
        lemma_lex_le_total_ordering();
        assert(svs.take(n as int) =~= svs);
        assert(svs == views_of(paths@).sort_by(lex_le_rel()));
    }
    gs
}

/// A member of a filtered sequence is a member of the original that the
/// predicate accepts.
proof fn lemma_filter_member(s: Seq<Seq<char>>, pred: spec_fn(Seq<char>) -> bool, x: Seq<char>)
    requires
        s.filter(pred).contains(x),
    ensures
        s.contains(x),
        pred(x),
    decreases s.len(),
{
    reveal_with_fuel(Seq::<_>::filter, 2);
    if s.len() > 0 {
        let fd = s.drop_last().filter(pred);
        if pred(s.last()) && x == s.last() {
            assert(s[s.len() - 1] == x);
        } else {
            assert(fd.contains(x)) by {
                if pred(s.last()) {
                    let i = choose|i: int|
                        0 <= i < fd.push(s.last()).len() && fd.push(s.last())[i] == x;
                    assert(fd[i] == x);
                }
            }
            lemma_filter_member(s.drop_last(), pred, x);
            let i = choose|i: int| 0 <= i < s.drop_last().len() && s.drop_last()[i] == x;
            assert(s[i] == x);
        }
    }
}

/// Filtering keeps a duplicate-free sequence duplicate-free.
proof fn lemma_filter_no_dup(s: Seq<Seq<char>>, pred: spec_fn(Seq<char>) -> bool)
    requires
        s.no_duplicates(),
    ensures
        s.filter(pred).no_duplicates(),
    decreases s.len(),
{
    reveal_with_fuel(Seq::<_>::filter, 2);
    if s.len() > 0 {
        assert(s.drop_last().no_duplicates()) by {
            assert(forall|i: int|
                0 <= i < s.drop_last().len() ==> #[trigger] s.drop_last()[i] == s[i]);
        }
        lemma_filter_no_dup(s.drop_last(), pred);
        let fd = s.drop_last().filter(pred);
        if pred(s.last()) {
            assert(!fd.contains(s.last())) by {
                if fd.contains(s.last()) {
                    lemma_filter_member(s.drop_last(), pred, s.last());
                    let i = choose|i: int|
                        0 <= i < s.drop_last().len() && s.drop_last()[i] == s.last();
                    assert(s[i] == s[s.len() - 1]);
                }
            }
            assert(fd.push(s.last()).no_duplicates()) by {
                assert forall|i: int, j: int|
                    0 <= i < j < fd.push(s.last()).len() implies fd.push(s.last())[i] != fd.push(
                    s.last(),
                )[j] by {
                    if j < fd.len() {
                        assert(fd.push(s.last())[i] == fd[i] && fd.push(s.last())[j] == fd[j]);
                    } else {
                        assert(fd.push(s.last())[i] == fd[i]);
                        assert(fd.contains(fd[i]));
                    }
                }
            }
        }
    }
}

/// Every group that folding produces over a duplicate-free list of
/// fragment paths is fit for reconstruction: non-empty, duplicate-free,
/// drawn from the list, and each member a fragment path whose base is the
/// group's base.
proof fn lemma_group_fold_wf(ps: Seq<Seq<char>>)
    requires
        ps.no_duplicates(),
        forall|j: int| 0 <= j < ps.len() ==> is_fragment(#[trigger] ps[j]),
    ensures
        ({
            let gs = group_fold(ps);
            &&& forall|g: int| 0 <= g < gs.len() ==> (#[trigger] gs[g]).1.len() >= 1
            &&& forall|g: int, j: int|
                0 <= g < gs.len() && 0 <= j < gs[g].1.len() ==> is_fragment(#[trigger] gs[g].1[j])
                    && base_of(gs[g].1[j]) == gs[g].0 && ps.contains(gs[g].1[j])
            &&& forall|g: int| 0 <= g < gs.len() ==> (#[trigger] gs[g]).1.no_duplicates()
        }),
    decreases ps.len(),
{
    if ps.len() > 0 {
        let prev = ps.drop_last();
        let p = ps.last();
        assert(prev.no_duplicates()) by {
            assert(forall|i: int| 0 <= i < prev.len() ==> #[trigger] prev[i] == ps[i]);
        }
        assert(forall|j: int| 0 <= j < prev.len() ==> is_fragment(#[trigger] prev[j]));
        lemma_group_fold_wf(prev);
        let gs0 = group_fold(prev);
        let gs = group_fold(ps);
        assert(gs == group_push(gs0, p));
        assert(!prev.contains(p)) by {
            if prev.contains(p) {
                let i = choose|i: int| 0 <= i < prev.len() && prev[i] == p;
                assert(ps[i] == ps[ps.len() - 1]);
            }
        }
        assert(is_fragment(p)) by {
            assert(ps[ps.len() - 1] == p);
        }
        assert(ps.contains(p)) by {
            assert(ps[ps.len() - 1] == p);
        }
        assert(forall|x: Seq<char>| prev.contains(x) ==> ps.contains(x)) by {
            assert forall|x: Seq<char>| prev.contains(x) implies ps.contains(x) by {
                let i = choose|i: int| 0 <= i < prev.len() && prev[i] == x;
                assert(ps[i] == x);
            }
        }
        if gs0.len() > 0 && gs0.last().0 == base_of(p) {
            let gl = gs0.len() - 1;
            let old_frs = gs0[gl].1;
            assert(gs0.last() == gs0[gl]);
            assert(gs[gl].1 == old_frs.push(p));
            assert(!old_frs.contains(p)) by {
                if old_frs.contains(p) {
                    let j = choose|j: int| 0 <= j < old_frs.len() && old_frs[j] == p;
                    assert(prev.contains(old_frs[j]));
                }
            }
            assert forall|g: int, j: int|
                0 <= g < gs.len() && 0 <= j < gs[g].1.len() implies is_fragment(
                #[trigger] gs[g].1[j],
            ) && base_of(gs[g].1[j]) == gs[g].0 && ps.contains(gs[g].1[j]) by {
                if g < gl {
                    assert(gs[g] == gs0[g]);
                } else {
                    if j < old_frs.len() {
                        assert(gs[g].1[j] == old_frs[j]);
                    } else {
                        assert(gs[g].1[j] == p);
                    }
                }
            }
            assert forall|g: int|
                0 <= g < gs.len() implies (#[trigger] gs[g]).1.no_duplicates() by {
                if g < gl {
                    assert(gs[g] == gs0[g]);
                } else {
                    assert forall|a: int, c: int|
                        0 <= a < c < gs[g].1.len() implies gs[g].1[a] != gs[g].1[c] by {
                        if c < old_frs.len() {
                            assert(gs[g].1[a] == old_frs[a] && gs[g].1[c] == old_frs[c]);
                        } else {
                            assert(gs[g].1[a] == old_frs[a]);
                            assert(old_frs.contains(old_frs[a]));
                        }
                    }
                }
            }
            assert(forall|g: int| 0 <= g < gs.len() ==> (#[trigger] gs[g]).1.len() >= 1);
        } else {
            assert(gs == gs0.push((base_of(p), seq![p])));
            assert(gs.last().1 =~= seq![p]);
            assert forall|g: int, j: int|
                0 <= g < gs.len() && 0 <= j < gs[g].1.len() implies is_fragment(
                #[trigger] gs[g].1[j],
            ) && base_of(gs[g].1[j]) == gs[g].0 && ps.contains(gs[g].1[j]) by {
                if g < gs0.len() {
                    assert(gs[g] == gs0[g]);
                } else {
                    assert(gs[g].1[j] == p);
                }
            }
            assert forall|g: int|
                0 <= g < gs.len() implies (#[trigger] gs[g]).1.no_duplicates() by {
                if g < gs0.len() {
                    assert(gs[g] == gs0[g]);
                }
            }
            assert(forall|g: int| 0 <= g < gs.len() ==> (#[trigger] gs[g]).1.len() >= 1);
        }
    }
}

/// Every group that grouping yields from distinct discovered paths is
/// ready for reconstruction: at least one fragment, no duplicates, no
/// empty names, and a base filename that is not one of its fragments.
pub proof fn lemma_groups_ready(paths: Seq<Seq<char>>)
    requires
        paths.no_duplicates(),
    ensures
        ({
            let gs = group_spec(paths);
            &&& forall|g: int| 0 <= g < gs.len() ==> (#[trigger] gs[g]).1.len() >= 1
            &&& forall|g: int| 0 <= g < gs.len() ==> (#[trigger] gs[g]).1.no_duplicates()
            &&& forall|g: int, j: int|
                0 <= g < gs.len() && 0 <= j < gs[g].1.len() ==> (#[trigger] gs[g].1[j]).len() > 0
            &&& forall|g: int| 0 <= g < gs.len() ==> !(#[trigger] gs[g]).1.contains(gs[g].0)
        }),
{
    lemma_lex_le_total_ordering();
    paths.lemma_sort_by_ensures(lex_le_rel());
    let sorted = paths.sort_by(lex_le_rel());
    assert(sorted.no_duplicates()) by {
        paths.lemma_multiset_has_no_duplicates();
        sorted.lemma_multiset_has_no_duplicates_conv();
    }
    let fd = sorted.filter(fragment_pred());
    lemma_filter_no_dup(sorted, fragment_pred());
    assert forall|j: int| 0 <= j < fd.len() implies is_fragment(#[trigger] fd[j]) by {
        sorted.lemma_filter_pred(fragment_pred(), j);
    }
    lemma_group_fold_wf(fd);
    let gs = group_spec(paths);
    assert(gs == group_fold(fd));
    assert forall|g: int, j: int|
        0 <= g < gs.len() && 0 <= j < gs[g].1.len() implies (#[trigger] gs[g].1[j]).len() > 0 by {
        assert(is_fragment(gs[g].1[j]));
        crate::fragname::lemma_first_marker_from_least(gs[g].1[j], 0);
    }
    assert forall|g: int| 0 <= g < gs.len() implies !(#[trigger] gs[g]).1.contains(gs[g].0) by {
        if gs[g].1.contains(gs[g].0) {
            let j = choose|j: int| 0 <= j < gs[g].1.len() && gs[g].1[j] == gs[g].0;
            let m = gs[g].1[j];
            assert(is_fragment(m));
            assert(base_of(m) == gs[g].0);
            assert(gs[g].0 == m);
            crate::fragname::lemma_first_marker_from_least(m, 0);
            let i = crate::fragname::first_marker(m)->Some_0 as int;
            assert(base_of(m) == m.take(i));
            assert(m.take(i).len() < m.len());
        }
    }
}

/// Grouping is insensitive to the order in which paths were discovered:
/// two discoveries that found the same paths, in any orders, group the
/// same way and so reconstruct the same files.
pub proof fn lemma_grouping_order_insensitive(a: Seq<Seq<char>>, b: Seq<Seq<char>>)
    requires
        a.to_multiset() == b.to_multiset(),
    ensures
        group_spec(a) == group_spec(b),
{
    lemma_lex_le_total_ordering();
    a.lemma_sort_by_ensures(lex_le_rel());
    b.lemma_sort_by_ensures(lex_le_rel());
    lemma_sorted_unique(a.sort_by(lex_le_rel()), b.sort_by(lex_le_rel()), lex_le_rel());
    assert(a.sort_by(lex_le_rel()) == b.sort_by(lex_le_rel()));
}

} // verus!
