//! An in-memory filesystem that runs a merge plan.
//!
//! The engine holds files as path/content pairs and executes the
//! concatenation primitive, a whole level, a whole plan, and a whole
//! reconstruction against them, each proved to end in exactly the state
//! the model functions describe. It is the executable face of the
//! reconstruction semantics: what the process does to the real
//! filesystem through file handles, this does to plain values.

use vstd::prelude::*;
use vstd::map::*;

use crate::driver::{reconstruct_spec, rename_result};
use crate::fsmodel::{apply_cat, run_levels, run_task, run_tasks, Fs};
use crate::grouping::views_of;
use crate::merge::{lemma_plan_reconstructs, merge_result, wf_fragments};
use crate::plan::{build_plan, levels_view, tasks_view, Task};

verus! {

/// One file of the in-memory filesystem.
pub struct ModelFile {
    /// The file's path.
    pub path: String,
    /// The file's byte content.
    pub data: Vec<u8>,
}

/// An in-memory filesystem: a list of files with pairwise distinct paths.
pub struct ModelFs {
    /// The files, in no particular order; `wf` asks their paths to be
    /// pairwise distinct.
    pub files: Vec<ModelFile>,
}

/// The map that a list of files denotes, later entries shadowing earlier
/// ones; with distinct paths nothing is shadowed.
pub open spec fn fs_of(entries: Seq<ModelFile>) -> Fs
    decreases entries.len(),
{
    if entries.len() == 0 {
        Map::empty()
    } else {
        fs_of(entries.drop_last()).insert(entries.last().path@, entries.last().data@)
    }
}

/// Pairwise distinct paths.
pub open spec fn distinct_paths(entries: Seq<ModelFile>) -> bool {
    forall|a: int, b: int|
        0 <= a < b < entries.len() ==> (#[trigger] entries[a].path@) != (#[trigger] entries[b].path@)
}

impl View for ModelFs {
    type V = Fs;

    open spec fn view(&self) -> Fs {
        fs_of(self.files@)
    }
}

/// A path is in the denoted map exactly when some entry carries it.
proof fn lemma_fs_of_contains(entries: Seq<ModelFile>, p: Seq<char>)
    ensures
        fs_of(entries).dom().contains(p) <==> exists|i: int|
            0 <= i < entries.len() && entries[i].path@ == p,
    decreases entries.len(),
{
    if entries.len() > 0 {
        lemma_fs_of_contains(entries.drop_last(), p);
        if entries.last().path@ == p {
            assert(entries[entries.len() - 1].path@ == p);
        }
        if exists|i: int| 0 <= i < entries.len() && entries[i].path@ == p {
            let i = choose|i: int| 0 <= i < entries.len() && entries[i].path@ == p;
            if i < entries.len() - 1 {
                assert(entries.drop_last()[i].path@ == p);
            }
        }
        if exists|i: int| 0 <= i < entries.drop_last().len() && entries.drop_last()[i].path@ == p {
            let i = choose|i: int|
                0 <= i < entries.drop_last().len() && entries.drop_last()[i].path@ == p;
            assert(entries[i].path@ == p);
        }
    }
}

/// With distinct paths, entry `i` decides the content at its path.
proof fn lemma_fs_of_value(entries: Seq<ModelFile>, i: int)
    requires
        distinct_paths(entries),
        0 <= i < entries.len(),
    ensures
        fs_of(entries).dom().contains(entries[i].path@),
        fs_of(entries)[entries[i].path@] == entries[i].data@,
    decreases entries.len(),
{
    if i == entries.len() - 1 {
    } else {
        assert(distinct_paths(entries.drop_last())) by {
            assert(forall|a: int, b: int|
                0 <= a < b < entries.drop_last().len() ==> (#[trigger] entries.drop_last()[
                a].path@) == entries[a].path@ && (#[trigger] entries.drop_last()[b].path@)
                    == entries[b].path@);
        }
        assert(entries.drop_last()[i] == entries[i]);
        lemma_fs_of_value(entries.drop_last(), i);
        assert(entries.last().path@ != entries[i].path@) by {
            assert(entries[entries.len() - 1].path@ != entries[i].path@);
        }
    }
}

/// With distinct paths, removing entry `i` removes exactly its path.
proof fn lemma_fs_of_remove(entries: Seq<ModelFile>, i: int)
    requires
        distinct_paths(entries),
        0 <= i < entries.len(),
    ensures
        fs_of(entries.remove(i)) == fs_of(entries).remove(entries[i].path@),
    decreases entries.len(),
{
    let p = entries[i].path@;
    if i == entries.len() - 1 {
        assert(entries.remove(i) =~= entries.drop_last());
        lemma_fs_of_contains(entries.drop_last(), p);
        assert(!fs_of(entries.drop_last()).dom().contains(p)) by {
            if exists|m: int|
                0 <= m < entries.drop_last().len() && entries.drop_last()[m].path@ == p {
                let m = choose|m: int|
                    0 <= m < entries.drop_last().len() && entries.drop_last()[m].path@ == p;
                assert(entries[m].path@ == entries[i].path@);
            }
        }
        assert_maps_equal!(fs_of(entries.drop_last()), fs_of(entries).remove(p), q => {});
    } else {
        let rm = entries.remove(i);
        assert(rm.drop_last() =~= entries.drop_last().remove(i));
        assert(rm.last() == entries.last());
        assert(distinct_paths(entries.drop_last())) by {
            assert(forall|a: int, b: int|
                0 <= a < b < entries.drop_last().len() ==> (#[trigger] entries.drop_last()[
                a].path@) == entries[a].path@ && (#[trigger] entries.drop_last()[b].path@)
                    == entries[b].path@);
        }
        assert(entries.drop_last()[i] == entries[i]);
        lemma_fs_of_remove(entries.drop_last(), i);
        assert(entries.last().path@ != p) by {
            assert(entries[entries.len() - 1].path@ != entries[i].path@);
        }
        assert_maps_equal!(
            fs_of(entries.drop_last()).remove(p).insert(entries.last().path@, entries.last().data@),
            fs_of(entries.drop_last()).insert(entries.last().path@, entries.last().data@).remove(p),
            q => {}
        );
    }
}

/// A fresh copy of a byte vector.
fn copy_bytes(src: &Vec<u8>) -> (out: Vec<u8>)
    ensures
        out@ == src@,
{
    let n = src.len();
    let mut out: Vec<u8> = Vec::new();
    let mut i: usize = 0;
    while i < n
        invariant
            i <= n,
            n == src@.len(),
            out@ =~= src@.subrange(0, i as int),
        decreases n - i,
    {
        out.push(src[i]);
        proof {
            assert(out@ =~= src@.subrange(0, i + 1));
        }
        i = i + 1;
    }
    proof {
        assert(src@.subrange(0, n as int) =~= src@);
    }
    out
}

impl ModelFs {
    /// Distinct paths: the representation invariant.
    pub open spec fn wf(&self) -> bool {
        distinct_paths(self.files@)
    }

    /// An empty filesystem.
    pub fn new() -> (r: ModelFs)
        ensures
            r@ == Map::<Seq<char>, Seq<u8>>::empty(),
            r.wf(),
    {
        let r = ModelFs { files: Vec::new() };
        proof {
            assert(r.files@.len() == 0);
        }
        r
    }

    /// The index of the entry at `path`, if one exists.
    fn find(&self, path: &String) -> (r: Option<usize>)
        ensures
            match r {
                Some(i) => i < self.files@.len() && self.files@[i as int].path@ == path@,
                None => forall|i: int|
                    0 <= i < self.files@.len() ==> (#[trigger] self.files@[i].path@) != path@,
            },
    {
        let n = self.files.len();
        let mut i: usize = 0;
        while i < n
            invariant
                i <= n,
                n == self.files@.len(),
                forall|j: int| 0 <= j < i ==> (#[trigger] self.files@[j].path@) != path@,
            decreases n - i,
        {
            if self.files[i].path == *path {
                return Some(i);
            }
            i = i + 1;
        }
        None
    }

    /// Whether a file exists at `path`.
    pub fn contains_path(&self, path: &String) -> (r: bool)
        ensures
            r == self@.dom().contains(path@),
    {
        proof {
            lemma_fs_of_contains(self.files@, path@);
        }
        match self.find(path) {
            Some(i) => {
                proof {
                    assert(self.files@[i as int].path@ == path@);
                }
                true
            },
            None => false,
        }
    }

    /// The content of the file at `path`, if one exists.
    pub fn read_file(&self, path: &String) -> (r: Option<Vec<u8>>)
        requires
            self.wf(),
        ensures
            match r {
                Some(d) => self@.dom().contains(path@) && d@ == self@[path@],
                None => !self@.dom().contains(path@),
            },
    {
        proof {
            lemma_fs_of_contains(self.files@, path@);
        }
        match self.find(path) {
            Some(i) => {
                proof {
                    lemma_fs_of_value(self.files@, i as int);
                }
                Some(copy_bytes(&self.files[i].data))
            },
            None => None,
        }
    }

    /// Creates the file at `path` with the given content.
    pub fn insert_file(&mut self, path: String, data: Vec<u8>)
        requires
            old(self).wf(),
            !old(self)@.dom().contains(path@),
        ensures
            final(self).wf(),
            final(self)@ == old(self)@.insert(path@, data@),
    {
        proof {
            lemma_fs_of_contains(self.files@, path@);
        }
        let ghost before = self.files@;
        self.files.push(ModelFile { path, data });
        proof {
            assert(self.files@.drop_last() =~= before);
            assert forall|a: int, b: int|
                0 <= a < b < self.files@.len() implies (#[trigger] self.files@[a].path@) != (
            #[trigger] self.files@[b].path@) by {
                if b < self.files@.len() - 1 {
                    assert(self.files@[a] == before[a] && self.files@[b] == before[b]);
                } else {
                    assert(self.files@[a] == before[a]);
                }
            }
        }
    }

    /// Deletes the file at `path`; without one, nothing changes.
    fn remove_path(&mut self, path: &String)
        requires
            old(self).wf(),
        ensures
            final(self).wf(),
            final(self)@ == if old(self)@.dom().contains(path@) {
                old(self)@.remove(path@)
            } else {
                old(self)@
            },
    {
        proof {
            lemma_fs_of_contains(self.files@, path@);
        }
        let ghost before = self.files@;
        match self.find(path) {
            Some(i) => {
                proof {
                    lemma_fs_of_remove(before, i as int);
                    assert(before[i as int].path@ == path@);
                }
                self.files.remove(i);
                proof {
                    assert forall|a: int, b: int|
                        0 <= a < b < self.files@.len() implies (#[trigger] self.files@[a].path@)
                        != (#[trigger] self.files@[b].path@) by {
                        let aa = if a < i as int {
                            a
                        } else {
                            a + 1
                        };
                        let bb = if b < i as int {
                            b
                        } else {
                            b + 1
                        };
                        assert(self.files@[a] == before[aa] && self.files@[b] == before[bb]);
                    }
                }
            },
            None => {},
        }
    }

    /// Appends `extra` to the file at `path`, which must exist.
    fn append_to(&mut self, path: &String, extra: &Vec<u8>)
        requires
            old(self).wf(),
            old(self)@.dom().contains(path@),
        ensures
            final(self).wf(),
            final(self)@ == old(self)@.insert(path@, old(self)@[path@] + extra@),
    {
        let ghost fs0 = self@;
        let old_data = match self.read_file(path) {
            Some(d) => d,
            None => Vec::new(),
        };
        let mut data = old_data;
        let n = extra.len();
        let mut i: usize = 0;
        while i < n
            invariant
                i <= n,
                n == extra@.len(),
                data@ =~= fs0[path@] + extra@.subrange(0, i as int),
            decreases n - i,
        {
            data.push(extra[i]);
            proof {
                assert(data@ =~= fs0[path@] + extra@.subrange(0, i + 1));
            }
            i = i + 1;
        }
        proof {
            assert(fs0[path@] + extra@.subrange(0, n as int) =~= fs0[path@] + extra@);
        }
        self.remove_path(path);
        let p = path.clone();
        self.insert_file(p, data);
        proof {
            assert_maps_equal!(fs0.remove(path@).insert(path@, fs0[path@] + extra@),
                fs0.insert(path@, fs0[path@] + extra@), q => {});
        }
    }

    /// Runs the concatenation primitive for one task's file list: appends
    /// each existing secondary file's content onto the first file and
    /// deletes it; empty names and missing files are skipped, and a list
    /// of one file, or with an empty or missing first file, does nothing.
    pub fn run_cat(&mut self, files: &Vec<String>)
        requires
            old(self).wf(),
        ensures
            final(self).wf(),
            final(self)@ == run_task(old(self)@, views_of(files@)),
    {
        let ghost t = views_of(files@);
        let ghost fs0 = self@;
        if files.len() <= 1 {
            return;
        }
        proof {
            assert(t[0] == files@[0]@);
        }
        if files[0].as_str().is_empty() {
            return;
        }
        if !self.contains_path(&files[0]) {
            return;
        }
        let leader = files[0].clone();
        let ghost rest = t.skip(1);
        let n = files.len();
        let mut j: usize = 1;
        proof {
            assert(rest.skip(0) =~= rest);
        }
        while j < n
            invariant
                1 <= j <= n,
                n == files@.len(),
                self.wf(),
                leader@ == t[0],
                rest == t.skip(1),
                t == views_of(files@),
                apply_cat(fs0, t[0], rest) == apply_cat(self@, t[0], rest.skip(j - 1)),
            decreases n - j,
        {
            let ghost fsj = self@;
            let ghost rj = rest.skip(j - 1);
            proof {
                assert(rj[0] == rest[j - 1]);
                assert(rest[j - 1] == t[j as int]);
                assert(t[j as int] == files@[j as int]@);
                assert(rj.drop_first() =~= rest.skip(j as int));
            }
            let f = files[j].clone();
            let mut skip = f.as_str().is_empty();
            if !skip {
                match self.read_file(&f) {
                    Some(d) => {
                        if self.contains_path(&leader) {
                            self.append_to(&leader, &d);
                            self.remove_path(&f);
                            proof {
                                assert(self@ == fsj.insert(t[0], fsj[t[0]] + fsj[f@]).remove(f@));
                            }
                        } else {
                            skip = true;
                        }
                    },
                    None => {
                        skip = true;
                    },
                }
            }
            proof {
                if skip {
                    assert(self@ == fsj);
                }
                assert(apply_cat(fsj, t[0], rj) == apply_cat(self@, t[0], rest.skip(j as int)));
            }
            j = j + 1;
        }
        proof {
            assert(rest.skip(n - 1) =~= Seq::<Seq<char>>::empty());
            assert(apply_cat(self@, t[0], rest.skip(n - 1)) == self@);
        }
    }

    /// Runs one level's tasks, in order.
    pub fn run_level(&mut self, tasks: &Vec<Task>)
        requires
            old(self).wf(),
        ensures
            final(self).wf(),
            final(self)@ == run_tasks(old(self)@, tasks_view(tasks@)),
    {
        let ghost ts = tasks_view(tasks@);
        let ghost fs0 = self@;
        let n = tasks.len();
        let mut k: usize = 0;
        proof {
            assert(ts.skip(0) =~= ts);
        }
        while k < n
            invariant
                k <= n,
                n == tasks@.len(),
                self.wf(),
                ts == tasks_view(tasks@),
                run_tasks(fs0, ts) == run_tasks(self@, ts.skip(k as int)),
            decreases n - k,
        {
            let ghost fsk = self@;
            proof {
                assert(ts.skip(k as int)[0] == ts[k as int]);
                assert(ts[k as int] == tasks@[k as int]@);
                assert(ts.skip(k as int).drop_first() =~= ts.skip(k + 1));
            }
            self.run_cat(&tasks[k].files);
            proof {
                assert(self@ == run_task(fsk, ts[k as int]));
            }
            k = k + 1;
        }
        proof {
            assert(ts.skip(n as int) =~= Seq::<Seq<Seq<char>>>::empty());
        }
    }

    /// Runs a whole plan: its levels in order.
    pub fn run_plan(&mut self, levels: &Vec<Vec<Task>>)
        requires
            old(self).wf(),
        ensures
            final(self).wf(),
            final(self)@ == run_levels(old(self)@, levels_view(levels@)),
    {
        let ghost ls = levels_view(levels@);
        let ghost fs0 = self@;
        let n = levels.len();
        let mut k: usize = 0;
        proof {
            assert(ls.skip(0) =~= ls);
        }
        while k < n
            invariant
                k <= n,
                n == levels@.len(),
                self.wf(),
                ls == levels_view(levels@),
                run_levels(fs0, ls) == run_levels(self@, ls.skip(k as int)),
            decreases n - k,
        {
            let ghost fsk = self@;
            proof {
                assert(ls.skip(k as int)[0] == ls[k as int]);
                assert(ls[k as int] == tasks_view(levels@[k as int]@));
                assert(ls.skip(k as int).drop_first() =~= ls.skip(k + 1));
            }
            self.run_level(&levels[k]);
            proof {
                assert(self@ == run_tasks(fsk, ls[k as int]));
            }
            k = k + 1;
        }
        proof {
            assert(ls.skip(n as int) =~= Seq::<Seq<Seq<Seq<char>>>>::empty());
        }
    }

    /// Renames the file at `from` to `to`, replacing any file at `to`.
    pub fn rename_file(&mut self, from: &String, to: String)
        requires
            old(self).wf(),
            old(self)@.dom().contains(from@),
        ensures
            final(self).wf(),
            final(self)@ == rename_result(old(self)@, from@, to@),
    {
        let ghost fs0 = self@;
        let data = match self.read_file(from) {
            Some(d) => d,
            None => Vec::new(),
        };
        let ghost tov = to@;
        self.remove_path(from);
        self.remove_path(&to);
        proof {
            lemma_fs_of_contains(self.files@, tov);
        }
        let ghost mid = self@;
        self.insert_file(to, data);
        proof {
            assert_maps_equal!(self@, rename_result(fs0, from@, tov), q => {});
        }
    }

    /// Reconstructs one logical file end to end: plans the merge tree
    /// over the sorted fragments, runs it, and renames the surviving
    /// leader — the first fragment — to the base filename.
    pub fn reconstruct(&mut self, base: &String, fragments: &Vec<String>, batch: usize)
        requires
            old(self).wf(),
            2 <= batch,
            wf_fragments(old(self)@, views_of(fragments@)),
            !views_of(fragments@).contains(base@),
        ensures
            final(self).wf(),
            final(self)@ == reconstruct_spec(old(self)@, base@, views_of(fragments@), batch as int),
    {
        let ghost fs0 = self@;
        let ghost frags = views_of(fragments@);
        let levels = build_plan(fragments, batch);
        self.run_plan(&levels);
        proof {
            lemma_plan_reconstructs(fs0, frags, batch as int);
            assert(self@ == merge_result(fs0, frags));
            assert(frags.contains(frags[0])) by {
                assert(frags[0] == frags[0]);
            }
            assert(self@.dom().contains(frags[0])) by {
                assert(fs0.dom().contains(frags[0]));
            }
            assert(frags[0] == fragments@[0]@);
        }
        let b = base.clone();
        self.rename_file(&fragments[0], b);
    }
}

} // verus!
