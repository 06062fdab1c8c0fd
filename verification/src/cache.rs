//! Caches kept between searches: the compressed length of each file, and the
//! most similar files found for each file.

use vstd::prelude::*;
use crate::ncd::NcdError;
use crate::indexer::{FileSimilarities, SimilaritiesView};
use crate::paths::{paths_match, first_match, distinct_paths, matches_any, find_path,
    lemma_first_match, same_path};

verus! {

/// The paths of a list of (path, value) entries.
pub open spec fn keys_of<V>(entries: Seq<(Seq<char>, V)>) -> Seq<Seq<char>> {
    entries.map_values(|e: (Seq<char>, V)| e.0)
}

/// The value stored under the path `p`, if any.
pub open spec fn lookup<V>(entries: Seq<(Seq<char>, V)>, p: Seq<char>) -> Option<V> {
    match first_match(keys_of(entries), p) {
        Some(i) => Some(entries[i].1),
        None => None,
    }
}

/// A cached entry under the path `k` is still valid: `k` names a file that
/// still exists (one of `existing`) and none that changed (one of `modified`).
pub open spec fn still_valid(k: Seq<char>, existing: Seq<Seq<char>>, modified: Seq<Seq<char>>) -> bool {
    matches_any(k, existing) && !matches_any(k, modified)
}

/// The entries of `entries` that are still valid, in their order.
pub open spec fn valid_entries<V>(entries: Seq<(Seq<char>, V)>, existing: Seq<Seq<char>>, modified: Seq<Seq<char>>) -> Seq<(Seq<char>, V)>
    decreases entries.len(),
{
    if entries.len() == 0 {
        seq![]
    } else {
        let prev = valid_entries(entries.drop_last(), existing, modified);
        if still_valid(entries.last().0, existing, modified) {
            prev.push(entries.last())
        } else {
            prev
        }
    }
}

/// The compressed length of each file seen, by path.
pub struct CompressedByteCache {
    paths: Vec<String>,
    counts: Vec<usize>,
}

impl View for CompressedByteCache {
    type V = Seq<(Seq<char>, usize)>;

    closed spec fn view(&self) -> Seq<(Seq<char>, usize)> {
        Seq::new(self.counts@.len(), |i: int| (self.paths@[i]@, self.counts@[i]))
    }
}

impl CompressedByteCache {
    /// Well formed: one count per path, and no path twice.
    pub closed spec fn wf(&self) -> bool {
        &&& self.paths@.len() == self.counts@.len()
        &&& distinct_paths(keys_of(self@))
    }

    /// A well-formed cache holds no path twice.
    pub proof fn lemma_wf_distinct(&self)
        requires
            self.wf(),
        ensures
            distinct_paths(keys_of(self@)),
    {
    }

    proof fn lemma_keys(&self)
        requires
            self.paths@.len() == self.counts@.len(),
        ensures
            keys_of(self@) == self.paths@.map_values(|k: String| k@),
    {
        assert(keys_of(self@) =~= self.paths@.map_values(|k: String| k@));
    }

    /// An empty cache, with room for `cap` paths.
    pub fn with_capacity(cap: usize) -> (r: Self)
        ensures
            r.wf(),
            r@ == Seq::<(Seq<char>, usize)>::empty(),
    {
        let r = CompressedByteCache { paths: Vec::with_capacity(cap), counts: Vec::with_capacity(cap) };
        assert(r@ =~= Seq::<(Seq<char>, usize)>::empty());
        r
    }

    /// The number of paths cached.
    pub fn len(&self) -> (r: usize)
        requires
            self.wf(),
        ensures
            r == self@.len(),
    {
        self.counts.len()
    }

    /// The path of the `i`-th entry.
    pub fn path(&self, i: usize) -> (r: &String)
        requires
            self.wf(),
            i < self@.len(),
        ensures
            r@ == self@[i as int].0,
    {
        &self.paths[i]
    }

    /// The count of the `i`-th entry.
    pub fn count(&self, i: usize) -> (r: usize)
        requires
            self.wf(),
            i < self@.len(),
        ensures
            r == self@[i as int].1,
    {
        self.counts[i]
    }

    /// The count cached for `path`, if any.
    pub fn get(&self, path: &str) -> (r: Option<usize>)
        requires
            self.wf(),
        ensures
            r == lookup(self@, path@),
    {
        proof { self.lemma_keys(); }
        match find_path(&self.paths, path) {
            Some(i) => Some(self.counts[i]),
            None => None,
        }
    }

    /// The count cached for `path`; when there is none, the one that `f`
    /// computes, which is then cached under `path` (an error is passed on and
    /// nothing is cached).
    pub fn get_or<F>(&mut self, path: &String, f: F) -> (r: Result<usize, NcdError>)
        where
            F: FnOnce() -> Result<usize, NcdError>,
        requires
            old(self).wf(),
            f.requires(()),
        ensures
            final(self).wf(),
            match lookup(old(self)@, path@) {
                Some(v) => r == Ok::<usize, NcdError>(v) && final(self)@ == old(self)@,
                None => f.ensures((), r) && match r {
                    Ok(v) => final(self)@ == old(self)@.push((path@, v)),
                    Err(_) => final(self)@ == old(self)@,
                },
            },
            r matches Ok(v) ==> lookup(final(self)@, path@) == Some(v),
    {
        proof { self.lemma_keys(); }
        match find_path(&self.paths, path.as_str()) {
            Some(i) => return Ok(self.counts[i]),
            None => {},
        }
        let result = f()?;
        let ghost old_view = self@;
        proof { lemma_first_match(keys_of(old_view), path@); }
        self.paths.push(path.clone());
        self.counts.push(result);
        assert(self@ =~= old_view.push((path@, result)));
        assert(keys_of(self@) =~= keys_of(old_view).push(path@));
        proof {
            let ks = keys_of(self@);
            assert forall|i: int, j: int| 0 <= i < ks.len() && 0 <= j < ks.len() && i != j
                implies !paths_match(#[trigger] ks[i], #[trigger] ks[j]) by {
                if i < old_view.len() && j < old_view.len() {
                    assert(ks[i] == keys_of(old_view)[i]);
                    assert(ks[j] == keys_of(old_view)[j]);
                } else if i < old_view.len() {
                    assert(ks[i] == keys_of(old_view)[i]);
                } else {
                    assert(ks[j] == keys_of(old_view)[j]);
                }
            }
            lemma_first_match(ks, path@);
            let last = (ks.len() - 1) as int;
            assert(paths_match(ks[last], path@));
            match first_match(ks, path@) {
                Some(k) => {
                    if k < last {
                        assert(ks[k] == keys_of(old_view)[k]);
                    }
                },
                None => {},
            }
        }
        Ok(result)
    }

    /// Drops the counts that are no longer valid: those of files that no longer
    /// exist (whose path names none of `existing_paths`, the files a new walk
    /// finds) and those of files that changed (`modified_paths`). The other
    /// counts stay as they were.
    pub fn clear_invalid_paths(&mut self, modified_paths: &[String], existing_paths: &[String])
        requires
            old(self).wf(),
        ensures
            final(self).wf(),
            final(self)@ == valid_entries(
                old(self)@,
                existing_paths@.map_values(|p: String| p@),
                modified_paths@.map_values(|p: String| p@),
            ),
            forall|k: int| 0 <= k < modified_paths@.len()
                ==> lookup(final(self)@, (#[trigger] modified_paths@[k])@) is None,
            forall|p: Seq<char>| !matches_any(p, existing_paths@.map_values(|q: String| q@))
                ==> #[trigger] lookup(final(self)@, p) is None,
            forall|p: Seq<char>| #[trigger] lookup(final(self)@, p) is Some
                ==> lookup(final(self)@, p) == lookup(old(self)@, p),
            forall|i: int| 0 <= i < old(self)@.len() && still_valid(
                #[trigger] old(self)@[i].0,
                existing_paths@.map_values(|p: String| p@),
                modified_paths@.map_values(|p: String| p@),
            ) ==> lookup(final(self)@, old(self)@[i].0) == Some(old(self)@[i].1),
    {
        let ghost mods = modified_paths@.map_values(|p: String| p@);
        let ghost exist = existing_paths@.map_values(|p: String| p@);
        let ghost old_view = self@;
        let mut kept_paths: Vec<String> = Vec::new();
        let mut kept_counts: Vec<usize> = Vec::new();
        let mut i: usize = 0;
        assert(old_view.take(0) =~= Seq::<(Seq<char>, usize)>::empty());
        while i < self.paths.len()
            invariant
                i <= self.paths.len(),
                self.wf(),
                self@ == old_view,
                mods == modified_paths@.map_values(|p: String| p@),
                exist == existing_paths@.map_values(|p: String| p@),
                kept_paths@.len() == kept_counts@.len(),
                Seq::new(kept_counts@.len(), |j: int| (kept_paths@[j]@, kept_counts@[j]))
                    == valid_entries(old_view.take(i as int), exist, mods),
            decreases self.paths.len() - i,
        {
            let mut m: usize = 0;
            let mut changed = false;
            while m < modified_paths.len()
                invariant
                    i < self.paths.len(),
                    m <= modified_paths.len(),
                    mods == modified_paths@.map_values(|p: String| p@),
                    changed == exists|k: int| 0 <= k < m && paths_match(#[trigger] mods[k], self.paths@[i as int]@),
                decreases modified_paths.len() - m,
            {
                assert(mods[m as int] == modified_paths@[m as int]@);
                if same_path(modified_paths[m].as_str(), self.paths[i].as_str()) {
                    changed = true;
                }
                m += 1;
            }
            let mut e: usize = 0;
            let mut exists_now = false;
            while e < existing_paths.len()
                invariant
                    i < self.paths.len(),
                    e <= existing_paths.len(),
                    exist == existing_paths@.map_values(|p: String| p@),
                    exists_now == exists|k: int| 0 <= k < e && paths_match(#[trigger] exist[k], self.paths@[i as int]@),
                decreases existing_paths.len() - e,
            {
                assert(exist[e as int] == existing_paths@[e as int]@);
                if same_path(existing_paths[e].as_str(), self.paths[i].as_str()) {
                    exists_now = true;
                }
                e += 1;
            }
            let ghost before = Seq::new(kept_counts@.len(), |j: int| (kept_paths@[j]@, kept_counts@[j]));
            assert(old_view.take(i + 1).drop_last() =~= old_view.take(i as int));
            assert(old_view.take(i + 1).last() == (self.paths@[i as int]@, self.counts@[i as int]));
            if exists_now && !changed {
                kept_paths.push(self.paths[i].clone());
                kept_counts.push(self.counts[i]);
                assert(Seq::new(kept_counts@.len(), |j: int| (kept_paths@[j]@, kept_counts@[j]))
                    =~= before.push((self.paths@[i as int]@, self.counts@[i as int])));
            }
            i += 1;
        }
        assert(old_view.take(i as int) =~= old_view);
        self.paths = kept_paths;
        self.counts = kept_counts;
        proof {
            lemma_valid_entries(old_view, exist, mods);
            let ks = keys_of(self@);
            let ok = keys_of(old_view);
            assert forall|a: int, b: int| 0 <= a < ks.len() && 0 <= b < ks.len() && a != b
                implies !paths_match(#[trigger] ks[a], #[trigger] ks[b]) by {
                lemma_valid_entries_order(old_view, exist, mods, a, b);
            }
            // An entry read from the cache now is the entry of the old cache
            // under that path.
            assert forall|p: Seq<char>| #[trigger] lookup(self@, p) is Some
                implies lookup(self@, p) == lookup(old_view, p) && still_valid(self@[first_match(ks, p)->Some_0].0, exist, mods) by {
                lemma_first_match(ks, p);
                lemma_first_match(ok, p);
                let a = first_match(ks, p)->Some_0;
                assert(ks[a] == self@[a].0);
                assert(old_view.contains(self@[a]));
                let j = choose|j: int| 0 <= j < old_view.len() && old_view[j] == self@[a];
                assert(ok[j] == old_view[j].0);
                match first_match(ok, p) {
                    Some(j2) => {
                        if j2 != j {
                            assert(!paths_match(ok[j2], ok[j]));
                        }
                    },
                    None => {
                        assert(!paths_match(ok[j], p));
                    },
                }
            }
            assert forall|k: int| 0 <= k < modified_paths@.len()
                implies lookup(self@, (#[trigger] modified_paths@[k])@) is None by {
                let p = mods[k];
                assert(p == modified_paths@[k]@);
                lemma_first_match(ks, p);
                if lookup(self@, p) is Some {
                    let a = first_match(ks, p)->Some_0;
                    assert(ks[a] == self@[a].0);
                    assert(paths_match(mods[k], ks[a]));
                }
            }
            assert forall|p: Seq<char>| !matches_any(p, exist)
                implies #[trigger] lookup(self@, p) is None by {
                lemma_first_match(ks, p);
                if lookup(self@, p) is Some {
                    let a = first_match(ks, p)->Some_0;
                    assert(ks[a] == self@[a].0);
                    assert(matches_any(ks[a], exist));
                    let q = choose|q: int| 0 <= q < exist.len() && paths_match(#[trigger] exist[q], ks[a]);
                    assert(paths_match(exist[q], p));
                }
            }
            assert forall|i: int| 0 <= i < old_view.len() && still_valid(#[trigger] old_view[i].0, exist, mods)
                implies lookup(self@, old_view[i].0) == Some(old_view[i].1) by {
                lemma_valid_entries_keep(old_view, exist, mods, i);
                let p = old_view[i].0;
                let a = choose|a: int| 0 <= a < self@.len() && self@[a] == old_view[i];
                lemma_first_match(ks, p);
                assert(ks[a] == p);
                assert(ok[i] == p);
                let a2 = first_match(ks, p)->Some_0;
                assert(ks[a2] == self@[a2].0);
                assert(old_view.contains(self@[a2]));
                let j = choose|j: int| 0 <= j < old_view.len() && old_view[j] == self@[a2];
                if j != i {
                    assert(ok[j] == self@[a2].0);
                    assert(!paths_match(ok[i], ok[j]));
                }
            }
        }
    }
}

/// Every entry kept is still valid, and is an entry of `entries`.
pub proof fn lemma_valid_entries<V>(entries: Seq<(Seq<char>, V)>, existing: Seq<Seq<char>>, modified: Seq<Seq<char>>)
    ensures
        valid_entries(entries, existing, modified).len() <= entries.len(),
        forall|a: int| 0 <= a < valid_entries(entries, existing, modified).len()
            ==> still_valid((#[trigger] valid_entries(entries, existing, modified)[a]).0, existing, modified)
                && entries.contains(valid_entries(entries, existing, modified)[a]),
    decreases entries.len(),
{
    if entries.len() > 0 {
        let t = entries.drop_last();
        lemma_valid_entries(t, existing, modified);
        let w = valid_entries(entries, existing, modified);
        let wt = valid_entries(t, existing, modified);
        assert forall|a: int| 0 <= a < w.len()
            implies still_valid((#[trigger] w[a]).0, existing, modified) && entries.contains(w[a]) by {
            if a < wt.len() {
                assert(w[a] == wt[a]);
                let j = choose|j: int| 0 <= j < t.len() && t[j] == w[a];
                assert(entries[j] == w[a]);
            } else {
                assert(w[a] == entries.last());
                assert(entries[entries.len() - 1] == w[a]);
            }
        }
    }
}

/// Every entry still valid is kept.
pub proof fn lemma_valid_entries_keep<V>(entries: Seq<(Seq<char>, V)>, existing: Seq<Seq<char>>, modified: Seq<Seq<char>>, i: int)
    requires
        0 <= i < entries.len(),
        still_valid(entries[i].0, existing, modified),
    ensures
        valid_entries(entries, existing, modified).contains(entries[i]),
    decreases entries.len(),
{
    let t = entries.drop_last();
    let w = valid_entries(entries, existing, modified);
    if i < entries.len() - 1 {
        assert(t[i] == entries[i]);
        lemma_valid_entries_keep(t, existing, modified, i);
        let wt = valid_entries(t, existing, modified);
        let a = choose|a: int| 0 <= a < wt.len() && wt[a] == entries[i];
        assert(w[a] == wt[a]);
    } else {
        assert(w[w.len() - 1] == entries[i]);
    }
}

/// No two kept entries name the same path.
pub proof fn lemma_valid_entries_order<V>(entries: Seq<(Seq<char>, V)>, existing: Seq<Seq<char>>, modified: Seq<Seq<char>>, a: int, b: int)
    requires
        distinct_paths(keys_of(entries)),
        0 <= a < valid_entries(entries, existing, modified).len(),
        0 <= b < valid_entries(entries, existing, modified).len(),
        a != b,
    ensures
        !paths_match(valid_entries(entries, existing, modified)[a].0, valid_entries(entries, existing, modified)[b].0),
    decreases entries.len(),
{
    let t = entries.drop_last();
    let w = valid_entries(entries, existing, modified);
    let wt = valid_entries(t, existing, modified);
    assert forall|i: int, j: int| 0 <= i < keys_of(t).len() && 0 <= j < keys_of(t).len() && i != j
        implies !paths_match(#[trigger] keys_of(t)[i], #[trigger] keys_of(t)[j]) by {
        assert(keys_of(t)[i] == keys_of(entries)[i]);
        assert(keys_of(t)[j] == keys_of(entries)[j]);
    }
    if a < wt.len() && b < wt.len() {
        assert(w[a] == wt[a]);
        assert(w[b] == wt[b]);
        lemma_valid_entries_order(t, existing, modified, a, b);
    } else {
        lemma_valid_entries(t, existing, modified);
        let (x, y) = if a < wt.len() { (a, b) } else { (b, a) };
        assert(w[y] == entries.last());
        assert(w[x] == wt[x]);
        let j = choose|j: int| 0 <= j < t.len() && t[j] == wt[x];
        let last = entries.len() - 1;
        assert(keys_of(entries)[j] == wt[x].0);
        assert(keys_of(entries)[last] == entries.last().0);
        assert(!paths_match(keys_of(entries)[j], keys_of(entries)[last]));
    }
}

/// `entries` with `v` stored under the path `p`: it replaces the value of the
/// first key naming `p` (which keeps its spelling), or is added with the key
/// `p` when no key names it.
pub open spec fn map_insert<V>(entries: Seq<(Seq<char>, V)>, p: Seq<char>, v: V) -> Seq<(Seq<char>, V)> {
    match first_match(keys_of(entries), p) {
        Some(i) => entries.update(i, (entries[i].0, v)),
        None => entries.push((p, v)),
    }
}

/// `entries` with every entry of `new` stored in turn.
pub open spec fn insert_all<V>(entries: Seq<(Seq<char>, V)>, new: Seq<(Seq<char>, V)>) -> Seq<(Seq<char>, V)>
    decreases new.len(),
{
    if new.len() == 0 {
        entries
    } else {
        let prev = insert_all(entries, new.drop_last());
        map_insert(prev, new.last().0, new.last().1)
    }
}

/// The keys that name none of `current`, in their order.
pub open spec fn unmatched_keys(keys: Seq<Seq<char>>, current: Seq<Seq<char>>) -> Seq<Seq<char>>
    decreases keys.len(),
{
    if keys.len() == 0 {
        seq![]
    } else {
        let prev = unmatched_keys(keys.drop_last(), current);
        if matches_any(keys.last(), current) {
            prev
        } else {
            prev.push(keys.last())
        }
    }
}

/// Storing a value keeps the keys distinct, and a lookup of the path stored
/// gives the value stored.
pub proof fn law_map_insert<V>(entries: Seq<(Seq<char>, V)>, p: Seq<char>, v: V)
    requires
        distinct_paths(keys_of(entries)),
    ensures
        distinct_paths(keys_of(map_insert(entries, p, v))),
        lookup(map_insert(entries, p, v), p) == Some(v),
        lookup(entries, p) is Some ==> keys_of(map_insert(entries, p, v)) == keys_of(entries),
        lookup(entries, p) is None ==> keys_of(map_insert(entries, p, v)) == keys_of(entries).push(p),
{
    lemma_first_match(keys_of(entries), p);
    let r = map_insert(entries, p, v);
    let ks = keys_of(entries);
    match first_match(ks, p) {
        Some(i) => {
            assert(keys_of(r) =~= ks);
        },
        None => {
            assert(keys_of(r) =~= ks.push(p));
            let rk = keys_of(r);
            assert forall|a: int, b: int| 0 <= a < rk.len() && 0 <= b < rk.len() && a != b
                implies !paths_match(#[trigger] rk[a], #[trigger] rk[b]) by {
                if a < ks.len() && b < ks.len() {
                    assert(rk[a] == ks[a]);
                    assert(rk[b] == ks[b]);
                } else if a < ks.len() {
                    assert(rk[a] == ks[a]);
                } else {
                    assert(rk[b] == ks[b]);
                }
            }
        },
    }
    lemma_first_match(keys_of(r), p);
    match first_match(keys_of(r), p) {
        Some(k) => {
            match first_match(ks, p) {
                Some(i) => {
                    if k < i {
                        assert(keys_of(r)[k] == ks[k]);
                    } else if k > i {
                        assert(keys_of(r)[i] == ks[i]);
                    }
                },
                None => {
                    if k < ks.len() {
                        assert(keys_of(r)[k] == ks[k]);
                    }
                },
            }
        },
        None => {
            match first_match(ks, p) {
                Some(i) => {
                    assert(keys_of(r)[i] == ks[i]);
                },
                None => {
                    assert(keys_of(r)[ks.len() as int] == p);
                },
            }
        },
    }
}

/// Storing entries in turn keeps the entries there were, with their keys, in
/// front; every key added is a key of `new`; and the keys stay distinct.
pub proof fn lemma_insert_all_keys<V>(entries: Seq<(Seq<char>, V)>, new: Seq<(Seq<char>, V)>)
    requires
        distinct_paths(keys_of(entries)),
    ensures
        ({
            let r = insert_all(entries, new);
            &&& r.len() >= entries.len()
            &&& distinct_paths(keys_of(r))
            &&& forall|i: int| 0 <= i < entries.len() ==> (#[trigger] r[i]).0 == entries[i].0
            &&& forall|i: int| entries.len() <= i < r.len()
                ==> exists|j: int| 0 <= j < new.len() && (#[trigger] r[i]).0 == new[j].0
        }),
    decreases new.len(),
{
    if new.len() > 0 {
        let t = new.drop_last();
        lemma_insert_all_keys(entries, t);
        let m = insert_all(entries, t);
        let (p, v) = new.last();
        law_map_insert(m, p, v);
        lemma_first_match(keys_of(m), p);
        let r = insert_all(entries, new);
        assert forall|i: int| 0 <= i < m.len() implies (#[trigger] r[i]).0 == m[i].0 by {
            assert(keys_of(r)[i] == keys_of(m)[i]);
        }
        assert forall|i: int| entries.len() <= i < r.len()
            implies exists|j: int| 0 <= j < new.len() && (#[trigger] r[i]).0 == new[j].0 by {
            if i < m.len() {
                let j = choose|j: int| 0 <= j < t.len() && m[i].0 == t[j].0;
                assert(new[j] == t[j]);
            } else {
                assert(keys_of(r)[i] == p);
                assert(new[new.len() - 1].0 == p);
            }
        }
    }
}

/// After storing the entries of `new` (no two under the same path) in turn,
/// each path of `new` reads back its value.
pub proof fn law_insert_all_reads_back<V>(entries: Seq<(Seq<char>, V)>, new: Seq<(Seq<char>, V)>, j: int)
    requires
        distinct_paths(keys_of(entries)),
        distinct_paths(keys_of(new)),
        0 <= j < new.len(),
    ensures
        lookup(insert_all(entries, new), new[j].0) == Some(new[j].1),
    decreases new.len(),
{
    let t = new.drop_last();
    let last = new.len() - 1;
    let m = insert_all(entries, t);
    let (p, v) = new.last();
    lemma_insert_all_keys(entries, t);
    law_map_insert(m, p, v);
    if j < last {
        assert(keys_of(t) =~= keys_of(new).drop_last());
        assert forall|a: int, b: int| 0 <= a < keys_of(t).len() && 0 <= b < keys_of(t).len() && a != b
            implies !paths_match(#[trigger] keys_of(t)[a], #[trigger] keys_of(t)[b]) by {
            assert(keys_of(t)[a] == keys_of(new)[a]);
            assert(keys_of(t)[b] == keys_of(new)[b]);
        }
        assert(t[j] == new[j]);
        law_insert_all_reads_back(entries, t, j);
        let kj = new[j].0;
        let km = keys_of(m);
        lemma_first_match(km, kj);
        let i = first_match(km, kj)->Some_0;
        assert(m[i].1 == new[j].1);
        let r = map_insert(m, p, v);
        lemma_first_match(km, p);
        match first_match(km, p) {
            Some(i2) => {
                if i2 == i {
                    assert(paths_match(km[i], kj) && paths_match(km[i], p));
                    assert(keys_of(new)[j] == kj && keys_of(new)[last] == p);
                    if i < entries.len() {
                        assert(km[i] == keys_of(entries)[i]);
                        assert(paths_match(keys_of(entries)[i], keys_of(new)[j]));
                        assert(!paths_match(keys_of(entries)[i], keys_of(new)[last]));
                    } else {
                        let q = choose|q: int| 0 <= q < t.len() && m[i].0 == t[q].0;
                        assert(keys_of(new)[q] == km[i]);
                        if q != j {
                            assert(!paths_match(keys_of(new)[q], keys_of(new)[j]));
                        } else {
                            assert(!paths_match(keys_of(new)[j], keys_of(new)[last]));
                        }
                    }
                }
                assert(keys_of(r) =~= km);
                assert(r[i] == m[i]);
            },
            None => {
                assert(keys_of(r) =~= km.push(p));
                assert(keys_of(r).drop_last() =~= km);
                assert(r[i] == m[i]);
            },
        }
    }
}

/// The first key naming `p` depends only on the path `p` names.
pub proof fn lemma_first_match_class(keys: Seq<Seq<char>>, p: Seq<char>, q: Seq<char>)
    requires
        paths_match(p, q),
    ensures
        first_match(keys, p) == first_match(keys, q),
    decreases keys.len(),
{
    if keys.len() > 0 {
        lemma_first_match_class(keys.drop_last(), p, q);
    }
}

/// After storing the entries of `new` in turn, a path named by some entry of
/// `new` reads back the value of the last entry of `new` that names it (a
/// later entry replaces an earlier one).
pub proof fn law_insert_all_last_wins<V>(entries: Seq<(Seq<char>, V)>, new: Seq<(Seq<char>, V)>, p: Seq<char>)
    requires
        distinct_paths(keys_of(entries)),
        exists|j: int| 0 <= j < new.len() && paths_match(#[trigger] new[j].0, p),
    ensures
        exists|j: int| 0 <= j < new.len() && paths_match(#[trigger] new[j].0, p)
            && lookup(insert_all(entries, new), p) == Some(new[j].1)
            && forall|k: int| j < k < new.len() ==> !paths_match(#[trigger] new[k].0, p),
    decreases new.len(),
{
    let t = new.drop_last();
    let last = new.len() - 1;
    let m = insert_all(entries, t);
    let (q, v) = new.last();
    lemma_insert_all_keys(entries, t);
    law_map_insert(m, q, v);
    let r = insert_all(entries, new);
    let km = keys_of(m);
    if paths_match(q, p) {
        lemma_first_match_class(keys_of(r), q, p);
        lemma_first_match_class(km, q, p);
        assert(paths_match(new[last].0, p));
        assert(lookup(r, p) == Some(new[last].1));
    } else {
        let j0 = choose|j: int| 0 <= j < new.len() && paths_match(#[trigger] new[j].0, p);
        assert(j0 != last);
        assert(t[j0] == new[j0]);
        law_insert_all_last_wins(entries, t, p);
        let j = choose|j: int| 0 <= j < t.len() && paths_match(#[trigger] t[j].0, p)
            && lookup(m, p) == Some(t[j].1)
            && forall|k: int| j < k < t.len() ==> !paths_match(#[trigger] t[k].0, p);
        lemma_first_match(km, p);
        let i = first_match(km, p)->Some_0;
        lemma_first_match(km, q);
        match first_match(km, q) {
            Some(i2) => {
                if i2 == i {
                    assert(paths_match(km[i], q) && paths_match(km[i], p));
                }
                assert(keys_of(r) =~= km);
                assert(r[i] == m[i]);
            },
            None => {
                assert(keys_of(r) =~= km.push(q));
                assert(keys_of(r).drop_last() =~= km);
                assert(r[i] == m[i]);
            },
        }
        assert(new[j] == t[j]);
        assert forall|k: int| j < k < new.len() implies !paths_match(#[trigger] new[k].0, p) by {
            if k < last {
                assert(new[k] == t[k]);
            }
        }
    }
}

/// `entries` gives for `p` the value of the last entry of `new` that names
/// `p`'s path.
pub open spec fn reads_back_last<V>(entries: Seq<(Seq<char>, V)>, new: Seq<(Seq<char>, V)>, p: Seq<char>) -> bool {
    exists|j: int| 0 <= j < new.len() && paths_match(#[trigger] new[j].0, p)
        && lookup(entries, p) == Some(new[j].1)
        && forall|k: int| j < k < new.len() ==> !paths_match(#[trigger] new[k].0, p)
}

/// Storing entries (no two under the same path) into an empty table, each
/// path reads back its value.
pub proof fn law_from_reads_back<V>(new: Seq<(Seq<char>, V)>, j: int)
    requires
        distinct_paths(keys_of(new)),
        0 <= j < new.len(),
    ensures
        lookup(insert_all(Seq::<(Seq<char>, V)>::empty(), new), new[j].0) == Some(new[j].1),
{
    law_insert_all_reads_back(Seq::<(Seq<char>, V)>::empty(), new, j);
}

/// The nearest files found for each file, by path.
pub struct NSimilarCache {
    paths: Vec<String>,
    similarities: Vec<FileSimilarities>,
}

impl View for NSimilarCache {
    type V = Seq<(Seq<char>, SimilaritiesView)>;

    closed spec fn view(&self) -> Seq<(Seq<char>, SimilaritiesView)> {
        Seq::new(self.similarities@.len(), |i: int| (self.paths@[i]@, self.similarities@[i]@))
    }
}

impl Default for NSimilarCache {
    fn default() -> (r: Self)
        ensures
            r.wf(),
            r@ == Seq::<(Seq<char>, SimilaritiesView)>::empty(),
    {
        let r = NSimilarCache { paths: Vec::new(), similarities: Vec::new() };
        assert(r@ =~= Seq::<(Seq<char>, SimilaritiesView)>::empty());
        r
    }
}

impl NSimilarCache {
    /// Well formed: one entry per path, and no path twice.
    pub closed spec fn wf(&self) -> bool {
        &&& self.paths@.len() == self.similarities@.len()
        &&& distinct_paths(keys_of(self@))
    }

    /// A well-formed cache holds no path twice.
    pub proof fn lemma_wf_distinct(&self)
        requires
            self.wf(),
        ensures
            distinct_paths(keys_of(self@)),
    {
    }

    proof fn lemma_keys(&self)
        requires
            self.paths@.len() == self.similarities@.len(),
        ensures
            keys_of(self@) == self.paths@.map_values(|k: String| k@),
    {
        assert(keys_of(self@) =~= self.paths@.map_values(|k: String| k@));
    }

    /// Stores `sims` under `path`, replacing what was stored under it.
    pub fn insert(&mut self, path: String, sims: FileSimilarities)
        requires
            old(self).wf(),
        ensures
            final(self).wf(),
            final(self)@ == map_insert(old(self)@, path@, sims@),
            lookup(final(self)@, path@) == Some(sims@),
    {
        proof { self.lemma_keys(); }
        let ghost old_view = self@;
        let ghost sv = sims@;
        proof { law_map_insert(old_view, path@, sv); }
        match find_path(&self.paths, path.as_str()) {
            Some(i) => {
                self.similarities.set(i, sims);
                assert(self@ =~= old_view.update(i as int, (old_view[i as int].0, sv)));
            },
            None => {
                self.paths.push(path);
                self.similarities.push(sims);
                assert(self@ =~= old_view.push((path@, sv)));
            },
        }
    }

    /// Stores every entry of `other`, replacing what was stored under its path.
    pub fn merge(&mut self, other: NSimilarCache)
        requires
            old(self).wf(),
            other.wf(),
        ensures
            final(self).wf(),
            final(self)@ == insert_all(old(self)@, other@),
            forall|j: int| 0 <= j < other@.len()
                ==> lookup(final(self)@, (#[trigger] other@[j]).0) == Some(other@[j].1),
    {
        let ghost start = self@;
        let ghost others = other@;
        let mut paths = other.paths;
        let mut sims = other.similarities;
        let mut taken: usize = 0;
        let total = sims.len();
        assert(others.take(0) =~= Seq::<(Seq<char>, SimilaritiesView)>::empty());
        while paths.len() > 0
            invariant
                self.wf(),
                others.len() == total,
                paths@.len() == sims@.len(),
                taken + paths@.len() == others.len(),
                forall|i: int| 0 <= i < paths@.len()
                    ==> others[taken + i] == (#[trigger] paths@[i]@, sims@[i]@),
                self@ == insert_all(start, others.take(taken as int)),
            decreases paths@.len(),
        {
            let p = paths.remove(0);
            let s = sims.remove(0);
            assert(others[taken as int] == (p@, s@));
            assert(others.take(taken + 1).drop_last() =~= others.take(taken as int));
            assert(others.take(taken + 1).last() == others[taken as int]);
            self.insert(p, s);
            taken += 1;
            assert forall|i: int| 0 <= i < paths@.len()
                implies others[taken + i] == (#[trigger] paths@[i]@, sims@[i]@) by {
            }
        }
        assert(others.take(taken as int) =~= others);
        proof {
            assert forall|j: int| 0 <= j < others.len()
                implies lookup(self@, (#[trigger] others[j]).0) == Some(others[j].1) by {
                law_insert_all_reads_back(start, others, j);
            }
        }
    }

    /// The entries of `pairs` stored in turn into an empty cache (a later entry
    /// replaces an earlier one under the same path).
    pub fn from(pairs: Vec<(String, FileSimilarities)>) -> (r: Self)
        ensures
            r.wf(),
            r@ == insert_all(Seq::empty(), pairs@.map_values(|e: (String, FileSimilarities)| (e.0@, e.1@))),
            forall|j: int| 0 <= j < pairs@.len() ==> reads_back_last(r@,
                pairs@.map_values(|e: (String, FileSimilarities)| (e.0@, e.1@)), (#[trigger] pairs@[j]).0@),
    {
        let ghost pv = pairs@.map_values(|e: (String, FileSimilarities)| (e.0@, e.1@));
        let mut r = NSimilarCache::default();
        let mut rest = pairs;
        let mut taken: usize = 0;
        let total = rest.len();
        assert(pv.take(0) =~= Seq::<(Seq<char>, SimilaritiesView)>::empty());
        while rest.len() > 0
            invariant
                r.wf(),
                pv.len() == total,
                taken + rest@.len() == pv.len(),
                forall|i: int| 0 <= i < rest@.len()
                    ==> pv[taken + i] == ((#[trigger] rest@[i]).0@, rest@[i].1@),
                r@ == insert_all(Seq::empty(), pv.take(taken as int)),
            decreases rest@.len(),
        {
            let (p, s) = rest.remove(0);
            assert(pv[taken as int] == (p@, s@));
            assert(pv.take(taken + 1).drop_last() =~= pv.take(taken as int));
            assert(pv.take(taken + 1).last() == pv[taken as int]);
            r.insert(p, s);
            taken += 1;
        }
        assert(pv.take(taken as int) =~= pv);
        proof {
            assert forall|j: int| 0 <= j < pairs@.len() implies reads_back_last(r@, pv, (#[trigger] pairs@[j]).0@) by {
                assert(pv[j].0 == pairs@[j].0@);
                assert(paths_match(pv[j].0, pairs@[j].0@));
                law_insert_all_last_wins(Seq::<(Seq<char>, SimilaritiesView)>::empty(), pv, pairs@[j].0@);
            }
        }
        r
    }

    /// The number of files stored.
    pub fn len(&self) -> (r: usize)
        requires
            self.wf(),
        ensures
            r == self@.len(),
    {
        self.similarities.len()
    }

    /// The path of the `i`-th entry.
    pub fn path(&self, i: usize) -> (r: &String)
        requires
            self.wf(),
            i < self@.len(),
        ensures
            r@ == self@[i as int].0,
    {
        &self.paths[i]
    }

    /// The nearest files stored in the `i`-th entry.
    pub fn similarities(&self, i: usize) -> (r: &FileSimilarities)
        requires
            self.wf(),
            i < self@.len(),
        ensures
            r@ == self@[i as int].1,
    {
        &self.similarities[i]
    }

    /// When the file under `path` was modified as of the last indexing, if it
    /// was indexed.
    pub fn get_path_date_modified(&self, path: &str) -> (r: Option<i128>)
        requires
            self.wf(),
        ensures
            r == match lookup(self@, path@) {
                Some(s) => Some(s.1),
                None => None::<i128>,
            },
    {
        proof { self.lemma_keys(); }
        match find_path(&self.paths, path) {
            Some(i) => Some(self.similarities[i].date_modified),
            None => None,
        }
    }

    /// The paths stored that name none of `current`: files indexed before that
    /// are gone now.
    pub fn get_removed_paths(&self, current: &[String]) -> (r: Vec<String>)
        requires
            self.wf(),
        ensures
            r@.map_values(|p: String| p@) == unmatched_keys(keys_of(self@), current@.map_values(|p: String| p@)),
    {
        proof { self.lemma_keys(); }
        let ghost ks = keys_of(self@);
        let ghost cur = current@.map_values(|p: String| p@);
        let mut out: Vec<String> = Vec::new();
        let mut i: usize = 0;
        assert(ks.take(0) =~= Seq::<Seq<char>>::empty());
        while i < self.paths.len()
            invariant
                self.wf(),
                i <= self.paths@.len(),
                ks == keys_of(self@),
                ks == self.paths@.map_values(|k: String| k@),
                cur == current@.map_values(|p: String| p@),
                out@.map_values(|p: String| p@) == unmatched_keys(ks.take(i as int), cur),
            decreases self.paths@.len() - i,
        {
            let mut m: usize = 0;
            let mut hit = false;
            while m < current.len()
                invariant
                    i < self.paths@.len(),
                    m <= current@.len(),
                    cur == current@.map_values(|p: String| p@),
                    hit == exists|k: int| 0 <= k < m && paths_match(#[trigger] cur[k], self.paths@[i as int]@),
                decreases current@.len() - m,
            {
                assert(cur[m as int] == current@[m as int]@);
                let same = same_path(current[m].as_str(), self.paths[i].as_str());
                if same {
                    hit = true;
                }
                m += 1;
            }
            assert(ks.take(i + 1).drop_last() =~= ks.take(i as int));
            assert(ks.take(i + 1).last() == self.paths@[i as int]@);
            if !hit {
                let ghost before = out@;
                out.push(self.paths[i].clone());
                assert(out@.map_values(|p: String| p@) =~= before.map_values(|p: String| p@).push(self.paths@[i as int]@));
            }
            i += 1;
        }
        assert(ks.take(i as int) =~= ks);
        out
    }
}

} // verus!
