//! The index: for every file under a directory, its nearest files.

use vstd::prelude::*;
use crate::ncd::{Ncd, NcdError, NormalizedCompressedDistance, FileContents, files_view, named_view,
    spec_n_most_similar_cached, get_n_most_similar_files_cached, counts_at_least_six};
use crate::cache::{CompressedByteCache, NSimilarCache, insert_all, keys_of, lookup, law_from_reads_back, valid_entries,
    unmatched_keys, lemma_insert_all_keys, law_insert_all_last_wins};
use crate::paths::{matches_any, paths_match};
use crate::paths::distinct_paths;
use crate::file_walk::{FileWalker, WalkEntry, WalkEntryView, walk_view, spec_file_data, spec_modified_files, changed_paths};
use crate::paths::{path_join, join_path};

verus! {

/// The nearest files found for one file, and when that file was last modified
/// (in nanoseconds after the Unix epoch).
#[derive(Debug)]
pub struct FileSimilarities {
    pub n_most_similar: Vec<NormalizedCompressedDistance>,
    pub date_modified: i128,
}

/// The view of the nearest files found for one file, and its modification time.
pub type SimilaritiesView = (Seq<(Seq<char>, Ncd)>, i128);

impl View for FileSimilarities {
    type V = SimilaritiesView;

    open spec fn view(&self) -> SimilaritiesView {
        (self.n_most_similar@.map_values(|d: NormalizedCompressedDistance| d@), self.date_modified)
    }
}

/// The view of a list of (path, nearest files) pairs.
pub type SimilarView = Seq<(Seq<char>, Seq<(Seq<char>, Ncd)>)>;

/// The nearest `n` files of each of the first `k` files of `hay` (searched
/// among all of `hay`), one after the other through the cache `entries`; or
/// the first error met. Gives them and the cache afterwards.
pub open spec fn spec_all_similar(
    entries: Seq<(Seq<char>, usize)>,
    n: usize,
    hay: Seq<(Seq<char>, Seq<u8>)>,
    k: nat,
) -> (Result<SimilarView, NcdError>, Seq<(Seq<char>, usize)>)
    decreases k,
{
    if k == 0 {
        (Ok(seq![]), entries)
    } else {
        let (prev, e1) = spec_all_similar(entries, n, hay, (k - 1) as nat);
        match prev {
            Err(e) => (Err(e), e1),
            Ok(pv) => {
                let (r, e2) = spec_n_most_similar_cached(e1, n, hay[k - 1], hay);
                match r {
                    Err(e) => (Err(e), e2),
                    Ok(sims) => (Ok(pv.push((hay[k - 1].0, sims))), e2),
                }
            },
        }
    }
}

/// Once the first `k` files give an error, so do the first `m >= k`.
proof fn lemma_all_similar_error_persists(
    entries: Seq<(Seq<char>, usize)>,
    n: usize,
    hay: Seq<(Seq<char>, Seq<u8>)>,
    k: nat,
    m: nat,
)
    requires
        k <= m,
        spec_all_similar(entries, n, hay, k).0 is Err,
    ensures
        spec_all_similar(entries, n, hay, m) == spec_all_similar(entries, n, hay, k),
    decreases m - k,
{
    if k < m {
        lemma_all_similar_error_persists(entries, n, hay, k, (m - 1) as nat);
    }
}

/// Without an error, there is one entry for each of the first `k` files,
/// under its path.
pub proof fn lemma_all_similar_len(
    entries: Seq<(Seq<char>, usize)>,
    n: usize,
    hay: Seq<(Seq<char>, Seq<u8>)>,
    k: nat,
)
    requires
        k <= hay.len(),
        spec_all_similar(entries, n, hay, k).0 is Ok,
    ensures
        spec_all_similar(entries, n, hay, k).0->Ok_0.len() == k,
        forall|i: int| 0 <= i < k ==> (#[trigger] spec_all_similar(entries, n, hay, k).0->Ok_0[i]).0 == hay[i].0,
    decreases k,
{
    if k > 0 {
        lemma_all_similar_len(entries, n, hay, (k - 1) as nat);
    }
}

/// A result holding a vector of (path, nearest files) pairs, by its view.
pub open spec fn similar_view(r: Result<Vec<(String, Vec<NormalizedCompressedDistance>)>, NcdError>) -> Result<SimilarView, NcdError> {
    match r {
        Ok(v) => Ok(v@.map_values(|e: (String, Vec<NormalizedCompressedDistance>)| (e.0@, e.1@.map_values(|d: NormalizedCompressedDistance| d@)))),
        Err(e) => Err(e),
    }
}

/// The nearest `n` files of every file of `files`, in order, searched among
/// all of `files` with the compressed lengths read through `cache`.
pub fn similar_for_all(cache: &mut CompressedByteCache, n: usize, files: &[FileContents]) -> (r: Result<Vec<(String, Vec<NormalizedCompressedDistance>)>, NcdError>)
    requires
        old(cache).wf(),
    ensures
        final(cache).wf(),
        (similar_view(r), final(cache)@) == spec_all_similar(old(cache)@, n, files_view(files@), files@.len()),
        counts_at_least_six(old(cache)@) ==> counts_at_least_six(final(cache)@)
            && !(r matches Err(NcdError::Incomparable)),
{
    let ghost hay = files_view(files@);
    let ghost start = cache@;
    let mut out: Vec<(String, Vec<NormalizedCompressedDistance>)> = Vec::with_capacity(files.len());
    let mut k: usize = 0;
    assert(similar_view(Ok(out))->Ok_0 =~= Seq::<(Seq<char>, Seq<(Seq<char>, Ncd)>)>::empty());
    while k < files.len()
        invariant
            k <= files@.len(),
            hay == files_view(files@),
            hay.len() == files@.len(),
            cache.wf(),
            spec_all_similar(start, n, hay, k as nat) == (similar_view(Ok(out)), cache@),
            start == old(cache)@,
            counts_at_least_six(start) ==> counts_at_least_six(cache@),
        decreases files@.len() - k,
    {
        let ghost before = out@;
        assert(hay[k as int] == files@[k as int]@);
        let sims = match get_n_most_similar_files_cached(cache, n, &files[k], files) {
            Ok(v) => v,
            Err(e) => {
                assert(spec_all_similar(start, n, hay, (k + 1) as nat) == (Err::<SimilarView, NcdError>(e), cache@));
                proof { lemma_all_similar_error_persists(start, n, hay, (k + 1) as nat, files@.len()); }
                let r: Result<Vec<(String, Vec<NormalizedCompressedDistance>)>, NcdError> = Err(e);
                assert(similar_view(r) == Err::<SimilarView, NcdError>(e));
                return r;
            },
        };
        let ghost sv = sims@.map_values(|d: NormalizedCompressedDistance| d@);
        out.push((files[k].path.clone(), sims));
        assert(out@.map_values(|e: (String, Vec<NormalizedCompressedDistance>)| (e.0@, e.1@.map_values(|d: NormalizedCompressedDistance| d@)))
            =~= before.map_values(|e: (String, Vec<NormalizedCompressedDistance>)| (e.0@, e.1@.map_values(|d: NormalizedCompressedDistance| d@))).push((files@[k as int].path@, sv)));
        k += 1;
    }
    Ok(out)
}

/// The name of the directory, under the root, where the caches are kept.
pub fn cache_dir_of(root_dir: &str) -> (r: String)
    ensures
        r@ == path_join(root_dir@, ".content_mapp_rs"@),
{
    join_path(root_dir, ".content_mapp_rs")
}

/// Pairs each file's nearest files with its modification time.
pub open spec fn with_dates(sims: SimilarView, dates: Seq<i128>) -> Seq<(Seq<char>, SimilaritiesView)> {
    Seq::new(sims.len(), |i: int| (sims[i].0, (sims[i].1, dates[i])))
}

/// After indexing files under distinct paths, the path of each file reads
/// back its nearest files and its modification time.
pub proof fn law_index_reads_back(
    entries: Seq<(Seq<char>, usize)>,
    n: usize,
    hay: Seq<(Seq<char>, Seq<u8>)>,
    dates: Seq<i128>,
    j: int,
)
    requires
        distinct_paths(keys_of(hay)),
        dates.len() == hay.len(),
        spec_all_similar(entries, n, hay, hay.len()).0 is Ok,
        0 <= j < hay.len(),
    ensures
        ({
            let res = spec_all_similar(entries, n, hay, hay.len()).0->Ok_0;
            lookup(insert_all(Seq::empty(), with_dates(res, dates)), hay[j].0) == Some((res[j].1, dates[j]))
        }),
{
    let res = spec_all_similar(entries, n, hay, hay.len()).0->Ok_0;
    lemma_all_similar_len(entries, n, hay, hay.len());
    let w = with_dates(res, dates);
    assert forall|a: int, b: int| 0 <= a < keys_of(w).len() && 0 <= b < keys_of(w).len() && a != b
        implies !crate::paths::paths_match(#[trigger] keys_of(w)[a], #[trigger] keys_of(w)[b]) by {
        assert(keys_of(w)[a] == keys_of(hay)[a]);
        assert(keys_of(w)[b] == keys_of(hay)[b]);
    }
    law_from_reads_back(w, j);
}

/// No file counts as changed when each file's stored time is its time.
proof fn lemma_nothing_changed(data: Seq<(Seq<char>, i128)>, cache: Seq<(Seq<char>, SimilaritiesView)>)
    requires
        forall|i: int| 0 <= i < data.len() ==> #[trigger] lookup(cache, data[i].0) is Some
            && lookup(cache, data[i].0)->Some_0.1 == data[i].1,
    ensures
        changed_paths(data, cache) == Seq::<Seq<char>>::empty(),
    decreases data.len(),
{
    if data.len() > 0 {
        let t = data.drop_last();
        assert forall|i: int| 0 <= i < t.len() implies #[trigger] lookup(cache, t[i].0) is Some
            && lookup(cache, t[i].0)->Some_0.1 == t[i].1 by {
            assert(t[i] == data[i]);
            assert(lookup(cache, data[i].0) is Some);
        }
        lemma_nothing_changed(t, cache);
        assert(lookup(cache, data[data.len() - 1].0) is Some);
    }
}

/// No key counts as gone when each names one of `current`.
proof fn lemma_nothing_gone(keys: Seq<Seq<char>>, current: Seq<Seq<char>>)
    requires
        forall|i: int| 0 <= i < keys.len() ==> matches_any(#[trigger] keys[i], current),
    ensures
        unmatched_keys(keys, current) == Seq::<Seq<char>>::empty(),
    decreases keys.len(),
{
    if keys.len() > 0 {
        let t = keys.drop_last();
        assert forall|i: int| 0 <= i < t.len() implies matches_any(#[trigger] t[i], current) by {
            assert(t[i] == keys[i]);
        }
        lemma_nothing_gone(t, current);
        assert(matches_any(keys[keys.len() - 1], current));
    }
}

/// Right after indexing the files that a walk finds (read with the times the
/// walk reports), the same walk finds nothing to index again: no file
/// changed, appeared or disappeared. A walk that lists one path twice must
/// report the same time for it both times.
pub proof fn law_no_reindex_after_index(
    entries: Seq<(Seq<char>, usize)>,
    n: usize,
    walk: Seq<Option<WalkEntryView>>,
    hay: Seq<(Seq<char>, Seq<u8>)>,
    dates: Seq<i128>,
)
    requires
        hay.len() == spec_file_data(walk).len(),
        forall|i: int| 0 <= i < hay.len() ==> (#[trigger] hay[i]).0 == spec_file_data(walk)[i].0,
        dates == spec_file_data(walk).map_values(|d: (Seq<char>, i128)| d.1),
        forall|i: int, k: int| 0 <= i < hay.len() && 0 <= k < hay.len()
            && paths_match(#[trigger] spec_file_data(walk)[i].0, #[trigger] spec_file_data(walk)[k].0)
            ==> spec_file_data(walk)[i].1 == spec_file_data(walk)[k].1,
        spec_all_similar(entries, n, hay, hay.len()).0 is Ok,
    ensures
        spec_modified_files(walk, insert_all(
            Seq::empty(),
            with_dates(spec_all_similar(entries, n, hay, hay.len()).0->Ok_0, dates),
        )) == Seq::<Seq<char>>::empty(),
{
    let data = spec_file_data(walk);
    let res = spec_all_similar(entries, n, hay, hay.len()).0->Ok_0;
    let w = with_dates(res, dates);
    let cache = insert_all(Seq::<(Seq<char>, SimilaritiesView)>::empty(), w);
    lemma_all_similar_len(entries, n, hay, hay.len());
    assert forall|i: int| 0 <= i < data.len() implies #[trigger] lookup(cache, data[i].0) is Some
        && lookup(cache, data[i].0)->Some_0.1 == data[i].1 by {
        assert(hay[i].0 == data[i].0);
        assert(w[i].0 == hay[i].0);
        assert(paths_match(w[i].0, data[i].0));
        law_insert_all_last_wins(Seq::<(Seq<char>, SimilaritiesView)>::empty(), w, data[i].0);
        let j = choose|j: int| 0 <= j < w.len() && paths_match(#[trigger] w[j].0, data[i].0)
            && lookup(cache, data[i].0) == Some(w[j].1)
            && forall|k: int| j < k < w.len() ==> !paths_match(#[trigger] w[k].0, data[i].0);
        assert(w[j].0 == hay[j].0);
        assert(hay[j].0 == data[j].0);
        assert(paths_match(data[j].0, data[i].0));
        assert(w[j].1.1 == dates[j]);
    }
    lemma_nothing_changed(data, cache);
    let cur = data.map_values(|d: (Seq<char>, i128)| d.0);
    lemma_insert_all_keys(Seq::<(Seq<char>, SimilaritiesView)>::empty(), w);
    let ks = keys_of(cache);
    assert forall|i: int| 0 <= i < ks.len() implies matches_any(#[trigger] ks[i], cur) by {
        assert(ks[i] == cache[i].0);
        let j = choose|j: int| 0 <= j < w.len() && cache[i].0 == w[j].0;
        assert(w[j].0 == hay[j].0);
        assert(cur[j] == data[j].0);
        assert(paths_match(cur[j], ks[i]));
    }
    lemma_nothing_gone(ks, cur);
    assert(spec_modified_files(walk, cache) =~= Seq::<Seq<char>>::empty());
}

/// The index over a directory: for every file, its nearest files.
pub struct Indexer {
    n: usize,
    file_walker: FileWalker,
    compressed_byte_cache: CompressedByteCache,
    n_similar_cache: NSimilarCache,
    cache_dir: String,
}

impl Indexer {
    /// Well formed: both caches are.
    pub closed spec fn wf(&self) -> bool {
        self.compressed_byte_cache.wf() && self.n_similar_cache.wf()
    }

    pub closed spec fn spec_n(&self) -> usize {
        self.n
    }

    pub closed spec fn spec_cache_dir(&self) -> Seq<char> {
        self.cache_dir@
    }

    pub closed spec fn spec_byte_counts(&self) -> Seq<(Seq<char>, usize)> {
        self.compressed_byte_cache@
    }

    pub closed spec fn spec_similar(&self) -> Seq<(Seq<char>, SimilaritiesView)> {
        self.n_similar_cache@
    }

    pub closed spec fn spec_walked(&self) -> Seq<Seq<char>> {
        self.file_walker.spec_all_paths()
    }

    pub closed spec fn spec_root_dir(&self) -> Seq<char> {
        self.file_walker.spec_root_dir()
    }

    /// An index of `root_dir` (walked as `walk`) that keeps the `n` nearest
    /// files of each file. It starts from the caches `loaded` (read from the
    /// cache directory) when there are any; otherwise from an empty
    /// compressed-length cache with room for every file walked and no
    /// similarities.
    pub fn new(root_dir: String, n: usize, walk: &[Option<WalkEntry>], loaded: Option<(CompressedByteCache, NSimilarCache)>) -> (r: Self)
        requires
            loaded matches Some(c) ==> c.0.wf() && c.1.wf(),
        ensures
            r.wf(),
            r.spec_n() == n,
            r.spec_root_dir() == root_dir@,
            r.spec_cache_dir() == path_join(root_dir@, ".content_mapp_rs"@),
            r.spec_walked() == spec_file_data(walk_view(walk@)).map_values(|d: (Seq<char>, i128)| d.0),
            match loaded {
                Some(c) => r.spec_byte_counts() == c.0@ && r.spec_similar() == c.1@,
                None => r.spec_byte_counts() == Seq::<(Seq<char>, usize)>::empty()
                    && r.spec_similar() == Seq::<(Seq<char>, SimilaritiesView)>::empty(),
            },
    {
        let cache_dir = cache_dir_of(root_dir.as_str());
        let file_walker = FileWalker::new(root_dir, walk);
        let file_count = file_walker.total_file_count();
        let (compressed_byte_cache, n_similar_cache) = match loaded {
            Some(c) => c,
            None => (CompressedByteCache::with_capacity(file_count), NSimilarCache::default()),
        };
        Indexer { n, file_walker, compressed_byte_cache, n_similar_cache, cache_dir }
    }

    /// The number of nearest files kept per file.
    pub fn n(&self) -> (r: usize)
        ensures
            r == self.spec_n(),
    {
        self.n
    }

    /// The walker of the indexed directory.
    pub fn file_walker(&self) -> (r: &FileWalker)
        ensures
            r.spec_all_paths() == self.spec_walked(),
            r.spec_root_dir() == self.spec_root_dir(),
    {
        &self.file_walker
    }

    /// Where the caches are kept.
    pub fn cache_dir(&self) -> (r: &String)
        ensures
            r@ == self.spec_cache_dir(),
    {
        &self.cache_dir
    }

    /// The compressed lengths cached.
    pub fn compressed_byte_cache(&self) -> (r: &CompressedByteCache)
        requires
            self.wf(),
        ensures
            r.wf(),
            r@ == self.spec_byte_counts(),
    {
        &self.compressed_byte_cache
    }

    /// The nearest files of each file, as last indexed.
    pub fn n_similar_cache(&self) -> (r: &NSimilarCache)
        requires
            self.wf(),
        ensures
            r.wf(),
            r@ == self.spec_similar(),
    {
        &self.n_similar_cache
    }

    /// The nearest `n` files of every file of `files` (modified at the times
    /// `dates`), searched among all of them through the compressed-length
    /// cache, stored by path.
    pub fn index_files(&mut self, n: usize, files: &[FileContents], dates: &[i128]) -> (r: Result<NSimilarCache, NcdError>)
        requires
            old(self).wf(),
            files@.len() == dates@.len(),
        ensures
            final(self).wf(),
            final(self).spec_n() == old(self).spec_n(),
            final(self).spec_cache_dir() == old(self).spec_cache_dir(),
            final(self).spec_walked() == old(self).spec_walked(),
            final(self).spec_root_dir() == old(self).spec_root_dir(),
            final(self).spec_similar() == old(self).spec_similar(),
            ({
                let (res, counts) = spec_all_similar(old(self).spec_byte_counts(), n, files_view(files@), files@.len());
                &&& final(self).spec_byte_counts() == counts
                &&& match r {
                    Ok(c) => c.wf() && res is Ok && c@ == insert_all(Seq::empty(), with_dates(res->Ok_0, dates@)),
                    Err(e) => res == Err::<SimilarView, NcdError>(e),
                }
            }),
        counts_at_least_six(old(self).spec_byte_counts()) ==> counts_at_least_six(final(self).spec_byte_counts())
            && !(r matches Err(NcdError::Incomparable)),
    {
        let all = similar_for_all(&mut self.compressed_byte_cache, n, files)?;
        let ghost av = similar_view(Ok(all))->Ok_0;
        proof {
            lemma_all_similar_len(old(self).spec_byte_counts(), n, files_view(files@), files@.len());
            assert(av.len() == all@.len());
        }
        let mut pairs: Vec<(String, FileSimilarities)> = Vec::with_capacity(all.len());
        let mut rest = all;
        let mut k: usize = 0;
        let total = rest.len();
        while rest.len() > 0
            invariant
                k + rest@.len() == total,
                total == av.len(),
                av.len() == dates@.len(),
                forall|i: int| 0 <= i < rest@.len()
                    ==> av[k + i] == ((#[trigger] rest@[i]).0@, rest@[i].1@.map_values(|d: NormalizedCompressedDistance| d@)),
                pairs@.map_values(|e: (String, FileSimilarities)| (e.0@, e.1@)) =~= with_dates(av, dates@).take(k as int),
            decreases rest@.len(),
        {
            let ghost before = pairs@;
            let (p, sims) = rest.remove(0);
            assert(av[k as int] == (p@, sims@.map_values(|d: NormalizedCompressedDistance| d@)));
            let fs = FileSimilarities { n_most_similar: sims, date_modified: dates[k] };
            let ghost fsv = fs@;
            pairs.push((p, fs));
            assert(pairs@.map_values(|e: (String, FileSimilarities)| (e.0@, e.1@))
                =~= before.map_values(|e: (String, FileSimilarities)| (e.0@, e.1@)).push((av[k as int].0, fsv)));
            assert(with_dates(av, dates@).take(k + 1) =~= with_dates(av, dates@).take(k as int).push(with_dates(av, dates@)[k as int]));
            k += 1;
        }
        assert(with_dates(av, dates@).take(k as int) =~= with_dates(av, dates@));
        Ok(NSimilarCache::from(pairs))
    }

    /// Indexes every file of `files` (the files of a new walk of the
    /// directory, read, modified at the times `dates`) anew, replacing the
    /// similarities stored. On an error the similarities stored are kept.
    pub fn index_all_files(&mut self, files: &[FileContents], dates: &[i128]) -> (r: Result<(), NcdError>)
        requires
            old(self).wf(),
            files@.len() == dates@.len(),
        ensures
            final(self).wf(),
            final(self).spec_n() == old(self).spec_n(),
            final(self).spec_cache_dir() == old(self).spec_cache_dir(),
            final(self).spec_walked() == old(self).spec_walked(),
            final(self).spec_root_dir() == old(self).spec_root_dir(),
            ({
                let (res, counts) = spec_all_similar(old(self).spec_byte_counts(), old(self).spec_n(), files_view(files@), files@.len());
                &&& final(self).spec_byte_counts() == counts
                &&& match r {
                    Ok(()) => res is Ok && final(self).spec_similar() == insert_all(Seq::empty(), with_dates(res->Ok_0, dates@)),
                    Err(e) => res == Err::<SimilarView, NcdError>(e) && final(self).spec_similar() == old(self).spec_similar(),
                }
            }),
        counts_at_least_six(old(self).spec_byte_counts()) ==> counts_at_least_six(final(self).spec_byte_counts())
            && !(r matches Err(NcdError::Incomparable)),
    {
        let n = self.n;
        let c = self.index_files(n, files, dates)?;
        self.n_similar_cache = c;
        Ok(())
    }

    /// The files whose stored similarities are stale, given a new walk of the
    /// directory.
    pub fn modified_files(&self, walk: &[Option<WalkEntry>]) -> (r: Vec<String>)
        requires
            self.wf(),
        ensures
            r@.map_values(|p: String| p@) == spec_modified_files(walk_view(walk@), self.spec_similar()),
    {
        self.file_walker.get_all_modified_files(walk, &self.n_similar_cache)
    }

    /// Drops the compressed lengths that a new walk of the directory makes
    /// stale: those of files gone, and those of files changed since the last
    /// indexing (or never indexed). To be done before indexing again.
    pub fn clear_stale_counts(&mut self, walk: &[Option<WalkEntry>])
        requires
            old(self).wf(),
        ensures
            final(self).wf(),
            final(self).spec_n() == old(self).spec_n(),
            final(self).spec_cache_dir() == old(self).spec_cache_dir(),
            final(self).spec_walked() == old(self).spec_walked(),
            final(self).spec_root_dir() == old(self).spec_root_dir(),
            final(self).spec_similar() == old(self).spec_similar(),
            final(self).spec_byte_counts() == valid_entries(
                old(self).spec_byte_counts(),
                spec_file_data(walk_view(walk@)).map_values(|d: (Seq<char>, i128)| d.0),
                spec_modified_files(walk_view(walk@), old(self).spec_similar()),
            ),
    {
        let modified = self.modified_files(walk);
        let existing = self.file_walker.all_paths(walk);
        self.compressed_byte_cache.clear_invalid_paths(modified.as_slice(), existing.as_slice());
    }

    /// Whether the whole directory has to be indexed again: some file changed,
    /// appeared or disappeared since the last indexing.
    pub fn needs_reindex(&self, walk: &[Option<WalkEntry>]) -> (r: bool)
        requires
            self.wf(),
        ensures
            r == (spec_modified_files(walk_view(walk@), self.spec_similar()).len() > 0),
    {
        let modified = self.modified_files(walk);
        !modified.is_empty()
    }
}

} // verus!
