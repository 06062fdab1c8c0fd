//! The compressed-length cache gives back what the encoder gives: while the
//! cached counts agree with the files, the distances found through the cache
//! are the distances found without it, and the cache keeps agreeing.

use vstd::prelude::*;
use crate::ncd::{zlib_compressed_len, zlib_result, spec_cached_len, spec_ncds_cached_from,
    spec_ncds_from, spec_ncds_cached, spec_ncds, spec_n_most_similar_cached, spec_n_most_similar,
    spec_n_most_similar_by_id, spec_rank, with_paths, lemma_ncds_cached_from_positions, spec_ncd};
use crate::cache::{keys_of, lookup};
use crate::paths::{paths_match, first_match, lemma_first_match};
use crate::indexer::{SimilarView, spec_all_similar};
use crate::ncd::NcdError;

verus! {

/// Every count cached under a path is the compressed length of each file of
/// `files` under that path.
pub open spec fn counts_agree(entries: Seq<(Seq<char>, usize)>, files: Seq<(Seq<char>, Seq<u8>)>) -> bool {
    forall|i: int, j: int| 0 <= i < entries.len() && 0 <= j < files.len()
        && paths_match(#[trigger] entries[i].0, #[trigger] files[j].0)
        ==> zlib_compressed_len(files[j].1) == Some(entries[i].1)
}

/// Files under the same path have the same contents.
pub open spec fn consistent_files(files: Seq<(Seq<char>, Seq<u8>)>) -> bool {
    forall|j: int, k: int| 0 <= j < files.len() && 0 <= k < files.len()
        && paths_match(#[trigger] files[j].0, #[trigger] files[k].0)
        ==> files[j].1 == files[k].1
}

/// Reading one file of `files` through an agreeing cache gives its compressed
/// length, and the cache keeps agreeing.
pub proof fn law_cached_len_agrees(entries: Seq<(Seq<char>, usize)>, files: Seq<(Seq<char>, Seq<u8>)>, t: int)
    requires
        0 <= t < files.len(),
        consistent_files(files),
        counts_agree(entries, files),
    ensures
        spec_cached_len(entries, files[t].0, files[t].1).0 == zlib_result(files[t].1),
        counts_agree(spec_cached_len(entries, files[t].0, files[t].1).1, files),
{
    let p = files[t].0;
    lemma_first_match(keys_of(entries), p);
    match lookup(entries, p) {
        Some(v) => {
            let i = first_match(keys_of(entries), p)->Some_0;
            assert(keys_of(entries)[i] == entries[i].0);
            assert(paths_match(entries[i].0, files[t].0));
        },
        None => {
            match zlib_compressed_len(files[t].1) {
                Some(v) => {
                    let e2 = entries.push((p, v));
                    assert forall|i: int, j: int| 0 <= i < e2.len() && 0 <= j < files.len()
                        && paths_match(#[trigger] e2[i].0, #[trigger] files[j].0)
                        implies zlib_compressed_len(files[j].1) == Some(e2[i].1) by {
                        if i < entries.len() {
                            assert(e2[i] == entries[i]);
                        } else {
                            assert(paths_match(files[t].0, files[j].0));
                        }
                    }
                },
                None => {},
            }
        },
    }
}

/// Through an agreeing cache, the search over the files `hay` (all among
/// `files`) finds what it finds without the cache.
proof fn lemma_ncds_cached_from_agrees(
    entries: Seq<(Seq<char>, usize)>,
    needle: (Seq<char>, Seq<u8>),
    cx: usize,
    hay: Seq<(Seq<char>, Seq<u8>)>,
    files: Seq<(Seq<char>, Seq<u8>)>,
)
    requires
        consistent_files(files),
        counts_agree(entries, files),
        forall|i: int| 0 <= i < hay.len() ==> files.contains(#[trigger] hay[i]),
    ensures
        spec_ncds_cached_from(entries, needle, cx, hay).0 == spec_ncds_from(needle, cx, hay),
        counts_agree(spec_ncds_cached_from(entries, needle, cx, hay).1, files),
    decreases hay.len(),
{
    if hay.len() > 0 {
        let t = hay.drop_last();
        assert forall|i: int| 0 <= i < t.len() implies files.contains(#[trigger] t[i]) by {
            assert(t[i] == hay[i]);
        }
        lemma_ncds_cached_from_agrees(entries, needle, cx, t, files);
        let (prev, e1) = spec_ncds_cached_from(entries, needle, cx, t);
        let i = hay.len() - 1;
        if prev is Ok && !paths_match(needle.0, hay[i].0) {
            assert(files.contains(hay[i]));
            let k = choose|k: int| 0 <= k < files.len() && files[k] == hay[i];
            law_cached_len_agrees(e1, files, k);
        }
    }
}

/// While the cached counts agree with the files searched and the needle, the
/// distances found through the cache are those found without it, and the
/// cache afterwards still agrees with the files.
pub proof fn law_ncds_cached_is_ncds(
    entries: Seq<(Seq<char>, usize)>,
    needle: (Seq<char>, Seq<u8>),
    hay: Seq<(Seq<char>, Seq<u8>)>,
)
    requires
        consistent_files(hay.push(needle)),
        counts_agree(entries, hay.push(needle)),
    ensures
        spec_ncds_cached(entries, needle, hay).0 == spec_ncds(needle, hay),
        counts_agree(spec_ncds_cached(entries, needle, hay).1, hay.push(needle)),
{
    let files = hay.push(needle);
    law_cached_len_agrees(entries, files, hay.len() as int);
    assert(files[hay.len() as int] == needle);
    let (cxr, e0) = spec_cached_len(entries, needle.0, needle.1);
    if cxr is Ok {
        assert forall|i: int| 0 <= i < hay.len() implies files.contains(#[trigger] hay[i]) by {
            assert(files[i] == hay[i]);
        }
        lemma_ncds_cached_from_agrees(e0, needle, cxr->Ok_0, hay, files);
    }
}

/// The same for the `n` nearest files: through an agreeing cache they are
/// those found without it.
pub proof fn law_n_most_similar_cached_is_uncached(
    entries: Seq<(Seq<char>, usize)>,
    n: usize,
    needle: (Seq<char>, Seq<u8>),
    hay: Seq<(Seq<char>, Seq<u8>)>,
)
    requires
        consistent_files(hay.push(needle)),
        counts_agree(entries, hay.push(needle)),
    ensures
        spec_n_most_similar_cached(entries, n, needle, hay).0 == spec_n_most_similar(n, needle, hay),
        counts_agree(spec_n_most_similar_cached(entries, n, needle, hay).1, hay.push(needle)),
{
    law_ncds_cached_is_ncds(entries, needle, hay);
}

/// An empty cache agrees with any files.
pub proof fn law_empty_cache_agrees(files: Seq<(Seq<char>, Seq<u8>)>)
    ensures
        counts_agree(Seq::<(Seq<char>, usize)>::empty(), files),
{
}

/// Adding a file that is already among `files` keeps the files consistent and
/// the cache agreeing; dropping it back keeps the cache agreeing.
proof fn lemma_push_member(entries: Seq<(Seq<char>, usize)>, files: Seq<(Seq<char>, Seq<u8>)>, t: int)
    requires
        0 <= t < files.len(),
    ensures
        consistent_files(files) ==> consistent_files(files.push(files[t])),
        counts_agree(entries, files) ==> counts_agree(entries, files.push(files[t])),
        counts_agree(entries, files.push(files[t])) ==> counts_agree(entries, files),
{
    let f2 = files.push(files[t]);
    assert forall|j: int| 0 <= j < f2.len() implies #[trigger] f2[j] == files[if j < files.len() { j } else { t }] by {}
    if consistent_files(files) {
        assert forall|j: int, k: int| 0 <= j < f2.len() && 0 <= k < f2.len()
            && paths_match(#[trigger] f2[j].0, #[trigger] f2[k].0)
            implies f2[j].1 == f2[k].1 by {
            let jj = if j < files.len() { j } else { t };
            let kk = if k < files.len() { k } else { t };
            assert(files[jj] == f2[j] && files[kk] == f2[k]);
        }
    }
    if counts_agree(entries, files) {
        assert forall|i: int, j: int| 0 <= i < entries.len() && 0 <= j < f2.len()
            && paths_match(#[trigger] entries[i].0, #[trigger] f2[j].0)
            implies zlib_compressed_len(f2[j].1) == Some(entries[i].1) by {
            let jj = if j < files.len() { j } else { t };
            assert(files[jj] == f2[j]);
        }
    }
    if counts_agree(entries, f2) {
        assert forall|i: int, j: int| 0 <= i < entries.len() && 0 <= j < files.len()
            && paths_match(#[trigger] entries[i].0, #[trigger] files[j].0)
            implies zlib_compressed_len(files[j].1) == Some(entries[i].1) by {
            assert(f2[j] == files[j]);
        }
    }
}

/// The nearest `n` files of each of the first `k` files of `hay`, each
/// searched on its own without a cache; or the first error met.
pub open spec fn spec_all_similar_uncached(n: usize, hay: Seq<(Seq<char>, Seq<u8>)>, k: nat) -> Result<SimilarView, NcdError>
    decreases k,
{
    if k == 0 {
        Ok(seq![])
    } else {
        match spec_all_similar_uncached(n, hay, (k - 1) as nat) {
            Err(e) => Err(e),
            Ok(pv) => match spec_n_most_similar(n, hay[k - 1], hay) {
                Err(e) => Err(e),
                Ok(sims) => Ok(pv.push((hay[k - 1].0, sims))),
            },
        }
    }
}

/// Indexing all files one after the other through one cache that agrees with
/// them gives, for each file, what searching for it alone without a cache
/// gives: the order of the searches does not matter, and the cache keeps
/// agreeing.
pub proof fn law_all_similar_is_uncached(entries: Seq<(Seq<char>, usize)>, n: usize, hay: Seq<(Seq<char>, Seq<u8>)>, k: nat)
    requires
        k <= hay.len(),
        consistent_files(hay),
        counts_agree(entries, hay),
    ensures
        spec_all_similar(entries, n, hay, k).0 == spec_all_similar_uncached(n, hay, k),
        counts_agree(spec_all_similar(entries, n, hay, k).1, hay),
    decreases k,
{
    if k > 0 {
        law_all_similar_is_uncached(entries, n, hay, (k - 1) as nat);
        let (prev, e1) = spec_all_similar(entries, n, hay, (k - 1) as nat);
        if prev is Ok {
            let t = k - 1;
            lemma_push_member(e1, hay, t);
            law_n_most_similar_cached_is_uncached(e1, n, hay[t], hay);
            let e2 = spec_n_most_similar_cached(e1, n, hay[t], hay).1;
            lemma_push_member(e2, hay, t);
        }
    }
}

/// Indexing a whole list of consistent files with a fresh cache, as
/// `index_all_files` does, gives for each file its nearest files searched
/// alone without a cache.
pub proof fn law_index_all_files_is_uncached(n: usize, hay: Seq<(Seq<char>, Seq<u8>)>)
    requires
        consistent_files(hay),
    ensures
        spec_all_similar(Seq::empty(), n, hay, hay.len()).0 == spec_all_similar_uncached(n, hay, hay.len()),
{
    law_empty_cache_agrees(hay);
    law_all_similar_is_uncached(Seq::empty(), n, hay, hay.len());
}

/// The search through the cache, when it succeeds, gives a distance for every
/// file of `hay` whose path does not name the needle's path, each computed
/// from `cx`, the length read through the cache for that file, and
/// `C(x ++ y)`.
proof fn lemma_ncds_cached_from_covers(
    entries: Seq<(Seq<char>, usize)>,
    needle: (Seq<char>, Seq<u8>),
    cx: usize,
    hay: Seq<(Seq<char>, Seq<u8>)>,
)
    requires
        hay.len() <= usize::MAX,
        spec_ncds_cached_from(entries, needle, cx, hay).0 is Ok,
    ensures
        ({
            let v = spec_ncds_cached_from(entries, needle, cx, hay).0->Ok_0;
            &&& forall|i: int| 0 <= i < hay.len() && !paths_match(needle.0, #[trigger] hay[i].0)
                ==> exists|k: int| 0 <= k < v.len() && v[k].path_idx == i
            &&& forall|k: int| 0 <= k < v.len() ==> {
                let y = hay[(#[trigger] v[k]).path_idx as int].1;
                &&& zlib_compressed_len(needle.1 + y) is Some
                &&& exists|cy: usize| v[k].ncd_value == spec_ncd(cx, cy, zlib_compressed_len(needle.1 + y)->Some_0)
            }
        }),
    decreases hay.len(),
{
    if hay.len() > 0 {
        let t = hay.drop_last();
        lemma_ncds_cached_from_covers(entries, needle, cx, t);
        lemma_ncds_cached_from_positions(entries, needle, cx, t);
        let prev = spec_ncds_cached_from(entries, needle, cx, t).0->Ok_0;
        let v = spec_ncds_cached_from(entries, needle, cx, hay).0->Ok_0;
        let last = hay.len() - 1;
        assert forall|k: int| 0 <= k < prev.len() implies v[k] == prev[k]
            && hay[(#[trigger] prev[k]).path_idx as int] == t[prev[k].path_idx as int] by {}
        assert forall|i: int| 0 <= i < hay.len() && !paths_match(needle.0, #[trigger] hay[i].0)
            implies exists|k: int| 0 <= k < v.len() && v[k].path_idx == i by {
            if i < last {
                assert(t[i] == hay[i]);
                let k = choose|k: int| 0 <= k < prev.len() && prev[k].path_idx == i;
                assert(v[k] == prev[k]);
            } else {
                assert(v[prev.len() as int].path_idx == i);
            }
        }
        if v.len() > prev.len() {
            let e1 = spec_ncds_cached_from(entries, needle, cx, t).1;
            let cy = spec_cached_len(e1, hay[last].0, hay[last].1).0->Ok_0;
            let m = v[prev.len() as int];
            assert(m.ncd_value == spec_ncd(cx, cy, zlib_compressed_len(needle.1 + hay[last].1)->Some_0));
        }
    }
}

/// The search through a cache gives, when it succeeds, one distance for each
/// file of `hay` whose path does not name the needle's path, in the order of
/// `hay`, and none for a file under the needle's path (whatever its
/// contents); each uses `C(x ++ y)` for the needle `x` and that file `y`.
pub proof fn law_ncds_cached_one_per_other_file(
    entries: Seq<(Seq<char>, usize)>,
    needle: (Seq<char>, Seq<u8>),
    hay: Seq<(Seq<char>, Seq<u8>)>,
)
    requires
        hay.len() <= usize::MAX,
    ensures
        spec_ncds_cached(entries, needle, hay).0 matches Ok(v) ==> {
            &&& forall|i: int| 0 <= i < hay.len() && !paths_match(needle.0, #[trigger] hay[i].0)
                ==> exists|k: int| 0 <= k < v.len() && v[k].path_idx == i
            &&& forall|k: int| 0 <= k < v.len() ==> (#[trigger] v[k]).path_idx < hay.len()
                && !paths_match(needle.0, hay[v[k].path_idx as int].0)
            &&& forall|k: int, l: int| 0 <= k < l < v.len() ==> (#[trigger] v[k]).path_idx < (#[trigger] v[l]).path_idx
            &&& forall|k: int| 0 <= k < v.len() ==> {
                let y = hay[(#[trigger] v[k]).path_idx as int].1;
                &&& zlib_compressed_len(needle.1 + y) is Some
                &&& exists|cx: usize, cy: usize| v[k].ncd_value == spec_ncd(cx, cy, zlib_compressed_len(needle.1 + y)->Some_0)
            }
        },
{
    let (cxr, e0) = spec_cached_len(entries, needle.0, needle.1);
    if let Ok(cx) = cxr {
        if spec_ncds_cached_from(e0, needle, cx, hay).0 is Ok {
            lemma_ncds_cached_from_covers(e0, needle, cx, hay);
            lemma_ncds_cached_from_positions(e0, needle, cx, hay);
            let v = spec_ncds_cached_from(e0, needle, cx, hay).0->Ok_0;
            assert forall|k: int| 0 <= k < v.len() implies {
                let y = hay[(#[trigger] v[k]).path_idx as int].1;
                &&& zlib_compressed_len(needle.1 + y) is Some
                &&& exists|cx: usize, cy: usize| v[k].ncd_value == spec_ncd(cx, cy, zlib_compressed_len(needle.1 + y)->Some_0)
            } by {
                let y = hay[v[k].path_idx as int].1;
                let cy = choose|cy: usize| v[k].ncd_value == spec_ncd(cx, cy, zlib_compressed_len(needle.1 + y)->Some_0);
                assert(v[k].ncd_value == spec_ncd(cx, cy, zlib_compressed_len(needle.1 + y)->Some_0));
            }
        }
    }
}
} // verus!
