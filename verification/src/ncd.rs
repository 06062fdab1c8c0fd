//! Normalized compression distance (NCD) between file contents.
//!
//! For contents `x` and `y` with zlib-compressed lengths `C(x)`, `C(y)` and
//! `C(x ++ y)`, the distance is
//! `(C(x ++ y) - min(C(x), C(y))) / max(C(x), C(y))`.
//! It is kept here as an exact fraction of two integers.

use std::io::Write;
use flate2::write::ZlibEncoder;
use flate2::Compression;
use vstd::prelude::*;
use crate::paths::{paths_match, same_path};
use crate::cache::{CompressedByteCache, lookup, keys_of};
use crate::paths::{first_match, lemma_first_match};

verus! {

/// Why a distance could not be computed.
#[derive(Debug, Clone, Copy, PartialEq, Eq, Structural)]
pub enum NcdError {
    /// The zlib encoder reported an error.
    CompressionFailed,
    /// `C(x ++ y)` came out smaller than `min(C(x), C(y))`, so the numerator
    /// of the distance would be negative.
    PairSmallerThanPart,
    /// A distance is `0 / 0` (not a number) and could not be ordered
    /// against the others.
    Incomparable,
}

/// A distance as the exact fraction `numerator / denominator`.
/// A zero denominator with a non-zero numerator stands for `+inf`;
/// `0 / 0` is not a number.
#[derive(Debug, Clone, Copy, PartialEq, Eq, Structural)]
pub struct Ncd {
    pub numerator: usize,
    pub denominator: usize,
}

impl Ncd {
    /// `0 / 0`: not a number.
    pub open spec fn is_nan(self) -> bool {
        self.numerator == 0 && self.denominator == 0
    }
}

/// `a` is strictly smaller than `b`, compared as fractions.
pub open spec fn ncd_lt(a: Ncd, b: Ncd) -> bool {
    (a.numerator as int) * (b.denominator as int) < (b.numerator as int) * (a.denominator as int)
}

/// The distance of one file (`path_idx` in the list searched) to the needle.
#[derive(Debug, Clone, Copy, PartialEq, Eq, Structural)]
pub struct NcdIdMapping {
    pub path_idx: usize,
    pub ncd_value: Ncd,
}

/// The contents of one file, under its path.
#[derive(Debug)]
pub struct FileContents {
    pub path: String,
    pub bytes: Vec<u8>,
}

impl View for FileContents {
    type V = (Seq<char>, Seq<u8>);

    open spec fn view(&self) -> (Seq<char>, Seq<u8>) {
        (self.path@, self.bytes@)
    }
}

/// The views of a list of files.
pub open spec fn files_view(files: Seq<FileContents>) -> Seq<(Seq<char>, Seq<u8>)> {
    files.map_values(|f: FileContents| f@)
}

/// A result holding a vector, with the vector taken by its view.
pub open spec fn result_view<T>(r: Result<Vec<T>, NcdError>) -> Result<Seq<T>, NcdError> {
    match r {
        Ok(v) => Ok(v@),
        Err(e) => Err(e),
    }
}

/// What the zlib encoder of `flate2` at its default level makes of `data`:
/// the length of its output, or `None` when it reports an error.
pub uninterp spec fn zlib_compressed_len(data: Seq<u8>) -> Option<usize>;

/// Compresses `buf` with `flate2::write::ZlibEncoder` at `Compression::default()`
/// into a `Vec<u8>` and counts the bytes produced.
///
/// Trusted: the result is `zlib_compressed_len(buf)`, an error standing for
/// `None`. A finished zlib stream (RFC 1950; `finish` closes off the stream)
/// holds at least a 2-byte header and a 4-byte Adler-32 checksum, so a length
/// returned is at least 6. What that length is on given bytes is left unsaid,
/// and so is whether the encoder can fail (its source keeps error paths).
#[verifier::external_body]
fn get_compressed_byte_count(buf: &[u8]) -> (r: Result<usize, NcdError>)
    ensures
        match r {
            Ok(n) => zlib_compressed_len(buf@) == Some(n),
            Err(e) => zlib_compressed_len(buf@) is None && e == NcdError::CompressionFailed,
        },
        r matches Ok(n) ==> n >= 6,
{
    let receive = Vec::with_capacity(buf.len());
    let mut e = ZlibEncoder::new(receive, Compression::default());
    match e.write_all(buf) {
        Ok(()) => {},
        Err(_) => return Err(NcdError::CompressionFailed),
    }
    match e.finish() {
        Ok(compressed) => Ok(compressed.len()),
        Err(_) => Err(NcdError::CompressionFailed),
    }
}

/// The smaller of two lengths.
pub open spec fn min_len(a: usize, b: usize) -> usize {
    if a <= b { a } else { b }
}

/// The larger of two lengths.
pub open spec fn max_len(a: usize, b: usize) -> usize {
    if a <= b { b } else { a }
}

/// The distance from the three compressed lengths.
pub open spec fn spec_ncd(cx: usize, cy: usize, cxy: usize) -> Ncd {
    Ncd { numerator: (cxy - min_len(cx, cy)) as usize, denominator: max_len(cx, cy) }
}

/// The distance `(cxy - min(cx, cy)) / max(cx, cy)`.
pub fn ncd_from_counts(cx: usize, cy: usize, cxy: usize) -> (r: Ncd)
    requires
        cxy >= min_len(cx, cy),
    ensures
        r == spec_ncd(cx, cy, cxy),
{
    let lo = if cx <= cy { cx } else { cy };
    let hi = if cx <= cy { cy } else { cx };
    Ncd { numerator: cxy - lo, denominator: hi }
}

/// Whether `a` is strictly smaller than `b` as fractions.
pub fn ncd_less(a: &Ncd, b: &Ncd) -> (r: bool)
    ensures
        r == ncd_lt(*a, *b),
{
    let an = a.numerator as u128;
    let ad = a.denominator as u128;
    let bn = b.numerator as u128;
    let bd = b.denominator as u128;
    assert(an * bd <= u64::MAX * u64::MAX) by (nonlinear_arith)
        requires an <= u64::MAX, bd <= u64::MAX;
    assert(bn * ad <= u64::MAX * u64::MAX) by (nonlinear_arith)
        requires bn <= u64::MAX, ad <= u64::MAX;
    an * bd < bn * ad
}

/// One step of the search: the distance from the needle `x` (whose compressed
/// length is `cx`) to the file `y` at position `idx`, in the order in which the
/// lengths are computed: `C(y)`, then `C(x ++ y)`.
pub open spec fn spec_ncd_step(x: Seq<u8>, cx: usize, y: Seq<u8>, idx: int) -> Result<NcdIdMapping, NcdError> {
    match zlib_compressed_len(y) {
        None => Err(NcdError::CompressionFailed),
        Some(cy) => match zlib_compressed_len(x + y) {
            None => Err(NcdError::CompressionFailed),
            Some(cxy) => if cxy < min_len(cx, cy) {
                Err(NcdError::PairSmallerThanPart)
            } else {
                Ok(NcdIdMapping { path_idx: idx as usize, ncd_value: spec_ncd(cx, cy, cxy) })
            },
        },
    }
}

/// The distances from the needle to the files of `hay`, in the order of `hay`,
/// skipping every file whose path names the needle's path; or the first error met.
pub open spec fn spec_ncds_from(needle: (Seq<char>, Seq<u8>), cx: usize, hay: Seq<(Seq<char>, Seq<u8>)>) -> Result<Seq<NcdIdMapping>, NcdError>
    decreases hay.len(),
{
    if hay.len() == 0 {
        Ok(seq![])
    } else {
        match spec_ncds_from(needle, cx, hay.drop_last()) {
            Err(e) => Err(e),
            Ok(prev) => {
                let i = hay.len() - 1;
                if paths_match(needle.0, hay[i].0) {
                    Ok(prev)
                } else {
                    match spec_ncd_step(needle.1, cx, hay[i].1, i) {
                        Err(e) => Err(e),
                        Ok(m) => Ok(prev.push(m)),
                    }
                }
            },
        }
    }
}

/// What `ncds` computes: `C(needle)` first, then the distance to every other file.
pub open spec fn spec_ncds(needle: (Seq<char>, Seq<u8>), hay: Seq<(Seq<char>, Seq<u8>)>) -> Result<Seq<NcdIdMapping>, NcdError> {
    match zlib_compressed_len(needle.1) {
        None => Err(NcdError::CompressionFailed),
        Some(cx) => spec_ncds_from(needle, cx, hay),
    }
}

/// Once the files up to `i` give an error, so do all of them.
proof fn lemma_ncds_error_persists(needle: (Seq<char>, Seq<u8>), cx: usize, hay: Seq<(Seq<char>, Seq<u8>)>, i: int)
    requires
        0 <= i <= hay.len(),
        spec_ncds_from(needle, cx, hay.take(i)) is Err,
    ensures
        spec_ncds_from(needle, cx, hay) == spec_ncds_from(needle, cx, hay.take(i)),
    decreases hay.len(),
{
    if i == hay.len() {
        assert(hay.take(i) =~= hay);
    } else {
        assert(hay.drop_last().take(i) =~= hay.take(i));
        lemma_ncds_error_persists(needle, cx, hay.drop_last(), i);
    }
}

/// The distances from the needle `curr` to every file of `paths` other than
/// `curr` itself, in the order of `paths`, each under its position there.
///
/// A file is skipped when its path names the same path as `curr`'s. When
/// `C(x ++ y)` comes out smaller than `min(C(x), C(y))` the numerator would be
/// negative: the search stops with `PairSmallerThanPart`.
pub fn ncds(curr: &FileContents, paths: &[FileContents]) -> (r: Result<Vec<NcdIdMapping>, NcdError>)
    ensures
        result_view(r) == spec_ncds(curr@, files_view(paths@)),
        r matches Ok(v) ==> forall|k: int| 0 <= k < v@.len() ==> (#[trigger] v@[k]).ncd_value.denominator >= 6,
        !(r matches Err(NcdError::Incomparable)),
{
    let ghost hay = files_view(paths@);
    let mut buf: Vec<u8> = Vec::with_capacity(8 * 1024);
    buf.extend_from_slice(curr.bytes.as_slice());
    assert(buf@ =~= curr.bytes@);
    let cx_file_len = buf.len();

    let mut results: Vec<NcdIdMapping> = Vec::with_capacity(paths.len());

    let cx = match get_compressed_byte_count(buf.as_slice()) {
        Ok(n) => n,
        Err(e) => return Err(e),
    };
    assert(hay.take(0) =~= Seq::<(Seq<char>, Seq<u8>)>::empty());
    let mut idx: usize = 0;
    while idx < paths.len()
        invariant
            idx <= paths.len(),
            hay == files_view(paths@),
            hay.len() == paths.len(),
            buf@ == curr.bytes@,
            cx_file_len == curr.bytes@.len(),
            zlib_compressed_len(curr.bytes@) == Some(cx),
            cx >= 6,
            forall|k: int| 0 <= k < results@.len() ==> (#[trigger] results@[k]).ncd_value.denominator >= 6,
            spec_ncds_from(curr@, cx, hay.take(idx as int)) == Ok::<Seq<NcdIdMapping>, NcdError>(results@),
            spec_ncds(curr@, hay) == spec_ncds_from(curr@, cx, hay),
        decreases paths.len() - idx,
    {
        let path = &paths[idx];
        assert(hay[idx as int] == path@);
        assert(hay.take(idx + 1).drop_last() =~= hay.take(idx as int));
        assert(hay.take(idx + 1)[idx as int] == hay[idx as int]);
        let same = same_path(curr.path.as_str(), path.path.as_str());
        if same {
            idx += 1;
            continue;
        }
        buf.extend_from_slice(path.bytes.as_slice());
        assert(buf@ =~= curr.bytes@ + path.bytes@);
        let (_, tail) = buf.as_slice().split_at(cx_file_len);
        assert(tail@ =~= path.bytes@);
        let cy = match get_compressed_byte_count(tail) {
            Ok(n) => n,
            Err(e) => {
                proof { lemma_ncds_error_persists(curr@, cx, hay, idx + 1); }
                return Err(e);
            },
        };
        let cxy = match get_compressed_byte_count(buf.as_slice()) {
            Ok(n) => n,
            Err(e) => {
                proof { lemma_ncds_error_persists(curr@, cx, hay, idx + 1); }
                return Err(e);
            },
        };
        let lo = if cx <= cy { cx } else { cy };
        if cxy < lo {
            proof { lemma_ncds_error_persists(curr@, cx, hay, idx + 1); }
            return Err(NcdError::PairSmallerThanPart);
        }
        let ncd = NcdIdMapping { path_idx: idx, ncd_value: ncd_from_counts(cx, cy, cxy) };
        results.push(ncd);

        buf.truncate(cx_file_len);
        idx += 1;
    }
    assert(hay.take(paths.len() as int) =~= hay);
    Ok(results)
}

/// The position of the first smallest distance in `s`.
pub open spec fn first_min_index(s: Seq<NcdIdMapping>) -> int
    decreases s.len(),
{
    if s.len() <= 1 {
        0
    } else {
        let p = first_min_index(s.drop_last());
        if ncd_lt(s.last().ncd_value, s[p].ncd_value) {
            s.len() - 1
        } else {
            p
        }
    }
}

/// The first `n` entries of `s` sorted by increasing distance, entries of equal
/// distance keeping their order in `s` (a stable sort): the first smallest
/// entry, then the first `n - 1` of the rest.
pub open spec fn n_smallest(s: Seq<NcdIdMapping>, n: nat) -> Seq<NcdIdMapping>
    decreases n,
{
    if n == 0 || s.len() == 0 {
        seq![]
    } else {
        let p = first_min_index(s);
        seq![s[p]] + n_smallest(s.remove(p), (n - 1) as nat)
    }
}

/// The distances can be sorted: there are fewer than two, or none is `0 / 0`.
pub open spec fn comparable(s: Seq<NcdIdMapping>) -> bool {
    s.len() < 2 || forall|i: int| 0 <= i < s.len() ==> !(#[trigger] s[i].ncd_value).is_nan()
}

/// The first smallest entry of a non-empty list is one of its positions.
pub proof fn lemma_first_min_index_bounds(s: Seq<NcdIdMapping>)
    requires
        s.len() > 0,
    ensures
        0 <= first_min_index(s) < s.len(),
    decreases s.len(),
{
    if s.len() > 1 {
        lemma_first_min_index_bounds(s.drop_last());
    }
}

/// Every entry chosen by `n_smallest` is an entry of `s`.
pub proof fn lemma_n_smallest_from(s: Seq<NcdIdMapping>, n: nat)
    ensures
        forall|k: int| 0 <= k < n_smallest(s, n).len() ==> s.contains(#[trigger] n_smallest(s, n)[k]),
        n_smallest(s, n).len() == if n <= s.len() { n as int } else { s.len() as int },
    decreases n,
{
    if n > 0 && s.len() > 0 {
        let p = first_min_index(s);
        lemma_first_min_index_bounds(s);
        let rest = s.remove(p);
        lemma_n_smallest_from(rest, (n - 1) as nat);
        let r = n_smallest(s, n);
        assert forall|k: int| 0 <= k < r.len() implies s.contains(#[trigger] r[k]) by {
            if k == 0 {
                assert(s[p] == r[k]);
            } else {
                assert(r[k] == n_smallest(rest, (n - 1) as nat)[k - 1]);
                let j = choose|j: int| 0 <= j < rest.len() && rest[j] == r[k];
                if j < p {
                    assert(s[j] == r[k]);
                } else {
                    assert(s[j + 1] == r[k]);
                }
            }
        }
    }
}

/// The position of the first smallest distance in `s`.
fn first_min_position(s: &Vec<NcdIdMapping>) -> (p: usize)
    requires
        s.len() > 0,
    ensures
        p == first_min_index(s@),
{
    let mut best: usize = 0;
    let mut j: usize = 1;
    assert(s@.take(1).len() == 1);
    while j < s.len()
        invariant
            1 <= j <= s.len(),
            best == first_min_index(s@.take(j as int)),
        decreases s.len() - j,
    {
        let ghost t = s@.take(j + 1);
        assert(t.drop_last() =~= s@.take(j as int));
        proof { lemma_first_min_index_bounds(s@.take(j as int)); }
        assert(t[best as int] == s@[best as int]);
        if ncd_less(&s[j].ncd_value, &s[best].ncd_value) {
            best = j;
        }
        j += 1;
    }
    assert(s@.take(s.len() as int) =~= s@);
    best
}

/// The first `n` entries of `v` in stable order of increasing distance.
fn select_n_smallest(v: Vec<NcdIdMapping>, n: usize) -> (r: Vec<NcdIdMapping>)
    ensures
        r@ == n_smallest(v@, n as nat),
{
    let mut rest = v;
    let mut out: Vec<NcdIdMapping> = Vec::new();
    let mut k: usize = 0;
    assert(out@ + n_smallest(rest@, n as nat) =~= n_smallest(v@, n as nat));
    while k < n && rest.len() > 0
        invariant
            k <= n,
            out@ + n_smallest(rest@, (n - k) as nat) == n_smallest(v@, n as nat),
        decreases n - k,
    {
        let p = first_min_position(&rest);
        proof { lemma_first_min_index_bounds(rest@); }
        let ghost old_rest = rest@;
        let x = rest.remove(p);
        assert(n_smallest(old_rest, (n - k) as nat) == seq![x] + n_smallest(rest@, (n - k - 1) as nat));
        out.push(x);
        assert(out@ + n_smallest(rest@, (n - (k + 1)) as nat) =~= n_smallest(v@, n as nat));
        k += 1;
    }
    assert(n_smallest(rest@, (n - k) as nat) =~= Seq::<NcdIdMapping>::empty());
    assert(out@ =~= n_smallest(v@, n as nat));
    out
}

/// Whether the distances in `v` can be sorted.
fn check_comparable(v: &Vec<NcdIdMapping>) -> (r: bool)
    ensures
        r == comparable(v@),
{
    if v.len() < 2 {
        return true;
    }
    let mut i: usize = 0;
    while i < v.len()
        invariant
            i <= v.len(),
            v.len() >= 2,
            forall|j: int| 0 <= j < i ==> !(#[trigger] v@[j].ncd_value).is_nan(),
        decreases v.len() - i,
    {
        if v[i].ncd_value.numerator == 0 && v[i].ncd_value.denominator == 0 {
            return false;
        }
        i += 1;
    }
    true
}

/// What `get_n_most_similar_files_by_id` computes: the `n` files nearest to the
/// needle, nearest first, files at equal distance in the order of `hay`.
pub open spec fn spec_n_most_similar_by_id(n: usize, needle: (Seq<char>, Seq<u8>), hay: Seq<(Seq<char>, Seq<u8>)>) -> Result<Seq<NcdIdMapping>, NcdError> {
    match spec_ncds(needle, hay) {
        Err(e) => Err(e),
        Ok(v) => spec_rank(v, n),
    }
}

/// The first `n` of `v` in stable order of increasing distance, when the
/// distances can be sorted.
pub open spec fn spec_rank(v: Seq<NcdIdMapping>, n: usize) -> Result<Seq<NcdIdMapping>, NcdError> {
    if comparable(v) {
        Ok(n_smallest(v, n as nat))
    } else {
        Err(NcdError::Incomparable)
    }
}

/// Sorts `v` by distance (stable) and keeps the first `n`; when two or more
/// distances are given and one is `0 / 0`, they cannot be sorted.
pub fn rank(v: Vec<NcdIdMapping>, n: usize) -> (r: Result<Vec<NcdIdMapping>, NcdError>)
    ensures
        result_view(r) == spec_rank(v@, n),
{
    if !check_comparable(&v) {
        return Err(NcdError::Incomparable);
    }
    Ok(select_n_smallest(v, n))
}

/// The distances from `needle` to the other files of `haystack`, sorted
/// increasingly (a stable sort), cut to the first `n`.
///
/// When two or more distances are found and one of them is `0 / 0`, they
/// cannot be sorted, and the result is `Incomparable`.
pub fn get_n_most_similar_files_by_id(n: usize, needle: &FileContents, haystack: &[FileContents]) -> (r: Result<Vec<NcdIdMapping>, NcdError>)
    ensures
        result_view(r) == spec_n_most_similar_by_id(n, needle@, files_view(haystack@)),
        !(r matches Err(NcdError::Incomparable)),
{
    let res = match ncds(needle, haystack) {
        Ok(v) => v,
        Err(e) => return Err(e),
    };
    assert(comparable(res@));
    rank(res, n)
}

/// A file found near the needle: its path and its distance.
#[derive(Debug, PartialEq, Eq)]
pub struct NormalizedCompressedDistance {
    pub file_path: String,
    pub ncd_value: Ncd,
}

impl View for NormalizedCompressedDistance {
    type V = (Seq<char>, Ncd);

    open spec fn view(&self) -> (Seq<char>, Ncd) {
        (self.file_path@, self.ncd_value)
    }
}

/// Each entry of `ids` under the path of the file it points to in `hay`.
pub open spec fn with_paths(ids: Seq<NcdIdMapping>, hay: Seq<(Seq<char>, Seq<u8>)>) -> Seq<(Seq<char>, Ncd)> {
    ids.map_values(|m: NcdIdMapping| (hay[m.path_idx as int].0, m.ncd_value))
}

/// A result holding nearest files, by their views.
pub open spec fn named_view(r: Result<Vec<NormalizedCompressedDistance>, NcdError>) -> Result<Seq<(Seq<char>, Ncd)>, NcdError> {
    match r {
        Ok(v) => Ok(v@.map_values(|d: NormalizedCompressedDistance| d@)),
        Err(e) => Err(e),
    }
}

/// What `get_n_most_similar_files` computes.
pub open spec fn spec_n_most_similar(n: usize, needle: (Seq<char>, Seq<u8>), hay: Seq<(Seq<char>, Seq<u8>)>) -> Result<Seq<(Seq<char>, Ncd)>, NcdError> {
    match spec_n_most_similar_by_id(n, needle, hay) {
        Err(e) => Err(e),
        Ok(ids) => Ok(with_paths(ids, hay)),
    }
}

/// The distances found point into `hay`, in strictly increasing positions,
/// never at a file under the needle's path.
pub proof fn lemma_ncds_from_positions(needle: (Seq<char>, Seq<u8>), cx: usize, hay: Seq<(Seq<char>, Seq<u8>)>)
    requires
        hay.len() <= usize::MAX,
        spec_ncds_from(needle, cx, hay) is Ok,
    ensures
        ({
            let v = spec_ncds_from(needle, cx, hay)->Ok_0;
            &&& forall|k: int| 0 <= k < v.len() ==> (#[trigger] v[k]).path_idx < hay.len()
            &&& forall|k: int| 0 <= k < v.len() ==> !paths_match(needle.0, hay[(#[trigger] v[k]).path_idx as int].0)
            &&& forall|k: int, l: int| 0 <= k < l < v.len() ==> (#[trigger] v[k]).path_idx < (#[trigger] v[l]).path_idx
        }),
    decreases hay.len(),
{
    if hay.len() > 0 {
        lemma_ncds_from_positions(needle, cx, hay.drop_last());
        let prev = spec_ncds_from(needle, cx, hay.drop_last())->Ok_0;
        assert forall|k: int| 0 <= k < prev.len() implies hay.drop_last()[(#[trigger] prev[k]).path_idx as int] == hay[prev[k].path_idx as int] by {}
    }
}

/// Every entry of `n_smallest` is one of `s`, so the positions stay in `hay`.
proof fn lemma_by_id_positions(n: usize, needle: (Seq<char>, Seq<u8>), hay: Seq<(Seq<char>, Seq<u8>)>)
    requires
        hay.len() <= usize::MAX,
        spec_n_most_similar_by_id(n, needle, hay) is Ok,
    ensures
        forall|k: int| 0 <= k < spec_n_most_similar_by_id(n, needle, hay)->Ok_0.len()
            ==> (#[trigger] spec_n_most_similar_by_id(n, needle, hay)->Ok_0[k]).path_idx < hay.len(),
{
    let cx = zlib_compressed_len(needle.1)->Some_0;
    lemma_ncds_from_positions(needle, cx, hay);
    let v = spec_ncds(needle, hay)->Ok_0;
    lemma_n_smallest_from(v, n as nat);
    let r = spec_n_most_similar_by_id(n, needle, hay)->Ok_0;
    assert forall|k: int| 0 <= k < r.len() implies (#[trigger] r[k]).path_idx < hay.len() by {
        assert(v.contains(r[k]));
        let j = choose|j: int| 0 <= j < v.len() && v[j] == r[k];
        assert(v[j].path_idx < hay.len());
    }
}

/// Each entry of `ids` under the path of the file of `haystack` it points to.
fn name_results(ids: &Vec<NcdIdMapping>, haystack: &[FileContents]) -> (out: Vec<NormalizedCompressedDistance>)
    requires
        forall|k: int| 0 <= k < ids@.len() ==> (#[trigger] ids@[k]).path_idx < haystack@.len(),
    ensures
        out@.map_values(|d: NormalizedCompressedDistance| d@) == with_paths(ids@, files_view(haystack@)),
{
    let ghost hay = files_view(haystack@);
    let mut out: Vec<NormalizedCompressedDistance> = Vec::with_capacity(ids.len());
    let mut i: usize = 0;
    while i < ids.len()
        invariant
            i <= ids.len(),
            hay == files_view(haystack@),
            forall|k: int| 0 <= k < ids@.len() ==> (#[trigger] ids@[k]).path_idx < haystack@.len(),
            out@.map_values(|d: NormalizedCompressedDistance| d@) =~= with_paths(ids@.take(i as int), hay),
        decreases ids.len() - i,
    {
        let m = ids[i];
        assert(ids@[i as int] == m);
        let ghost old_out = out@;
        let d = NormalizedCompressedDistance {
            file_path: haystack[m.path_idx].path.clone(),
            ncd_value: m.ncd_value,
        };
        assert(d@ == (hay[m.path_idx as int].0, m.ncd_value));
        out.push(d);
        assert(out@.map_values(|d: NormalizedCompressedDistance| d@) =~= old_out.map_values(|d: NormalizedCompressedDistance| d@).push(d@));
        assert(ids@.take(i + 1) =~= ids@.take(i as int).push(m));
        i += 1;
    }
    assert(ids@.take(ids.len() as int) =~= ids@);
    out
}

/// The `n` files of `haystack` nearest to `needle`, nearest first, each under
/// its path.
pub fn get_n_most_similar_files(n: usize, needle: &FileContents, haystack: &[FileContents]) -> (r: Result<Vec<NormalizedCompressedDistance>, NcdError>)
    ensures
        named_view(r) == spec_n_most_similar(n, needle@, files_view(haystack@)),
        !(r matches Err(NcdError::Incomparable)),
{
    let ghost hay = files_view(haystack@);
    let res = match get_n_most_similar_files_by_id(n, needle, haystack) {
        Ok(v) => v,
        Err(e) => return Err(e),
    };
    let hay_len = haystack.len();
    assert(hay.len() == hay_len);
    proof { lemma_by_id_positions(n, needle@, hay); }
    Ok(name_results(&res, haystack))
}
/// Every count cached is at least 6, as every length the encoder reports is.
pub open spec fn counts_at_least_six(entries: Seq<(Seq<char>, usize)>) -> bool {
    forall|i: int| 0 <= i < entries.len() ==> (#[trigger] entries[i]).1 >= 6
}

/// A count read from such a cache is at least 6, and adding one that is keeps
/// them all so.
proof fn lemma_counts_at_least_six(entries: Seq<(Seq<char>, usize)>, p: Seq<char>, v: usize)
    requires
        counts_at_least_six(entries),
    ensures
        lookup(entries, p) matches Some(c) ==> c >= 6,
        v >= 6 ==> counts_at_least_six(entries.push((p, v))),
{
    lemma_first_match(keys_of(entries), p);
    assert(v >= 6 ==> forall|i: int| 0 <= i < entries.len() + 1 ==> (#[trigger] entries.push((p, v))[i]).1 >= 6) by {
        assert(forall|i: int| 0 <= i < entries.len() ==> entries.push((p, v))[i] == entries[i]);
    }
}

/// `C(data)` as the encoder reports it: the length, or an error.
pub open spec fn zlib_result(data: Seq<u8>) -> Result<usize, NcdError> {
    match zlib_compressed_len(data) {
        Some(n) => Ok(n),
        None => Err(NcdError::CompressionFailed),
    }
}

/// The compressed length of the file `(p, data)` read through the cache
/// `entries`: the count cached under `p`, or else `C(data)`, which is then
/// cached. Gives the length and the cache afterwards.
pub open spec fn spec_cached_len(entries: Seq<(Seq<char>, usize)>, p: Seq<char>, data: Seq<u8>) -> (Result<usize, NcdError>, Seq<(Seq<char>, usize)>) {
    match lookup(entries, p) {
        Some(v) => (Ok(v), entries),
        None => match zlib_compressed_len(data) {
            Some(v) => (Ok(v), entries.push((p, v))),
            None => (Err(NcdError::CompressionFailed), entries),
        },
    }
}

/// As `spec_ncds_from`, with `C(y)` read through the cache, which is threaded
/// through the files in order. Gives the distances and the cache afterwards.
pub open spec fn spec_ncds_cached_from(
    entries: Seq<(Seq<char>, usize)>,
    needle: (Seq<char>, Seq<u8>),
    cx: usize,
    hay: Seq<(Seq<char>, Seq<u8>)>,
) -> (Result<Seq<NcdIdMapping>, NcdError>, Seq<(Seq<char>, usize)>)
    decreases hay.len(),
{
    if hay.len() == 0 {
        (Ok(seq![]), entries)
    } else {
        let (prev, e1) = spec_ncds_cached_from(entries, needle, cx, hay.drop_last());
        match prev {
            Err(e) => (Err(e), e1),
            Ok(pv) => {
                let i = hay.len() - 1;
                if paths_match(needle.0, hay[i].0) {
                    (Ok(pv), e1)
                } else {
                    let (cyr, e2) = spec_cached_len(e1, hay[i].0, hay[i].1);
                    match cyr {
                        Err(e) => (Err(e), e2),
                        Ok(cy) => match zlib_compressed_len(needle.1 + hay[i].1) {
                            None => (Err(NcdError::CompressionFailed), e2),
                            Some(cxy) => if cxy < min_len(cx, cy) {
                                (Err(NcdError::PairSmallerThanPart), e2)
                            } else {
                                (Ok(pv.push(NcdIdMapping { path_idx: i as usize, ncd_value: spec_ncd(cx, cy, cxy) })), e2)
                            },
                        },
                    }
                }
            },
        }
    }
}

/// What `ncds_cached` computes from the cache `entries`: `C(needle)` read
/// through the cache, then the distance to every other file.
pub open spec fn spec_ncds_cached(
    entries: Seq<(Seq<char>, usize)>,
    needle: (Seq<char>, Seq<u8>),
    hay: Seq<(Seq<char>, Seq<u8>)>,
) -> (Result<Seq<NcdIdMapping>, NcdError>, Seq<(Seq<char>, usize)>) {
    let (cxr, e0) = spec_cached_len(entries, needle.0, needle.1);
    match cxr {
        Err(e) => (Err(e), e0),
        Ok(cx) => spec_ncds_cached_from(e0, needle, cx, hay),
    }
}

/// Once the files up to `i` give an error, so do all of them, leaving the
/// cache as it was then.
proof fn lemma_ncds_cached_error_persists(
    entries: Seq<(Seq<char>, usize)>,
    needle: (Seq<char>, Seq<u8>),
    cx: usize,
    hay: Seq<(Seq<char>, Seq<u8>)>,
    i: int,
)
    requires
        0 <= i <= hay.len(),
        spec_ncds_cached_from(entries, needle, cx, hay.take(i)).0 is Err,
    ensures
        spec_ncds_cached_from(entries, needle, cx, hay) == spec_ncds_cached_from(entries, needle, cx, hay.take(i)),
    decreases hay.len(),
{
    if i == hay.len() {
        assert(hay.take(i) =~= hay);
    } else {
        assert(hay.drop_last().take(i) =~= hay.take(i));
        lemma_ncds_cached_error_persists(entries, needle, cx, hay.drop_last(), i);
    }
}

/// The distances found through the cache point into `hay`, in increasing
/// positions, never at a file under the needle's path.
pub proof fn lemma_ncds_cached_from_positions(
    entries: Seq<(Seq<char>, usize)>,
    needle: (Seq<char>, Seq<u8>),
    cx: usize,
    hay: Seq<(Seq<char>, Seq<u8>)>,
)
    requires
        hay.len() <= usize::MAX,
        spec_ncds_cached_from(entries, needle, cx, hay).0 is Ok,
    ensures
        ({
            let v = spec_ncds_cached_from(entries, needle, cx, hay).0->Ok_0;
            &&& forall|k: int| 0 <= k < v.len() ==> (#[trigger] v[k]).path_idx < hay.len()
            &&& forall|k: int| 0 <= k < v.len() ==> !paths_match(needle.0, hay[(#[trigger] v[k]).path_idx as int].0)
            &&& forall|k: int, l: int| 0 <= k < l < v.len() ==> (#[trigger] v[k]).path_idx < (#[trigger] v[l]).path_idx
        }),
    decreases hay.len(),
{
    if hay.len() > 0 {
        lemma_ncds_cached_from_positions(entries, needle, cx, hay.drop_last());
        let prev = spec_ncds_cached_from(entries, needle, cx, hay.drop_last()).0->Ok_0;
        assert forall|k: int| 0 <= k < prev.len() implies hay.drop_last()[(#[trigger] prev[k]).path_idx as int] == hay[prev[k].path_idx as int] by {}
    }
}

/// As `ncds`, with the compressed length of each single file read through
/// `cache` (and cached there when it was missing); `C(x ++ y)` is always
/// computed. A cached length that is stale can make `C(x ++ y)` smaller than
/// `min(C(x), C(y))`: the search then stops with `PairSmallerThanPart`.
pub fn ncds_cached(cache: &mut CompressedByteCache, curr: &FileContents, paths: &[FileContents]) -> (r: Result<Vec<NcdIdMapping>, NcdError>)
    requires
        old(cache).wf(),
    ensures
        final(cache).wf(),
        (result_view(r), final(cache)@) == spec_ncds_cached(old(cache)@, curr@, files_view(paths@)),
        !(r matches Err(NcdError::Incomparable)),
        counts_at_least_six(old(cache)@) ==> counts_at_least_six(final(cache)@)
            && (r matches Ok(v) ==> forall|k: int| 0 <= k < v@.len() ==> (#[trigger] v@[k]).ncd_value.denominator >= 6),
{
    let ghost hay = files_view(paths@);
    let ghost good = counts_at_least_six(cache@);
    let mut buf: Vec<u8> = Vec::with_capacity(8 * 1024);
    buf.extend_from_slice(curr.bytes.as_slice());
    assert(buf@ =~= curr.bytes@);
    let cx_file_len = buf.len();

    let mut results: Vec<NcdIdMapping> = Vec::with_capacity(paths.len());

    let whole = buf.as_slice();
    let cx = match cache.get_or(&curr.path, || -> (r: Result<usize, NcdError>)
        ensures
            r == zlib_result(whole@),
            r matches Ok(n) ==> n >= 6,
    { get_compressed_byte_count(whole) }) {
        Ok(n) => n,
        Err(e) => return Err(e),
    };
    proof {
        if good {
            lemma_counts_at_least_six(old(cache)@, curr.path@, cx);
        }
    }
    let ghost e0 = cache@;
    assert(hay.take(0) =~= Seq::<(Seq<char>, Seq<u8>)>::empty());
    let mut idx: usize = 0;
    while idx < paths.len()
        invariant
            idx <= paths.len(),
            hay == files_view(paths@),
            hay.len() == paths.len(),
            buf@ == curr.bytes@,
            cx_file_len == curr.bytes@.len(),
            cache.wf(),
            spec_ncds_cached_from(e0, curr@, cx, hay.take(idx as int))
                == (Ok::<Seq<NcdIdMapping>, NcdError>(results@), cache@),
            spec_ncds_cached(old(cache)@, curr@, hay) == spec_ncds_cached_from(e0, curr@, cx, hay),
            good == counts_at_least_six(old(cache)@),
            good ==> counts_at_least_six(cache@) && cx >= 6
                && forall|k: int| 0 <= k < results@.len() ==> (#[trigger] results@[k]).ncd_value.denominator >= 6,
        decreases paths.len() - idx,
    {
        let path = &paths[idx];
        assert(hay[idx as int] == path@);
        assert(hay.take(idx + 1).drop_last() =~= hay.take(idx as int));
        assert(hay.take(idx + 1)[idx as int] == hay[idx as int]);
        let same = same_path(curr.path.as_str(), path.path.as_str());
        if same {
            idx += 1;
            continue;
        }
        buf.extend_from_slice(path.bytes.as_slice());
        assert(buf@ =~= curr.bytes@ + path.bytes@);
        let (_, tail) = buf.as_slice().split_at(cx_file_len);
        assert(tail@ =~= path.bytes@);
        let ghost before_cy = cache@;
        let cy = match cache.get_or(&path.path, || -> (r: Result<usize, NcdError>)
            ensures
                r == zlib_result(tail@),
                r matches Ok(n) ==> n >= 6,
        { get_compressed_byte_count(tail) }) {
            Ok(n) => n,
            Err(e) => {
                proof { lemma_ncds_cached_error_persists(e0, curr@, cx, hay, idx + 1); }
                return Err(e);
            },
        };
        proof {
            if good {
                lemma_counts_at_least_six(before_cy, path.path@, cy);
            }
        }
        let cxy = match get_compressed_byte_count(buf.as_slice()) {
            Ok(n) => n,
            Err(e) => {
                proof { lemma_ncds_cached_error_persists(e0, curr@, cx, hay, idx + 1); }
                return Err(e);
            },
        };
        let lo = if cx <= cy { cx } else { cy };
        if cxy < lo {
            proof { lemma_ncds_cached_error_persists(e0, curr@, cx, hay, idx + 1); }
            return Err(NcdError::PairSmallerThanPart);
        }
        let ncd = NcdIdMapping { path_idx: idx, ncd_value: ncd_from_counts(cx, cy, cxy) };
        results.push(ncd);

        buf.truncate(cx_file_len);
        idx += 1;
    }
    assert(hay.take(paths.len() as int) =~= hay);
    Ok(results)
}

/// What `get_n_most_similar_files_cached` computes from the cache `entries`:
/// the nearest `n` files, each under its path, and the cache afterwards.
pub open spec fn spec_n_most_similar_cached(
    entries: Seq<(Seq<char>, usize)>,
    n: usize,
    needle: (Seq<char>, Seq<u8>),
    hay: Seq<(Seq<char>, Seq<u8>)>,
) -> (Result<Seq<(Seq<char>, Ncd)>, NcdError>, Seq<(Seq<char>, usize)>) {
    let (res, e) = spec_ncds_cached(entries, needle, hay);
    match res {
        Err(err) => (Err(err), e),
        Ok(v) => match spec_rank(v, n) {
            Err(err) => (Err(err), e),
            Ok(ids) => (Ok(with_paths(ids, hay)), e),
        },
    }
}

/// The `n` files of `paths` nearest to `curr`, nearest first, each under its
/// path, with the compressed length of each single file read through `cache`.
pub fn get_n_most_similar_files_cached(
    cache: &mut CompressedByteCache,
    n: usize,
    curr: &FileContents,
    paths: &[FileContents],
) -> (r: Result<Vec<NormalizedCompressedDistance>, NcdError>)
    requires
        old(cache).wf(),
    ensures
        final(cache).wf(),
        (named_view(r), final(cache)@) == spec_n_most_similar_cached(old(cache)@, n, curr@, files_view(paths@)),
        counts_at_least_six(old(cache)@) ==> counts_at_least_six(final(cache)@)
            && !(r matches Err(NcdError::Incomparable)),
{
    let ghost hay = files_view(paths@);
    let ghost old_entries = cache@;
    let res = match ncds_cached(cache, curr, paths) {
        Ok(v) => v,
        Err(e) => return Err(e),
    };
    let hay_len = paths.len();
    assert(hay.len() == hay_len);
    proof {
        let (cxr, e0) = spec_cached_len(old_entries, curr@.0, curr@.1);
        assert(cxr is Ok);
        assert(spec_ncds_cached_from(e0, curr@, cxr->Ok_0, hay).0 == Ok::<Seq<NcdIdMapping>, NcdError>(res@));
        lemma_ncds_cached_from_positions(e0, curr@, cxr->Ok_0, hay);
        let v = spec_ncds_cached_from(e0, curr@, cxr->Ok_0, hay).0->Ok_0;
        assert(v == res@);
        assert forall|k: int| 0 <= k < res@.len() implies (#[trigger] res@[k]).path_idx < hay.len() by {
            assert(v[k] == res@[k]);
        }
    }
    assert(counts_at_least_six(old_entries) ==> comparable(res@));
    let ids = match rank(res, n) {
        Ok(v) => v,
        Err(e) => return Err(e),
    };
    proof {
        crate::ncd::lemma_n_smallest_from(res@, n as nat);
        assert forall|k: int| 0 <= k < ids@.len() implies (#[trigger] ids@[k]).path_idx < paths@.len() by {
            assert(res@.contains(ids@[k]));
            let j = choose|j: int| 0 <= j < res@.len() && res@[j] == ids@[k];
            assert(res@[j].path_idx < hay.len());
        }
    }
    Ok(name_results(&ids, paths))
}

} // verus!
