//! What holds of the ranking of distances: the order on distances is a total
//! preorder, and the first `n` of a stable sort are sorted, are taken from
//! the input, are the smallest ones, and keep ties in input order.

use vstd::prelude::*;
use vstd::multiset::Multiset;
use crate::ncd::{Ncd, NcdIdMapping, ncd_lt, first_min_index, n_smallest, spec_ncds, spec_n_most_similar_by_id,
    comparable, zlib_compressed_len, lemma_ncds_from_positions, spec_ncds_from, spec_ncd};
use crate::paths::paths_match;

verus! {

/// `a <= b` as fractions.
pub open spec fn ncd_le(a: Ncd, b: Ncd) -> bool {
    !ncd_lt(b, a)
}

/// No distance of `s` is `0 / 0`.
pub open spec fn no_nan(s: Seq<NcdIdMapping>) -> bool {
    forall|i: int| 0 <= i < s.len() ==> !(#[trigger] s[i].ncd_value).is_nan()
}

/// Any two distances are ordered: one is no larger than the other.
pub proof fn law_ncd_total(a: Ncd, b: Ncd)
    ensures
        ncd_le(a, b) || ncd_le(b, a),
{
}

/// The order on distances is transitive (through any value that is a number).
pub proof fn law_ncd_le_trans(a: Ncd, b: Ncd, c: Ncd)
    requires
        !b.is_nan(),
        ncd_le(a, b),
        ncd_le(b, c),
    ensures
        ncd_le(a, c),
{
    let (an, ad) = (a.numerator as int, a.denominator as int);
    let (bn, bd) = (b.numerator as int, b.denominator as int);
    let (cn, cd) = (c.numerator as int, c.denominator as int);
    if bd == 0 {
        assert(cn * bd == 0) by (nonlinear_arith)
            requires bd == 0;
        assert(cd == 0) by (nonlinear_arith)
            requires bn > 0, cd >= 0, bn * cd <= 0;
        assert(an * cd == 0) by (nonlinear_arith)
            requires cd == 0;
        assert(cn * ad >= 0) by (nonlinear_arith)
            requires cn >= 0, ad >= 0;
    } else {
        assert(an * cd <= cn * ad) by (nonlinear_arith)
            requires
                an * bd <= bn * ad,
                bn * cd <= cn * bd,
                bd > 0, ad >= 0, cd >= 0, an >= 0, bn >= 0, cn >= 0;
    }
}

/// Strictly smaller, then no larger, is strictly smaller.
pub proof fn law_ncd_lt_le_trans(a: Ncd, b: Ncd, c: Ncd)
    requires
        !c.is_nan(),
        ncd_lt(a, b),
        ncd_le(b, c),
    ensures
        ncd_lt(a, c),
{
    let (an, ad) = (a.numerator as int, a.denominator as int);
    let (bn, bd) = (b.numerator as int, b.denominator as int);
    let (cn, cd) = (c.numerator as int, c.denominator as int);
    assert(ad > 0) by (nonlinear_arith)
        requires an * bd < bn * ad, an >= 0, bd >= 0, bn >= 0, ad >= 0;
    if bd == 0 {
        assert(bn > 0) by (nonlinear_arith)
            requires an * bd < bn * ad, bd == 0, bn >= 0;
        assert(cd == 0) by (nonlinear_arith)
            requires bn * cd <= cn * bd, bd == 0, bn > 0, cd >= 0;
        assert(cn > 0);
        assert(an * cd < cn * ad) by (nonlinear_arith)
            requires cd == 0, cn > 0, ad > 0;
    } else {
        assert(an * cd < cn * ad) by (nonlinear_arith)
            requires
                an * bd < bn * ad,
                bn * cd <= cn * bd,
                bd > 0, ad > 0, cd >= 0, an >= 0, bn >= 0, cn >= 0,
                cd == 0 ==> cn > 0;
    }
}

/// No larger, then strictly smaller, is strictly smaller.
pub proof fn law_ncd_le_lt_trans(a: Ncd, b: Ncd, c: Ncd)
    requires
        !a.is_nan(),
        ncd_le(a, b),
        ncd_lt(b, c),
    ensures
        ncd_lt(a, c),
{
    let (an, ad) = (a.numerator as int, a.denominator as int);
    let (bn, bd) = (b.numerator as int, b.denominator as int);
    let (cn, cd) = (c.numerator as int, c.denominator as int);
    assert(bd > 0) by (nonlinear_arith)
        requires bn * cd < cn * bd, bn >= 0, cd >= 0, cn >= 0, bd >= 0;
    if ad == 0 {
        assert(an > 0);
        assert(bn * ad == 0) by (nonlinear_arith)
            requires ad == 0;
        assert(an * bd > 0) by (nonlinear_arith)
            requires an > 0, bd > 0;
        assert(false);
    } else {
        assert(an * cd < cn * ad) by (nonlinear_arith)
            requires
                an * bd <= bn * ad,
                bn * cd < cn * bd,
                bd > 0, ad > 0, cd >= 0, an >= 0, bn >= 0, cn >= 0;
    }
}

/// The first smallest entry is no larger than any entry, and strictly smaller
/// than every entry before it.
pub proof fn lemma_first_min_index_is_min(s: Seq<NcdIdMapping>)
    requires
        s.len() > 0,
        no_nan(s),
    ensures
        0 <= first_min_index(s) < s.len(),
        forall|i: int| 0 <= i < s.len() ==> ncd_le(s[first_min_index(s)].ncd_value, #[trigger] s[i].ncd_value),
        forall|i: int| 0 <= i < first_min_index(s) ==> ncd_lt(s[first_min_index(s)].ncd_value, #[trigger] s[i].ncd_value),
    decreases s.len(),
{
    if s.len() > 1 {
        let t = s.drop_last();
        lemma_first_min_index_is_min(t);
        let q = first_min_index(t);
        let last = s.len() - 1;
        if ncd_lt(s[last].ncd_value, s[q].ncd_value) {
            assert forall|i: int| 0 <= i < last implies ncd_lt(s[last].ncd_value, #[trigger] s[i].ncd_value) by {
                assert(t[i] == s[i]);
                law_ncd_lt_le_trans(s[last].ncd_value, s[q].ncd_value, s[i].ncd_value);
            }
        } else {
            assert forall|i: int| 0 <= i < s.len() implies ncd_le(s[q].ncd_value, #[trigger] s[i].ncd_value) by {
                if i < last {
                    assert(t[i] == s[i]);
                }
            }
            assert forall|i: int| 0 <= i < q implies ncd_lt(s[q].ncd_value, #[trigger] s[i].ncd_value) by {
                assert(t[i] == s[i]);
            }
        }
    }
}

/// Removing an entry keeps every distance a number.
proof fn lemma_remove_no_nan(s: Seq<NcdIdMapping>, p: int)
    requires
        0 <= p < s.len(),
        no_nan(s),
    ensures
        no_nan(s.remove(p)),
{
    assert forall|j: int| 0 <= j < s.remove(p).len() implies !(#[trigger] s.remove(p)[j].ncd_value).is_nan() by {
        if j < p {
            assert(s.remove(p)[j] == s[j]);
        } else {
            assert(s.remove(p)[j] == s[j + 1]);
        }
    }
}

/// An entry of `s.remove(p)` is an entry of `s` at another position.
proof fn lemma_remove_entry(s: Seq<NcdIdMapping>, p: int, j: int) -> (i: int)
    requires
        0 <= p < s.len(),
        0 <= j < s.len() - 1,
    ensures
        0 <= i < s.len(),
        i != p,
        s[i] == s.remove(p)[j],
        i == if j < p { j } else { j + 1 },
{
    if j < p { j } else { j + 1 }
}

/// The first `n` of a stable sort by distance are in increasing order of
/// distance.
pub proof fn law_n_smallest_sorted(s: Seq<NcdIdMapping>, n: nat)
    requires
        no_nan(s),
    ensures
        forall|k: int, l: int| 0 <= k < l < n_smallest(s, n).len()
            ==> ncd_le((#[trigger] n_smallest(s, n)[k]).ncd_value, (#[trigger] n_smallest(s, n)[l]).ncd_value),
    decreases n,
{
    if n > 0 && s.len() > 0 {
        let p = first_min_index(s);
        lemma_first_min_index_is_min(s);
        let rest = s.remove(p);
        lemma_remove_no_nan(s, p);
        law_n_smallest_sorted(rest, (n - 1) as nat);
        crate::ncd::lemma_n_smallest_from(rest, (n - 1) as nat);
        let r = n_smallest(s, n);
        let r2 = n_smallest(rest, (n - 1) as nat);
        assert forall|k: int, l: int| 0 <= k < l < r.len()
            implies ncd_le((#[trigger] r[k]).ncd_value, (#[trigger] r[l]).ncd_value) by {
            assert(r[l] == r2[l - 1]);
            if k == 0 {
                assert(rest.contains(r2[l - 1]));
                let j = choose|j: int| 0 <= j < rest.len() && rest[j] == r2[l - 1];
                let i = lemma_remove_entry(s, p, j);
                assert(s[i] == r[l]);
            } else {
                assert(r[k] == r2[k - 1]);
            }
        }
    }
}

/// The first `n` of a stable sort hold `min(n, |s|)` entries of `s`, each as
/// often at most as in `s`; with `n >= |s|` they are all of `s`.
pub proof fn law_n_smallest_from_input(s: Seq<NcdIdMapping>, n: nat)
    ensures
        n_smallest(s, n).len() == if n <= s.len() { n as int } else { s.len() as int },
        n_smallest(s, n).to_multiset().subset_of(s.to_multiset()),
        n >= s.len() ==> n_smallest(s, n).to_multiset() == s.to_multiset(),
    decreases n,
{
    broadcast use vstd::seq_lib::group_to_multiset_ensures;
    broadcast use vstd::multiset::group_multiset_axioms;
    crate::ncd::lemma_n_smallest_from(s, n);
    if n > 0 && s.len() > 0 {
        let p = first_min_index(s);
        crate::ncd::lemma_first_min_index_bounds(s);
        let rest = s.remove(p);
        law_n_smallest_from_input(rest, (n - 1) as nat);
        let r2 = n_smallest(rest, (n - 1) as nat);
        vstd::seq_lib::lemma_multiset_commutative(seq![s[p]], r2);
        assert(seq![s[p]].to_multiset() =~= Multiset::singleton(s[p])) by {
            assert(seq![s[p]] =~= Seq::<NcdIdMapping>::empty().push(s[p]));
        }
        assert(rest.to_multiset() =~= s.to_multiset().remove(s[p]));
        assert(s.to_multiset().count(s[p]) > 0) by {
            assert(s.contains(s[p]));
        }
        assert(n_smallest(s, n).to_multiset() =~= r2.to_multiset().insert(s[p]));
        if n >= s.len() {
            assert(s.to_multiset() =~= rest.to_multiset().insert(s[p]));
        }
    } else {
        assert(n_smallest(s, n).to_multiset() =~= Multiset::<NcdIdMapping>::empty());
        if n >= s.len() {
            assert(s =~= Seq::<NcdIdMapping>::empty());
        }
    }
}

/// No entry of `s` left out of the first `n` of a stable sort is smaller than
/// any entry taken: they are the `n` smallest.
pub proof fn law_n_smallest_are_smallest(s: Seq<NcdIdMapping>, n: nat, x: NcdIdMapping)
    requires
        no_nan(s),
        s.to_multiset().count(x) > n_smallest(s, n).to_multiset().count(x),
    ensures
        forall|k: int| 0 <= k < n_smallest(s, n).len()
            ==> ncd_le((#[trigger] n_smallest(s, n)[k]).ncd_value, x.ncd_value),
    decreases n,
{
    broadcast use vstd::seq_lib::group_to_multiset_ensures;
    broadcast use vstd::multiset::group_multiset_axioms;
    if n > 0 && s.len() > 0 {
        let p = first_min_index(s);
        lemma_first_min_index_is_min(s);
        let rest = s.remove(p);
        lemma_remove_no_nan(s, p);
        let r = n_smallest(s, n);
        let r2 = n_smallest(rest, (n - 1) as nat);
        vstd::seq_lib::lemma_multiset_commutative(seq![s[p]], r2);
        assert(seq![s[p]].to_multiset() =~= Multiset::singleton(s[p])) by {
            assert(seq![s[p]] =~= Seq::<NcdIdMapping>::empty().push(s[p]));
        }
        assert(rest.to_multiset() =~= s.to_multiset().remove(s[p]));
        assert(s.to_multiset().count(s[p]) > 0) by {
            assert(s.contains(s[p]));
        }
        assert(r.to_multiset() =~= r2.to_multiset().insert(s[p]));
        assert(rest.to_multiset().count(x) > r2.to_multiset().count(x));
        law_n_smallest_are_smallest(rest, (n - 1) as nat, x);
        assert(s.contains(x));
        let i = choose|i: int| 0 <= i < s.len() && s[i] == x;
        assert forall|k: int| 0 <= k < r.len() implies ncd_le((#[trigger] r[k]).ncd_value, x.ncd_value) by {
            if k == 0 {
                assert(ncd_le(s[p].ncd_value, s[i].ncd_value));
            } else {
                assert(r[k] == r2[k - 1]);
            }
        }
    }
}

/// Positions strictly increase along `s`.
pub open spec fn increasing_positions(s: Seq<NcdIdMapping>) -> bool {
    forall|k: int, l: int| 0 <= k < l < s.len() ==> (#[trigger] s[k]).path_idx < (#[trigger] s[l]).path_idx
}

/// The sort is stable: of two entries taken at equal distance, the one earlier
/// in `s` comes first. With positions increasing along `s` (as the search
/// gives them), the entries taken are in increasing order of (distance,
/// position).
pub proof fn law_n_smallest_stable(s: Seq<NcdIdMapping>, n: nat)
    requires
        no_nan(s),
        increasing_positions(s),
    ensures
        forall|k: int, l: int| 0 <= k < l < n_smallest(s, n).len()
            ==> ncd_lt((#[trigger] n_smallest(s, n)[k]).ncd_value, (#[trigger] n_smallest(s, n)[l]).ncd_value)
                || n_smallest(s, n)[k].path_idx < n_smallest(s, n)[l].path_idx,
    decreases n,
{
    if n > 0 && s.len() > 0 {
        let p = first_min_index(s);
        lemma_first_min_index_is_min(s);
        let rest = s.remove(p);
        lemma_remove_no_nan(s, p);
        assert forall|k: int, l: int| 0 <= k < l < rest.len()
            implies (#[trigger] rest[k]).path_idx < (#[trigger] rest[l]).path_idx by {
            let ik = lemma_remove_entry(s, p, k);
            let il = lemma_remove_entry(s, p, l);
            assert(s[ik].path_idx < s[il].path_idx);
        }
        law_n_smallest_stable(rest, (n - 1) as nat);
        crate::ncd::lemma_n_smallest_from(rest, (n - 1) as nat);
        let r = n_smallest(s, n);
        let r2 = n_smallest(rest, (n - 1) as nat);
        assert forall|k: int, l: int| 0 <= k < l < r.len()
            implies ncd_lt((#[trigger] r[k]).ncd_value, (#[trigger] r[l]).ncd_value)
                || r[k].path_idx < r[l].path_idx by {
            assert(r[l] == r2[l - 1]);
            if k == 0 {
                assert(rest.contains(r2[l - 1]));
                let j = choose|j: int| 0 <= j < rest.len() && rest[j] == r2[l - 1];
                let i = lemma_remove_entry(s, p, j);
                assert(s[i] == r[l]);
                if i < p {
                    assert(ncd_lt(s[p].ncd_value, s[i].ncd_value));
                } else {
                    assert(s[p].path_idx < s[i].path_idx);
                }
            } else {
                assert(r[k] == r2[k - 1]);
            }
        }
    }
}

/// What the search for the `n` files nearest to a needle gives, when it gives
/// a result: at most `n` of the distances found (`min(n, number found)`),
/// each pointing at a file of `hay` other than the needle, in increasing
/// order of distance, ties in the order of `hay`; and no distance left out is
/// smaller than one kept.
pub proof fn law_n_most_similar_by_id(n: usize, needle: (Seq<char>, Seq<u8>), hay: Seq<(Seq<char>, Seq<u8>)>, x: NcdIdMapping)
    requires
        hay.len() <= usize::MAX,
        spec_n_most_similar_by_id(n, needle, hay) is Ok,
    ensures
        ({
            let all = spec_ncds(needle, hay)->Ok_0;
            let r = spec_n_most_similar_by_id(n, needle, hay)->Ok_0;
            &&& spec_ncds(needle, hay) is Ok
            &&& r.len() == if n <= all.len() { n as int } else { all.len() as int }
            &&& r.to_multiset().subset_of(all.to_multiset())
            &&& forall|k: int| 0 <= k < r.len() ==> (#[trigger] r[k]).path_idx < hay.len()
                && !paths_match(needle.0, hay[r[k].path_idx as int].0)
            &&& forall|k: int, l: int| 0 <= k < l < r.len()
                ==> ncd_le((#[trigger] r[k]).ncd_value, (#[trigger] r[l]).ncd_value)
                    && (ncd_lt(r[k].ncd_value, r[l].ncd_value) || r[k].path_idx < r[l].path_idx)
            &&& all.to_multiset().count(x) > r.to_multiset().count(x)
                ==> forall|k: int| 0 <= k < r.len() ==> ncd_le((#[trigger] r[k]).ncd_value, x.ncd_value)
        }),
{
    let all = spec_ncds(needle, hay)->Ok_0;
    let r = n_smallest(all, n as nat);
    let cx = zlib_compressed_len(needle.1)->Some_0;
    lemma_ncds_from_positions(needle, cx, hay);
    law_n_smallest_from_input(all, n as nat);
    crate::ncd::lemma_n_smallest_from(all, n as nat);
    assert forall|k: int| 0 <= k < r.len() implies (#[trigger] r[k]).path_idx < hay.len()
        && !paths_match(needle.0, hay[r[k].path_idx as int].0) by {
        assert(all.contains(r[k]));
        let j = choose|j: int| 0 <= j < all.len() && all[j] == r[k];
        assert(all[j].path_idx < hay.len());
    }
    if all.len() >= 2 {
        assert(comparable(all));
        assert(no_nan(all));
        law_n_smallest_sorted(all, n as nat);
        law_n_smallest_stable(all, n as nat);
        if all.to_multiset().count(x) > r.to_multiset().count(x) {
            law_n_smallest_are_smallest(all, n as nat, x);
        }
    } else {
        if all.to_multiset().count(x) > r.to_multiset().count(x) {
            broadcast use vstd::seq_lib::group_to_multiset_ensures;
            if n >= all.len() {
                assert(r.to_multiset() == all.to_multiset());
            } else {
                assert(r.len() == 0);
            }
        }
    }
}

/// The search from a needle whose compressed length is `cx` gives, when it
/// succeeds, a distance for every file of `hay` whose path does not name the
/// needle's path, and each distance is the one computed from the compressed
/// lengths of the needle, that file, and the two together.
proof fn lemma_ncds_from_covers(needle: (Seq<char>, Seq<u8>), cx: usize, hay: Seq<(Seq<char>, Seq<u8>)>)
    requires
        hay.len() <= usize::MAX,
        spec_ncds_from(needle, cx, hay) is Ok,
    ensures
        ({
            let v = spec_ncds_from(needle, cx, hay)->Ok_0;
            &&& forall|i: int| 0 <= i < hay.len() && !paths_match(needle.0, #[trigger] hay[i].0)
                ==> exists|k: int| 0 <= k < v.len() && v[k].path_idx == i
            &&& forall|k: int| 0 <= k < v.len() ==> {
                let y = hay[(#[trigger] v[k]).path_idx as int].1;
                &&& zlib_compressed_len(y) is Some
                &&& zlib_compressed_len(needle.1 + y) is Some
                &&& v[k].ncd_value == spec_ncd(cx, zlib_compressed_len(y)->Some_0, zlib_compressed_len(needle.1 + y)->Some_0)
            }
        }),
    decreases hay.len(),
{
    if hay.len() > 0 {
        let t = hay.drop_last();
        lemma_ncds_from_covers(needle, cx, t);
        lemma_ncds_from_positions(needle, cx, t);
        let prev = spec_ncds_from(needle, cx, t)->Ok_0;
        let v = spec_ncds_from(needle, cx, hay)->Ok_0;
        let last = hay.len() - 1;
        assert forall|k: int| 0 <= k < prev.len() implies v[k] == prev[k]
            && hay[(#[trigger] prev[k]).path_idx as int] == t[prev[k].path_idx as int] by {}
        assert forall|i: int| 0 <= i < hay.len() && !paths_match(needle.0, #[trigger] hay[i].0)
            implies exists|k: int| 0 <= k < v.len() && v[k].path_idx == i by {
            if i < last {
                assert(t[i] == hay[i]);
                let k = choose|k: int| 0 <= k < prev.len() && prev[k].path_idx == i;
                assert(v[k] == prev[k]);
            } else {
                assert(v[prev.len() as int].path_idx == i);
            }
        }
    }
}

/// The search gives one distance for each file of `hay` whose path does not
/// name the needle's path, in the order of `hay`, and none for a file under
/// the needle's path (whatever its contents); each distance is
/// `(C(x ++ y) - min(C(x), C(y))) / max(C(x), C(y))` for the needle `x` and
/// that file `y`.
pub proof fn law_ncds_one_per_other_file(needle: (Seq<char>, Seq<u8>), hay: Seq<(Seq<char>, Seq<u8>)>)
    requires
        hay.len() <= usize::MAX,
    ensures
        spec_ncds(needle, hay) matches Ok(v) ==> {
            &&& forall|i: int| 0 <= i < hay.len() && !paths_match(needle.0, #[trigger] hay[i].0)
                ==> exists|k: int| 0 <= k < v.len() && v[k].path_idx == i
            &&& forall|k: int| 0 <= k < v.len() ==> (#[trigger] v[k]).path_idx < hay.len()
                && !paths_match(needle.0, hay[v[k].path_idx as int].0)
            &&& forall|k: int, l: int| 0 <= k < l < v.len() ==> (#[trigger] v[k]).path_idx < (#[trigger] v[l]).path_idx
            &&& forall|k: int| 0 <= k < v.len() ==> {
                let y = hay[(#[trigger] v[k]).path_idx as int].1;
                &&& zlib_compressed_len(needle.1) is Some
                &&& zlib_compressed_len(y) is Some
                &&& zlib_compressed_len(needle.1 + y) is Some
                &&& v[k].ncd_value == spec_ncd(zlib_compressed_len(needle.1)->Some_0,
                    zlib_compressed_len(y)->Some_0, zlib_compressed_len(needle.1 + y)->Some_0)
            }
        },
{
    if let Some(cx) = zlib_compressed_len(needle.1) {
        if spec_ncds_from(needle, cx, hay) is Ok {
            lemma_ncds_from_covers(needle, cx, hay);
            lemma_ncds_from_positions(needle, cx, hay);
        }
    }
}

} // verus!
