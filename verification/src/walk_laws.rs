//! What the listing of a walk and the detection of stale files promise: a
//! file is left out only when its name starts with `.`; every file modified
//! after it was indexed, or never indexed, is reported; every indexed path
//! that the walk no longer finds is reported; nothing else is.

use vstd::prelude::*;
use crate::file_walk::{WalkEntryView, spec_is_hidden, spec_file_paths, spec_file_data, changed_paths,
    spec_modified_files};
use crate::cache::{lookup, keys_of, unmatched_keys};
use crate::paths::{matches_any, paths_match};
use crate::indexer::SimilaritiesView;

verus! {

/// A file name is hidden exactly when it starts with `.` and is not `./`; a
/// name that could not be read is not hidden.
pub proof fn law_hidden_names(s: Seq<char>)
    ensures
        spec_is_hidden(Some(s)) ==> s.len() > 0 && s[0] == '.',
        s.len() > 0 && s[0] == '.' && s != seq!['.', '/'] ==> spec_is_hidden(Some(s)),
        s.len() == 0 || s[0] != '.' ==> !spec_is_hidden(Some(s)),
        !spec_is_hidden(None),
{
}

/// A walk item that is a file to list: read without error, known not to be a
/// directory, and with a name that does not start with `.` (or is `./`).
pub open spec fn visible_file(e: Option<WalkEntryView>) -> bool {
    match e {
        Some(w) => w.2 == Some(false) && !(w.1 matches Some(s) && s.len() > 0 && s[0] == '.' && s != seq!['.', '/']),
        None => false,
    }
}

/// The listing of a walk holds the path of every visible file of the walk,
/// and only such paths.
pub proof fn law_file_paths_are_visible_files(walk: Seq<Option<WalkEntryView>>)
    ensures
        forall|i: int| 0 <= i < walk.len() && visible_file(#[trigger] walk[i])
            ==> spec_file_paths(walk).contains(walk[i]->Some_0.0),
        forall|x: Seq<char>| spec_file_paths(walk).contains(x)
            ==> exists|i: int| 0 <= i < walk.len() && visible_file(#[trigger] walk[i]) && walk[i]->Some_0.0 == x,
    decreases walk.len(),
{
    if walk.len() > 0 {
        let t = walk.drop_last();
        law_file_paths_are_visible_files(t);
        let prev = spec_file_paths(t);
        let r = spec_file_paths(walk);
        assert forall|x: Seq<char>| prev.contains(x) implies r.contains(x) by {
            let k = choose|k: int| 0 <= k < prev.len() && prev[k] == x;
            assert(r[k] == prev[k]);
        }
        assert forall|i: int| 0 <= i < walk.len() && visible_file(#[trigger] walk[i])
            implies r.contains(walk[i]->Some_0.0) by {
            if i < walk.len() - 1 {
                assert(t[i] == walk[i]);
            } else {
                assert(r[r.len() - 1] == walk[i]->Some_0.0);
            }
        }
        assert forall|x: Seq<char>| r.contains(x)
            implies exists|i: int| 0 <= i < walk.len() && visible_file(#[trigger] walk[i]) && walk[i]->Some_0.0 == x by {
            let k = choose|k: int| 0 <= k < r.len() && r[k] == x;
            if k < prev.len() {
                assert(prev[k] == r[k]);
                assert(prev.contains(x));
                let i = choose|i: int| 0 <= i < t.len() && visible_file(#[trigger] t[i]) && t[i]->Some_0.0 == x;
                assert(walk[i] == t[i]);
            } else {
                assert(visible_file(walk[walk.len() - 1]));
            }
        }
    }
}

/// The files of a walk with their times hold every visible file whose time
/// could be read, with that time, and nothing else.
pub proof fn law_file_data_are_visible_files(walk: Seq<Option<WalkEntryView>>)
    ensures
        forall|i: int| 0 <= i < walk.len() && visible_file(#[trigger] walk[i]) && walk[i]->Some_0.3 is Some
            ==> spec_file_data(walk).contains((walk[i]->Some_0.0, walk[i]->Some_0.3->Some_0)),
        forall|x: (Seq<char>, i128)| spec_file_data(walk).contains(x)
            ==> exists|i: int| 0 <= i < walk.len() && visible_file(#[trigger] walk[i])
                && walk[i]->Some_0.3 == Some(x.1) && walk[i]->Some_0.0 == x.0,
    decreases walk.len(),
{
    if walk.len() > 0 {
        let t = walk.drop_last();
        law_file_data_are_visible_files(t);
        let prev = spec_file_data(t);
        let r = spec_file_data(walk);
        assert forall|x: (Seq<char>, i128)| prev.contains(x) implies r.contains(x) by {
            let k = choose|k: int| 0 <= k < prev.len() && prev[k] == x;
            assert(r[k] == prev[k]);
        }
        assert forall|i: int| 0 <= i < walk.len() && visible_file(#[trigger] walk[i]) && walk[i]->Some_0.3 is Some
            implies r.contains((walk[i]->Some_0.0, walk[i]->Some_0.3->Some_0)) by {
            if i < walk.len() - 1 {
                assert(t[i] == walk[i]);
            } else {
                assert(r[r.len() - 1] == (walk[i]->Some_0.0, walk[i]->Some_0.3->Some_0));
            }
        }
        assert forall|x: (Seq<char>, i128)| r.contains(x)
            implies exists|i: int| 0 <= i < walk.len() && visible_file(#[trigger] walk[i])
                && walk[i]->Some_0.3 == Some(x.1) && walk[i]->Some_0.0 == x.0 by {
            let k = choose|k: int| 0 <= k < r.len() && r[k] == x;
            if k < prev.len() {
                assert(prev[k] == r[k]);
                assert(prev.contains(x));
                let i = choose|i: int| 0 <= i < t.len() && visible_file(#[trigger] t[i])
                    && t[i]->Some_0.3 == Some(x.1) && t[i]->Some_0.0 == x.0;
                assert(walk[i] == t[i]);
            } else {
                assert(visible_file(walk[walk.len() - 1]));
            }
        }
    }
}

/// The paths reported as removed are exactly the keys that name none of
/// `current`: each such key is reported, and each path reported is such a key.
pub proof fn law_removed_paths(keys: Seq<Seq<char>>, current: Seq<Seq<char>>)
    ensures
        forall|i: int| 0 <= i < keys.len() && !matches_any(#[trigger] keys[i], current)
            ==> unmatched_keys(keys, current).contains(keys[i]),
        forall|x: Seq<char>| unmatched_keys(keys, current).contains(x)
            ==> keys.contains(x) && !matches_any(x, current),
        unmatched_keys(keys, current).len() <= keys.len(),
    decreases keys.len(),
{
    if keys.len() > 0 {
        let t = keys.drop_last();
        law_removed_paths(t, current);
        let prev = unmatched_keys(t, current);
        let r = unmatched_keys(keys, current);
        assert forall|x: Seq<char>| prev.contains(x) implies r.contains(x) by {
            let k = choose|k: int| 0 <= k < prev.len() && prev[k] == x;
            assert(r[k] == prev[k]);
        }
        assert forall|i: int| 0 <= i < keys.len() && !matches_any(#[trigger] keys[i], current)
            implies r.contains(keys[i]) by {
            if i < keys.len() - 1 {
                assert(t[i] == keys[i]);
            } else {
                assert(r[r.len() - 1] == keys[i]);
            }
        }
        assert forall|x: Seq<char>| r.contains(x) implies keys.contains(x) && !matches_any(x, current) by {
            let k = choose|k: int| 0 <= k < r.len() && r[k] == x;
            if k < prev.len() {
                assert(prev[k] == r[k]);
                assert(prev.contains(x));
                assert(t.contains(x));
                let j = choose|j: int| 0 <= j < t.len() && t[j] == x;
                assert(keys[j] == t[j]);
                assert(keys.contains(x));
            } else {
                assert(!matches_any(keys.last(), current));
                assert(r == prev.push(keys.last()));
                assert(keys[keys.len() - 1] == x);
                assert(keys.contains(x));
            }
        }
    }
}

/// Whether the file `(p, date)` is stale against the index `cache`: its path
/// was never indexed, or its time is later than the time stored for it.
pub open spec fn stale(cache: Seq<(Seq<char>, SimilaritiesView)>, f: (Seq<char>, i128)) -> bool {
    lookup(cache, f.0) matches Some(s) ==> f.1 > s.1
}

/// A file is reported as changed exactly when one of its listings is stale:
/// a listing whose time is later than the one stored for its path, or whose
/// path was never indexed, is reported; a path is reported only for such a
/// listing.
pub proof fn law_changed_paths(data: Seq<(Seq<char>, i128)>, cache: Seq<(Seq<char>, SimilaritiesView)>)
    ensures
        forall|i: int| 0 <= i < data.len() && lookup(cache, (#[trigger] data[i]).0) is None
            ==> changed_paths(data, cache).contains(data[i].0),
        forall|i: int| 0 <= i < data.len() && lookup(cache, (#[trigger] data[i]).0) is Some
            && data[i].1 > lookup(cache, data[i].0)->Some_0.1
            ==> changed_paths(data, cache).contains(data[i].0),
        forall|x: Seq<char>| lookup(cache, x) is Some
            && (forall|j: int| 0 <= j < data.len() && (#[trigger] data[j]).0 == x ==> data[j].1 <= lookup(cache, x)->Some_0.1)
            ==> !changed_paths(data, cache).contains(x),
        forall|x: Seq<char>| changed_paths(data, cache).contains(x)
            ==> exists|i: int| 0 <= i < data.len() && (#[trigger] data[i]).0 == x && stale(cache, data[i]),
    decreases data.len(),
{
    if data.len() > 0 {
        let t = data.drop_last();
        law_changed_paths(t, cache);
        let prev = changed_paths(t, cache);
        let r = changed_paths(data, cache);
        assert forall|x: Seq<char>| prev.contains(x) implies r.contains(x) by {
            let k = choose|k: int| 0 <= k < prev.len() && prev[k] == x;
            assert(r[k] == prev[k]);
        }
        assert forall|i: int| 0 <= i < data.len() && stale(cache, #[trigger] data[i])
            implies r.contains(data[i].0) by {
            if i < data.len() - 1 {
                assert(t[i] == data[i]);
            } else {
                assert(r[r.len() - 1] == data[i].0);
            }
        }
        assert forall|x: Seq<char>| r.contains(x)
            implies exists|i: int| 0 <= i < data.len() && (#[trigger] data[i]).0 == x && stale(cache, data[i]) by {
            let k = choose|k: int| 0 <= k < r.len() && r[k] == x;
            if k < prev.len() {
                assert(prev[k] == r[k]);
                assert(prev.contains(x));
                let i = choose|i: int| 0 <= i < t.len() && (#[trigger] t[i]).0 == x && stale(cache, t[i]);
                assert(data[i] == t[i]);
            } else {
                assert(stale(cache, data[data.len() - 1]));
            }
        }
    }
}

/// What a new walk reports against the index `cache`: a path is reported
/// exactly when one of its listings is stale, or it was indexed and the walk
/// no longer finds it. So a file listed with a time no later than the one
/// stored for its path (every time it is listed) is not reported.
pub proof fn law_modified_files(walk: Seq<Option<WalkEntryView>>, cache: Seq<(Seq<char>, SimilaritiesView)>)
    ensures
        ({
            let data = spec_file_data(walk);
            let cur = data.map_values(|d: (Seq<char>, i128)| d.0);
            let r = spec_modified_files(walk, cache);
            &&& forall|x: Seq<char>| r.contains(x) <==> (
                (exists|i: int| 0 <= i < data.len() && (#[trigger] data[i]).0 == x && stale(cache, data[i]))
                || (keys_of(cache).contains(x) && !matches_any(x, cur)))
            &&& forall|i: int| 0 <= i < data.len()
                && (forall|j: int| 0 <= j < data.len() && (#[trigger] data[j]).0 == data[i].0 ==> !stale(cache, data[j]))
                ==> !r.contains(#[trigger] data[i].0)
        }),
{
    let data = spec_file_data(walk);
    let cur = data.map_values(|d: (Seq<char>, i128)| d.0);
    let ch = changed_paths(data, cache);
    let rm = unmatched_keys(keys_of(cache), cur);
    let r = spec_modified_files(walk, cache);
    law_changed_paths(data, cache);
    law_removed_paths(keys_of(cache), cur);
    assert(r == ch + rm);
    assert forall|x: Seq<char>| r.contains(x) <==> (ch.contains(x) || rm.contains(x)) by {
        if r.contains(x) {
            let k = choose|k: int| 0 <= k < r.len() && r[k] == x;
            if k < ch.len() {
                assert(ch[k] == r[k]);
            } else {
                assert(rm[k - ch.len()] == r[k]);
            }
        }
        if ch.contains(x) {
            let k = choose|k: int| 0 <= k < ch.len() && ch[k] == x;
            assert(r[k] == ch[k]);
        }
        if rm.contains(x) {
            let k = choose|k: int| 0 <= k < rm.len() && rm[k] == x;
            assert(r[k + ch.len()] == rm[k]);
        }
    }
    assert forall|x: Seq<char>| keys_of(cache).contains(x) && !matches_any(x, cur) implies rm.contains(x) by {
        let i = choose|i: int| 0 <= i < keys_of(cache).len() && keys_of(cache)[i] == x;
    }
    assert forall|i: int| 0 <= i < data.len()
        && (forall|j: int| 0 <= j < data.len() && (#[trigger] data[j]).0 == data[i].0 ==> !stale(cache, data[j]))
        implies !r.contains(#[trigger] data[i].0) by {
        assert(cur[i] == data[i].0);
        assert(paths_match(cur[i], data[i].0));
        assert(matches_any(data[i].0, cur));
    }
}

/// The listing of a walk is, in walk order, the paths of its visible files.
pub proof fn law_file_paths_in_order(walk: Seq<Option<WalkEntryView>>)
    ensures
        spec_file_paths(walk) == walk.filter(|e: Option<WalkEntryView>| visible_file(e))
            .map_values(|e: Option<WalkEntryView>| e->Some_0.0),
    decreases walk.len(),
{
    reveal(Seq::filter);
    if walk.len() > 0 {
        let t = walk.drop_last();
        law_file_paths_in_order(t);
        let f = t.filter(|e: Option<WalkEntryView>| visible_file(e));
        if visible_file(walk.last()) {
            assert(f.push(walk.last()).map_values(|e: Option<WalkEntryView>| e->Some_0.0)
                =~= f.map_values(|e: Option<WalkEntryView>| e->Some_0.0).push(walk.last()->Some_0.0));
        }
    } else {
        assert(walk.filter(|e: Option<WalkEntryView>| visible_file(e)).map_values(|e: Option<WalkEntryView>| e->Some_0.0)
            =~= Seq::<Seq<char>>::empty());
    }
}

/// The paths reported as removed are, in their order, the keys that name
/// none of `current`.
pub proof fn law_removed_paths_in_order(keys: Seq<Seq<char>>, current: Seq<Seq<char>>)
    ensures
        unmatched_keys(keys, current) == keys.filter(|k: Seq<char>| !matches_any(k, current)),
    decreases keys.len(),
{
    reveal(Seq::filter);
    if keys.len() > 0 {
        law_removed_paths_in_order(keys.drop_last(), current);
    } else {
        assert(keys.filter(|k: Seq<char>| !matches_any(k, current)) =~= Seq::<Seq<char>>::empty());
    }
}

/// The files reported as changed are, in walk order, the paths of the stale
/// listings.
pub proof fn law_changed_paths_in_order(data: Seq<(Seq<char>, i128)>, cache: Seq<(Seq<char>, SimilaritiesView)>)
    ensures
        changed_paths(data, cache) == data.filter(|f: (Seq<char>, i128)| stale(cache, f))
            .map_values(|f: (Seq<char>, i128)| f.0),
    decreases data.len(),
{
    reveal(Seq::filter);
    if data.len() > 0 {
        let t = data.drop_last();
        law_changed_paths_in_order(t, cache);
        let f = t.filter(|f: (Seq<char>, i128)| stale(cache, f));
        if stale(cache, data.last()) {
            assert(f.push(data.last()).map_values(|f: (Seq<char>, i128)| f.0)
                =~= f.map_values(|f: (Seq<char>, i128)| f.0).push(data.last().0));
        }
    } else {
        assert(data.filter(|f: (Seq<char>, i128)| stale(cache, f)).map_values(|f: (Seq<char>, i128)| f.0)
            =~= Seq::<Seq<char>>::empty());
    }
}

/// A visible file whose time could be read.
pub open spec fn timed_file(e: Option<WalkEntryView>) -> bool {
    visible_file(e) && e->Some_0.3 is Some
}

/// The files of a walk with their times are, in walk order, the visible files
/// whose time could be read, each with that time.
pub proof fn law_file_data_in_order(walk: Seq<Option<WalkEntryView>>)
    ensures
        spec_file_data(walk) == walk.filter(|e: Option<WalkEntryView>| timed_file(e))
            .map_values(|e: Option<WalkEntryView>| (e->Some_0.0, e->Some_0.3->Some_0)),
    decreases walk.len(),
{
    reveal(Seq::filter);
    if walk.len() > 0 {
        let t = walk.drop_last();
        law_file_data_in_order(t);
        let f = t.filter(|e: Option<WalkEntryView>| timed_file(e));
        if timed_file(walk.last()) {
            assert(f.push(walk.last()).map_values(|e: Option<WalkEntryView>| (e->Some_0.0, e->Some_0.3->Some_0))
                =~= f.map_values(|e: Option<WalkEntryView>| (e->Some_0.0, e->Some_0.3->Some_0))
                    .push((walk.last()->Some_0.0, walk.last()->Some_0.3->Some_0)));
        }
    } else {
        assert(walk.filter(|e: Option<WalkEntryView>| timed_file(e))
            .map_values(|e: Option<WalkEntryView>| (e->Some_0.0, e->Some_0.3->Some_0))
            =~= Seq::<(Seq<char>, i128)>::empty());
    }
}

} // verus!
