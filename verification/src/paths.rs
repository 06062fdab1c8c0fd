//! Paths compared as `std::path::Path` compares them, and tables keyed by path.

use vstd::prelude::*;

verus! {

/// A canonical form of the path spelled `p`: two spellings have the same form
/// exactly when `std::path::Path`'s `==` holds them equal. (`Path` implements
/// `Eq`, whose documentation makes `==` reflexive, symmetric and transitive,
/// so it sorts spellings into classes; this names the class.)
pub uninterp spec fn path_class(p: Seq<char>) -> Seq<char>;

/// Two path strings name the same path.
pub open spec fn paths_match(a: Seq<char>, b: Seq<char>) -> bool {
    path_class(a) == path_class(b)
}

/// Compares two path strings as `std::path::Path` values
/// (`Path::new(a) == Path::new(b)`).
///
/// Trusted: the result is whether `a` and `b` fall in the same class of the
/// equivalence relation that `Path`'s `==` is (`Eq`: reflexive, symmetric,
/// transitive). Which spellings share a class (component-wise comparison) is
/// left unsaid.
#[verifier::external_body]
pub(crate) fn same_path(a: &str, b: &str) -> (r: bool)
    ensures
        r == (path_class(a@) == path_class(b@)),
{
    std::path::Path::new(a) == std::path::Path::new(b)
}

/// The position of the first key in `keys` that names the path `p`.
pub open spec fn first_match(keys: Seq<Seq<char>>, p: Seq<char>) -> Option<int>
    decreases keys.len(),
{
    if keys.len() == 0 {
        None
    } else {
        match first_match(keys.drop_last(), p) {
            Some(i) => Some(i),
            None => if paths_match(keys.last(), p) {
                Some(keys.len() - 1)
            } else {
                None
            },
        }
    }
}

/// No two keys name the same path.
pub open spec fn distinct_paths(keys: Seq<Seq<char>>) -> bool {
    forall|i: int, j: int| 0 <= i < keys.len() && 0 <= j < keys.len() && i != j
        ==> !paths_match(#[trigger] keys[i], #[trigger] keys[j])
}

/// Whether `p` names the same path as one of `paths`.
pub open spec fn matches_any(p: Seq<char>, paths: Seq<Seq<char>>) -> bool {
    exists|i: int| 0 <= i < paths.len() && paths_match(#[trigger] paths[i], p)
}

/// `first_match` finds the first key naming `p`, or tells that none does.
pub proof fn lemma_first_match(keys: Seq<Seq<char>>, p: Seq<char>)
    ensures
        match first_match(keys, p) {
            Some(i) => 0 <= i < keys.len() && paths_match(keys[i], p)
                && forall|j: int| 0 <= j < i ==> !paths_match(#[trigger] keys[j], p),
            None => forall|j: int| 0 <= j < keys.len() ==> !paths_match(#[trigger] keys[j], p),
        },
    decreases keys.len(),
{
    if keys.len() > 0 {
        let t = keys.drop_last();
        lemma_first_match(t, p);
        assert forall|j: int| 0 <= j < t.len() implies t[j] == keys[j] by {}
    }
}

/// The first key of `keys` naming `p`, found by comparing `p` with each key
/// as `Path`s.
pub(crate) fn find_path(keys: &Vec<String>, p: &str) -> (r: Option<usize>)
    ensures
        match r {
            Some(i) => i < keys@.len() && first_match(keys@.map_values(|k: String| k@), p@) == Some(i as int),
            None => first_match(keys@.map_values(|k: String| k@), p@) is None,
        },
{
    let ghost kv = keys@.map_values(|k: String| k@);
    let mut i: usize = 0;
    while i < keys.len()
        invariant
            i <= keys.len(),
            kv == keys@.map_values(|k: String| k@),
            forall|j: int| 0 <= j < i ==> !paths_match(#[trigger] kv[j], p@),
        decreases keys.len() - i,
    {
        let same = same_path(keys[i].as_str(), p);
        if same {
            proof {
                lemma_first_match(kv, p@);
                match first_match(kv, p@) {
                    Some(k) => {
                        if k < i {
                            assert(!paths_match(kv[k], p@));
                        } else if k > i {
                            assert(paths_match(kv[i as int], p@));
                        }
                    },
                    None => {
                        assert(paths_match(kv[i as int], p@));
                    },
                }
            }
            return Some(i);
        }
        i += 1;
    }
    proof {
        lemma_first_match(kv, p@);
        match first_match(kv, p@) {
            Some(k) => {
                assert(!paths_match(kv[k], p@));
            },
            None => {},
        }
    }
    None
}

/// What `std::path::Path::join` makes of `base` and `name`, as a string.
pub uninterp spec fn path_join(base: Seq<char>, name: Seq<char>) -> Seq<char>;

/// Joins `name` onto `base` with `std::path::Path::join` and converts the
/// result back to a string (two valid UTF-8 strings join to valid UTF-8, so
/// the conversion is exact).
///
/// Trusted: the result is `path_join(base, name)`; what that string is on
/// given arguments (a separator between them, or `name` alone when it is
/// absolute) is left unsaid.
#[verifier::external_body]
pub(crate) fn join_path(base: &str, name: &str) -> (r: String)
    ensures
        r@ == path_join(base@, name@),
{
    std::path::Path::new(base).join(name).to_string_lossy().into_owned()
}

} // verus!
