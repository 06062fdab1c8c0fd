//! Which entries of a directory walk are files to compare, and which files
//! changed since the similarities were last computed.

use vstd::prelude::*;
use crate::cache::{NSimilarCache, lookup, keys_of, unmatched_keys};
use crate::indexer::SimilaritiesView;

verus! {

/// One item of a directory walk, as the walker reported it.
#[derive(Debug)]
pub struct WalkEntry {
    /// The entry's path.
    pub path: String,
    /// The last component of the path; `None` when it is not valid UTF-8.
    pub file_name: Option<String>,
    /// Whether the entry is a directory; `None` when its type is unknown.
    pub is_dir: Option<bool>,
    /// Its modification time, in nanoseconds after the Unix epoch (negative
    /// before it); `None` when the metadata could not be read.
    pub modified: Option<i128>,
}

/// The view of a walk entry: path, file name, directory flag, modification time.
pub type WalkEntryView = (Seq<char>, Option<Seq<char>>, Option<bool>, Option<i128>);

impl View for WalkEntry {
    type V = WalkEntryView;

    open spec fn view(&self) -> WalkEntryView {
        (
            self.path@,
            match self.file_name {
                Some(s) => Some(s@),
                None => None,
            },
            self.is_dir,
            self.modified,
        )
    }
}

/// The views of the items of a walk; `None` stands for an item the walker
/// reported as an error.
pub open spec fn walk_view(walk: Seq<Option<WalkEntry>>) -> Seq<Option<WalkEntryView>> {
    walk.map_values(|e: Option<WalkEntry>| match e {
        Some(w) => Some(w@),
        None => None,
    })
}

/// A file name is hidden when it starts with `.` and is not `./`.
pub open spec fn spec_is_hidden(file_name: Option<Seq<char>>) -> bool {
    match file_name {
        Some(s) => s.len() > 0 && s[0] == '.' && s != seq!['.', '/'],
        None => false,
    }
}

/// Whether an entry with this file name is hidden: the name starts with `.`
/// and is not `./`. A name that is not valid UTF-8 is not hidden.
pub fn is_hidden(file_name: &Option<String>) -> (r: bool)
    ensures
        r == spec_is_hidden(match file_name {
            Some(s) => Some(s@),
            None => None,
        }),
{
    broadcast use vstd::string::group_string_axioms;
    match file_name {
        None => false,
        Some(s) => {
            let mut chars = s.as_str().chars();
            let first = chars.next();
            let starts_with_dot = match first {
                Some(c) => c == '.',
                None => false,
            };
            if !starts_with_dot {
                return false;
            }
            let dot_slash = "./".to_owned();
            proof { reveal_strlit("./"); }
            assert(dot_slash@ =~= seq!['.', '/']);
            *s != dot_slash
        },
    }
}

/// A file found by the walk, with its modification time.
#[derive(Debug)]
pub struct FileData {
    pub path: String,
    pub date_modified: i128,
}

impl View for FileData {
    type V = (Seq<char>, i128);

    open spec fn view(&self) -> (Seq<char>, i128) {
        (self.path@, self.date_modified)
    }
}

/// Whether a walk item is a file to compare: not an error, not hidden, and
/// known not to be a directory.
pub open spec fn is_listed_file(e: Option<WalkEntryView>) -> bool {
    match e {
        Some(w) => !spec_is_hidden(w.1) && w.2 == Some(false),
        None => false,
    }
}

/// The paths of the files of a walk, in walk order.
pub open spec fn spec_file_paths(walk: Seq<Option<WalkEntryView>>) -> Seq<Seq<char>>
    decreases walk.len(),
{
    if walk.len() == 0 {
        seq![]
    } else {
        let prev = spec_file_paths(walk.drop_last());
        if is_listed_file(walk.last()) {
            prev.push(walk.last()->Some_0.0)
        } else {
            prev
        }
    }
}

/// The files of a walk whose modification time could be read, with that time,
/// in walk order.
pub open spec fn spec_file_data(walk: Seq<Option<WalkEntryView>>) -> Seq<(Seq<char>, i128)>
    decreases walk.len(),
{
    if walk.len() == 0 {
        seq![]
    } else {
        let prev = spec_file_data(walk.drop_last());
        if is_listed_file(walk.last()) && walk.last()->Some_0.3 is Some {
            prev.push((walk.last()->Some_0.0, walk.last()->Some_0.3->Some_0))
        } else {
            prev
        }
    }
}

/// The files whose similarities are stale: those modified since they were
/// indexed or not indexed at all, in walk order.
pub open spec fn changed_paths(data: Seq<(Seq<char>, i128)>, cache: Seq<(Seq<char>, SimilaritiesView)>) -> Seq<Seq<char>>
    decreases data.len(),
{
    if data.len() == 0 {
        seq![]
    } else {
        let prev = changed_paths(data.drop_last(), cache);
        let (p, date) = data.last();
        let changed = match lookup(cache, p) {
            Some(s) => date > s.1,
            None => true,
        };
        if changed {
            prev.push(p)
        } else {
            prev
        }
    }
}

/// What `get_all_modified_files` finds: the changed files, then the files
/// indexed before that the walk no longer finds.
pub open spec fn spec_modified_files(walk: Seq<Option<WalkEntryView>>, cache: Seq<(Seq<char>, SimilaritiesView)>) -> Seq<Seq<char>> {
    let data = spec_file_data(walk);
    changed_paths(data, cache) + unmatched_keys(keys_of(cache), data.map_values(|d: (Seq<char>, i128)| d.0))
}

/// Whether a walk item is a file to compare.
fn listed_file(e: &Option<WalkEntry>) -> (r: bool)
    ensures
        r == is_listed_file(match e {
            Some(w) => Some(w@),
            None => None,
        }),
{
    match e {
        None => false,
        Some(w) => {
            if is_hidden(&w.file_name) {
                return false;
            }
            match w.is_dir {
                Some(d) => !d,
                None => false,
            }
        },
    }
}

/// The path of a walk item when it is a file to compare: not an error, not
/// hidden, and known not to be a directory.
pub fn get_file_paths(e: &Option<WalkEntry>) -> (r: Option<String>)
    ensures
        r == (if is_listed_file(match e {
            Some(w) => Some(w@),
            None => None,
        }) {
            Some(e->Some_0.path)
        } else {
            None
        }),
{
    if listed_file(e) {
        match e {
            Some(w) => Some(w.path.clone()),
            None => None,
        }
    } else {
        None
    }
}

/// The paths of the files that a walk found, in walk order (their
/// modification times not needed).
pub fn listed_file_paths(walk: &[Option<WalkEntry>]) -> (r: Vec<String>)
    ensures
        r@.map_values(|p: String| p@) == spec_file_paths(walk_view(walk@)),
{
    let ghost wv = walk_view(walk@);
    let mut out: Vec<String> = Vec::new();
    let mut i: usize = 0;
    assert(wv.take(0) =~= Seq::<Option<WalkEntryView>>::empty());
    while i < walk.len()
        invariant
            i <= walk@.len(),
            wv == walk_view(walk@),
            out@.map_values(|p: String| p@) == spec_file_paths(wv.take(i as int)),
        decreases walk@.len() - i,
    {
        assert(wv.take(i + 1).drop_last() =~= wv.take(i as int));
        assert(wv.take(i + 1).last() == wv[i as int]);
        if listed_file(&walk[i]) {
            match &walk[i] {
                Some(w) => {
                    let ghost before = out@;
                    out.push(w.path.clone());
                    assert(out@.map_values(|p: String| p@) =~= before.map_values(|p: String| p@).push(w.path@));
                },
                None => {},
            }
        }
        i += 1;
    }
    assert(wv.take(i as int) =~= wv);
    out
}

/// The files that the walk found whose modification time could be read, with
/// that time, in walk order.
pub fn get_all_file_data(walk: &[Option<WalkEntry>]) -> (r: Vec<FileData>)
    ensures
        r@.map_values(|d: FileData| d@) == spec_file_data(walk_view(walk@)),
{
    let ghost wv = walk_view(walk@);
    let mut out: Vec<FileData> = Vec::new();
    let mut i: usize = 0;
    assert(wv.take(0) =~= Seq::<Option<WalkEntryView>>::empty());
    while i < walk.len()
        invariant
            i <= walk@.len(),
            wv == walk_view(walk@),
            out@.map_values(|d: FileData| d@) == spec_file_data(wv.take(i as int)),
        decreases walk@.len() - i,
    {
        assert(wv.take(i + 1).drop_last() =~= wv.take(i as int));
        assert(wv.take(i + 1).last() == wv[i as int]);
        if listed_file(&walk[i]) {
            match &walk[i] {
                Some(w) => {
                    match w.modified {
                        Some(t) => {
                            let ghost before = out@;
                            out.push(FileData { path: w.path.clone(), date_modified: t });
                            assert(out@.map_values(|d: FileData| d@) =~= before.map_values(|d: FileData| d@).push((w.path@, t)));
                        },
                        None => {},
                    }
                },
                None => {},
            }
        }
        i += 1;
    }
    assert(wv.take(i as int) =~= wv);
    out
}

/// The files under a root directory, as last walked.
pub struct FileWalker {
    root_dir: String,
    all_paths: Vec<String>,
}

impl FileWalker {
    pub closed spec fn spec_root_dir(&self) -> Seq<char> {
        self.root_dir@
    }

    pub closed spec fn spec_all_paths(&self) -> Seq<Seq<char>> {
        self.all_paths@.map_values(|p: String| p@)
    }

    /// A walker of `root_dir`, holding the paths of the files that `walk` (a
    /// walk of `root_dir`) found with their modification times.
    pub fn new(root_dir: String, walk: &[Option<WalkEntry>]) -> (r: Self)
        ensures
            r.spec_root_dir() == root_dir@,
            r.spec_all_paths() == spec_file_data(walk_view(walk@)).map_values(|d: (Seq<char>, i128)| d.0),
    {
        let all_paths = Self::get_all_file_paths(walk);
        FileWalker { root_dir, all_paths }
    }

    /// The directory walked.
    pub fn root_dir(&self) -> (r: &String)
        ensures
            r@ == self.spec_root_dir(),
    {
        &self.root_dir
    }

    /// The number of files found when the walker was made.
    pub fn total_file_count(&self) -> (r: usize)
        ensures
            r == self.spec_all_paths().len(),
    {
        self.all_paths.len()
    }

    /// The paths of the files that a new walk of the directory found, in walk
    /// order, those whose modification time could not be read left out.
    pub fn all_paths(&self, walk: &[Option<WalkEntry>]) -> (r: Vec<String>)
        ensures
            r@.map_values(|p: String| p@) == spec_file_data(walk_view(walk@)).map_values(|d: (Seq<char>, i128)| d.0),
    {
        Self::get_all_file_paths(walk)
    }

    /// The paths of the files that a walk found with their modification
    /// times, in walk order.
    pub fn get_all_file_paths(walk: &[Option<WalkEntry>]) -> (r: Vec<String>)
        ensures
            r@.map_values(|p: String| p@) == spec_file_data(walk_view(walk@)).map_values(|d: (Seq<char>, i128)| d.0),
    {
        let data = get_all_file_data(walk);
        let mut out: Vec<String> = Vec::with_capacity(data.len());
        let mut i: usize = 0;
        while i < data.len()
            invariant
                i <= data@.len(),
                data@.map_values(|d: FileData| d@) == spec_file_data(walk_view(walk@)),
                out@.map_values(|p: String| p@) =~= data@.take(i as int).map_values(|d: FileData| d.path@),
            decreases data@.len() - i,
        {
            let ghost before = out@;
            out.push(data[i].path.clone());
            assert(out@.map_values(|p: String| p@) =~= before.map_values(|p: String| p@).push(data@[i as int].path@));
            assert(data@.take(i + 1) =~= data@.take(i as int).push(data@[i as int]));
            i += 1;
        }
        assert(data@.take(i as int) =~= data@);
        assert(spec_file_data(walk_view(walk@)).map_values(|d: (Seq<char>, i128)| d.0)
            =~= data@.map_values(|d: FileData| d.path@)) by {
            let dv = data@.map_values(|d: FileData| d@);
            assert forall|k: int| 0 <= k < data@.len() implies #[trigger] dv[k] == data@[k]@ by {}
        }
        out
    }

    /// The files whose stored similarities are stale, given a new walk of the
    /// directory: those modified since they were indexed or never indexed (in
    /// walk order), then those indexed before that the walk no longer finds.
    pub fn get_all_modified_files(&self, walk: &[Option<WalkEntry>], cache: &NSimilarCache) -> (r: Vec<String>)
        requires
            cache.wf(),
        ensures
            r@.map_values(|p: String| p@) == spec_modified_files(walk_view(walk@), cache@),
    {
        let curr_file_data = get_all_file_data(walk);
        let ghost data = spec_file_data(walk_view(walk@));
        let mut has_updated: Vec<String> = Vec::new();
        let mut curr_paths: Vec<String> = Vec::with_capacity(curr_file_data.len());
        let mut i: usize = 0;
        assert(data.take(0) =~= Seq::<(Seq<char>, i128)>::empty());
        while i < curr_file_data.len()
            invariant
                cache.wf(),
                i <= curr_file_data@.len(),
                curr_file_data@.map_values(|d: FileData| d@) == data,
                has_updated@.map_values(|p: String| p@) == changed_paths(data.take(i as int), cache@),
                curr_paths@.map_values(|p: String| p@) =~= data.take(i as int).map_values(|d: (Seq<char>, i128)| d.0),
            decreases curr_file_data@.len() - i,
        {
            let fd = &curr_file_data[i];
            assert(data[i as int] == fd@);
            assert(data.take(i + 1).drop_last() =~= data.take(i as int));
            assert(data.take(i + 1).last() == fd@);
            let cached_dm = cache.get_path_date_modified(fd.path.as_str());
            let changed = match cached_dm {
                Some(dm) => fd.date_modified > dm,
                None => true,
            };
            if changed {
                let ghost before = has_updated@;
                has_updated.push(fd.path.clone());
                assert(has_updated@.map_values(|p: String| p@) =~= before.map_values(|p: String| p@).push(fd.path@));
            }
            let ghost before_paths = curr_paths@;
            curr_paths.push(fd.path.clone());
            assert(curr_paths@.map_values(|p: String| p@) =~= before_paths.map_values(|p: String| p@).push(fd.path@));
            assert(data.take(i + 1).map_values(|d: (Seq<char>, i128)| d.0)
                =~= data.take(i as int).map_values(|d: (Seq<char>, i128)| d.0).push(fd.path@));
            i += 1;
        }
        assert(data.take(i as int) =~= data);
        let removed = cache.get_removed_paths(curr_paths.as_slice());
        let ghost updated_view = has_updated@.map_values(|p: String| p@);
        let ghost removed_view = removed@.map_values(|p: String| p@);
        let mut j: usize = 0;
        while j < removed.len()
            invariant
                j <= removed@.len(),
                removed_view == removed@.map_values(|p: String| p@),
                has_updated@.map_values(|p: String| p@) =~= updated_view + removed_view.take(j as int),
            decreases removed@.len() - j,
        {
            let ghost before = has_updated@;
            has_updated.push(removed[j].clone());
            assert(has_updated@.map_values(|p: String| p@) =~= before.map_values(|p: String| p@).push(removed@[j as int]@));
            assert(removed_view.take(j + 1) =~= removed_view.take(j as int).push(removed@[j as int]@));
            j += 1;
        }
        assert(removed_view.take(j as int) =~= removed_view);
        has_updated
    }
}

} // verus!
