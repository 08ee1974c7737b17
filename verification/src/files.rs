//! The sources of a run: a map from path to text that the embedder supplies
//! whole, and the lookup of a file in it under a list of directories.

use vstd::prelude::*;
use vstd::hash_map::StringHashMap;
use crate::diagnostics::Diagnostic;
use crate::diagnostics::DiagnosticView;
use crate::paths::join_path;
use crate::paths::joined;

verus! {

/// The files that exist, each path with the text stored under it.
pub struct FileMap {
    files: StringHashMap<String>,
}

impl View for FileMap {
    type V = Map<Seq<char>, Seq<char>>;

    closed spec fn view(&self) -> Map<Seq<char>, Seq<char>> {
        self.files@.map_values(|text: String| text@)
    }
}

impl FileMap {
    /// A map without files.
    pub fn new() -> (map: FileMap)
        ensures
            map@ == Map::<Seq<char>, Seq<char>>::empty(),
    {
        let map = FileMap { files: StringHashMap::new() };
        assert(map@ =~= Map::<Seq<char>, Seq<char>>::empty());
        map
    }

    /// Stores `text` under `path`, in place of what was there.
    pub fn insert(&mut self, path: String, text: String)
        ensures
            final(self)@ == old(self)@.insert(path@, text@),
    {
        self.files.insert(path, text);
        assert(self@ =~= old(self)@.insert(path@, text@));
    }

    /// Whether a file exists under `path`.
    pub fn contains(&self, path: &str) -> (b: bool)
        ensures
            b == self@.contains_key(path@),
    {
        self.files.contains_key(path)
    }

    /// The text stored under `path`.
    pub fn get(&self, path: &str) -> (text: Option<&String>)
        ensures
            match text {
                Some(t) => self@.contains_key(path@) && t@ == self@[path@],
                None => !self@.contains_key(path@),
            },
    {
        self.files.get(path)
    }
}

/// The index of the first directory of `dirs` under which `file` exists.
pub open spec fn first_hit(dirs: Seq<Seq<char>>, file: Seq<char>, files: Set<Seq<char>>) -> Option<int>
    decreases dirs.len(),
{
    if dirs.len() == 0 {
        None
    } else if files.contains(joined(dirs[0], file)) {
        Some(0)
    } else {
        match first_hit(dirs.skip(1), file, files) {
            Some(i) => Some(i + 1),
            None => None,
        }
    }
}

/// The first hit is a hit, and no directory before it is one; where there is
/// none, no directory is a hit.
pub proof fn lemma_first_hit(dirs: Seq<Seq<char>>, file: Seq<char>, files: Set<Seq<char>>)
    ensures
        match first_hit(dirs, file, files) {
            Some(i) => {
                &&& 0 <= i < dirs.len()
                &&& files.contains(joined(dirs[i], file))
                &&& forall|j: int| 0 <= j < i ==> !files.contains(joined(#[trigger] dirs[j], file))
            },
            None => forall|j: int| 0 <= j < dirs.len() ==> !files.contains(joined(#[trigger] dirs[j], file)),
        },
    decreases dirs.len(),
{
    if dirs.len() > 0 && !files.contains(joined(dirs[0], file)) {
        let rest = dirs.skip(1);
        lemma_first_hit(rest, file, files);
        match first_hit(rest, file, files) {
            Some(i) => {
                assert(rest[i] == dirs[i + 1]);
                assert forall|j: int| 0 <= j < i + 1 implies !files.contains(joined(#[trigger] dirs[j], file)) by {
                    if j > 0 {
                        assert(rest[j - 1] == dirs[j]);
                    }
                }
            },
            None => {
                assert forall|j: int| 0 <= j < dirs.len() implies !files.contains(joined(#[trigger] dirs[j], file)) by {
                    if j > 0 {
                        assert(rest[j - 1] == dirs[j]);
                    }
                }
            },
        }
    }
}

/// One failed lookup for each directory of `dirs`, in order.
pub open spec fn misses(dirs: Seq<Seq<char>>, file: Seq<char>) -> Seq<DiagnosticView> {
    Seq::new(dirs.len(), |i: int| DiagnosticView::FileNotFound { path: joined(dirs[i], file) })
}

/// Looks `path` up in the file map.
pub fn open_file(path: &str, files_map: &FileMap) -> (r: Result<(String, String), Diagnostic>)
    ensures
        match r {
            Ok((found, text)) => files_map@.contains_key(path@) && found@ == path@ && text@
                == files_map@[path@],
            Err(e) => !files_map@.contains_key(path@) && e@ == (DiagnosticView::FileNotFound {
                path: path@,
            }),
        },
{
    match files_map.get(path) {
        Some(text) => Ok((path.to_owned(), text.clone())),
        None => Err(Diagnostic::FileNotFound { path: path.to_owned() }),
    }
}

/// Looks for `crr_file` under each directory of `ext_link_libraries` in turn.
/// The first directory under which it exists decides: the result is the
/// joined path, the text, and the joined path again. Where none holds it, the
/// result lists the failed lookup of every directory.
pub fn find_file(crr_file: &str, ext_link_libraries: &[String], files_map: &FileMap) -> (r: Result<
    (String, String, String),
    Vec<Diagnostic>,
>)
    ensures
        match first_hit(ext_link_libraries.deep_view(), crr_file@, files_map@.dom()) {
            Some(i) => r matches Ok((found, text, again)) && {
                let path = joined(ext_link_libraries.deep_view()[i], crr_file@);
                found@ == path && again@ == path && text@ == files_map@[path]
            },
            None => r matches Err(reports) && crate::diagnostics::views(reports@) == misses(
                ext_link_libraries.deep_view(),
                crr_file@,
            ),
        },
{
    let ghost dirs = ext_link_libraries.deep_view();
    let mut reports: Vec<Diagnostic> = Vec::new();
    let mut i: usize = 0;
    proof {
        assert(dirs.skip(0) =~= dirs);
        assert(crate::diagnostics::views(reports@) =~= misses(dirs.take(0), crr_file@));
    }
    while i < ext_link_libraries.len()
        invariant
            i <= ext_link_libraries.len(),
            dirs == ext_link_libraries.deep_view(),
            dirs.len() == ext_link_libraries.len(),
            crate::diagnostics::views(reports@) == misses(dirs.take(i as int), crr_file@),
            match first_hit(dirs.skip(i as int), crr_file@, files_map@.dom()) {
                Some(k) => first_hit(dirs, crr_file@, files_map@.dom()) == Some(i + k),
                None => first_hit(dirs, crr_file@, files_map@.dom()) is None,
            },
        decreases ext_link_libraries.len() - i,
    {
        let p = join_path(ext_link_libraries[i].as_str(), crr_file);
        proof {
            assert(dirs[i as int] == ext_link_libraries@[i as int]@);
            assert(dirs.skip(i as int)[0] == dirs[i as int]);
            assert(dirs.skip(i as int).skip(1) =~= dirs.skip(i + 1));
        }
        match open_file(p.as_str(), files_map) {
            Ok((new_path, new_src)) => {
                return Ok((new_path, new_src, p));
            },
            Err(e) => {
                let ghost before = reports@;
                reports.push(e);
                proof {
                    crate::diagnostics::lemma_views_push(before, e);
                    assert(misses(dirs.take(i as int), crr_file@).push(e@) =~= misses(
                        dirs.take(i + 1),
                        crr_file@,
                    ));
                }
            },
        }
        i = i + 1;
    }
    proof {
        assert(dirs.take(i as int) =~= dirs);
    }
    Err(reports)
}

} // verus!
