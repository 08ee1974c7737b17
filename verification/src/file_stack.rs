//! The worklist of files that are still to be parsed.
//!
//! Files wait on a stack, so the file found last is parsed next. A file that
//! has been handed out once is remembered and never handed out again, however
//! often it is pushed.

use vstd::prelude::*;
use vstd::hash_set::StringHashSet;
use crate::diagnostics::Diagnostic;
use crate::diagnostics::DiagnosticView;
use crate::files::FileMap;
use crate::paths::is_normal;
use crate::paths::join_path;
use crate::paths::lemma_normalized_is_normal;
use crate::paths::lemma_parent_is_normal;
use crate::paths::normalize_path;
use crate::paths::parent;
use crate::paths::parent_dir;
use crate::paths::resolved;

verus! {

/// The worklist.
pub struct FileStack {
    current_location: String,
    black_paths: StringHashSet,
    stack: Vec<String>,
}

/// The mathematical content of a [`FileStack`].
pub struct FileStackView {
    /// The directory of the file that was handed out last.
    pub current_location: Seq<char>,
    /// The files handed out so far.
    pub visited: Set<Seq<char>>,
    /// The files that wait, the next one last.
    pub pending: Seq<Seq<char>>,
}

/// The first path under which `name` exists, trying the directories of
/// `dirs` in order; each path is the normal form of the directory joined
/// with `name`.
pub open spec fn first_match(dirs: Seq<Seq<char>>, name: Seq<char>, files: Set<Seq<char>>) -> Option<
    Seq<char>,
>
    decreases dirs.len(),
{
    if dirs.len() == 0 {
        None
    } else if files.contains(resolved(dirs[0], name)) {
        Some(resolved(dirs[0], name))
    } else {
        first_match(dirs.skip(1), name, files)
    }
}

impl FileStackView {
    /// The worklist of a run that starts at `src`.
    pub open spec fn initial(src: Seq<char>) -> FileStackView {
        FileStackView { current_location: parent(src), visited: Set::empty(), pending: seq![src] }
    }

    /// Where a name is searched: first the current directory, then the libraries in the order given.
    pub open spec fn search_path(self, libraries: Seq<Seq<char>>) -> Seq<Seq<char>> {
        seq![self.current_location] + libraries
    }

    /// The file that `name` resolves to, if any.
    pub open spec fn lookup(self, name: Seq<char>, libraries: Seq<Seq<char>>, files: Set<Seq<char>>) -> Option<
        Seq<char>,
    > {
        first_match(self.search_path(libraries), name, files)
    }

    /// The worklist after `name` has been resolved: the file found is pushed
    /// unless it was handed out before.
    pub open spec fn after_add(
        self,
        name: Seq<char>,
        libraries: Seq<Seq<char>>,
        files: Set<Seq<char>>,
    ) -> FileStackView {
        match self.lookup(name, libraries, files) {
            Some(path) => if self.visited.contains(path) {
                self
            } else {
                FileStackView { pending: self.pending.push(path), ..self }
            },
            None => self,
        }
    }

    /// The file handed out next: the last pending one that was not handed out before.
    pub open spec fn next(self) -> Option<Seq<char>>
        decreases self.pending.len(),
    {
        if self.pending.len() == 0 {
            None
        } else if self.visited.contains(self.pending.last()) {
            FileStackView { pending: self.pending.drop_last(), ..self }.next()
        } else {
            Some(self.pending.last())
        }
    }

    /// The worklist after the next file has been handed out: it and all that
    /// waited above it are gone, it counts as visited, and its directory is
    /// the current one. Where no file is left, only the stack is emptied.
    pub open spec fn after_take(self) -> FileStackView
        decreases self.pending.len(),
    {
        if self.pending.len() == 0 {
            self
        } else if self.visited.contains(self.pending.last()) {
            FileStackView { pending: self.pending.drop_last(), ..self }.after_take()
        } else {
            FileStackView {
                current_location: parent(self.pending.last()),
                visited: self.visited.insert(self.pending.last()),
                pending: self.pending.drop_last(),
            }
        }
    }
}

/// One call on a worklist.
pub enum StackOp {
    /// A call of `take_next`.
    Take,
    /// A call of `add_include` with these arguments.
    Add { name: Seq<char>, libraries: Seq<Seq<char>>, files: Set<Seq<char>> },
}

impl FileStackView {
    /// The worklist after the call `op`.
    pub open spec fn after(self, op: StackOp) -> FileStackView {
        match op {
            StackOp::Take => self.after_take(),
            StackOp::Add { name, libraries, files } => self.after_add(name, libraries, files),
        }
    }

    /// The file that the call `op` hands out, if it hands one out.
    pub open spec fn handed_out(self, op: StackOp) -> Option<Seq<char>> {
        match op {
            StackOp::Take => self.next(),
            StackOp::Add { .. } => None,
        }
    }

    /// The worklist after the calls `ops`, made in order.
    pub open spec fn after_all(self, ops: Seq<StackOp>) -> FileStackView
        decreases ops.len(),
    {
        if ops.len() == 0 {
            self
        } else {
            self.after_all(ops.drop_last()).after(ops.last())
        }
    }

    /// The files that the calls `ops` hand out, in order.
    pub open spec fn taken(self, ops: Seq<StackOp>) -> Seq<Seq<char>>
        decreases ops.len(),
    {
        if ops.len() == 0 {
            Seq::empty()
        } else {
            let before = self.taken(ops.drop_last());
            match self.after_all(ops.drop_last()).handed_out(ops.last()) {
                Some(path) => before.push(path),
                None => before,
            }
        }
    }
}

/// The search takes the first directory that has the file: a match at `i`
/// with none before it is the result, whatever comes after it.
pub proof fn lemma_first_match_is_first(dirs: Seq<Seq<char>>, name: Seq<char>, files: Set<Seq<char>>, i: int)
    requires
        0 <= i < dirs.len(),
        files.contains(resolved(dirs[i], name)),
        forall|j: int| 0 <= j < i ==> !files.contains(resolved(#[trigger] dirs[j], name)),
    ensures
        first_match(dirs, name, files) == Some(resolved(dirs[i], name)),
    decreases i,
{
    if i > 0 {
        let rest = dirs.skip(1);
        assert(rest[i - 1] == dirs[i]);
        assert forall|j: int| 0 <= j < i - 1 implies !files.contains(resolved(#[trigger] rest[j], name)) by {
            assert(rest[j] == dirs[j + 1]);
        }
        lemma_first_match_is_first(rest, name, files, i - 1);
        assert(!files.contains(resolved(dirs[0], name)));
    }
}

/// The search fails exactly where no directory has the file.
pub proof fn lemma_first_match_none(dirs: Seq<Seq<char>>, name: Seq<char>, files: Set<Seq<char>>)
    ensures
        first_match(dirs, name, files) is None <==> forall|j: int|
            0 <= j < dirs.len() ==> !files.contains(resolved(#[trigger] dirs[j], name)),
    decreases dirs.len(),
{
    if dirs.len() > 0 {
        let rest = dirs.skip(1);
        lemma_first_match_none(rest, name, files);
        if !files.contains(resolved(dirs[0], name)) {
            if first_match(rest, name, files) is None {
                assert forall|j: int| 0 <= j < dirs.len() implies !files.contains(
                    resolved(#[trigger] dirs[j], name),
                ) by {
                    if j > 0 {
                        assert(rest[j - 1] == dirs[j]);
                    }
                }
            } else {
                let j = choose|j: int| 0 <= j < rest.len() && files.contains(resolved(#[trigger] rest[j], name));
                assert(rest[j] == dirs[j + 1]);
            }
        }
    }
}

/// With the search path current directory, first library, second library: a
/// file that both libraries have and the current directory lacks is taken
/// from the first library.
pub proof fn lemma_search_order(
    stack: FileStackView,
    name: Seq<char>,
    first: Seq<char>,
    second: Seq<char>,
    files: Set<Seq<char>>,
)
    requires
        !files.contains(resolved(stack.current_location, name)),
        files.contains(resolved(first, name)),
        files.contains(resolved(second, name)),
    ensures
        stack.lookup(name, seq![first, second], files) == Some(resolved(first, name)),
{
    let dirs = stack.search_path(seq![first, second]);
    assert(dirs[0] == stack.current_location);
    assert(dirs[1] == first);
    assert forall|j: int| 0 <= j < 1 implies !files.contains(resolved(#[trigger] dirs[j], name)) by {}
    lemma_first_match_is_first(dirs, name, files, 1);
}

/// What the search finds is a file that exists, under a path in normal form.
pub proof fn lemma_first_match_is_normal(dirs: Seq<Seq<char>>, name: Seq<char>, files: Set<Seq<char>>)
    ensures
        first_match(dirs, name, files) matches Some(path) ==> is_normal(path) && files.contains(path),
    decreases dirs.len(),
{
    if dirs.len() > 0 {
        lemma_normalized_is_normal(crate::paths::joined(dirs[0], name));
        lemma_first_match_is_normal(dirs.skip(1), name, files);
    }
}

impl FileStackView {
    /// Every path that the worklist holds is in normal form.
    pub open spec fn all_normal(self) -> bool {
        &&& is_normal(self.current_location)
        &&& forall|i: int| 0 <= i < self.pending.len() ==> is_normal(#[trigger] self.pending[i])
        &&& forall|path: Seq<char>| #[trigger] self.visited.contains(path) ==> is_normal(path)
    }
}

/// A worklist that starts at a path in normal form holds paths in normal form.
pub proof fn lemma_initial_is_normal(src: Seq<char>)
    requires
        is_normal(src),
    ensures
        FileStackView::initial(src).all_normal(),
{
    lemma_parent_is_normal(src);
}

/// A worklist whose paths are in normal form keeps to it over every call.
pub proof fn lemma_stays_normal(stack: FileStackView, op: StackOp)
    requires
        stack.all_normal(),
    ensures
        stack.after(op).all_normal(),
    decreases stack.pending.len(),
{
    match op {
        StackOp::Take => {
            if stack.pending.len() > 0 {
                let last = stack.pending.last();
                let rest = FileStackView { pending: stack.pending.drop_last(), ..stack };
                assert(is_normal(last));
                assert forall|i: int| 0 <= i < rest.pending.len() implies is_normal(#[trigger] rest.pending[i]) by {
                    assert(rest.pending[i] == stack.pending[i]);
                }
                if stack.visited.contains(last) {
                    lemma_stays_normal(rest, op);
                } else {
                    lemma_parent_is_normal(last);
                }
            }
        },
        StackOp::Add { name, libraries, files } => {
            lemma_first_match_is_normal(stack.search_path(libraries), name, files);
        },
    }
}

/// What one `take_next` does to the set of visited files: the file handed
/// out was not in it and is added; where none is handed out, the set stays.
pub proof fn lemma_take_marks_visited(stack: FileStackView)
    ensures
        match stack.next() {
            Some(path) => !stack.visited.contains(path) && stack.after_take().visited
                == stack.visited.insert(path),
            None => stack.after_take().visited == stack.visited,
        },
    decreases stack.pending.len(),
{
    if stack.pending.len() > 0 && stack.visited.contains(stack.pending.last()) {
        lemma_take_marks_visited(FileStackView { pending: stack.pending.drop_last(), ..stack });
    }
}

/// No file is handed out twice. Over any calls of `take_next` and
/// `add_include`, in any order and from any worklist, the files handed out
/// are pairwise different, none of them had been visited at the start, and
/// the visited files at the end are those of the start and those handed out.
pub proof fn lemma_no_file_taken_twice(start: FileStackView, ops: Seq<StackOp>)
    ensures
        start.taken(ops).no_duplicates(),
        forall|k: int| 0 <= k < start.taken(ops).len() ==> !start.visited.contains(#[trigger] start.taken(ops)[k]),
        start.after_all(ops).visited == start.visited.union(start.taken(ops).to_set()),
    decreases ops.len(),
{
    broadcast use vstd::seq_lib::group_seq_properties;

    if ops.len() == 0 {
        assert(start.taken(ops).to_set() =~= Set::<Seq<char>>::empty());
        assert(start.visited.union(Set::<Seq<char>>::empty()) =~= start.visited);
    } else {
        let front = ops.drop_last();
        lemma_no_file_taken_twice(start, front);
        let mid = start.after_all(front);
        let before = start.taken(front);
        lemma_take_marks_visited(mid);
        match mid.handed_out(ops.last()) {
            Some(path) => {
                let all = before.push(path);
                assert(!mid.visited.contains(path));
                assert(!before.to_set().contains(path));
                assert forall|i: int, j: int| 0 <= i < all.len() && 0 <= j < all.len() && i != j implies all[i]
                    != all[j] by {
                    if i < before.len() && j < before.len() {
                    } else if i < before.len() {
                        assert(before.to_set().contains(before[i]));
                    } else {
                        assert(before.to_set().contains(before[j]));
                    }
                }
                assert(all.to_set() =~= before.to_set().insert(path)) by {
                    assert forall|p: Seq<char>| all.to_set().contains(p) <==> before.to_set().insert(
                        path,
                    ).contains(p) by {
                        if all.to_set().contains(p) {
                            let k = choose|k: int| 0 <= k < all.len() && all[k] == p;
                            if k < before.len() {
                                assert(before[k] == p);
                            }
                        }
                        if before.to_set().contains(p) {
                            let k = choose|k: int| 0 <= k < before.len() && before[k] == p;
                            assert(all[k] == p);
                        }
                        if p == path {
                            assert(all[before.len() as int] == p);
                        }
                    }
                }
                assert(mid.visited.insert(path) =~= start.visited.union(all.to_set()));
            },
            None => {},
        }
    }
}

impl View for FileStack {
    type V = FileStackView;

    closed spec fn view(&self) -> FileStackView {
        FileStackView {
            current_location: self.current_location@,
            visited: self.black_paths@,
            pending: self.stack.deep_view(),
        }
    }
}

/// The normal form of `name` joined to the directory `dir`, if the file map has a file there.
fn candidate(dir: &str, name: &str, files_map: &FileMap) -> (r: Option<String>)
    ensures
        match r {
            Some(path) => path@ == resolved(dir@, name@) && files_map@.dom().contains(path@),
            None => !files_map@.dom().contains(resolved(dir@, name@)),
        },
{
    let path = join_path(dir, name);
    let path = normalize_path(path.as_str());
    if files_map.contains(path.as_str()) {
        Some(path)
    } else {
        None
    }
}

impl FileStack {
    /// Pushes `path` unless it was handed out before.
    fn push_unvisited(&mut self, path: &String)
        ensures
            final(self)@ == if old(self)@.visited.contains(path@) {
                old(self)@
            } else {
                FileStackView { pending: old(self)@.pending.push(path@), ..old(self)@ }
            },
    {
        if !self.black_paths.contains(path.as_str()) {
            self.stack.push(path.clone());
            assert(self.stack.deep_view() =~= old(self).stack.deep_view().push(path@));
        }
    }

    /// The worklist of a run that starts at the file `src`.
    pub fn new(src: String) -> (stack: FileStack)
        ensures
            stack@ == FileStackView::initial(src@),
    {
        let location = parent_dir(src.as_str());
        let mut pending: Vec<String> = Vec::new();
        pending.push(src);
        let stack = FileStack { current_location: location, black_paths: StringHashSet::new(), stack: pending };
        assert(stack.stack.deep_view() =~= seq![src@]);
        stack
    }

    /// Resolves the name `name`: tries the directory of the current file and
    /// then each of `libraries`, and takes the first under which the file map
    /// has the file. The file found is pushed unless it was handed out
    /// before, and returned. Where no directory has it, the worklist stays as
    /// it is.
    pub fn add_include(&mut self, name: &str, libraries: &[String], files_map: &FileMap) -> (r: Result<
        String,
        Diagnostic,
    >)
        ensures
            final(self)@ == old(self)@.after_add(name@, libraries.deep_view(), files_map@.dom()),
            match old(self)@.lookup(name@, libraries.deep_view(), files_map@.dom()) {
                Some(path) => r is Ok && r->Ok_0@ == path,
                None => r is Err && r->Err_0@ == (DiagnosticView::IncludeNotFound { name: name@ }),
            },
    {
        let ghost dirs = self@.search_path(libraries.deep_view());
        let ghost files = files_map@.dom();
        proof {
            assert(dirs.skip(1) =~= libraries.deep_view());
        }
        if let Some(path) = candidate(self.current_location.as_str(), name, files_map) {
            self.push_unvisited(&path);
            return Ok(path);
        }
        let mut i: usize = 0;
        proof {
            assert(libraries.deep_view().skip(0) =~= libraries.deep_view());
        }
        while i < libraries.len()
            invariant
                i <= libraries.len(),
                *self == *old(self),
                files == files_map@.dom(),
                old(self)@.lookup(name@, libraries.deep_view(), files) == first_match(
                    libraries.deep_view().skip(i as int),
                    name@,
                    files,
                ),
            decreases libraries.len() - i,
        {
            proof {
                let rest = libraries.deep_view().skip(i as int);
                assert(rest[0] == libraries@[i as int]@);
                assert(rest.skip(1) =~= libraries.deep_view().skip(i + 1));
            }
            if let Some(path) = candidate(libraries[i].as_str(), name, files_map) {
                self.push_unvisited(&path);
                return Ok(path);
            }
            i = i + 1;
        }
        Err(Diagnostic::IncludeNotFound { name: name.to_owned() })
    }

    /// Hands out the file to parse next, or nothing when none is left. Files
    /// that were handed out before are skipped and dropped.
    pub fn take_next(&mut self) -> (r: Option<String>)
        ensures
            final(self)@ == old(self)@.after_take(),
            match old(self)@.next() {
                Some(path) => r is Some && r->Some_0@ == path,
                None => r is None,
            },
    {
        loop
            invariant
                self@.after_take() == old(self)@.after_take(),
                self@.next() == old(self)@.next(),
            decreases self.stack.len(),
        {
            let ghost before = self@;
            match self.stack.pop() {
                None => {
                    assert(before.pending.len() == 0);
                    return None;
                },
                Some(file) => {
                    proof {
                        assert(self.stack.deep_view() =~= before.pending.drop_last());
                        assert(file@ == before.pending.last());
                    }
                    if !self.black_paths.contains(file.as_str()) {
                        self.current_location = parent_dir(file.as_str());
                        self.black_paths.insert(file.clone());
                        return Some(file);
                    }
                },
            }
        }
    }
}

} // verus!
