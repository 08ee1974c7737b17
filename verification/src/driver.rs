//! The run over all files of a program, as a state machine.
//!
//! The grammar parser is not part of this library, so the run cannot be one
//! loop here. Instead the caller asks for the next file, parses it, and hands
//! back what the parser found; when no file is left it asks for the outcome.
//! Each step takes the state by value and returns the next one, or the failure
//! that ends the run.

use vstd::prelude::*;
use crate::diagnostics::lemma_views_concat;
use crate::diagnostics::lemma_views_push;
use crate::diagnostics::views;
use crate::diagnostics::Diagnostic;
use crate::diagnostics::DiagnosticView;
use crate::diagnostics::Location;
use crate::file_stack::FileStack;
use crate::file_stack::FileStackView;
use crate::files::find_file;
use crate::files::first_hit;
use crate::files::misses;
use crate::files::FileMap;
use crate::includes_graph::clone_chain;
use crate::includes_graph::GraphView;
use crate::includes_graph::IncludesGraph;
use crate::paths::joined;
use crate::version::check_custom_gates_version;
use crate::version::check_number_version;
use crate::version::custom_gates_minimum;
use crate::version::effective_version;
use crate::version::number_version_outcome;
use crate::version::parse_number_version;
use crate::version::parsed_version;
use crate::version::Version;

verus! {

/// A main component: the file that declares it, the byte range of its
/// expression, and whether that file carries the custom-gates pragma.
#[derive(Clone, Copy, Debug, PartialEq, Eq, Structural)]
pub struct MainComponent {
    pub file_id: usize,
    pub start: usize,
    pub end: usize,
    pub custom_gates: bool,
}

/// A file of the run: its path and its text. Its number is its place in the registry.
#[derive(Clone, Debug, PartialEq, Eq)]
pub struct SourceFile {
    pub path: String,
    pub src: String,
}

impl View for SourceFile {
    type V = (Seq<char>, Seq<char>);

    open spec fn view(&self) -> (Seq<char>, Seq<char>) {
        (self.path@, self.src@)
    }
}

/// The views of a registry of files, in order.
pub open spec fn file_views(list: Seq<SourceFile>) -> Seq<(Seq<char>, Seq<char>)> {
    Seq::new(list.len(), |i: int| list[i]@)
}

/// What the grammar parser found in one file, as far as the run depends on it.
#[derive(Clone, Debug, PartialEq, Eq)]
pub struct ParsedFile {
    /// The names that the file pulls in, as written.
    pub includes: Vec<String>,
    /// The byte range of the main component, if the file declares one.
    pub main_component: Option<(usize, usize)>,
    /// Whether the file carries the custom-gates pragma.
    pub custom_gates: bool,
    /// Whether the file declares custom gates of its own.
    pub custom_gates_declared: bool,
    /// The compiler version that the file asks for.
    pub compiler_version: Option<Version>,
}

/// The mathematical content of a [`ParsedFile`].
pub struct ParsedFileView {
    pub includes: Seq<Seq<char>>,
    pub main_component: Option<(usize, usize)>,
    pub custom_gates: bool,
    pub custom_gates_declared: bool,
    pub compiler_version: Option<Version>,
}

impl View for ParsedFile {
    type V = ParsedFileView;

    open spec fn view(&self) -> ParsedFileView {
        ParsedFileView {
            includes: self.includes.deep_view(),
            main_component: self.main_component,
            custom_gates: self.custom_gates,
            custom_gates_declared: self.custom_gates_declared,
            compiler_version: self.compiler_version,
        }
    }
}

/// A file that was handed out for parsing.
#[derive(Clone, Debug, PartialEq, Eq)]
pub struct PendingFile {
    pub file_id: usize,
    pub path: String,
    pub src: String,
}

/// The mathematical content of a [`PendingFile`].
pub struct PendingFileView {
    pub file_id: usize,
    pub path: Seq<char>,
    pub src: Seq<char>,
}

impl View for PendingFile {
    type V = PendingFileView;

    open spec fn view(&self) -> PendingFileView {
        PendingFileView { file_id: self.file_id, path: self.path@, src: self.src@ }
    }
}

/// How a run failed: the files registered up to then, and every diagnostic
/// of the run, the warnings first.
#[derive(Debug, PartialEq, Eq)]
pub struct Failure {
    pub files: Vec<SourceFile>,
    pub diagnostics: Vec<Diagnostic>,
}

/// The mathematical content of a [`Failure`].
pub struct FailureView {
    pub files: Seq<(Seq<char>, Seq<char>)>,
    pub diagnostics: Seq<DiagnosticView>,
}

impl View for Failure {
    type V = FailureView;

    open spec fn view(&self) -> FailureView {
        FailureView { files: file_views(self.files@), diagnostics: views(self.diagnostics@) }
    }
}

/// What a run that passed every check hands on: the files, the one main
/// component, and the warnings.
#[derive(Debug, PartialEq, Eq)]
pub struct Outcome {
    pub files: Vec<SourceFile>,
    pub main_component: MainComponent,
    pub warnings: Vec<Diagnostic>,
}

/// The mathematical content of an [`Outcome`].
pub struct OutcomeView {
    pub files: Seq<(Seq<char>, Seq<char>)>,
    pub main_component: MainComponent,
    pub warnings: Seq<DiagnosticView>,
}

impl View for Outcome {
    type V = OutcomeView;

    open spec fn view(&self) -> OutcomeView {
        OutcomeView {
            files: file_views(self.files@),
            main_component: self.main_component,
            warnings: views(self.warnings@),
        }
    }
}

/// The state of a run between two steps.
pub struct Driver {
    version: Version,
    link_libraries: Vec<String>,
    file_stack: FileStack,
    includes_graph: IncludesGraph,
    files: Vec<SourceFile>,
    main_components: Vec<MainComponent>,
    warnings: Vec<Diagnostic>,
}

/// The mathematical content of a [`Driver`].
pub struct DriverView {
    /// The version of the running compiler.
    pub version: Version,
    /// The library directories, in the order in which they are searched.
    pub link_libraries: Seq<Seq<char>>,
    pub stack: FileStackView,
    pub graph: GraphView,
    /// The files registered so far, by number.
    pub files: Seq<(Seq<char>, Seq<char>)>,
    /// The main components found so far, in the order found.
    pub main_components: Seq<MainComponent>,
    /// The warnings collected so far.
    pub warnings: Seq<DiagnosticView>,
}

/// What the next step of a run is.
pub enum Step {
    /// Parse this file and hand the result to `file_parsed`.
    Parse { driver: Driver, file: PendingFile },
    /// No file is left; ask for the outcome with `finish`.
    Drained { driver: Driver },
    /// The file that was due exists under no search directory.
    Failed { failure: Failure },
}

/// The mathematical content of a [`Step`].
pub enum StepView {
    Parse { driver: DriverView, file: PendingFileView },
    Drained { driver: DriverView },
    Failed { failure: FailureView },
}

impl View for Step {
    type V = StepView;

    open spec fn view(&self) -> StepView {
        match *self {
            Step::Parse { driver, file } => StepView::Parse { driver: driver@, file: file@ },
            Step::Drained { driver } => StepView::Drained { driver: driver@ },
            Step::Failed { failure } => StepView::Failed { failure: failure@ },
        }
    }
}

/// The places of the main components, in order.
pub open spec fn main_sites(mains: Seq<MainComponent>) -> Seq<Location> {
    Seq::new(
        mains.len(),
        |i: int| Location { file_id: mains[i].file_id, start: mains[i].start, end: mains[i].end },
    )
}

/// One missing-pragma error for each chain, in order.
pub open spec fn pragma_errors(chains: Seq<Seq<Seq<char>>>) -> Seq<DiagnosticView> {
    Seq::new(chains.len(), |i: int| DiagnosticView::MissingCustomGatesPragma { chain: chains[i] })
}

impl DriverView {
    /// The state of a run that starts at `file` under the compiler `version`.
    pub open spec fn initial(file: Seq<char>, version: Seq<char>, link_libraries: Seq<Seq<char>>) -> DriverView {
        DriverView {
            version: parsed_version(version),
            link_libraries,
            stack: FileStackView::initial(file),
            graph: GraphView::empty(),
            files: Seq::empty(),
            main_components: Seq::empty(),
            warnings: Seq::empty(),
        }
    }

    /// Where a file that is due is looked up: as it stands, then under each library.
    pub open spec fn search_dirs(self) -> Seq<Seq<char>> {
        seq![Seq::empty()] + self.link_libraries
    }

    /// The failure of this run on the errors `errors`: they follow the warnings collected so far.
    pub open spec fn failure(self, errors: Seq<DiagnosticView>) -> FailureView {
        FailureView { files: self.files, diagnostics: self.warnings + errors }
    }

    /// The next step: the worklist hands out a file, which is looked up under
    /// the search directories and registered under the next free number.
    pub open spec fn next_step(self, files: Map<Seq<char>, Seq<char>>) -> StepView {
        let taken = DriverView { stack: self.stack.after_take(), ..self };
        match self.stack.next() {
            None => StepView::Drained { driver: taken },
            Some(due) => match first_hit(self.search_dirs(), due, files.dom()) {
                None => StepView::Failed { failure: self.failure(misses(self.search_dirs(), due)) },
                Some(i) => {
                    let path = joined(self.search_dirs()[i], due);
                    StepView::Parse {
                        driver: DriverView { files: self.files.push((path, files[path])), ..taken },
                        file: PendingFileView { file_id: self.files.len() as usize, path, src: files[path] },
                    }
                },
            },
        }
    }

    /// The state once the file has its node in the graph and its main
    /// component, if it has one, is on record.
    pub open spec fn with_file(self, file: PendingFileView, parsed: ParsedFileView) -> DriverView {
        DriverView {
            main_components: match parsed.main_component {
                Some((start, end)) => self.main_components.push(
                    MainComponent { file_id: file.file_id, start, end, custom_gates: parsed.custom_gates },
                ),
                None => self.main_components,
            },
            graph: self.graph.with_node(file.path, parsed.custom_gates, parsed.custom_gates_declared),
            ..self
        }
    }

    /// The state once the names `includes` are resolved, in order: each file
    /// found goes to the worklist and gives an edge from the node added last.
    /// The first name that resolves to nothing is the error.
    pub open spec fn with_includes(self, includes: Seq<Seq<char>>, files: Set<Seq<char>>) -> Result<
        DriverView,
        DiagnosticView,
    >
        decreases includes.len(),
    {
        if includes.len() == 0 {
            Ok(self)
        } else {
            match self.stack.lookup(includes[0], self.link_libraries, files) {
                None => Err(DiagnosticView::IncludeNotFound { name: includes[0] }),
                Some(path) => DriverView {
                    stack: self.stack.after_add(includes[0], self.link_libraries, files),
                    graph: self.graph.with_edge(path),
                    ..self
                }.with_includes(includes.skip(1), files),
            }
        }
    }

    /// The state once the version gates have passed: the version that the file
    /// asks for is held against the compiler's, and a file with the
    /// custom-gates pragma needs the minimum version for it. A failed gate
    /// gives the diagnostics of the run up to and with the error.
    pub open spec fn with_versions(self, file: PendingFileView, parsed: ParsedFileView) -> Result<
        DriverView,
        FailureView,
    > {
        match number_version_outcome(file.path, parsed.compiler_version, self.version) {
            Err(error) => Err(self.failure(seq![error])),
            Ok(warnings) => {
                let warned = DriverView { warnings: self.warnings + warnings, ..self };
                let effective = effective_version(parsed.compiler_version, self.version);
                if parsed.custom_gates && !custom_gates_minimum().le(effective) {
                    Err(
                        warned.failure(
                            seq![
                                DiagnosticView::CustomGatesVersionTooLow {
                                    path: file.path,
                                    minimum: custom_gates_minimum(),
                                    effective,
                                },
                            ],
                        ),
                    )
                } else {
                    Ok(warned)
                }
            },
        }
    }

    /// The state after the file `file` has been parsed with the result `parsed`.
    pub open spec fn parsed_step(
        self,
        file: PendingFileView,
        parsed: ParsedFileView,
        files: Set<Seq<char>>,
    ) -> Result<DriverView, FailureView> {
        match self.with_file(file, parsed).with_includes(parsed.includes, files) {
            Err(error) => Err(self.failure(seq![error])),
            Ok(resolved) => resolved.with_versions(file, parsed),
        }
    }

    /// The outcome of a run whose worklist is drained: exactly one main
    /// component is owed, and no chain of files may lack the pragma.
    pub open spec fn outcome(self) -> Result<OutcomeView, FailureView> {
        if self.main_components.len() == 0 {
            Err(self.failure(seq![DiagnosticView::NoMainComponent]))
        } else if self.main_components.len() > 1 {
            Err(
                self.failure(
                    seq![DiagnosticView::MultipleMainComponents { sites: main_sites(self.main_components) }],
                ),
            )
        } else if self.graph.problematic_paths().len() > 0 {
            Err(self.failure(pragma_errors(self.graph.problematic_paths())))
        } else {
            Ok(
                OutcomeView {
                    files: self.files,
                    main_component: self.main_components[0],
                    warnings: self.warnings,
                },
            )
        }
    }
}

/// Every diagnostic of `list` is a warning.
pub open spec fn all_warnings(list: Seq<DiagnosticView>) -> bool {
    forall|i: int| 0 <= i < list.len() ==> (#[trigger] list[i]).is_warning()
}

/// No diagnostic of `list` is a warning.
pub open spec fn all_errors(list: Seq<DiagnosticView>) -> bool {
    forall|i: int| 0 <= i < list.len() ==> !(#[trigger] list[i]).is_warning()
}

impl FailureView {
    /// The diagnostics are the warnings `warnings`, and after them at least
    /// one error and nothing but errors.
    pub open spec fn ends_after(self, warnings: Seq<DiagnosticView>) -> bool {
        exists|errors: Seq<DiagnosticView>|
            #![trigger all_errors(errors)]
            self.diagnostics == warnings + errors && errors.len() > 0 && all_errors(errors)
    }
}

/// The diagnostics `warnings` followed by the errors `errors` end a run after `warnings`.
proof fn lemma_ends_after(failure: FailureView, warnings: Seq<DiagnosticView>, errors: Seq<DiagnosticView>)
    requires
        failure.diagnostics == warnings + errors,
        errors.len() > 0,
        all_errors(errors),
    ensures
        failure.ends_after(warnings),
{
}

/// A step that hands out a file or finds none left keeps the warnings; one
/// that fails reports them, followed by the lookups that failed.
pub proof fn lemma_next_step_keeps_warnings(driver: DriverView, files: Map<Seq<char>, Seq<char>>)
    ensures
        match driver.next_step(files) {
            StepView::Parse { driver: next, file } => next.warnings == driver.warnings && next.files
                == driver.files.push((file.path, file.src)) && file.file_id == driver.files.len() as usize,
            StepView::Drained { driver: next } => next.warnings == driver.warnings && next.files
                == driver.files,
            StepView::Failed { failure } => failure.files == driver.files && failure.ends_after(
                driver.warnings,
            ),
        },
{
    match driver.stack.next() {
        None => {},
        Some(due) => {
            let dirs = driver.search_dirs();
            match first_hit(dirs, due, files.dom()) {
                None => {
                    let errors = misses(dirs, due);
                    assert(dirs.len() > 0);
                    assert(all_errors(errors));
                    lemma_ends_after(driver.failure(errors), driver.warnings, errors);
                },
                Some(i) => {},
            }
        },
    }
}

/// Resolving names changes neither the files nor the warnings.
proof fn lemma_with_includes_keeps(driver: DriverView, includes: Seq<Seq<char>>, files: Set<Seq<char>>)
    ensures
        match driver.with_includes(includes, files) {
            Ok(next) => next.warnings == driver.warnings && next.files == driver.files && next.version
                == driver.version,
            Err(error) => !error.is_warning(),
        },
    decreases includes.len(),
{
    if includes.len() > 0 {
        if let Some(path) = driver.stack.lookup(includes[0], driver.link_libraries, files) {
            lemma_with_includes_keeps(
                DriverView {
                    stack: driver.stack.after_add(includes[0], driver.link_libraries, files),
                    graph: driver.graph.with_edge(path),
                    ..driver
                },
                includes.skip(1),
                files,
            );
        }
    }
}

/// Taking in a parsed file adds warnings at the end and never drops one. A
/// failure reports the warnings of the run, those of this file too,
/// followed by the one error.
pub proof fn lemma_parsed_step_keeps_warnings(
    driver: DriverView,
    file: PendingFileView,
    parsed: ParsedFileView,
    files: Set<Seq<char>>,
)
    requires
        all_warnings(driver.warnings),
    ensures
        match driver.parsed_step(file, parsed, files) {
            Ok(next) => next.files == driver.files && all_warnings(next.warnings)
                && driver.warnings.is_prefix_of(next.warnings),
            Err(failure) => failure.files == driver.files && exists|warnings: Seq<DiagnosticView>|
                #![trigger failure.ends_after(warnings)]
                driver.warnings.is_prefix_of(warnings) && all_warnings(warnings) && failure.ends_after(warnings),
        },
{
    let registered = driver.with_file(file, parsed);
    lemma_with_includes_keeps(registered, parsed.includes, files);
    assert(driver.warnings.is_prefix_of(driver.warnings));
    match registered.with_includes(parsed.includes, files) {
        Err(error) => {
            let failure = driver.failure(seq![error]);
            assert(all_errors(seq![error]));
            lemma_ends_after(failure, driver.warnings, seq![error]);
        },
        Ok(resolved) => {
            match number_version_outcome(file.path, parsed.compiler_version, resolved.version) {
                Err(error) => {
                    let failure = resolved.failure(seq![error]);
                    assert(all_errors(seq![error]));
                    lemma_ends_after(failure, driver.warnings, seq![error]);
                },
                Ok(warnings) => {
                    let warned = DriverView { warnings: resolved.warnings + warnings, ..resolved };
                    assert(all_warnings(warned.warnings)) by {
                        assert forall|i: int| 0 <= i < warned.warnings.len() implies (#[trigger] warned.warnings[i]).is_warning() by {
                            if i < driver.warnings.len() {
                                assert(warned.warnings[i] == driver.warnings[i]);
                            } else {
                                assert(warned.warnings[i] == warnings[i - driver.warnings.len()]);
                            }
                        }
                    }
                    assert(driver.warnings.is_prefix_of(warned.warnings)) by {
                        assert(warned.warnings.take(driver.warnings.len() as int) =~= driver.warnings);
                    }
                    let effective = effective_version(parsed.compiler_version, resolved.version);
                    if parsed.custom_gates && !custom_gates_minimum().le(effective) {
                        let error = DiagnosticView::CustomGatesVersionTooLow {
                            path: file.path,
                            minimum: custom_gates_minimum(),
                            effective,
                        };
                        let failure = warned.failure(seq![error]);
                        assert(all_errors(seq![error]));
                        lemma_ends_after(failure, warned.warnings, seq![error]);
                    }
                },
            }
        },
    }
}

/// A run that passes ends with exactly one main component and no chain at
/// fault, and hands on all its warnings; one that fails reports them,
/// followed by its errors.
pub proof fn lemma_outcome(driver: DriverView)
    ensures
        match driver.outcome() {
            Ok(outcome) => driver.main_components == seq![outcome.main_component]
                && driver.graph.problematic_paths().len() == 0 && outcome.warnings == driver.warnings
                && outcome.files == driver.files,
            Err(failure) => failure.files == driver.files && failure.ends_after(driver.warnings),
        },
{
    match driver.outcome() {
        Ok(outcome) => {
            assert(driver.main_components =~= seq![outcome.main_component]);
        },
        Err(failure) => {
            let errors = if driver.main_components.len() == 0 {
                seq![DiagnosticView::NoMainComponent]
            } else if driver.main_components.len() > 1 {
                seq![DiagnosticView::MultipleMainComponents { sites: main_sites(driver.main_components) }]
            } else {
                pragma_errors(driver.graph.problematic_paths())
            };
            assert(all_errors(errors));
            lemma_ends_after(failure, driver.warnings, errors);
        },
    }
}

impl View for Driver {
    type V = DriverView;

    closed spec fn view(&self) -> DriverView {
        DriverView {
            version: self.version,
            link_libraries: self.link_libraries.deep_view(),
            stack: self.file_stack@,
            graph: self.includes_graph@,
            files: file_views(self.files@),
            main_components: self.main_components@,
            warnings: views(self.warnings@),
        }
    }
}

/// The views of a registry that grew by one file.
proof fn lemma_file_views_push(list: Seq<SourceFile>, last: SourceFile)
    ensures
        file_views(list.push(last)) == file_views(list).push(last@),
{
    assert(file_views(list.push(last)) =~= file_views(list).push(last@));
}

/// The directories under which a file that is due is looked up: the empty
/// directory, then the libraries.
fn search_dirs(link_libraries: &Vec<String>) -> (dirs: Vec<String>)
    ensures
        dirs.deep_view() == seq![Seq::<char>::empty()] + link_libraries.deep_view(),
{
    let mut dirs: Vec<String> = Vec::new();
    dirs.push(String::new());
    let mut i: usize = 0;
    assert(dirs.deep_view() =~= seq![Seq::<char>::empty()] + link_libraries.deep_view().take(0));
    while i < link_libraries.len()
        invariant
            i <= link_libraries.len(),
            dirs@.len() == i + 1,
            dirs.deep_view() == seq![Seq::<char>::empty()] + link_libraries.deep_view().take(i as int),
        decreases link_libraries.len() - i,
    {
        let ghost before = dirs.deep_view();
        dirs.push(link_libraries[i].clone());
        assert(dirs.deep_view() =~= before.push(link_libraries@[i as int]@));
        assert(before.push(link_libraries@[i as int]@) =~= seq![Seq::<char>::empty()]
            + link_libraries.deep_view().take(i + 1));
        i = i + 1;
    }
    assert(link_libraries.deep_view().take(i as int) =~= link_libraries.deep_view());
    dirs
}

/// The diagnostic for a program with more than one main component: it names
/// the place of each, the first one found first.
pub fn produce_report_with_main_components(main_components: &Vec<MainComponent>) -> (report: Diagnostic)
    ensures
        report@ == (DiagnosticView::MultipleMainComponents { sites: main_sites(main_components@) }),
{
    let mut sites: Vec<Location> = Vec::new();
    let mut idx: usize = 0;
    while idx < main_components.len()
        invariant
            idx <= main_components.len(),
            sites@ == main_sites(main_components@.take(idx as int)),
        decreases main_components.len() - idx,
    {
        let main = &main_components[idx];
        sites.push(Location { file_id: main.file_id, start: main.start, end: main.end });
        assert(sites@ =~= main_sites(main_components@.take(idx + 1)));
        idx = idx + 1;
    }
    assert(main_components@.take(idx as int) =~= main_components@);
    Diagnostic::MultipleMainComponents { sites }
}

/// One missing-pragma error for each chain.
fn produce_pragma_errors(chains: &Vec<Vec<String>>) -> (errors: Vec<Diagnostic>)
    ensures
        views(errors@) == pragma_errors(chains.deep_view()),
{
    let mut errors: Vec<Diagnostic> = Vec::new();
    let mut k: usize = 0;
    assert(views(errors@) =~= pragma_errors(chains.deep_view().take(0)));
    while k < chains.len()
        invariant
            k <= chains.len(),
            views(errors@) == pragma_errors(chains.deep_view().take(k as int)),
        decreases chains.len() - k,
    {
        let error = Diagnostic::MissingCustomGatesPragma { chain: clone_chain(&chains[k]) };
        proof {
            lemma_views_push(errors@, error);
            assert(views(errors@).push(error@) =~= pragma_errors(chains.deep_view().take(k + 1)));
        }
        errors.push(error);
        k = k + 1;
    }
    assert(chains.deep_view().take(k as int) =~= chains.deep_view());
    errors
}

impl Driver {
    /// The state of a run that starts at `file`, under a compiler of the
    /// version written in `version`, with the library directories `link_libraries`.
    pub fn new(file: String, version: &str, link_libraries: Vec<String>) -> (driver: Driver)
        ensures
            driver@ == DriverView::initial(file@, version@, link_libraries.deep_view()),
    {
        let driver = Driver {
            version: parse_number_version(version),
            link_libraries,
            file_stack: FileStack::new(file),
            includes_graph: IncludesGraph::new(),
            files: Vec::new(),
            main_components: Vec::new(),
            warnings: Vec::new(),
        };
        assert(driver@.files =~= Seq::empty());
        assert(driver@.warnings =~= Seq::empty());
        driver
    }

    /// The files registered so far, by number.
    pub fn files(&self) -> (files: &Vec<SourceFile>)
        ensures
            file_views(files@) == self@.files,
    {
        &self.files
    }

    /// The warnings collected so far.
    pub fn warnings(&self) -> (warnings: &Vec<Diagnostic>)
        ensures
            views(warnings@) == self@.warnings,
    {
        &self.warnings
    }

    /// Ends the run on `errors`.
    fn fail(self, errors: Vec<Diagnostic>) -> (failure: Failure)
        ensures
            failure@ == self@.failure(views(errors@)),
    {
        let mut errors = errors;
        let mut diagnostics = self.warnings;
        proof {
            lemma_views_concat(diagnostics@, errors@);
        }
        diagnostics.append(&mut errors);
        Failure { files: self.files, diagnostics }
    }

    /// Takes the next file from the worklist and looks it up. A file that is
    /// found is registered and handed out for parsing.
    pub fn next_file(self, files_map: &FileMap) -> (step: Step)
        ensures
            step@ == self@.next_step(files_map@),
    {
        let mut this = self;
        match this.file_stack.take_next() {
            None => Step::Drained { driver: this },
            Some(crr_file) => {
                let dirs = search_dirs(&this.link_libraries);
                let dirs = dirs.as_slice();
                assert(dirs.deep_view() =~= self@.search_dirs());
                match find_file(crr_file.as_str(), dirs, files_map) {
                    Ok((path, src, _)) => {
                        let file_id: usize = this.files.len();
                        let file = SourceFile { path: path.clone(), src: src.clone() };
                        proof {
                            lemma_file_views_push(this.files@, file);
                        }
                        this.files.push(file);
                        Step::Parse { driver: this, file: PendingFile { file_id, path, src } }
                    },
                    Err(reports) => Step::Failed { failure: this.fail(reports) },
                }
            },
        }
    }

    /// Takes in what the parser found in `file`. The file gets its node in
    /// the graph, and its main component is recorded. Each name it pulls in
    /// is resolved, pushed on the worklist and linked to the node. Then the
    /// version gates are held against it. The run fails on the first name
    /// that resolves to nothing, or else on the first gate that does not pass.
    pub fn file_parsed(self, file: &PendingFile, parsed: &ParsedFile, files_map: &FileMap) -> (r: Result<
        Driver,
        Failure,
    >)
        ensures
            match self@.parsed_step(file@, parsed@, files_map@.dom()) {
                Ok(next) => r is Ok && r->Ok_0@ == next,
                Err(failure) => r is Err && r->Err_0@ == failure,
            },
    {
        let mut this = self;
        if let Some((start, end)) = parsed.main_component {
            this.main_components.push(
                MainComponent { file_id: file.file_id, start, end, custom_gates: parsed.custom_gates },
            );
        }
        this.includes_graph.add_node(file.path.clone(), parsed.custom_gates, parsed.custom_gates_declared);
        assert(this@ == self@.with_file(file@, parsed@));

        let ghost names = parsed@.includes;
        let ghost files = files_map@.dom();
        let ghost registered = this@;
        let mut k: usize = 0;
        proof {
            assert(names.skip(0) =~= names);
        }
        while k < parsed.includes.len()
            invariant
                k <= parsed.includes.len(),
                names == parsed@.includes,
                files == files_map@.dom(),
                registered == self@.with_file(file@, parsed@),
                this@.graph.nodes.len() > 0,
                this@.files == self@.files,
                this@.warnings == self@.warnings,
                this@.with_includes(names.skip(k as int), files) == registered.with_includes(names, files),
            decreases parsed.includes.len() - k,
        {
            let ghost before = this@;
            proof {
                assert(names.skip(k as int)[0] == parsed.includes@[k as int]@);
                assert(names.skip(k as int).skip(1) =~= names.skip(k + 1));
            }
            match this.file_stack.add_include(
                parsed.includes[k].as_str(),
                this.link_libraries.as_slice(),
                files_map,
            ) {
                Ok(path_include) => {
                    this.includes_graph.add_edge(path_include);
                },
                Err(e) => {
                    let mut errors: Vec<Diagnostic> = Vec::new();
                    proof {
                        lemma_views_push(errors@, e);
                        assert(views(errors@).push(e@) =~= seq![e@]);
                        assert(before.stack.lookup(names.skip(k as int)[0], before.link_libraries, files) is None);
                        assert(before.with_includes(names.skip(k as int), files) == Err::<
                            DriverView,
                            DiagnosticView,
                        >(e@));
                    }
                    errors.push(e);
                    return Err(this.fail(errors));
                },
            }
            k = k + 1;
        }
        let ghost resolved = this@;

        match check_number_version(file.path.clone(), parsed.compiler_version, this.version) {
            Ok(mut warnings) => {
                proof {
                    lemma_views_concat(this.warnings@, warnings@);
                }
                this.warnings.append(&mut warnings);
            },
            Err(e) => {
                let mut errors: Vec<Diagnostic> = Vec::new();
                proof {
                    lemma_views_push(errors@, e);
                    assert(views(errors@).push(e@) =~= seq![e@]);
                }
                errors.push(e);
                return Err(this.fail(errors));
            },
        }
        if parsed.custom_gates {
            match check_custom_gates_version(file.path.clone(), parsed.compiler_version, this.version) {
                Ok(()) => {},
                Err(e) => {
                    let mut errors: Vec<Diagnostic> = Vec::new();
                    proof {
                        lemma_views_push(errors@, e);
                        assert(views(errors@).push(e@) =~= seq![e@]);
                    }
                    errors.push(e);
                    return Err(this.fail(errors));
                },
            }
        }
        Ok(this)
    }

    /// The outcome of the run once the worklist is drained. Exactly one main
    /// component is owed: none is an error, and more than one an error that
    /// names them all. Then every chain of files that lacks the pragma is
    /// an error, all of them reported together.
    pub fn finish(self) -> (r: Result<Outcome, Failure>)
        ensures
            match self@.outcome() {
                Ok(outcome) => r is Ok && r->Ok_0@ == outcome,
                Err(failure) => r is Err && r->Err_0@ == failure,
            },
    {
        if self.main_components.len() == 0 {
            let mut errors: Vec<Diagnostic> = Vec::new();
            errors.push(Diagnostic::NoMainComponent);
            assert(views(errors@) =~= seq![DiagnosticView::NoMainComponent]);
            Err(self.fail(errors))
        } else if self.main_components.len() > 1 {
            let report = produce_report_with_main_components(&self.main_components);
            let mut errors: Vec<Diagnostic> = Vec::new();
            proof {
                lemma_views_push(errors@, report);
                assert(views(errors@).push(report@) =~= seq![report@]);
            }
            errors.push(report);
            Err(self.fail(errors))
        } else {
            let chains = self.includes_graph.get_problematic_paths();
            if chains.len() > 0 {
                let errors = produce_pragma_errors(&chains);
                Err(self.fail(errors))
            } else {
                let main_component = self.main_components[0];
                Ok(Outcome { files: self.files, main_component, warnings: self.warnings })
            }
        }
    }
}

} // verus!
