//! The lint engine: for every file an index of its lines and a syntax
//! tree, the rules run on both, and the findings of all files in one list,
//! file after file.

use vstd::prelude::*;
use vstd::string::StringExecFns;
use vstd::utf8::encode_utf8;
use crate::lint::reporter::{human_text, json_text, render_human, to_json, JsonError};
use crate::lint::rules::{all_findings, run_all_rules};
use crate::lint::syntax::{is_listing, tree_of, NodeRecordView, SyntaxTree, SyntaxTreeView};
use crate::lint::text::{
    column_at, is_continuation, is_line_index, is_line_start, lemma_line_index_entry,
    lemma_line_index_unique, lemma_line_start_at, line_at, line_start_at, newlines_before,
    scalar_count, LINE_FEED,
};
use crate::lint::types::{diagnostics_view, Diagnostic, DiagnosticView, RuleCode, Severity};
use crate::tla_parser::{ParserError, TlaParser};

pub mod files;
pub mod laws;
pub mod listing;
pub mod paths;
pub mod reporter;
pub mod rules;
pub mod syntax;
pub mod text;
pub mod types;

verus! {

/// A file under analysis: its path, its text, and the byte offsets at which
/// its lines start. [`FileContext::new`] fills `line_starts` from `src`;
/// [`FileContext::wf`] says what they must be.
#[derive(Debug)]
pub struct FileContext {
    pub path: String,
    pub src: String,
    pub line_starts: Vec<usize>,
}

impl FileContext {
    /// The UTF-8 bytes of the text.
    pub open spec fn bytes(&self) -> Seq<u8> {
        encode_utf8(self.src@)
    }

    /// The recorded line starts are those of the text, and the text is
    /// shorter than the largest `usize`, so that a column always fits.
    pub open spec fn wf(&self) -> bool {
        &&& is_line_index(self.bytes(), self.line_starts@)
        &&& self.bytes().len() < usize::MAX
    }

    /// Indexes `src` in one scan: offset 0, and the offset after every line
    /// feed.
    pub fn new(path: String, src: String) -> (ctx: Self)
        requires
            encode_utf8(src@).len() < usize::MAX,
        ensures
            ctx.path == path,
            ctx.src == src,
            ctx.wf(),
    {
        let mut line_starts: Vec<usize> = Vec::new();
        line_starts.push(0);
        let bytes = src.as_str().as_bytes();
        let n = bytes.len();
        let mut i: usize = 0;
        assert(line_starts@[0] == 0);
        while i < n
            invariant
                i <= n,
                n == bytes@.len(),
                line_starts@.len() > 0,
                line_starts@[0] == 0,
                forall|a: int, b: int|
                    0 <= a < b < line_starts@.len() ==> line_starts@[a] < line_starts@[b],
                forall|a: int|
                    0 <= a < line_starts@.len() ==> is_line_start(
                        bytes@,
                        #[trigger] line_starts@[a] as int,
                    ) && line_starts@[a] <= i,
                forall|o: int|
                    o <= i && #[trigger] is_line_start(bytes@, o) ==> exists|a: int|
                        0 <= a < line_starts@.len() && #[trigger] line_starts@[a] == o,
            decreases n - i,
        {
            let ghost before = line_starts@;
            if bytes[i] == LINE_FEED {
                line_starts.push(i + 1);
                assert(forall|a: int| 0 <= a < before.len() ==> before[a] == line_starts@[a]);
            }
            proof {
                assert forall|o: int|
                    o <= i + 1 && #[trigger] is_line_start(bytes@, o) implies exists|a: int|
                    0 <= a < line_starts@.len() && #[trigger] line_starts@[a] == o by {
                    if o <= i {
                        let a = choose|a: int| 0 <= a < before.len() && #[trigger] before[a] == o;
                        assert(line_starts@[a] == o);
                    } else {
                        assert(line_starts@[line_starts@.len() - 1] == o);
                    }
                }
            }
            i += 1;
        }
        FileContext { path, src, line_starts }
    }

    /// The line and column of a byte offset, both counted from 1. The line
    /// is the one whose start is the greatest not beyond the offset; the
    /// column counts the characters between that start and the offset.
    pub fn position(&self, byte_offset: usize) -> (pos: (usize, usize))
        requires
            self.wf(),
            byte_offset <= self.bytes().len(),
        ensures
            pos.0 == line_at(self.bytes(), byte_offset as int),
            pos.1 == column_at(self.bytes(), byte_offset as int),
            self.line_starts@[pos.0 - 1] == line_start_at(self.bytes(), byte_offset as int),
    {
        let bytes = self.src.as_str().as_bytes();
        let mut lo: usize = 0;
        let mut hi: usize = self.line_starts.len();
        while hi - lo > 1
            invariant
                lo < hi <= self.line_starts@.len(),
                self.line_starts@[lo as int] <= byte_offset,
                hi < self.line_starts@.len() ==> self.line_starts@[hi as int] > byte_offset,
            decreases hi - lo,
        {
            let mid = lo + (hi - lo) / 2;
            if self.line_starts[mid] <= byte_offset {
                lo = mid;
            } else {
                hi = mid;
            }
        }
        let line_start = self.line_starts[lo];
        proof {
            lemma_line_index_entry(self.bytes(), self.line_starts@, byte_offset as int);
            lemma_line_start_at(self.bytes(), byte_offset as int);
            lemma_line_index_unique(
                self.line_starts@,
                byte_offset as int,
                lo as int,
                newlines_before(self.bytes(), byte_offset as int) as int,
            );
        }
        let mut count: usize = 0;
        let mut i: usize = line_start;
        while i < byte_offset
            invariant
                line_start <= i <= byte_offset <= bytes@.len(),
                bytes@.len() < usize::MAX,
                count == scalar_count(bytes@.subrange(line_start as int, i as int)),
                count <= i - line_start,
            decreases byte_offset - i,
        {
            proof {
                assert(bytes@.subrange(line_start as int, i + 1).drop_last() =~= bytes@.subrange(
                    line_start as int,
                    i as int,
                ));
            }
            if !is_continuation(bytes[i]) {
                count += 1;
            }
            i += 1;
        }
        (lo + 1, count + 1)
    }
}

/// A file to lint: the path that its findings will show, and its text.
#[derive(Debug)]
pub struct SourceFile {
    pub path: String,
    pub text: String,
}

/// The mathematical value of a [`SourceFile`].
pub struct SourceFileView {
    pub path: Seq<char>,
    pub text: Seq<char>,
}

impl View for SourceFile {
    type V = SourceFileView;

    open spec fn view(&self) -> SourceFileView {
        SourceFileView { path: self.path@, text: self.text@ }
    }
}

/// The values of a sequence of files, in order.
pub open spec fn sources_view(files: Seq<SourceFile>) -> Seq<SourceFileView> {
    files.map_values(|f: SourceFile| f@)
}

/// The finding for a file that has no syntax tree: an error without a
/// position.
pub open spec fn parse_failure(path: Seq<char>) -> DiagnosticView {
    DiagnosticView {
        file: path,
        line: 0,
        column: 0,
        severity: Severity::Error,
        code: RuleCode::TLA000,
        message: "Failed to parse TLA+ file"@,
    }
}

/// What linting one file finds, given its syntax tree: what the rules
/// find, or the parse failure alone where there is no tree.
pub open spec fn file_findings(file: SourceFileView, tree: Option<SyntaxTreeView>) -> Seq<
    DiagnosticView,
> {
    match tree {
        Some(t) => all_findings(file.path, encode_utf8(file.text), t),
        None => seq![parse_failure(file.path)],
    }
}

/// The value of a syntax tree that may be missing.
pub open spec fn tree_view(tree: Option<&SyntaxTree>) -> Option<SyntaxTreeView> {
    match tree {
        Some(t) => Some(t@),
        None => None,
    }
}

/// Lints one file, given what parsing it gave, and appends the findings.
/// Without a tree the file gets the parse failure and no rule runs.
pub fn lint_file(file: &SourceFile, tree: Option<&SyntaxTree>, diags: &mut Vec<Diagnostic>)
    requires
        encode_utf8(file.text@).len() < usize::MAX,
        tree matches Some(t) ==> t@.wf() && t@.fits(encode_utf8(file.text@).len()),
    ensures
        diagnostics_view(final(diags)@) == diagnostics_view(old(diags)@) + file_findings(
            file@,
            tree_view(tree),
        ),
{
    let ghost before = diagnostics_view(diags@);
    match tree {
        Some(t) => {
            let ctx = FileContext::new(file.path.clone(), file.text.clone());
            run_all_rules(&ctx, t, diags);
        },
        None => {
            let found = Diagnostic {
                file: file.path.clone(),
                line: 0,
                column: 0,
                severity: Severity::Error,
                code: RuleCode::TLA000,
                message: String::from_str("Failed to parse TLA+ file"),
            };
            diags.push(found);
            assert(diagnostics_view(diags@) =~= before.push(found@));
            assert(before.push(found@) =~= before + seq![parse_failure(file.path@)]);
        },
    }
}

/// Whether `trees` holds, for each of the files, a syntax tree that fits
/// its text, or none.
pub open spec fn trees_fit(files: Seq<SourceFileView>, trees: Seq<Option<SyntaxTreeView>>) -> bool {
    &&& trees.len() == files.len()
    &&& forall|i: int|
        0 <= i < files.len() ==> ((#[trigger] trees[i]) matches Some(t) ==> t.wf() && t.fits(
            encode_utf8(files[i].text).len(),
        ))
}

/// What linting a list of files finds, given the syntax tree of each: the
/// findings of each file, in the order of the files.
pub open spec fn collected(files: Seq<SourceFileView>, trees: Seq<Option<SyntaxTreeView>>) -> Seq<
    DiagnosticView,
>
    decreases files.len(),
{
    if files.len() == 0 || trees.len() == 0 {
        seq![]
    } else {
        collected(files.drop_last(), trees.drop_last()) + file_findings(files.last(), trees.last())
    }
}

/// Whether a syntax tree is that of a listing of nodes that fits a text of
/// `len` bytes.
pub open spec fn is_listed(tree: SyntaxTreeView, len: nat) -> bool {
    exists|records: Seq<NodeRecordView>|
        is_listing(records, len) && tree == #[trigger] tree_of(records)
}

/// Whether each of `trees` that is there is the tree of a listing that
/// fits its file.
pub open spec fn trees_listed(
    files: Seq<SourceFileView>,
    trees: Seq<Option<SyntaxTreeView>>,
) -> bool {
    &&& trees.len() == files.len()
    &&& forall|i: int|
        0 <= i < files.len() ==> ((#[trigger] trees[i]) matches Some(t) ==> is_listed(
            t,
            encode_utf8(files[i].text).len(),
        ))
}

/// Whether `diags` is what linting the files finds, for some syntax trees
/// that fit them, one for each file or none where it does not parse, each
/// the tree of a listing of nodes.
pub open spec fn is_collected(files: Seq<SourceFileView>, diags: Seq<DiagnosticView>) -> bool {
    exists|trees: Seq<Option<SyntaxTreeView>>|
        trees_fit(files, trees) && trees_listed(files, trees) && diags == #[trigger] collected(
            files,
            trees,
        )
}

/// Lints the files with a parser at hand, in the order given. Which tree
/// a file has is for the parser to say; the findings are those of the
/// files with the trees that it gave.
pub fn collect_with(parser: &mut TlaParser, files: &Vec<SourceFile>) -> (diags: Vec<Diagnostic>)
    requires
        forall|i: int|
            0 <= i < files@.len() ==> encode_utf8((#[trigger] files@[i]).text@).len() < usize::MAX,
    ensures
        is_collected(sources_view(files@), diagnostics_view(diags@)),
{
    let ghost sources = sources_view(files@);
    let ghost mut trees: Seq<Option<SyntaxTreeView>> = Seq::empty();
    let mut diags: Vec<Diagnostic> = Vec::new();
    let mut i: usize = 0;
    assert(diagnostics_view(diags@) =~= collected(sources.take(0), trees));
    while i < files.len()
        invariant
            sources == sources_view(files@),
            i <= files@.len(),
            forall|j: int|
                0 <= j < files@.len() ==> encode_utf8((#[trigger] files@[j]).text@).len()
                    < usize::MAX,
            trees_fit(sources.take(i as int), trees),
            trees_listed(sources.take(i as int), trees),
            diagnostics_view(diags@) == collected(sources.take(i as int), trees),
        decreases files@.len() - i,
    {
        let file = &files[i];
        assert(sources.take(i + 1).drop_last() =~= sources.take(i as int));
        assert(sources[i as int] == file@);
        let built = parser.syntax_tree(file.text.as_str());
        let tree = built.as_ref();
        let ghost before = trees;
        proof {
            trees = trees.push(tree_view(tree));
            assert(trees.drop_last() =~= before);
            assert forall|j: int| 0 <= j < i + 1 implies ((#[trigger] trees[j]) matches Some(t)
                ==> t.wf() && t.fits(encode_utf8(sources.take(i + 1)[j].text).len())
                && is_listed(t, encode_utf8(sources.take(i + 1)[j].text).len())) by {
                if j < i {
                    assert(trees[j] == before[j]);
                    assert(sources.take(i + 1)[j] == sources.take(i as int)[j]);
                }
            }
        }
        lint_file(file, tree, &mut diags);
        i += 1;
    }
    assert(sources.take(i as int) =~= sources);
    diags
}

/// The values of a sequence of syntax trees, some of them missing, in
/// order.
pub open spec fn trees_view(trees: Seq<Option<SyntaxTree>>) -> Seq<Option<SyntaxTreeView>> {
    trees.map_values(
        |tree: Option<SyntaxTree>|
            match tree {
                Some(t) => Some(t@),
                None => None,
            },
    )
}

/// Lints the files, given the syntax tree of each or none where it did
/// not parse, in the order given. The same files with the same trees give
/// the same findings.
pub fn collect_given(files: &Vec<SourceFile>, trees: &Vec<Option<SyntaxTree>>) -> (diags: Vec<
    Diagnostic,
>)
    requires
        forall|i: int|
            0 <= i < files@.len() ==> encode_utf8((#[trigger] files@[i]).text@).len() < usize::MAX,
        trees_fit(sources_view(files@), trees_view(trees@)),
    ensures
        diagnostics_view(diags@) == collected(sources_view(files@), trees_view(trees@)),
{
    let ghost sources = sources_view(files@);
    let ghost given = trees_view(trees@);
    let mut diags: Vec<Diagnostic> = Vec::new();
    let mut i: usize = 0;
    assert(diagnostics_view(diags@) =~= collected(sources.take(0), given.take(0)));
    while i < files.len()
        invariant
            sources == sources_view(files@),
            given == trees_view(trees@),
            i <= files@.len(),
            forall|j: int|
                0 <= j < files@.len() ==> encode_utf8((#[trigger] files@[j]).text@).len()
                    < usize::MAX,
            trees_fit(sources, given),
            diagnostics_view(diags@) == collected(sources.take(i as int), given.take(i as int)),
        decreases files@.len() - i,
    {
        let file = &files[i];
        let tree = trees[i].as_ref();
        assert(sources.take(i + 1).drop_last() =~= sources.take(i as int));
        assert(given.take(i + 1).drop_last() =~= given.take(i as int));
        assert(sources[i as int] == file@);
        assert(given[i as int] == tree_view(tree));
        lint_file(file, tree, &mut diags);
        i += 1;
    }
    assert(sources.take(i as int) =~= sources);
    assert(given.take(i as int) =~= given);
    diags
}

/// Lints the files, in the order given. The only failure is that of
/// setting up the parser; a file that does not parse gets a finding of
/// its own and the run goes on.
pub fn collect_diagnostics(files: &Vec<SourceFile>) -> (found: Result<Vec<Diagnostic>, ParserError>)
    requires
        forall|i: int|
            0 <= i < files@.len() ==> encode_utf8((#[trigger] files@[i]).text@).len() < usize::MAX,
    ensures
        found matches Ok(diags) ==> is_collected(sources_view(files@), diagnostics_view(diags@)),
{
    collect_from(TlaParser::new(), files)
}

/// What a run hands back: the text to print, and whether the run failed.
#[derive(Debug)]
pub struct Report {
    pub output: String,
    pub failed: bool,
}

/// Why a run could not produce a report.
#[derive(Debug, PartialEq, Eq)]
pub enum RunError {
    /// The parser could not be set up.
    Parser(ParserError),
    /// The JSON document could not be written. A run never fails so.
    Json(JsonError),
}

/// Whether any of the findings is an error.
pub open spec fn has_error(diags: Seq<DiagnosticView>) -> bool {
    exists|i: int| 0 <= i < diags.len() && (#[trigger] diags[i]).severity == Severity::Error
}

/// The text that a run prints for its findings: the JSON document and a
/// line break, or one line per finding.
pub open spec fn report_text(diags: Seq<DiagnosticView>, json: bool) -> Seq<char> {
    if json {
        json_text(diags) + "\n"@
    } else {
        human_text(diags)
    }
}

/// Whether any of the findings is an error.
pub fn any_error(diags: &Vec<Diagnostic>) -> (r: bool)
    ensures
        r == has_error(diagnostics_view(diags@)),
{
    let ghost views = diagnostics_view(diags@);
    let mut i: usize = 0;
    while i < diags.len()
        invariant
            views == diagnostics_view(diags@),
            i <= diags@.len(),
            forall|j: int| 0 <= j < i ==> (#[trigger] views[j]).severity != Severity::Error,
        decreases diags@.len() - i,
    {
        if diags[i].is_error() {
            assert(views[i as int].severity == Severity::Error);
            return true;
        }
        i += 1;
    }
    false
}

/// Renders the findings with the chosen reporter and decides the run: it
/// fails exactly when a finding is an error. Warnings alone do not fail
/// it. The report is made for every list of findings.
pub fn report(diags: &Vec<Diagnostic>, json: bool) -> (made: Result<Report, JsonError>)
    ensures
        made matches Ok(r) && r.output@ == report_text(diagnostics_view(diags@), json) && r.failed
            == has_error(diagnostics_view(diags@)),
{
    let failed = any_error(diags);
    if json {
        match to_json(diags) {
            Ok(mut output) => {
                output.append("\n");
                Ok(Report { output, failed })
            },
            Err(e) => Err(e),
        }
    } else {
        Ok(Report { output: render_human(diags), failed })
    }
}

/// Lints the files and reports what was found, as JSON or as text. The
/// only failure is that of setting up the parser.
pub fn run(files: &Vec<SourceFile>, json: bool) -> (made: Result<Report, RunError>)
    requires
        forall|i: int|
            0 <= i < files@.len() ==> encode_utf8((#[trigger] files@[i]).text@).len() < usize::MAX,
    ensures
        made matches Ok(r) ==> exists|diags: Seq<DiagnosticView>| #[trigger]
            is_collected(sources_view(files@), diags) && r.output@ == report_text(diags, json)
                && r.failed == has_error(diags),
        made matches Err(e) ==> e is Parser,
{
    match collect_diagnostics(files) {
        Ok(diags) => {
            assert(is_collected(sources_view(files@), diagnostics_view(diags@)));
            run_from(Ok(diags), json)
        },
        Err(e) => run_from(Err(e), json),
    }
}

/// Lints the files with the parser that was set up, or fails with the
/// error of setting it up.
pub fn collect_from(setup: Result<TlaParser, ParserError>, files: &Vec<SourceFile>) -> (found:
    Result<Vec<Diagnostic>, ParserError>)
    requires
        forall|i: int|
            0 <= i < files@.len() ==> encode_utf8((#[trigger] files@[i]).text@).len() < usize::MAX,
    ensures
        match setup {
            Ok(_) => found matches Ok(diags) && is_collected(
                sources_view(files@),
                diagnostics_view(diags@),
            ),
            Err(e) => found matches Err(f) && f == e,
        },
{
    match setup {
        Ok(mut parser) => Ok(collect_with(&mut parser, files)),
        Err(e) => Err(e),
    }
}

/// Reports the findings that were collected, or fails with the error of
/// collecting them.
pub fn run_from(found: Result<Vec<Diagnostic>, ParserError>, json: bool) -> (made: Result<
    Report,
    RunError,
>)
    ensures
        match found {
            Ok(diags) => made matches Ok(r) && r.output@ == report_text(
                diagnostics_view(diags@),
                json,
            ) && r.failed == has_error(diagnostics_view(diags@)),
            Err(e) => made matches Err(f) && f == RunError::Parser(e),
        },
{
    match found {
        Ok(diags) => match report(&diags, json) {
            Ok(r) => Ok(r),
            Err(e) => Err(RunError::Json(e)),
        },
        Err(e) => Err(RunError::Parser(e)),
    }
}

} // verus!
