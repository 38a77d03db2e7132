//! The decisions of a walk through a directory: which entries have their text
//! extracted, and what is kept of an extraction.
//!
//! The walk itself reads the directory and runs the extraction; it asks
//! [`plan_entry`] before each extraction and hands the outcome to
//! [`commit_extraction`] after it. Whatever happens to one entry, the walk goes
//! on with the next.

use crate::database::{stale, upserted, Data, StoreError};
use crate::file::{
    route_of, route_of_extension, views, File, FileIdentity, FileKey, FileView, Route,
};
use crate::text::{is_blank, lemma_blank_trims_to_nothing, lowercase_of, trim, trimmed};
use crate::timestamp::Timestamp;
use vstd::prelude::*;

verus! {

/// Why an extraction gave no text.
#[derive(Debug, Clone, PartialEq, Eq)]
pub struct ExtractError {
    pub message: String,
}

/// What the file system tells of one entry of a directory.
#[derive(Debug, Clone, PartialEq, Eq)]
pub struct EntryInfo {
    /// whether the entry is a regular file
    pub is_file: bool,
    /// the canonical, absolute place of the entry; `None` where it has none
    pub canonical: Option<FileIdentity>,
    /// what follows the last dot of the name; `None` where nothing does
    pub extension: Option<String>,
    /// when the entry was last modified; `None` where that cannot be read
    pub modified: Option<Timestamp>,
}

/// An [`EntryInfo`] by its characters.
pub struct EntryView {
    pub is_file: bool,
    pub canonical: Option<FileKey>,
    pub extension: Option<Seq<char>>,
    pub modified: Option<Timestamp>,
}

impl View for EntryInfo {
    type V = EntryView;

    open spec fn view(&self) -> EntryView {
        EntryView {
            is_file: self.is_file,
            canonical: match self.canonical {
                Some(identity) => Some(identity@),
                None => None,
            },
            extension: match self.extension {
                Some(extension) => Some(extension@),
                None => None,
            },
            modified: self.modified,
        }
    }
}

/// Why an entry is passed over.
#[derive(Debug, Clone, Copy, PartialEq, Eq, Structural)]
pub enum SkipReason {
    /// The entry is no regular file.
    NotAFile,
    /// The entry has no canonical place.
    NoCanonicalPath,
    /// Files with this extension, or with none, are not indexed.
    UnsupportedExtension,
    /// The text was extracted when the file was last modified, or later.
    UpToDate,
}

/// Why it cannot be told whether an entry has to be indexed.
#[derive(Debug, Clone, Copy, PartialEq, Eq, Structural)]
pub enum EntryError {
    /// The time of the last modification cannot be read.
    ModifiedTimeUnreadable,
    /// The index has no answer.
    Store(StoreError),
}

/// What is done with an entry.
#[derive(Debug, Clone, PartialEq, Eq)]
pub enum Plan {
    /// Nothing.
    Skip(SkipReason),
    /// Nothing but to report the error.
    Fail(EntryError),
    /// The text of the file is extracted, the file reaching the extraction by
    /// the given route.
    Extract(FileIdentity, Route),
}

/// A [`Plan`] by its characters.
pub enum PlanView {
    Skip(SkipReason),
    Fail(EntryError),
    Extract(FileKey, Route),
}

impl View for Plan {
    type V = PlanView;

    open spec fn view(&self) -> PlanView {
        match self {
            Plan::Skip(reason) => PlanView::Skip(*reason),
            Plan::Fail(error) => PlanView::Fail(*error),
            Plan::Extract(identity, route) => PlanView::Extract(identity@, *route),
        }
    }
}

/// What became of an extraction.
#[derive(Debug, Clone, Copy, PartialEq, Eq, Structural)]
pub enum Committed {
    /// The text was written to the index.
    Stored,
    /// The text was white space alone: nothing was written.
    Empty,
    /// The extraction failed: nothing was written.
    Failed,
}

/// An extraction that has ended: for which file, how, and when.
#[derive(Debug, PartialEq, Eq)]
pub struct Extraction {
    pub identity: FileIdentity,
    pub outcome: Result<String, ExtractError>,
    pub at: Timestamp,
}

/// An [`Extraction`] by its characters: `text` is `None` where it failed.
pub struct ExtractionView {
    pub identity: FileKey,
    pub text: Option<Seq<char>>,
    pub at: Timestamp,
}

/// The text that an extraction gave, if it gave one.
pub open spec fn text_of(outcome: Result<String, ExtractError>) -> Option<Seq<char>> {
    match outcome {
        Ok(text) => Some(text@),
        Err(_) => None,
    }
}

impl View for Extraction {
    type V = ExtractionView;

    open spec fn view(&self) -> ExtractionView {
        ExtractionView { identity: self.identity@, text: text_of(self.outcome), at: self.at }
    }
}

/// What is done with an entry whose extension stands for `route`: entries
/// that are no regular files, that have no canonical place or whose files are
/// not indexed are passed over; so are files whose text was extracted when
/// they were last modified, or later. Where that cannot be told, the entry
/// fails.
pub open spec fn plan_routed(rows: Seq<FileView>, entry: EntryView, route: Option<Route>) -> PlanView {
    if !entry.is_file {
        PlanView::Skip(SkipReason::NotAFile)
    } else {
        match entry.canonical {
            None => PlanView::Skip(SkipReason::NoCanonicalPath),
            Some(key) => match route {
                None => PlanView::Skip(SkipReason::UnsupportedExtension),
                Some(way) => match entry.modified {
                    None => PlanView::Fail(EntryError::ModifiedTimeUnreadable),
                    Some(modified) => match stale(rows, key, modified) {
                        Err(error) => PlanView::Fail(EntryError::Store(error)),
                        Ok(false) => PlanView::Skip(SkipReason::UpToDate),
                        Ok(true) => PlanView::Extract(key, way),
                    },
                },
            },
        }
    }
}

/// The route that the extension of an entry stands for.
pub open spec fn route_of_entry(entry: EntryView) -> Option<Route> {
    match entry.extension {
        Some(extension) => route_of(lowercase_of(extension)),
        None => None,
    }
}

/// What is done with an entry.
pub open spec fn plan_of(rows: Seq<FileView>, entry: EntryView) -> PlanView {
    plan_routed(rows, entry, route_of_entry(entry))
}

/// The row that is written for a text.
pub open spec fn row_for(key: FileKey, text: Seq<char>, at: Timestamp, engine: Seq<char>) -> FileView {
    FileView {
        name: key.name,
        path: key.path,
        text: text,
        ocr_date: Some(at),
        ocr_success: true,
        ocr_engine: engine,
    }
}

/// What became of an extraction that gave `text`.
pub open spec fn report_of(text: Option<Seq<char>>) -> Committed {
    match text {
        None => Committed::Failed,
        Some(found) => if trimmed(found).len() == 0 {
            Committed::Empty
        } else {
            Committed::Stored
        },
    }
}

/// The rows after an extraction: a text that holds more than white space is
/// written without the white space around it; anything else changes nothing.
pub open spec fn rows_after(
    rows: Seq<FileView>,
    key: FileKey,
    text: Option<Seq<char>>,
    at: Timestamp,
    engine: Seq<char>,
) -> Seq<FileView> {
    match text {
        None => rows,
        Some(found) => if trimmed(found).len() == 0 {
            rows
        } else {
            upserted(rows, row_for(key, trimmed(found), at, engine))
        },
    }
}

/// The rows after one extraction after the other.
pub open spec fn rows_after_all(rows: Seq<FileView>, done: Seq<ExtractionView>, engine: Seq<char>) -> Seq<
    FileView,
>
    decreases done.len(),
{
    if done.len() == 0 {
        rows
    } else {
        rows_after(
            rows_after_all(rows, done.drop_last(), engine),
            done.last().identity,
            done.last().text,
            done.last().at,
            engine,
        )
    }
}

/// The extractions that gave a text.
pub open spec fn succeeded(done: Seq<ExtractionView>) -> Seq<ExtractionView> {
    done.filter(|one: ExtractionView| one.text is Some)
}

/// An extraction that gives white space alone changes nothing in the index.
pub proof fn lemma_blank_text_changes_nothing(
    rows: Seq<FileView>,
    key: FileKey,
    text: Seq<char>,
    at: Timestamp,
    engine: Seq<char>,
)
    requires
        is_blank(text),
    ensures
        rows_after(rows, key, Some(text), at, engine) == rows,
        report_of(Some(text)) == Committed::Empty,
{
    lemma_blank_trims_to_nothing(text);
}

/// The extractions that fail leave no trace: the index ends as if only the
/// others had been made.
pub proof fn lemma_failures_leave_no_trace(
    rows: Seq<FileView>,
    done: Seq<ExtractionView>,
    engine: Seq<char>,
)
    ensures
        rows_after_all(rows, done, engine) == rows_after_all(rows, succeeded(done), engine),
    decreases done.len(),
{
    reveal(Seq::filter);
    if done.len() > 0 {
        let front = done.drop_last();
        lemma_failures_leave_no_trace(rows, front, engine);
        if done.last().text is Some {
            let kept = succeeded(front).push(done.last());
            assert(succeeded(done) == kept);
            assert(kept.drop_last() =~= succeeded(front));
        }
    }
}

/// What is done with an entry whose extension stands for `route`.
pub fn plan_entry_routed(data: &Data, entry: &EntryInfo, route: Option<Route>) -> (r: Plan)
    ensures
        r@ == plan_routed(data@, entry@, route),
{
    if !entry.is_file {
        return Plan::Skip(SkipReason::NotAFile);
    }
    match &entry.canonical {
        None => Plan::Skip(SkipReason::NoCanonicalPath),
        Some(identity) => match route {
            None => Plan::Skip(SkipReason::UnsupportedExtension),
            Some(way) => match entry.modified {
                None => Plan::Fail(EntryError::ModifiedTimeUnreadable),
                Some(modified) => match data.needs_indexing(identity, modified) {
                    Err(error) => Plan::Fail(EntryError::Store(error)),
                    Ok(false) => Plan::Skip(SkipReason::UpToDate),
                    Ok(true) => Plan::Extract(identity.duplicate(), way),
                },
            },
        },
    }
}

/// What is done with an entry.
pub fn plan_entry(data: &Data, entry: &EntryInfo) -> (r: Plan)
    ensures
        r@ == plan_of(data@, entry@),
{
    let route = match &entry.extension {
        Some(extension) => route_of_extension(extension.as_str()),
        None => None,
    };
    plan_entry_routed(data, entry, route)
}

/// Takes in the outcome of an extraction. A text that holds more than white
/// space is written to the index without the white space around it, as
/// extracted at `at` by `engine`. A text of white space alone, and a failure,
/// change nothing.
pub fn commit_extraction(
    data: &mut Data,
    identity: &FileIdentity,
    outcome: &Result<String, ExtractError>,
    at: Timestamp,
    engine: &str,
) -> (r: Committed)
    ensures
        final(data).wf(),
        final(data)@ == rows_after(old(data)@, identity@, text_of(*outcome), at, engine@),
        r == report_of(text_of(*outcome)),
{
    proof {
        use_type_invariant(&*data);
        data.lemma_wf();
    }
    match outcome {
        Err(_) => Committed::Failed,
        Ok(text) => {
            let kept = trim(text.as_str());
            if kept.as_str().is_empty() {
                Committed::Empty
            } else {
                data.upsert(
                    File {
                        name: identity.name.clone(),
                        path: identity.path.clone(),
                        text: kept,
                        ocr_date: Some(at),
                        ocr_success: true,
                        ocr_engine: engine.to_owned(),
                    },
                );
                Committed::Stored
            }
        },
    }
}

/// Takes in the outcomes of extractions, one after the other. None of them
/// keeps the others from being taken in.
pub fn commit_all(data: &mut Data, done: &Vec<Extraction>, engine: &str) -> (r: Vec<Committed>)
    ensures
        final(data).wf(),
        final(data)@ == rows_after_all(old(data)@, views(done@), engine@),
        r.len() == done.len(),
        forall|i: int| 0 <= i < r.len() ==> #[trigger] r[i] == report_of(done[i]@.text),
{
    let mut reports: Vec<Committed> = Vec::new();
    let mut i: usize = 0;
    proof {
        use_type_invariant(&*data);
        data.lemma_wf();
        assert(views(done@).take(0) =~= Seq::<ExtractionView>::empty());
    }
    while i < done.len()
        invariant
            i <= done.len(),
            data.wf(),
            data@ == rows_after_all(old(data)@, views(done@).take(i as int), engine@),
            reports.len() == i,
            forall|k: int| 0 <= k < i ==> #[trigger] reports[k] == report_of(done[k]@.text),
        decreases done.len() - i,
    {
        let one = &done[i];
        proof {
            let next = views(done@).take(i + 1);
            assert(next.drop_last() =~= views(done@).take(i as int));
            assert(next.last() == one@);
        }
        let report = commit_extraction(data, &one.identity, &one.outcome, one.at, engine);
        reports.push(report);
        i += 1;
    }
    proof {
        assert(views(done@).take(done.len() as int) =~= views(done@));
    }
    reports
}

} // verus!
