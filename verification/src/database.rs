//! The index: one row for each file whose text was extracted.

use crate::file::{file_of_row, views, File, FileIdentity, FileKey, FileView, PersistedRow, RowView};
use crate::search::{CandidateView, SearchCandidate};
use crate::timestamp::{rfc3339_instant, Timestamp};
use vstd::prelude::*;

verus! {

/// Why the index has no answer.
#[derive(Debug, Clone, Copy, PartialEq, Eq, Structural)]
pub enum StoreError {
    /// No row is kept for the file.
    NotFound,
    /// The row's date cannot be read.
    InvalidTimestamp,
}

/// The rows of the index. No two of them are for the same file, and a row
/// that is written again moves to the end.
pub struct Data {
    files: Vec<File>,
}

/// Some row is for the file `key`.
pub open spec fn holds(rows: Seq<FileView>, key: FileKey) -> bool {
    exists|i: int| 0 <= i < rows.len() && (#[trigger] rows[i]).key() == key
}

/// No two rows are for the same file.
pub open spec fn unique_keys(rows: Seq<FileView>) -> bool {
    forall|i: int, j: int|
        0 <= i < j < rows.len() ==> (#[trigger] rows[i]).key() != (#[trigger] rows[j]).key()
}

/// The place of a row for the file `key`.
pub open spec fn index_of(rows: Seq<FileView>, key: FileKey) -> int {
    choose|i: int| 0 <= i < rows.len() && (#[trigger] rows[i]).key() == key
}

/// The row for the file `key`, if there is one.
pub open spec fn found(rows: Seq<FileView>, key: FileKey) -> Option<FileView> {
    if holds(rows, key) {
        Some(rows[index_of(rows, key)])
    } else {
        None
    }
}

/// The rows but those for the file `key`.
pub open spec fn without(rows: Seq<FileView>, key: FileKey) -> Seq<FileView> {
    rows.filter(|row: FileView| row.key() != key)
}

/// The rows after `file` was written: what was kept for the same file is gone,
/// and `file` stands at the end.
pub open spec fn upserted(rows: Seq<FileView>, file: FileView) -> Seq<FileView> {
    without(rows, file.key()).push(file)
}

/// The rows for files of the directory `directory`.
pub open spec fn scoped(rows: Seq<FileView>, directory: Seq<char>) -> Seq<FileView> {
    rows.filter(|row: FileView| row.path == directory)
}

/// What a search sees of a row.
pub open spec fn candidate_of(row: FileView) -> CandidateView {
    CandidateView { identity: row.key(), text: row.text }
}

/// What a search sees of the rows.
pub open spec fn candidates_of(rows: Seq<FileView>) -> Seq<CandidateView> {
    rows.map_values(|row: FileView| candidate_of(row))
}

/// The rows of the index that stored rows stand for, taken in one after the
/// other.
pub open spec fn restored(rows: Seq<RowView>) -> Seq<FileView>
    decreases rows.len(),
{
    if rows.len() == 0 {
        Seq::empty()
    } else {
        upserted(
            restored(rows.drop_last()),
            file_of_row(rows.last(), rfc3339_instant(rows.last().ocr_date)),
        )
    }
}

/// When the text of the file `key` was extracted.
pub open spec fn extracted_at(rows: Seq<FileView>, key: FileKey) -> Result<Timestamp, StoreError> {
    match found(rows, key) {
        None => Err(StoreError::NotFound),
        Some(row) => match row.ocr_date {
            Some(at) => Ok(at),
            None => Err(StoreError::InvalidTimestamp),
        },
    }
}

/// Whether the file `key`, last modified at `modified`, has to be indexed: it
/// has if no row is kept for it, or if its text was extracted before it was
/// last modified.
pub open spec fn stale(rows: Seq<FileView>, key: FileKey, modified: Timestamp) -> Result<
    bool,
    StoreError,
> {
    match found(rows, key) {
        None => Ok(true),
        Some(row) => match row.ocr_date {
            Some(at) => Ok(at.before(modified)),
            None => Err(StoreError::InvalidTimestamp),
        },
    }
}

/// Writing a row after the others keeps it unless it is for the file `key`.
pub proof fn lemma_without_push(rows: Seq<FileView>, row: FileView, key: FileKey)
    ensures
        without(rows.push(row), key) == if row.key() != key {
            without(rows, key).push(row)
        } else {
            without(rows, key)
        },
{
    rows.lemma_filter_push(row, |row: FileView| row.key() != key);
}

/// Taking out the rows for a file of which there is none changes nothing.
pub proof fn lemma_without_absent(rows: Seq<FileView>, key: FileKey)
    requires
        !holds(rows, key),
    ensures
        without(rows, key) == rows,
    decreases rows.len(),
{
    reveal(Seq::filter);
    if rows.len() > 0 {
        let front = rows.drop_last();
        assert(rows.last() == rows[rows.len() - 1]);
        assert(rows[rows.len() - 1].key() != key);
        assert forall|i: int| 0 <= i < front.len() implies (#[trigger] front[i]).key() != key by {
            assert(front[i] == rows[i]);
        }
        lemma_without_absent(front, key);
        assert(front.push(rows.last()) =~= rows);
    }
}

/// No row for the file `key` is left once they are taken out, and the rows for
/// other files stay.
pub proof fn lemma_without_holds(rows: Seq<FileView>, key: FileKey, other: FileKey)
    ensures
        !holds(without(rows, key), key),
        other != key ==> (holds(without(rows, key), other) <==> holds(rows, other)),
    decreases rows.len(),
{
    reveal(Seq::filter);
    if rows.len() > 0 {
        let front = rows.drop_last();
        let last = rows.last();
        lemma_without_holds(front, key, other);
        let kept = without(front, key);
        let all = without(rows, key);
        if holds(all, key) {
            let i = choose|i: int| 0 <= i < all.len() && (#[trigger] all[i]).key() == key;
            if last.key() != key && i < kept.len() {
                assert(kept[i] == all[i]);
            } else if last.key() == key {
                assert(kept[i] == all[i]);
            }
        }
        if other != key {
            if holds(all, other) {
                let i = choose|i: int| 0 <= i < all.len() && (#[trigger] all[i]).key() == other;
                if i < kept.len() {
                    assert(kept[i] == all[i]);
                    assert(holds(kept, other));
                    let j = choose|j: int|
                        0 <= j < front.len() && (#[trigger] front[j]).key() == other;
                    assert(rows[j] == front[j]);
                } else {
                    assert(all[i] == last);
                    assert(rows[rows.len() - 1].key() == other);
                }
            }
            if holds(rows, other) {
                let i = choose|i: int| 0 <= i < rows.len() && (#[trigger] rows[i]).key() == other;
                if i < front.len() {
                    assert(front[i] == rows[i]);
                    assert(holds(front, other));
                    let j = choose|j: int|
                        0 <= j < kept.len() && (#[trigger] kept[j]).key() == other;
                    assert(all[j] == kept[j]);
                } else {
                    assert(all[all.len() - 1] == last);
                }
            }
        }
    } else {
        assert(without(rows, key) =~= rows);
    }
}

/// Where no two rows are for the same file, taking out the rows for a file is
/// taking out the one row that is for it.
pub proof fn lemma_without_at(rows: Seq<FileView>, key: FileKey, at: int)
    requires
        unique_keys(rows),
        0 <= at < rows.len(),
        rows[at].key() == key,
    ensures
        without(rows, key) == rows.remove(at),
    decreases rows.len(),
{
    reveal(Seq::filter);
    let front = rows.drop_last();
    let last = rows.last();
    assert forall|i: int, j: int| 0 <= i < j < front.len() implies (#[trigger] front[i]).key() != (
    #[trigger] front[j]).key() by {
        assert(front[i] == rows[i] && front[j] == rows[j]);
    }
    if at == rows.len() - 1 {
        assert forall|i: int| 0 <= i < front.len() implies (#[trigger] front[i]).key() != key by {
            assert(front[i] == rows[i]);
        }
        lemma_without_absent(front, key);
        assert(rows.remove(at) =~= front);
    } else {
        assert(rows[at].key() != rows[rows.len() - 1].key());
        assert(front[at] == rows[at]);
        lemma_without_at(front, key, at);
        assert(front.remove(at).push(last) =~= rows.remove(at));
    }
}

/// Where no two rows are for the same file, none are after the rows for one
/// file were taken out.
pub proof fn lemma_kept_unique(rows: Seq<FileView>, key: FileKey)
    requires
        unique_keys(rows),
    ensures
        unique_keys(without(rows, key)),
{
    let kept = without(rows, key);
    if holds(rows, key) {
        let at = index_of(rows, key);
        lemma_without_at(rows, key, at);
        assert forall|i: int, j: int| 0 <= i < j < kept.len() implies (#[trigger] kept[i]).key()
            != (#[trigger] kept[j]).key() by {
            let from_i = if i < at { i } else { i + 1 };
            let from_j = if j < at { j } else { j + 1 };
            assert(kept[i] == rows[from_i] && kept[j] == rows[from_j]);
        }
    } else {
        lemma_without_absent(rows, key);
    }
}

/// Where no two rows are for the same file, none are after one more was
/// written.
pub proof fn lemma_upserted_unique(rows: Seq<FileView>, file: FileView)
    requires
        unique_keys(rows),
    ensures
        unique_keys(upserted(rows, file)),
{
    let key = file.key();
    let kept = without(rows, key);
    lemma_without_holds(rows, key, key);
    lemma_kept_unique(rows, key);
    let after = kept.push(file);
    assert forall|i: int, j: int| 0 <= i < j < after.len() implies (#[trigger] after[i]).key() != (
    #[trigger] after[j]).key() by {
        assert(after[i] == kept[i]);
        if j < kept.len() {
            assert(after[j] == kept[j]);
        }
    }
}

/// Where no two rows are for the same file, the row at a place is the one that
/// is found for its file.
pub proof fn lemma_found_at(rows: Seq<FileView>, at: int)
    requires
        unique_keys(rows),
        0 <= at < rows.len(),
    ensures
        found(rows, rows[at].key()) == Some(rows[at]),
{
    let key = rows[at].key();
    let chosen = index_of(rows, key);
    if chosen < at {
        assert(rows[chosen].key() != rows[at].key());
    } else if at < chosen {
        assert(rows[at].key() != rows[chosen].key());
    }
}

/// After a row was written it is the one found for its file, and what is found
/// for any other file is what was found before.
pub proof fn lemma_found_after_upsert(rows: Seq<FileView>, file: FileView, other: FileKey)
    requires
        unique_keys(rows),
    ensures
        found(upserted(rows, file), file.key()) == Some(file),
        other != file.key() ==> found(upserted(rows, file), other) == found(rows, other),
{
    let key = file.key();
    let kept = without(rows, key);
    let after = upserted(rows, file);
    lemma_upserted_unique(rows, file);
    assert(after[after.len() - 1] == file);
    lemma_found_at(after, after.len() - 1);
    if other != key {
        lemma_without_holds(rows, key, other);
        if holds(rows, other) {
            let at = index_of(rows, other);
            lemma_found_at(rows, at);
            assert(holds(kept, other));
            let kept_at = index_of(kept, other);
            assert(after[kept_at] == kept[kept_at]);
            lemma_found_at(after, kept_at);
            // the row kept for `other` is the row that was there before
            if holds(rows, key) {
                let gone = index_of(rows, key);
                lemma_without_at(rows, key, gone);
                let from = if kept_at < gone { kept_at } else { kept_at + 1 };
                assert(kept[kept_at] == rows[from]);
                lemma_found_at(rows, from);
            } else {
                lemma_without_absent(rows, key);
                lemma_found_at(rows, kept_at);
            }
        } else {
            assert(!holds(after, other)) by {
                if holds(after, other) {
                    let i = choose|i: int|
                        0 <= i < after.len() && (#[trigger] after[i]).key() == other;
                    assert(after[i] == kept[i]);
                    assert(holds(kept, other));
                }
            }
        }
    }
}

/// A file of which no row is kept has to be indexed. Once a row is written
/// that is dated `at`, the file has to be indexed if it was modified after
/// `at`, and has not if it was modified at `at` or before.
pub proof fn lemma_staleness(
    rows: Seq<FileView>,
    file: FileView,
    at: Timestamp,
    modified: Timestamp,
)
    requires
        unique_keys(rows),
        file.ocr_date == Some(at),
    ensures
        !holds(rows, file.key()) ==> stale(rows, file.key(), modified) == Ok::<bool, StoreError>(
            true,
        ),
        stale(upserted(rows, file), file.key(), modified) == Ok::<bool, StoreError>(
            at.before(modified),
        ),
        at.before(modified) <==> !(modified == at || modified.before(at)),
{
    lemma_found_after_upsert(rows, file, file.key());
}

/// Writing the same row twice leaves what writing it once leaves, and of two
/// rows for one file that are written one after the other only the second is
/// left.
pub proof fn lemma_upsert_idempotent(rows: Seq<FileView>, first: FileView, second: FileView)
    requires
        first.key() == second.key(),
    ensures
        upserted(upserted(rows, first), second) == upserted(rows, second),
        upserted(upserted(rows, second), second) == upserted(rows, second),
{
    let key = second.key();
    let kept = without(rows, key);
    lemma_without_holds(rows, key, key);
    lemma_without_absent(kept, key);
    lemma_without_push(kept, first, key);
    lemma_without_push(kept, second, key);
}

/// After a row was written, exactly one row is for its file: the last one,
/// which is the row that was written.
pub proof fn lemma_upsert_leaves_one_row(rows: Seq<FileView>, file: FileView)
    ensures
        upserted(rows, file).last() == file,
        forall|i: int|
            0 <= i < upserted(rows, file).len() && (#[trigger] upserted(rows, file)[i]).key()
                == file.key() ==> i == upserted(rows, file).len() - 1,
{
    let key = file.key();
    let kept = without(rows, key);
    let after = upserted(rows, file);
    lemma_without_holds(rows, key, key);
    assert forall|i: int| 0 <= i < after.len() && (#[trigger] after[i]).key() == key implies i
        == after.len() - 1 by {
        if i < kept.len() {
            assert(kept[i] == after[i]);
        }
    }
}

/// A search in one directory sees the rows of that directory and no others; a
/// search everywhere sees every row.
pub proof fn lemma_scoped_and_global(rows: Seq<FileView>, directory: Seq<char>, at: int)
    requires
        0 <= at < rows.len(),
    ensures
        forall|i: int|
            0 <= i < scoped(rows, directory).len() ==> (#[trigger] scoped(rows, directory)[i]).path
                == directory && rows.contains(scoped(rows, directory)[i]),
        rows[at].path == directory <==> scoped(rows, directory).contains(rows[at]),
        candidates_of(rows).len() == rows.len(),
        candidates_of(rows)[at] == candidate_of(rows[at]),
{
    let pred = |row: FileView| row.path == directory;
    let part = scoped(rows, directory);
    assert forall|i: int| 0 <= i < part.len() implies (#[trigger] part[i]).path == directory
        && rows.contains(part[i]) by {
        rows.lemma_filter_pred(pred, i);
        assert(part.contains(part[i]));
        rows.lemma_filter_contains_rev(pred, part[i]);
    }
    if rows[at].path == directory {
        rows.lemma_filter_contains(pred, at);
    }
    if part.contains(rows[at]) {
        let i = choose|i: int| 0 <= i < part.len() && part[i] == rows[at];
        assert(part[i].path == directory);
    }
}

/// A row that was written is seen by a search in its directory.
pub proof fn lemma_upserted_is_scoped(rows: Seq<FileView>, file: FileView)
    ensures
        scoped(upserted(rows, file), file.path).len() > 0,
        scoped(upserted(rows, file), file.path).last() == file,
        candidates_of(scoped(upserted(rows, file), file.path)).last() == candidate_of(file),
{
    let kept = without(rows, file.key());
    kept.lemma_filter_push(file, |row: FileView| row.path == file.path);
}

impl View for Data {
    type V = Seq<FileView>;

    closed spec fn view(&self) -> Seq<FileView> {
        views(self.files@)
    }
}

impl Data {
    /// What every index holds: no two rows are for the same file.
    #[verifier::type_invariant]
    pub closed spec fn one_row_for_each_file(self) -> bool {
        unique_keys(views(self.files@))
    }

    /// No two rows are for the same file. This holds of every index; the
    /// functions that find or write a row say so again for the callers that
    /// reason about the rows.
    pub open spec fn wf(&self) -> bool {
        unique_keys(self@)
    }

    /// What every index holds is that no two rows are for the same file.
    pub proof fn lemma_wf(self)
        requires
            self.one_row_for_each_file(),
        ensures
            self.wf(),
    {
    }

    /// An index without rows.
    pub fn new() -> (r: Data)
        ensures
            r.wf(),
            r@ == Seq::<FileView>::empty(),
    {
        let r = Data { files: Vec::new() };
        assert(r@ =~= Seq::<FileView>::empty());
        r
    }

    /// The index that stored rows stand for. Of two rows for one file the later
    /// one counts; a row whose date is no RFC 3339 date is kept without a date.
    pub fn restore(rows: &Vec<PersistedRow>) -> (r: Data)
        ensures
            r.wf(),
            r@ == restored(views(rows@)),
    {
        let mut data = Data::new();
        let mut i: usize = 0;
        proof {
            assert(views(rows@).take(0) =~= Seq::<RowView>::empty());
        }
        while i < rows.len()
            invariant
                i <= rows.len(),
                data.wf(),
                data@ == restored(views(rows@).take(i as int)),
            decreases rows.len() - i,
        {
            proof {
                let next = views(rows@).take(i + 1);
                assert(next.drop_last() =~= views(rows@).take(i as int));
                assert(next.last() == rows[i as int]@);
            }
            data.upsert(File::from_row(&rows[i]));
            i += 1;
        }
        proof {
            assert(views(rows@).take(rows.len() as int) =~= views(rows@));
        }
        data
    }

    /// The number of rows.
    pub fn len(&self) -> (r: usize)
        ensures
            r == self@.len(),
    {
        self.files.len()
    }

    /// The place of the row for the file, if there is one.
    fn position(&self, identity: &FileIdentity) -> (r: Option<usize>)
        ensures
            self.wf(),
            match r {
                Some(at) => at < self@.len() && self@[at as int].key() == identity@,
                None => !holds(self@, identity@),
            },
    {
        proof {
            use_type_invariant(self);
        }
        let mut i: usize = 0;
        while i < self.files.len()
            invariant
                i <= self.files.len(),
                self.wf(),
                forall|k: int| 0 <= k < i ==> (#[trigger] self@[k]).key() != identity@,
            decreases self.files.len() - i,
        {
            if self.files[i].has_identity(identity) {
                return Some(i);
            }
            i += 1;
        }
        None
    }

    /// Whether a row is kept for the file.
    pub fn contains(&self, identity: &FileIdentity) -> (r: bool)
        ensures
            self.wf(),
            r == holds(self@, identity@),
    {
        self.position(identity).is_some()
    }

    /// The row that is kept for the file, if there is one.
    pub fn get(&self, identity: &FileIdentity) -> (r: Option<File>)
        ensures
            self.wf(),
            found(self@, identity@) == match r {
                Some(file) => Some(file@),
                None => None,
            },
    {
        match self.position(identity) {
            Some(at) => {
                proof {
                    lemma_found_at(self@, at as int);
                }
                Some(self.files[at].duplicate())
            },
            None => None,
        }
    }

    /// When the text of the file was extracted: `NotFound` where no row is kept
    /// for the file, `InvalidTimestamp` where the row's date cannot be read.
    pub fn get_extracted_at(&self, identity: &FileIdentity) -> (r: Result<Timestamp, StoreError>)
        ensures
            self.wf(),
            r == extracted_at(self@, identity@),
    {
        match self.position(identity) {
            Some(at) => {
                proof {
                    lemma_found_at(self@, at as int);
                }
                match self.files[at].ocr_date {
                    Some(date) => Ok(date),
                    None => Err(StoreError::InvalidTimestamp),
                }
            },
            None => Err(StoreError::NotFound),
        }
    }

    /// Whether the file, last modified at `modified`, has to be indexed. It has
    /// if no row is kept for it, or if its text was extracted before it was last
    /// modified; it has not if the two instants are the same. Where the row's
    /// date cannot be read the answer is `InvalidTimestamp`.
    pub fn needs_indexing(&self, identity: &FileIdentity, modified: Timestamp) -> (r: Result<
        bool,
        StoreError,
    >)
        ensures
            self.wf(),
            r == stale(self@, identity@, modified),
    {
        match self.position(identity) {
            Some(at) => {
                proof {
                    lemma_found_at(self@, at as int);
                }
                match self.files[at].ocr_date {
                    Some(date) => Ok(date.is_before(&modified)),
                    None => Err(StoreError::InvalidTimestamp),
                }
            },
            None => Ok(true),
        }
    }

    /// Writes a row: what was kept for the same file is replaced as a whole.
    pub fn upsert(&mut self, file: File)
        ensures
            final(self).wf(),
            final(self)@ == upserted(old(self)@, file@),
    {
        let identity = file.identity();
        let found = self.position(&identity);
        proof {
            lemma_upserted_unique(self@, file@);
        }
        // the rows leave the index while they change
        let mut files: Vec<File> = Vec::new();
        assert(views(files@) =~= Seq::<FileView>::empty());
        core::mem::swap(&mut self.files, &mut files);
        let ghost before = files@;
        match found {
            Some(at) => {
                proof {
                    lemma_without_at(views(before), file@.key(), at as int);
                }
                files.remove(at);
                assert(views(files@) =~= views(before).remove(at as int));
            },
            None => {
                proof {
                    lemma_without_absent(views(before), file@.key());
                }
            },
        }
        let ghost kept = files@;
        files.push(file);
        assert(views(files@) =~= views(kept).push(file@));
        core::mem::swap(&mut self.files, &mut files);
    }

    /// The rows, in the order in which they were last written.
    pub fn files(&self) -> (r: Vec<File>)
        ensures
            views(r@) == self@,
    {
        let mut out: Vec<File> = Vec::new();
        let mut i: usize = 0;
        while i < self.files.len()
            invariant
                i <= self.files.len(),
                views(out@) == self@.take(i as int),
            decreases self.files.len() - i,
        {
            let ghost before = out@;
            out.push(self.files[i].duplicate());
            assert(views(out@) =~= self@.take(i + 1)) by {
                assert(views(out@) =~= views(before).push(self.files[i as int]@));
            }
            i += 1;
        }
        assert(self@.take(self.files.len() as int) =~= self@);
        out
    }

    /// The files of one directory with their texts, for a search in that
    /// directory. The directory is compared as text, character by character.
    pub fn query_scoped(&self, directory: &str) -> (r: Vec<SearchCandidate>)
        ensures
            views(r@) == candidates_of(scoped(self@, directory@)),
    {
        let wanted = directory.to_owned();
        let mut out: Vec<SearchCandidate> = Vec::new();
        let mut i: usize = 0;
        proof {
            reveal(Seq::filter);
            assert(self@.take(0) =~= Seq::<FileView>::empty());
            assert(views(out@) =~= candidates_of(scoped(self@.take(0), directory@)));
        }
        while i < self.files.len()
            invariant
                i <= self.files.len(),
                wanted@ == directory@,
                views(out@) == candidates_of(scoped(self@.take(i as int), directory@)),
            decreases self.files.len() - i,
        {
            let file = &self.files[i];
            let ghost before = out@;
            proof {
                assert(self@.take(i + 1) =~= self@.take(i as int).push(file@));
                self@.take(i as int).lemma_filter_push(
                    file@,
                    |row: FileView| row.path == directory@,
                );
            }
            if file.path == wanted {
                out.push(SearchCandidate { identity: file.identity(), text: file.text.clone() });
                assert(views(out@) =~= views(before).push(candidate_of(file@)));
                assert(candidates_of(scoped(self@.take(i as int), directory@).push(file@))
                    =~= candidates_of(scoped(self@.take(i as int), directory@)).push(
                    candidate_of(file@),
                ));
            }
            i += 1;
        }
        assert(self@.take(self.files.len() as int) =~= self@);
        out
    }

    /// Every file with its text, for a search everywhere.
    pub fn query_global(&self) -> (r: Vec<SearchCandidate>)
        ensures
            views(r@) == candidates_of(self@),
    {
        let mut out: Vec<SearchCandidate> = Vec::new();
        let mut i: usize = 0;
        while i < self.files.len()
            invariant
                i <= self.files.len(),
                views(out@) == candidates_of(self@.take(i as int)),
            decreases self.files.len() - i,
        {
            let file = &self.files[i];
            let ghost before = out@;
            out.push(SearchCandidate { identity: file.identity(), text: file.text.clone() });
            assert(views(out@) =~= candidates_of(self@.take(i + 1))) by {
                assert(views(out@) =~= views(before).push(candidate_of(file@)));
            }
            i += 1;
        }
        assert(self@.take(self.files.len() as int) =~= self@);
        out
    }
}

} // verus!
