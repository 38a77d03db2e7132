//! Indexed files: what identifies one, what is kept of it, and which image
//! files are indexed at all.

use crate::text::{lowercase_of, same_text, to_lowercase};
use crate::timestamp::{rfc3339_instant, rfc3339_text, Timestamp};
use vstd::prelude::*;

verus! {

/// The image formats that the decoder knows.
#[derive(Debug, Clone, Copy, PartialEq, Eq, Structural)]
pub enum SupportedFileType {
    Avif,
    Bmp,
    Gif,
    Ico,
    Jpeg,
    Png,
    Webp,
    Heic,
    Jxl,
}

/// How an image file reaches the text extraction.
#[derive(Debug, Clone, Copy, PartialEq, Eq, Structural)]
pub enum Route {
    /// The file is handed over as it is.
    Direct,
    /// The file is decoded from the given format first.
    Decode(SupportedFileType),
}

/// What a list of items holds, each item by its view.
pub open spec fn views<T: View>(items: Seq<T>) -> Seq<T::V> {
    items.map_values(|item: T| item@)
}

/// What identifies a file: its directory, absolute and canonical, and its name
/// in that directory.
#[derive(Debug, Clone, PartialEq, Eq)]
pub struct FileIdentity {
    pub path: String,
    pub name: String,
}

/// A [`FileIdentity`] by its characters.
pub struct FileKey {
    pub path: Seq<char>,
    pub name: Seq<char>,
}

impl View for FileIdentity {
    type V = FileKey;

    open spec fn view(&self) -> FileKey {
        FileKey { path: self.path@, name: self.name@ }
    }
}

/// What the index keeps of a file.
#[derive(Debug, Clone, PartialEq, Eq)]
pub struct File {
    /// the filename
    pub name: String,
    /// the base path of the file
    pub path: String,
    /// the OCRed text
    pub text: String,
    /// the date the file was OCRed; `None` where the stored date cannot be read
    pub ocr_date: Option<Timestamp>,
    /// whether OCR was successful
    pub ocr_success: bool,
    /// the engine that extracted the text
    pub ocr_engine: String,
}

/// A [`File`] by its characters.
pub struct FileView {
    pub name: Seq<char>,
    pub path: Seq<char>,
    pub text: Seq<char>,
    pub ocr_date: Option<Timestamp>,
    pub ocr_success: bool,
    pub ocr_engine: Seq<char>,
}

impl FileView {
    /// What identifies the file.
    pub open spec fn key(self) -> FileKey {
        FileKey { path: self.path, name: self.name }
    }
}

impl View for File {
    type V = FileView;

    open spec fn view(&self) -> FileView {
        FileView {
            name: self.name@,
            path: self.path@,
            text: self.text@,
            ocr_date: self.ocr_date,
            ocr_success: self.ocr_success,
            ocr_engine: self.ocr_engine@,
        }
    }
}

/// A row of the table `ocr_results` as it is stored: every column as text but
/// `ocr_success`.
#[derive(Debug, Clone, PartialEq, Eq)]
pub struct PersistedRow {
    pub filename: String,
    pub path: String,
    pub text: String,
    /// RFC 3339, in UTC
    pub ocr_date: String,
    pub ocr_success: bool,
    pub ocr_engine: String,
}

/// A [`PersistedRow`] by its characters.
pub struct RowView {
    pub filename: Seq<char>,
    pub path: Seq<char>,
    pub text: Seq<char>,
    pub ocr_date: Seq<char>,
    pub ocr_success: bool,
    pub ocr_engine: Seq<char>,
}

impl View for PersistedRow {
    type V = RowView;

    open spec fn view(&self) -> RowView {
        RowView {
            filename: self.filename@,
            path: self.path@,
            text: self.text@,
            ocr_date: self.ocr_date@,
            ocr_success: self.ocr_success,
            ocr_engine: self.ocr_engine@,
        }
    }
}

/// The file that a stored row stands for, given the instant that its date
/// denotes.
pub open spec fn file_of_row(row: RowView, date: Option<Timestamp>) -> FileView {
    FileView {
        name: row.filename,
        path: row.path,
        text: row.text,
        ocr_date: date,
        ocr_success: row.ocr_success,
        ocr_engine: row.ocr_engine,
    }
}

/// The row that stores a file, given the text form of its date.
pub open spec fn row_of_file(file: FileView, date: Seq<char>) -> RowView {
    RowView {
        filename: file.name,
        path: file.path,
        text: file.text,
        ocr_date: date,
        ocr_success: file.ocr_success,
        ocr_engine: file.ocr_engine,
    }
}

/// The route of a file with the given extension, written in lower case; `None`
/// where files with that extension are not indexed.
pub open spec fn route_of(extension: Seq<char>) -> Option<Route> {
    if extension == "jpg"@ || extension == "jpeg"@ || extension == "png"@ || extension == "gif"@
        || extension == "bmp"@ || extension == "tiff"@ {
        Some(Route::Direct)
    } else if extension == "webp"@ {
        Some(Route::Decode(SupportedFileType::Webp))
    } else if extension == "heic"@ || extension == "heif"@ {
        Some(Route::Decode(SupportedFileType::Heic))
    } else if extension == "avif"@ {
        Some(Route::Decode(SupportedFileType::Avif))
    } else if extension == "jxl"@ {
        Some(Route::Decode(SupportedFileType::Jxl))
    } else {
        None
    }
}

/// The route of a file with the given extension, written in lower case; `None`
/// where files with that extension are not indexed.
pub fn route_of_lowercase(extension: &str) -> (r: Option<Route>)
    ensures
        r == route_of(extension@),
{
    if same_text(extension, "jpg") || same_text(extension, "jpeg") || same_text(extension, "png")
        || same_text(extension, "gif") || same_text(extension, "bmp") || same_text(
        extension,
        "tiff",
    ) {
        Some(Route::Direct)
    } else if same_text(extension, "webp") {
        Some(Route::Decode(SupportedFileType::Webp))
    } else if same_text(extension, "heic") || same_text(extension, "heif") {
        Some(Route::Decode(SupportedFileType::Heic))
    } else if same_text(extension, "avif") {
        Some(Route::Decode(SupportedFileType::Avif))
    } else if same_text(extension, "jxl") {
        Some(Route::Decode(SupportedFileType::Jxl))
    } else {
        None
    }
}

/// The route of a file with the given extension, in whatever case it is
/// written; `None` where files with that extension are not indexed.
pub fn route_of_extension(extension: &str) -> (r: Option<Route>)
    ensures
        r == route_of(lowercase_of(extension@)),
{
    let lower = to_lowercase(extension);
    route_of_lowercase(lower.as_str())
}

impl FileIdentity {
    /// Whether both name the same file.
    pub fn same_as(&self, other: &FileIdentity) -> (r: bool)
        ensures
            r == (self@ == other@),
    {
        self.path == other.path && self.name == other.name
    }

    /// A copy.
    pub fn duplicate(&self) -> (r: FileIdentity)
        ensures
            r@ == self@,
    {
        FileIdentity { path: self.path.clone(), name: self.name.clone() }
    }
}

impl File {
    /// What identifies the file.
    pub fn identity(&self) -> (r: FileIdentity)
        ensures
            r@ == self@.key(),
    {
        FileIdentity { path: self.path.clone(), name: self.name.clone() }
    }

    /// Whether the file is the one that `identity` names.
    pub fn has_identity(&self, identity: &FileIdentity) -> (r: bool)
        ensures
            r == (self@.key() == identity@),
    {
        self.path == identity.path && self.name == identity.name
    }

    /// A copy.
    pub fn duplicate(&self) -> (r: File)
        ensures
            r@ == self@,
    {
        File {
            name: self.name.clone(),
            path: self.path.clone(),
            text: self.text.clone(),
            ocr_date: self.ocr_date,
            ocr_success: self.ocr_success,
            ocr_engine: self.ocr_engine.clone(),
        }
    }

    /// The file that a stored row stands for, given the instant that its date
    /// was read as.
    pub fn from_row_dated(row: &PersistedRow, date: Option<Timestamp>) -> (r: File)
        ensures
            r@ == file_of_row(row@, date),
    {
        File {
            name: row.filename.clone(),
            path: row.path.clone(),
            text: row.text.clone(),
            ocr_date: date,
            ocr_success: row.ocr_success,
            ocr_engine: row.ocr_engine.clone(),
        }
    }

    /// The file that a stored row stands for. A date that is no RFC 3339 date
    /// leaves the file without one.
    pub fn from_row(row: &PersistedRow) -> (r: File)
        ensures
            r@ == file_of_row(row@, rfc3339_instant(row@.ocr_date)),
    {
        let date = Timestamp::parse_rfc3339(row.ocr_date.as_str());
        File::from_row_dated(row, date)
    }

    /// The row that stores the file, given the text form of its date.
    pub fn to_row_dated(&self, date: String) -> (r: PersistedRow)
        ensures
            r@ == row_of_file(self@, date@),
    {
        PersistedRow {
            filename: self.name.clone(),
            path: self.path.clone(),
            text: self.text.clone(),
            ocr_date: date,
            ocr_success: self.ocr_success,
            ocr_engine: self.ocr_engine.clone(),
        }
    }

    /// The row that stores the file; `None` where the file has no date, or one
    /// that has no RFC 3339 form.
    pub fn to_row(&self) -> (r: Option<PersistedRow>)
        ensures
            match self.ocr_date {
                Some(at) => match rfc3339_text(at.secs, at.nanos) {
                    Some(date) => r matches Some(row) && row@ == row_of_file(self@, date),
                    None => r is None,
                },
                None => r is None,
            },
    {
        match self.ocr_date {
            Some(at) => match at.to_rfc3339() {
                Some(date) => Some(self.to_row_dated(date)),
                None => None,
            },
            None => None,
        }
    }
}

} // verus!
