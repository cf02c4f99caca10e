//! The decisions of the single-target endpoints: downloading one file and
//! downloading one folder as an archive.
//!
//! Each request is judged in two steps. The first looks at the request path
//! and the shared roots alone and either rejects the request or names the
//! filesystem path to probe. The second looks at what the probe found.

use vstd::prelude::*;
use vstd::string::StringExecFns;
use crate::path::{file_name, final_component};
use crate::resolver::{resolution, resolve_path};
use crate::text::{has_dot_dot_segment, has_parent_segment, texts};

verus! {

/// The three classes of failure that a request can end in.
#[derive(Clone, Copy, Debug, PartialEq, Eq, Structural)]
pub enum ErrorKind {
    /// The request path attempts to climb out of the shared roots.
    Forbidden,
    /// The target does not exist, or is not of the kind asked for.
    NotFound,
    /// The target could not be read although it was found.
    Internal,
}

/// Why a request was turned down.
#[derive(Clone, Debug, PartialEq, Eq)]
pub enum RequestError {
    /// The request path has a `..` segment.
    InvalidPath,
    /// No file is to be had under the request path.
    FileNotFound,
    /// The request path leads to nothing under the shared roots.
    PathNotFound,
    /// No folder is to be had under the request path.
    FolderNotFound,
    /// Opening the file failed; the text says how.
    OpenFailed(String),
}

/// What a probe of the filesystem reports of a path.
#[derive(Clone, Copy, Debug, PartialEq, Eq, Structural)]
pub struct PathStatus {
    /// Whether anything exists at the path.
    pub exists: bool,
    /// Whether what exists there is a directory.
    pub is_dir: bool,
}

/// The content type of every archive.
pub open spec fn zip_content_type() -> Seq<char> {
    "application/zip"@
}

/// The content disposition that offers a download under the name `name`.
pub open spec fn attachment(name: Seq<char>) -> Seq<char> {
    "attachment; filename=\""@ + name + "\""@
}

/// The name under which the file at `path` is offered: its final component,
/// or nothing where it has none.
pub open spec fn download_name(path: Seq<char>) -> Seq<char> {
    match final_component(path) {
        Some(name) => name,
        None => Seq::empty(),
    }
}

/// The name under which the folder at `path` is offered as an archive.
pub open spec fn archive_name(path: Seq<char>) -> Seq<char> {
    download_name(path) + ".zip"@
}

/// Where a request path leads, or the class of its failure: a path with a
/// `..` segment is forbidden, and one that does not resolve is not found.
pub open spec fn located(roots: Seq<Seq<char>>, path: Seq<char>) -> Result<Seq<char>, ErrorKind> {
    if has_parent_segment(path) {
        Err(ErrorKind::Forbidden)
    } else {
        match resolution(roots, path) {
            Some(found) => Ok(found),
            None => Err(ErrorKind::NotFound),
        }
    }
}

impl RequestError {
    /// The class of this failure.
    pub open spec fn class(self) -> ErrorKind {
        match self {
            RequestError::InvalidPath => ErrorKind::Forbidden,
            RequestError::FileNotFound => ErrorKind::NotFound,
            RequestError::PathNotFound => ErrorKind::NotFound,
            RequestError::FolderNotFound => ErrorKind::NotFound,
            RequestError::OpenFailed(_) => ErrorKind::Internal,
        }
    }

    /// The text sent with this failure.
    pub open spec fn text(self) -> Seq<char> {
        match self {
            RequestError::InvalidPath => "Invalid path"@,
            RequestError::FileNotFound => "File not found"@,
            RequestError::PathNotFound => "Path not found"@,
            RequestError::FolderNotFound => "Folder not found"@,
            RequestError::OpenFailed(reason) => reason@,
        }
    }

    /// The class of this failure.
    pub fn kind(&self) -> (kind: ErrorKind)
        ensures
            kind == self.class(),
    {
        match self {
            RequestError::InvalidPath => ErrorKind::Forbidden,
            RequestError::FileNotFound => ErrorKind::NotFound,
            RequestError::PathNotFound => ErrorKind::NotFound,
            RequestError::FolderNotFound => ErrorKind::NotFound,
            RequestError::OpenFailed(_) => ErrorKind::Internal,
        }
    }

    /// The HTTP status that reports this failure.
    pub fn status(&self) -> (code: u16)
        ensures
            code == status_of(self.class()),
    {
        status_code(self.kind())
    }

    /// The text sent with this failure.
    pub fn message(&self) -> (message: String)
        ensures
            message@ == self.text(),
    {
        match self {
            RequestError::InvalidPath => String::from_str("Invalid path"),
            RequestError::FileNotFound => String::from_str("File not found"),
            RequestError::PathNotFound => String::from_str("Path not found"),
            RequestError::FolderNotFound => String::from_str("Folder not found"),
            RequestError::OpenFailed(reason) => reason.clone(),
        }
    }
}

/// The HTTP status of each class of failure.
pub open spec fn status_of(kind: ErrorKind) -> u16 {
    match kind {
        ErrorKind::Forbidden => 403,
        ErrorKind::NotFound => 404,
        ErrorKind::Internal => 500,
    }
}

/// The HTTP status that reports a failure of class `kind`.
pub fn status_code(kind: ErrorKind) -> (code: u16)
    ensures
        code == status_of(kind),
{
    match kind {
        ErrorKind::Forbidden => 403,
        ErrorKind::NotFound => 404,
        ErrorKind::Internal => 500,
    }
}

/// Judges a request for a single file by its path alone.
///
/// A path with a `..` segment is refused as invalid before anything else is
/// looked at. Otherwise the path is resolved against the shared roots: the
/// result is the filesystem path to probe, or the report that no file is
/// there.
pub fn plan_download(shared_items: &[String], path: &str) -> (plan: Result<String, RequestError>)
    ensures
        match plan {
            Ok(found) => located(texts(shared_items@), path@) == Ok::<Seq<char>, ErrorKind>(found@),
            Err(e) => located(texts(shared_items@), path@) == Err::<Seq<char>, ErrorKind>(e.class())
                && (e is InvalidPath || e is FileNotFound),
        },
{
    if has_dot_dot_segment(path) {
        return Err(RequestError::InvalidPath);
    }
    match resolve_path(shared_items, path) {
        Some(found) => Ok(found),
        None => Err(RequestError::FileNotFound),
    }
}

/// Judges a request for a folder archive by its path alone.
///
/// A path with a `..` segment is refused as invalid before anything else is
/// looked at. Otherwise the path is resolved against the shared roots: the
/// result is the filesystem path to probe, or the report that the path leads
/// nowhere.
pub fn plan_folder_zip(shared_items: &[String], path: &str) -> (plan: Result<String, RequestError>)
    ensures
        match plan {
            Ok(found) => located(texts(shared_items@), path@) == Ok::<Seq<char>, ErrorKind>(found@),
            Err(e) => located(texts(shared_items@), path@) == Err::<Seq<char>, ErrorKind>(e.class())
                && (e is InvalidPath || e is PathNotFound),
        },
{
    if has_dot_dot_segment(path) {
        return Err(RequestError::InvalidPath);
    }
    match resolve_path(shared_items, path) {
        Some(found) => Ok(found),
        None => Err(RequestError::PathNotFound),
    }
}

/// Accepts the target of a file download: it has to exist and must not be a
/// directory.
pub fn check_file(status: PathStatus) -> (verdict: Result<(), RequestError>)
    ensures
        verdict is Ok <==> status.exists && !status.is_dir,
        verdict matches Err(e) ==> e is FileNotFound,
{
    if !status.exists || status.is_dir {
        Err(RequestError::FileNotFound)
    } else {
        Ok(())
    }
}

/// Accepts the target of a folder archive: it has to exist and be a
/// directory.
pub fn check_folder(status: PathStatus) -> (verdict: Result<(), RequestError>)
    ensures
        verdict is Ok <==> status.exists && status.is_dir,
        verdict matches Err(e) ==> e is FolderNotFound,
{
    if !status.exists || !status.is_dir {
        Err(RequestError::FolderNotFound)
    } else {
        Ok(())
    }
}

/// Reports that the file, though found, could not be opened.
pub fn open_failed(reason: String) -> (e: RequestError)
    ensures
        e == RequestError::OpenFailed(reason),
        e.class() == ErrorKind::Internal,
{
    RequestError::OpenFailed(reason)
}

/// The content disposition that offers a download under the name `name`.
pub fn attachment_header(name: &str) -> (header: String)
    ensures
        header@ == attachment(name@),
{
    String::from_str("attachment; filename=\"").concat(name).concat("\"")
}

/// The content disposition for the download of the file at `path`.
pub fn file_disposition(path: &str) -> (header: String)
    ensures
        header@ == attachment(download_name(path@)),
{
    match file_name(path) {
        Some(name) => attachment_header(name.as_str()),
        None => {
            proof {
                reveal_strlit("");
            }
            attachment_header("")
        },
    }
}

/// The content disposition for the archive of the folder at `path`.
pub fn folder_zip_disposition(path: &str) -> (header: String)
    ensures
        header@ == attachment(archive_name(path@)),
{
    let name = match file_name(path) {
        Some(name) => name.concat(".zip"),
        None => {
            proof {
                reveal_strlit("");
                assert(""@ + ".zip"@ == ".zip"@);
            }
            String::from_str(".zip")
        },
    };
    attachment_header(name.as_str())
}

/// The content disposition for the archive of a selection.
pub fn selection_zip_disposition() -> (header: String)
    ensures
        header@ == attachment("download.zip"@),
{
    attachment_header("download.zip")
}

/// The content type sent with every archive.
pub fn zip_content_type_header() -> (header: String)
    ensures
        header@ == zip_content_type(),
{
    String::from_str("application/zip")
}

/// A request path with a `..` segment is forbidden, whatever the shared
/// roots are and whatever the filesystem holds; a path without one is never
/// forbidden, and leads wherever it resolves to.
pub proof fn lemma_parent_segment_is_forbidden(roots: Seq<Seq<char>>, path: Seq<char>)
    ensures
        has_parent_segment(path) <==> located(roots, path) == Err::<Seq<char>, ErrorKind>(
            ErrorKind::Forbidden,
        ),
        !has_parent_segment(path) ==> located(roots, path) == (match resolution(roots, path) {
            Some(found) => Ok::<Seq<char>, ErrorKind>(found),
            None => Err::<Seq<char>, ErrorKind>(ErrorKind::NotFound),
        }),
{
}

} // verus!
