//! The failures that the library reports.
use vstd::prelude::*;
use vstd::string::StringExecFns;

verus! {

/// Every failure carries what a caller needs to render a diagnostic: the
/// path or the module name concerned, and a detail where there is one.
#[derive(Debug, Clone, PartialEq, Eq)]
pub enum GrimpError {
    /// No file at this path.
    FileNotFound(String),
    /// The bytes at this path are not text in the encoding that applies;
    /// the second field says why.
    DecodeError(String, String),
    /// The source at this path could not be parsed for imports.
    ParseError(String, String),
    /// The cache file at this path does not hold a cache document.
    CorruptCache(String),
    /// No found package lists this module.
    MissingOwner(String),
    /// None of the candidate files of this module exists.
    ModuleFileNotFound(String),
    /// A value breaks an invariant that the operation relies on.
    InvariantViolation(String),
}

/// What a `GrimpError` stands for.
pub enum GrimpErrorView {
    FileNotFound(Seq<char>),
    DecodeError(Seq<char>, Seq<char>),
    ParseError(Seq<char>, Seq<char>),
    CorruptCache(Seq<char>),
    MissingOwner(Seq<char>),
    ModuleFileNotFound(Seq<char>),
    InvariantViolation(Seq<char>),
}

impl View for GrimpError {
    type V = GrimpErrorView;

    open spec fn view(&self) -> GrimpErrorView {
        match *self {
            GrimpError::FileNotFound(path) => GrimpErrorView::FileNotFound(path@),
            GrimpError::DecodeError(path, detail) => GrimpErrorView::DecodeError(path@, detail@),
            GrimpError::ParseError(path, detail) => GrimpErrorView::ParseError(path@, detail@),
            GrimpError::CorruptCache(path) => GrimpErrorView::CorruptCache(path@),
            GrimpError::MissingOwner(module) => GrimpErrorView::MissingOwner(module@),
            GrimpError::ModuleFileNotFound(module) => GrimpErrorView::ModuleFileNotFound(module@),
            GrimpError::InvariantViolation(detail) => GrimpErrorView::InvariantViolation(detail@),
        }
    }
}

/// The view of a text or a failure.
pub open spec fn text_result_view(result: Result<String, GrimpError>) -> Result<
    Seq<char>,
    GrimpErrorView,
> {
    match result {
        Ok(text) => Ok(text@),
        Err(e) => Err(e@),
    }
}

/// The line of text that says what failed.
pub open spec fn message_of(error: GrimpErrorView) -> Seq<char> {
    match error {
        GrimpErrorView::FileNotFound(path) => "file not found: "@ + path,
        GrimpErrorView::DecodeError(path, detail) => "cannot decode "@ + path + ": "@ + detail,
        GrimpErrorView::ParseError(path, detail) => "cannot parse "@ + path + ": "@ + detail,
        GrimpErrorView::CorruptCache(path) => "corrupt cache file: "@ + path,
        GrimpErrorView::MissingOwner(module) => "no package holds module "@ + module,
        GrimpErrorView::ModuleFileNotFound(module) => "no file for module "@ + module,
        GrimpErrorView::InvariantViolation(detail) => "invariant violated: "@ + detail,
    }
}

impl GrimpError {
    /// A line of text that says what failed.
    pub fn message(&self) -> (text: String)
        ensures
            text@ == message_of(self@),
    {
        match self {
            GrimpError::FileNotFound(path) => "file not found: ".to_owned().concat(path.as_str()),
            GrimpError::DecodeError(path, detail) => "cannot decode ".to_owned().concat(
                path.as_str(),
            ).concat(": ").concat(detail.as_str()),
            GrimpError::ParseError(path, detail) => "cannot parse ".to_owned().concat(
                path.as_str(),
            ).concat(": ").concat(detail.as_str()),
            GrimpError::CorruptCache(path) => "corrupt cache file: ".to_owned().concat(
                path.as_str(),
            ),
            GrimpError::MissingOwner(module) => "no package holds module ".to_owned().concat(
                module.as_str(),
            ),
            GrimpError::ModuleFileNotFound(module) => "no file for module ".to_owned().concat(
                module.as_str(),
            ),
            GrimpError::InvariantViolation(detail) => "invariant violated: ".to_owned().concat(
                detail.as_str(),
            ),
        }
    }
}

pub type GrimpResult<T> = Result<T, GrimpError>;

} // verus!
