use vstd::prelude::*;

verus! {

/// The error type of every fallible operation of the library.
///
/// Paths are carried as text and the cause of an I/O failure as its message,
/// so that the library can describe them without touching the file system.
#[derive(Debug)]
pub enum MdxError {
    InvalidInput(String),
    InvalidFormat(String),
    Unsupported(String),
    IndexMiss { dictionary: String, keyword: String },
    DictionaryNotFound(String),
    UnsafeAssetPath(String),
    AssetNotFound(String),
    Io { path: Option<String>, message: String },
}

/// Results of the library.
pub type Result<T> = std::result::Result<T, MdxError>;

/// The mathematical value of an [`MdxError`]: the same variants, with text as
/// sequences of characters.
pub enum ErrorView {
    InvalidInput(Seq<char>),
    InvalidFormat(Seq<char>),
    Unsupported(Seq<char>),
    IndexMiss { dictionary: Seq<char>, keyword: Seq<char> },
    DictionaryNotFound(Seq<char>),
    UnsafeAssetPath(Seq<char>),
    AssetNotFound(Seq<char>),
    Io { path: Option<Seq<char>>, message: Seq<char> },
}

impl View for MdxError {
    type V = ErrorView;

    open spec fn view(&self) -> ErrorView {
        match self {
            MdxError::InvalidInput(m) => ErrorView::InvalidInput(m@),
            MdxError::InvalidFormat(m) => ErrorView::InvalidFormat(m@),
            MdxError::Unsupported(m) => ErrorView::Unsupported(m@),
            MdxError::IndexMiss { dictionary, keyword } => ErrorView::IndexMiss {
                dictionary: dictionary@,
                keyword: keyword@,
            },
            MdxError::DictionaryNotFound(m) => ErrorView::DictionaryNotFound(m@),
            MdxError::UnsafeAssetPath(m) => ErrorView::UnsafeAssetPath(m@),
            MdxError::AssetNotFound(m) => ErrorView::AssetNotFound(m@),
            MdxError::Io { path, message } => ErrorView::Io {
                path: match path {
                    Some(p) => Some(p@),
                    None => None,
                },
                message: message@,
            },
        }
    }
}

/// The human-readable description of an error.
pub open spec fn spec_describe(e: ErrorView) -> Seq<char> {
    match e {
        ErrorView::InvalidInput(m) => "invalid input: "@ + m,
        ErrorView::InvalidFormat(m) => "invalid MDict format: "@ + m,
        ErrorView::Unsupported(m) => "unsupported MDict feature: "@ + m,
        ErrorView::IndexMiss { dictionary, keyword } => "index miss in dictionary '"@ + dictionary
            + "' for '"@ + keyword + "'"@,
        ErrorView::DictionaryNotFound(m) => "dictionary not found: "@ + m,
        ErrorView::UnsafeAssetPath(m) => "unsafe asset path: "@ + m,
        ErrorView::AssetNotFound(m) => "asset not found: "@ + m,
        ErrorView::Io { path, message } => match path {
            Some(p) => "io error at "@ + p + ": "@ + message,
            None => "io error: "@ + message,
        },
    }
}

fn text_then(prefix: &str, rest: &String) -> (r: String)
    ensures
        r@ == prefix@ + rest@,
{
    let mut s = String::from_str(prefix);
    s.append(rest.as_str());
    s
}

impl MdxError {
    /// An I/O failure at an optional path, with the failure's message.
    pub fn io(path: Option<String>, message: String) -> (r: MdxError)
        ensures
            r@ == (ErrorView::Io {
                path: match path {
                    Some(p) => Some(p@),
                    None => None,
                },
                message: message@,
            }),
    {
        MdxError::Io { path, message }
    }

    /// The text that describes the error to a person.
    pub fn describe(&self) -> (r: String)
        ensures
            r@ == spec_describe(self@),
    {
        match self {
            MdxError::InvalidInput(m) => text_then("invalid input: ", m),
            MdxError::InvalidFormat(m) => text_then("invalid MDict format: ", m),
            MdxError::Unsupported(m) => text_then("unsupported MDict feature: ", m),
            MdxError::IndexMiss { dictionary, keyword } => {
                let mut s = text_then("index miss in dictionary '", dictionary);
                s.append("' for '");
                s.append(keyword.as_str());
                s.append("'");
                s
            },
            MdxError::DictionaryNotFound(m) => text_then("dictionary not found: ", m),
            MdxError::UnsafeAssetPath(m) => text_then("unsafe asset path: ", m),
            MdxError::AssetNotFound(m) => text_then("asset not found: ", m),
            MdxError::Io { path, message } => match path {
                Some(p) => {
                    let mut s = text_then("io error at ", p);
                    s.append(": ");
                    s.append(message.as_str());
                    s
                },
                None => text_then("io error: ", message),
            },
        }
    }
}

/// An `InvalidFormat` error with the given message.
pub(crate) fn format_error(message: &str) -> (r: MdxError)
    ensures
        r@ == ErrorView::InvalidFormat(message@),
{
    MdxError::InvalidFormat(String::from_str(message))
}

} // verus!
