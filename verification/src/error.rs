//! The one error type of the library.
use vstd::prelude::*;
use crate::text::{cat2, cat3, cat4, join, joined, views};

verus! {

/// What can go wrong. The hook path never surfaces these; the registry and configuration paths
/// fail loudly at startup.
#[derive(Debug)]
pub enum Error {
    UnknownKind(String),
    DuplicateKind(String),
    InvalidSpec { name: String, reason: String },
    DisallowedKeys { kind: String, keys: Vec<String> },
    SchemaParse { path: String, source: String },
    ConfigParse { path: String, source: String },
    InvalidExport(String),
    Io(String),
}

/// What an error says.
#[verifier::ext_equal]
pub enum ErrorModel {
    UnknownKind(Seq<char>),
    DuplicateKind(Seq<char>),
    InvalidSpec(Seq<char>, Seq<char>),
    DisallowedKeys(Seq<char>, Seq<Seq<char>>),
    SchemaParse(Seq<char>, Seq<char>),
    ConfigParse(Seq<char>, Seq<char>),
    InvalidExport(Seq<char>),
    Io(Seq<char>),
}

/// The `Debug` form of a string, as `std` prints it.
pub uninterp spec fn debug_str(s: Seq<char>) -> Seq<char>;

/// `Debug` formatting of a string: in quotes, with escapes.
#[verifier::external_body]
pub(crate) fn show_str(s: &str) -> (r: String)
    ensures
        r@ == debug_str(s@),
{
    format!("{s:?}")
}

/// The `Debug` forms of strings.
pub open spec fn debug_strs(list: Seq<Seq<char>>) -> Seq<Seq<char>> {
    list.map_values(|s: Seq<char>| debug_str(s))
}

/// The `Debug` form of a list of strings: the bracketed list of the quoted strings.
pub open spec fn debug_list(list: Seq<Seq<char>>) -> Seq<char> {
    "["@ + joined(debug_strs(list), ", "@) + "]"@
}

/// Show a list of strings, each in quotes.
pub(crate) fn show_list(list: &Vec<String>) -> (r: String)
    ensures
        r@ == debug_list(views(list@)),
{
    let mut shown: Vec<String> = Vec::new();
    let mut i: usize = 0;
    while i < list.len()
        invariant
            0 <= i <= list.len(),
            shown.len() == i,
            forall|k: int| 0 <= k < i ==> (#[trigger] shown@[k])@ == debug_str(list@[k]@),
        decreases list.len() - i,
    {
        shown.push(show_str(&list[i]));
        i = i + 1;
    }
    assert(views(shown@) =~= debug_strs(views(list@)));
    cat3("[", &join(&shown, ", "), "]")
}

impl Error {
    pub open spec fn model(self) -> ErrorModel {
        match self {
            Error::UnknownKind(k) => ErrorModel::UnknownKind(k@),
            Error::DuplicateKind(k) => ErrorModel::DuplicateKind(k@),
            Error::InvalidSpec { name, reason } => ErrorModel::InvalidSpec(name@, reason@),
            Error::DisallowedKeys { kind, keys } => ErrorModel::DisallowedKeys(
                kind@,
                views(keys@),
            ),
            Error::SchemaParse { path, source } => ErrorModel::SchemaParse(path@, source@),
            Error::ConfigParse { path, source } => ErrorModel::ConfigParse(path@, source@),
            Error::InvalidExport(e) => ErrorModel::InvalidExport(e@),
            Error::Io(e) => ErrorModel::Io(e@),
        }
    }

    /// The message of an error.
    pub open spec fn text(self) -> Seq<char> {
        match self {
            Error::UnknownKind(k) => "unknown kind: "@ + k@,
            Error::DuplicateKind(k) => "duplicate kind: "@ + k@,
            Error::InvalidSpec { name, reason } => "invalid kind spec '"@ + name@ + "': "@ + reason@,
            Error::DisallowedKeys { kind, keys } => "disallowed payload keys for kind '"@ + kind@
                + "': "@ + debug_list(views(keys@)),
            Error::SchemaParse { path, source } => "schema parse error in "@ + path@ + ": "@
                + source@,
            Error::ConfigParse { path, source } => "config parse error in "@ + path@ + ": "@
                + source@,
            Error::InvalidExport(e) => "invalid export config: "@ + e@,
            Error::Io(e) => "io error: "@ + e@,
        }
    }

    /// Describe the error.
    pub fn message(&self) -> (r: String)
        ensures
            r@ == self.text(),
    {
        match self {
            Error::UnknownKind(k) => cat2("unknown kind: ", k),
            Error::DuplicateKind(k) => cat2("duplicate kind: ", k),
            Error::InvalidSpec { name, reason } => cat4(
                "invalid kind spec '",
                name,
                "': ",
                reason,
            ),
            Error::DisallowedKeys { kind, keys } => cat4(
                "disallowed payload keys for kind '",
                kind,
                "': ",
                &show_list(keys),
            ),
            Error::SchemaParse { path, source } => cat4("schema parse error in ", path, ": ", source),
            Error::ConfigParse { path, source } => cat4("config parse error in ", path, ": ", source),
            Error::InvalidExport(e) => cat2("invalid export config: ", e),
            Error::Io(e) => cat2("io error: ", e),
        }
    }
}

} // verus!
