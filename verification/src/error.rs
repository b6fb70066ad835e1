//! Errors of the core, and the stable form in which clients receive them:
//! a code and named parameters, so that a client can word it in the user's
//! language.
use vstd::prelude::*;

use crate::journal_date::{digits, push_digits};
use crate::text::string_from_chars;

verus! {

/// Error of the core. Every variant holds plain values.
#[derive(Debug)]
pub enum CoreError {
    InvalidPath(String),
    PageNotFound(String),
    InvalidDate(String),
    MalformedBlock { line: usize, reason: String },
    Io { path: String, detail: String },
    Config(String),
    PoisonedConfigLock,
    PoisonedIndexLock,
    PoisonedSearchIndexLock,
    PoisonedWatcherLock,
    Index(String),
    Search(String),
    Git(String),
}

/// The value of one parameter of an error.
#[derive(Debug, Clone, PartialEq, Eq)]
pub enum ParamValue {
    Text(String),
    Number(usize),
}

/// The stable code of each variant.
pub open spec fn error_code(e: CoreError) -> Seq<char> {
    match e {
        CoreError::InvalidPath(_) => "invalid_path"@,
        CoreError::PageNotFound(_) => "page_not_found"@,
        CoreError::InvalidDate(_) => "invalid_date"@,
        CoreError::MalformedBlock { .. } => "malformed_block"@,
        CoreError::Io { .. } => "io"@,
        CoreError::Config(_) => "config_error"@,
        CoreError::PoisonedConfigLock => "poisoned_config_lock"@,
        CoreError::PoisonedIndexLock => "poisoned_index_lock"@,
        CoreError::PoisonedSearchIndexLock => "poisoned_search_index_lock"@,
        CoreError::PoisonedWatcherLock => "poisoned_watcher_lock"@,
        CoreError::Index(_) => "index_error"@,
        CoreError::Search(_) => "search_error"@,
        CoreError::Git(_) => "git_error"@,
    }
}

/// A parameter, by its name and its value, with text values taken by
/// their characters.
pub open spec fn param_model(p: (String, ParamValue)) -> (Seq<char>, Result<Seq<char>, int>) {
    (
        p.0@,
        match p.1 {
            ParamValue::Text(t) => Ok(t@),
            ParamValue::Number(n) => Err(n as int),
        },
    )
}

/// The parameters of each variant, in order; text values are `Ok`,
/// numbers `Err`.
pub open spec fn error_params(e: CoreError) -> Seq<(Seq<char>, Result<Seq<char>, int>)> {
    match e {
        CoreError::InvalidPath(p) => seq![("path"@, Ok(p@))],
        CoreError::PageNotFound(p) => seq![("path"@, Ok(p@))],
        CoreError::InvalidDate(d) => seq![("date"@, Ok(d@))],
        CoreError::MalformedBlock { line, reason } => seq![
            ("line"@, Err(line as int)),
            ("reason"@, Ok(reason@)),
        ],
        CoreError::Io { path, detail } => seq![("path"@, Ok(path@)), ("detail"@, Ok(detail@))],
        CoreError::Config(d) => seq![("detail"@, Ok(d@))],
        CoreError::Index(d) => seq![("detail"@, Ok(d@))],
        CoreError::Search(d) => seq![("detail"@, Ok(d@))],
        CoreError::Git(d) => seq![("detail"@, Ok(d@))],
        _ => Seq::empty(),
    }
}

fn text_param(name: &str, value: &String) -> (p: (String, ParamValue))
    ensures
        param_model(p) == (name@, Ok::<Seq<char>, int>(value@)),
{
    (String::from_str(name), ParamValue::Text(value.clone()))
}

/// The message of each variant, for logs and for clients that show text.
pub open spec fn error_message(e: CoreError) -> Seq<char> {
    match e {
        CoreError::InvalidPath(p) => "percorso non valido all'interno del vault: "@ + p@,
        CoreError::PageNotFound(p) => "pagina non trovata: "@ + p@,
        CoreError::InvalidDate(d) => "data non valida, atteso formato YYYY-MM-DD: "@ + d@,
        CoreError::MalformedBlock { line, reason } => "riga malformata nel blocco "@ + digits(line as nat) + ": "@
            + reason@,
        CoreError::Io { path, detail } => "errore di I/O su "@ + path@ + ": "@ + detail@,
        CoreError::Config(d) => "errore di configurazione: "@ + d@,
        CoreError::PoisonedConfigLock => "stato di configurazione corrotto"@,
        CoreError::PoisonedIndexLock => "stato dell'indice corrotto"@,
        CoreError::PoisonedSearchIndexLock => "stato dell'indice di ricerca corrotto"@,
        CoreError::PoisonedWatcherLock => "stato del watcher corrotto"@,
        CoreError::Index(d) => "errore di indice: "@ + d@,
        CoreError::Search(d) => "errore di ricerca: "@ + d@,
        CoreError::Git(d) => "errore Git: "@ + d@,
    }
}

fn prefixed(prefix: &str, rest: &String) -> (m: String)
    ensures
        m@ == prefix@ + rest@,
{
    let mut m = String::from_str(prefix);
    m.append(rest.as_str());
    m
}

impl CoreError {
    /// The stable code of the error, e.g. `invalid_path`.
    pub fn code(&self) -> (c: &'static str)
        ensures
            c@ == error_code(*self),
    {
        match self {
            CoreError::InvalidPath(_) => "invalid_path",
            CoreError::PageNotFound(_) => "page_not_found",
            CoreError::InvalidDate(_) => "invalid_date",
            CoreError::MalformedBlock { .. } => "malformed_block",
            CoreError::Io { .. } => "io",
            CoreError::Config(_) => "config_error",
            CoreError::PoisonedConfigLock => "poisoned_config_lock",
            CoreError::PoisonedIndexLock => "poisoned_index_lock",
            CoreError::PoisonedSearchIndexLock => "poisoned_search_index_lock",
            CoreError::PoisonedWatcherLock => "poisoned_watcher_lock",
            CoreError::Index(_) => "index_error",
            CoreError::Search(_) => "search_error",
            CoreError::Git(_) => "git_error",
        }
    }

    /// The message of the error, in Italian, for logs and for clients that
    /// show text as it is.
    pub fn message(&self) -> (m: String)
        ensures
            m@ == error_message(*self),
    {
        match self {
            CoreError::InvalidPath(p) => prefixed("percorso non valido all'interno del vault: ", p),
            CoreError::PageNotFound(p) => prefixed("pagina non trovata: ", p),
            CoreError::InvalidDate(d) => prefixed("data non valida, atteso formato YYYY-MM-DD: ", d),
            CoreError::MalformedBlock { line, reason } => {
                let mut ds: Vec<char> = Vec::new();
                push_digits(&mut ds, *line as u64);
                assert(ds@ =~= digits(*line as nat));
                let mut m = String::from_str("riga malformata nel blocco ");
                let n = string_from_chars(&ds);
                m.append(n.as_str());
                m.append(": ");
                m.append(reason.as_str());
                m
            },
            CoreError::Io { path, detail } => {
                let mut m = String::from_str("errore di I/O su ");
                m.append(path.as_str());
                m.append(": ");
                m.append(detail.as_str());
                m
            },
            CoreError::Config(d) => prefixed("errore di configurazione: ", d),
            CoreError::PoisonedConfigLock => String::from_str("stato di configurazione corrotto"),
            CoreError::PoisonedIndexLock => String::from_str("stato dell'indice corrotto"),
            CoreError::PoisonedSearchIndexLock => String::from_str("stato dell'indice di ricerca corrotto"),
            CoreError::PoisonedWatcherLock => String::from_str("stato del watcher corrotto"),
            CoreError::Index(d) => prefixed("errore di indice: ", d),
            CoreError::Search(d) => prefixed("errore di ricerca: ", d),
            CoreError::Git(d) => prefixed("errore Git: ", d),
        }
    }

    /// The named parameters of the error, in order.
    pub fn params(&self) -> (ps: Vec<(String, ParamValue)>)
        ensures
            ps@.map_values(|p: (String, ParamValue)| param_model(p)) == error_params(*self),
    {
        let mut ps: Vec<(String, ParamValue)> = Vec::new();
        match self {
            CoreError::InvalidPath(p) => ps.push(text_param("path", p)),
            CoreError::PageNotFound(p) => ps.push(text_param("path", p)),
            CoreError::InvalidDate(d) => ps.push(text_param("date", d)),
            CoreError::MalformedBlock { line, reason } => {
                ps.push((String::from_str("line"), ParamValue::Number(*line)));
                ps.push(text_param("reason", reason));
            },
            CoreError::Io { path, detail } => {
                ps.push(text_param("path", path));
                ps.push(text_param("detail", detail));
            },
            CoreError::Config(d) => ps.push(text_param("detail", d)),
            CoreError::Index(d) => ps.push(text_param("detail", d)),
            CoreError::Search(d) => ps.push(text_param("detail", d)),
            CoreError::Git(d) => ps.push(text_param("detail", d)),
            _ => {},
        }
        assert(ps@.map_values(|p: (String, ParamValue)| param_model(p)) =~= error_params(*self));
        ps
    }
}

} // verus!
