//! The library's error type: a closed set of kinds, each with its payload.

use vstd::prelude::*;

verus! {

/// The kinds of failure the library reports.
#[derive(Debug, Clone, Copy, PartialEq, Eq, Structural)]
pub enum ErrorKind {
    /// The user's configuration directory could not be located.
    LocateConfigDir,
    /// None of the requested templates resolved to any content.
    MissingTemplates,
    /// The requested operation produced no output.
    NoOutput,
    /// A template repository could not be cloned or fetched.
    RepositoryUnavailable,
    /// A template file could not be opened or read.
    FileUnreadable,
    /// A persisted configuration or state file is malformed.
    ConfigOrStateCorrupt,
    /// The current time precedes the recorded time of the last refresh.
    ClockSkew,
    /// Any other failure, described by its message.
    Other,
}

/// The message shown for an error of kind `kind` that carries no message
/// of its own.
pub open spec fn kind_message(kind: ErrorKind) -> Seq<char> {
    match kind {
        ErrorKind::MissingTemplates => "None of the requested gitignore template(s) could be found"@,
        ErrorKind::NoOutput => "No output was generated for the user specified operation"@,
        ErrorKind::LocateConfigDir => "Failed to locate config directory"@,
        ErrorKind::RepositoryUnavailable => "A template repository could not be cloned or fetched"@,
        ErrorKind::FileUnreadable => "A template file could not be opened or read"@,
        ErrorKind::ConfigOrStateCorrupt => "A configuration or state file is malformed"@,
        ErrorKind::ClockSkew => "The current time precedes the last repository update"@,
        ErrorKind::Other => "User defined error with no payload encountered"@,
    }
}

/// An error of the library: its kind, a message for `ErrorKind::Other`, the
/// description of the failure that caused it, if any, and, for
/// `ErrorKind::MissingTemplates`, the template names that were asked for.
#[derive(Debug, Clone)]
pub struct Error {
    kind: ErrorKind,
    other_message: String,
    source: Option<String>,
    templates: Vec<String>,
}

impl Error {
    /// The kind of the error.
    pub closed spec fn kind_of(&self) -> ErrorKind {
        self.kind
    }

    /// The message carried for `ErrorKind::Other`.
    pub closed spec fn other_text(&self) -> Seq<char> {
        self.other_message@
    }

    /// The description of the underlying failure, if any.
    pub closed spec fn source_text(&self) -> Option<Seq<char>> {
        match self.source {
            Some(s) => Some(s@),
            None => None,
        }
    }

    /// The template names carried by the error.
    pub closed spec fn template_names(&self) -> Seq<Seq<char>> {
        self.templates@.map_values(|t: String| t@)
    }

    /// An error of kind `error_kind` caused by a failure described by
    /// `error_source`.
    pub fn new(error_kind: ErrorKind, error_source: String) -> (r: Error)
        ensures
            r.kind_of() == error_kind,
            r.source_text() == Some(error_source@),
            r.other_text().len() == 0,
            r.template_names().len() == 0,
    {
        let r = Error {
            kind: error_kind,
            other_message: String::new(),
            source: Some(error_source),
            templates: Vec::new(),
        };
        proof {
            assert(r.template_names() =~= Seq::<Seq<char>>::empty());
        }
        r
    }

    /// An error of kind `error_kind` with no further payload.
    pub fn from_kind(error_kind: ErrorKind) -> (r: Error)
        ensures
            r.kind_of() == error_kind,
            r.source_text() is None,
            r.other_text().len() == 0,
            r.template_names().len() == 0,
    {
        let r = Error {
            kind: error_kind,
            other_message: String::new(),
            source: None,
            templates: Vec::new(),
        };
        proof {
            assert(r.template_names() =~= Seq::<Seq<char>>::empty());
        }
        r
    }

    /// An `ErrorKind::Other` error with the given message.
    pub fn other(message: String) -> (r: Error)
        ensures
            r.kind_of() == ErrorKind::Other,
            r.other_text() == message@,
            r.source_text() is None,
            r.template_names().len() == 0,
    {
        let r = Error { kind: ErrorKind::Other, other_message: message, source: None, templates: Vec::new() };
        proof {
            assert(r.template_names() =~= Seq::<Seq<char>>::empty());
        }
        r
    }

    /// An `ErrorKind::MissingTemplates` error naming the templates exactly as
    /// they were requested.
    pub fn missing_templates(requested: &Vec<String>) -> (r: Error)
        ensures
            r.kind_of() == ErrorKind::MissingTemplates,
            r.template_names() == requested@.map_values(|t: String| t@),
            r.source_text() is None,
            r.other_text().len() == 0,
    {
        Error {
            kind: ErrorKind::MissingTemplates,
            other_message: String::new(),
            source: None,
            templates: requested.clone(),
        }
    }

    /// The kind of the error.
    pub fn kind(&self) -> (r: &ErrorKind)
        ensures
            *r == self.kind_of(),
    {
        &self.kind
    }

    /// The template names carried by the error: for
    /// `ErrorKind::MissingTemplates`, the names that were requested.
    pub fn templates(&self) -> (r: &Vec<String>)
        ensures
            r@.map_values(|t: String| t@) == self.template_names(),
    {
        &self.templates
    }

    /// The description of the underlying failure, if any.
    pub fn source(&self) -> (r: &Option<String>)
        ensures
            match *r {
                Some(s) => self.source_text() == Some(s@),
                None => self.source_text() is None,
            },
    {
        &self.source
    }

    /// The message shown to the user for this error.
    pub fn message(&self) -> (r: String)
        ensures
            r@ == if self.kind_of() == ErrorKind::Other && self.other_text().len() > 0 {
                self.other_text()
            } else {
                kind_message(self.kind_of())
            },
    {
        if self.kind == ErrorKind::Other && !self.other_message.as_str().is_empty() {
            return self.other_message.clone();
        }
        let text = match self.kind {
            ErrorKind::MissingTemplates => "None of the requested gitignore template(s) could be found",
            ErrorKind::NoOutput => "No output was generated for the user specified operation",
            ErrorKind::LocateConfigDir => "Failed to locate config directory",
            ErrorKind::RepositoryUnavailable => "A template repository could not be cloned or fetched",
            ErrorKind::FileUnreadable => "A template file could not be opened or read",
            ErrorKind::ConfigOrStateCorrupt => "A configuration or state file is malformed",
            ErrorKind::ClockSkew => "The current time precedes the last repository update",
            ErrorKind::Other => "User defined error with no payload encountered",
        };
        text.to_owned()
    }
}

} // verus!
