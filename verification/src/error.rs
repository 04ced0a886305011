//! The error types of the crate, each with the text it is reported by.
use crate::text::{decimal, push_decimal_nat, push_str_chars, string_of};
use vstd::prelude::*;

verus! {

/// What can go wrong between a library descriptor and a native call.
#[derive(Debug)]
pub enum LibError {
    /// A file could not be loaded: its path, and why.
    LoadError(String, String),
    /// No function of that name is registered.
    FuncNotFound(String),
    /// No usable argument was given for that formal parameter.
    ParamError(String),
    /// The number of arguments differs from the number of formal parameters:
    /// expected, then given.
    SizeError(usize, usize),
}

/// The mathematical content of a [`LibError`].
pub enum LibErrorView {
    LoadError(Seq<char>, Seq<char>),
    FuncNotFound(Seq<char>),
    ParamError(Seq<char>),
    SizeError(usize, usize),
}

impl View for LibError {
    type V = LibErrorView;

    open spec fn view(&self) -> LibErrorView {
        match self {
            LibError::LoadError(path, why) => LibErrorView::LoadError(path@, why@),
            LibError::FuncNotFound(name) => LibErrorView::FuncNotFound(name@),
            LibError::ParamError(name) => LibErrorView::ParamError(name@),
            LibError::SizeError(expected, given) => LibErrorView::SizeError(*expected, *given),
        }
    }
}

/// The text by which a [`LibError`] is reported.
pub open spec fn lib_error_text(e: LibErrorView) -> Seq<char> {
    match e {
        LibErrorView::LoadError(path, why) => "File loading failed: "@ + path + ", error: "@
            + why,
        LibErrorView::FuncNotFound(name) => "Function not found: "@ + name,
        LibErrorView::ParamError(name) => "Parameter not found: "@ + name,
        LibErrorView::SizeError(expected, given) => "Size error: expect "@ + decimal(
            expected as int,
        ) + " but got "@ + decimal(given as int),
    }
}

impl LibError {
    /// The text by which the error is reported.
    pub fn message(&self) -> (s: String)
        ensures
            s@ == lib_error_text(self@),
    {
        let mut v: Vec<char> = Vec::new();
        match self {
            LibError::LoadError(path, why) => {
                push_str_chars(&mut v, "File loading failed: ");
                push_str_chars(&mut v, path.as_str());
                push_str_chars(&mut v, ", error: ");
                push_str_chars(&mut v, why.as_str());
            },
            LibError::FuncNotFound(name) => {
                push_str_chars(&mut v, "Function not found: ");
                push_str_chars(&mut v, name.as_str());
            },
            LibError::ParamError(name) => {
                push_str_chars(&mut v, "Parameter not found: ");
                push_str_chars(&mut v, name.as_str());
            },
            LibError::SizeError(expected, given) => {
                push_str_chars(&mut v, "Size error: expect ");
                push_decimal_nat(&mut v, *expected as u64);
                push_str_chars(&mut v, " but got ");
                push_decimal_nat(&mut v, *given as u64);
            },
        }
        string_of(&v)
    }
}

/// What can go wrong when a test's references to shared inputs are resolved.
#[derive(Debug)]
pub enum TestError {
    /// Two referenced shared groups define the same parameter; the text names
    /// the parameter and both groups.
    DuplicateArg(String),
    /// A referenced shared group does not exist.
    SharedInputNotFound(String),
}

/// The mathematical content of a [`TestError`].
pub enum TestErrorView {
    DuplicateArg(Seq<char>),
    SharedInputNotFound(Seq<char>),
}

impl View for TestError {
    type V = TestErrorView;

    open spec fn view(&self) -> TestErrorView {
        match self {
            TestError::DuplicateArg(what) => TestErrorView::DuplicateArg(what@),
            TestError::SharedInputNotFound(name) => TestErrorView::SharedInputNotFound(name@),
        }
    }
}

/// The text by which a [`TestError`] is reported.
pub open spec fn test_error_text(e: TestErrorView) -> Seq<char> {
    match e {
        TestErrorView::DuplicateArg(what) => "Duplicate argument '"@ + what
            + "' from shared input refs"@,
        TestErrorView::SharedInputNotFound(name) => "Shared input group '"@ + name
            + "' not found"@,
    }
}

impl TestError {
    /// The text by which the error is reported.
    pub fn message(&self) -> (s: String)
        ensures
            s@ == test_error_text(self@),
    {
        let mut v: Vec<char> = Vec::new();
        match self {
            TestError::DuplicateArg(what) => {
                push_str_chars(&mut v, "Duplicate argument '");
                push_str_chars(&mut v, what.as_str());
                push_str_chars(&mut v, "' from shared input refs");
            },
            TestError::SharedInputNotFound(name) => {
                push_str_chars(&mut v, "Shared input group '");
                push_str_chars(&mut v, name.as_str());
                push_str_chars(&mut v, "' not found");
            },
        }
        string_of(&v)
    }
}

} // verus!
