//! Error types.

use vstd::prelude::*;

verus! {

/// The error of the `safetensors` crate, carried through unopened.
#[verifier::external_type_specification]
#[verifier::external_body]
pub struct ExSafeTensorError(safetensors::SafeTensorError);

/// What can go wrong in the library.
#[derive(Debug)]
pub enum SaeError {
    /// A checkpoint is not what it should be.
    InvalidCheckpoint { path: String, reason: String },
    /// An architecture that the library does not know, or does not run.
    UnknownArchitecture(String),
    /// A checkpoint lacks a tensor.
    MissingTensor(String),
    /// A tensor or buffer does not have the size it should have.
    ShapeMismatch { name: String, expected: Vec<usize>, got: Vec<usize> },
    /// A tensor is stored in a type that the library does not read.
    UnsupportedDtype(String),
    /// A safetensors file does not parse.
    Safetensors(safetensors::SafeTensorError),
    /// Anything else.
    Other(String),
}

/// The content of a [`SaeError`].
pub enum ErrorView {
    InvalidCheckpoint { path: Seq<char>, reason: Seq<char> },
    UnknownArchitecture(Seq<char>),
    MissingTensor(Seq<char>),
    ShapeMismatch { name: Seq<char>, expected: Seq<usize>, got: Seq<usize> },
    UnsupportedDtype(Seq<char>),
    Safetensors,
    Other(Seq<char>),
}

impl View for SaeError {
    type V = ErrorView;

    open spec fn view(&self) -> ErrorView {
        match *self {
            SaeError::InvalidCheckpoint { path, reason } => ErrorView::InvalidCheckpoint {
                path: path@,
                reason: reason@,
            },
            SaeError::UnknownArchitecture(s) => ErrorView::UnknownArchitecture(s@),
            SaeError::MissingTensor(s) => ErrorView::MissingTensor(s@),
            SaeError::ShapeMismatch { name, expected, got } => ErrorView::ShapeMismatch {
                name: name@,
                expected: expected@,
                got: got@,
            },
            SaeError::UnsupportedDtype(s) => ErrorView::UnsupportedDtype(s@),
            SaeError::Safetensors(_) => ErrorView::Safetensors,
            SaeError::Other(s) => ErrorView::Other(s@),
        }
    }
}

/// The error of a length or a one-dimensional shape that is not as expected.
pub open spec fn length_mismatch(name: Seq<char>, expected: int, got: int) -> ErrorView {
    ErrorView::ShapeMismatch {
        name,
        expected: seq![expected as usize],
        got: seq![got as usize],
    }
}

impl SaeError {
    /// A checkpoint at `path` that is not what it should be.
    pub fn invalid(path: &str, reason: &str) -> (res: Self)
        ensures
            res@ == (ErrorView::InvalidCheckpoint { path: path@, reason: reason@ }),
    {
        SaeError::InvalidCheckpoint { path: path.to_owned(), reason: reason.to_owned() }
    }

    /// A length that is not as expected.
    pub fn length(name: &str, expected: usize, got: usize) -> (res: Self)
        ensures
            res@ == length_mismatch(name@, expected as int, got as int),
            res matches SaeError::ShapeMismatch { name: n, expected: e, got: g } && n@ == name@ && e@
                == seq![expected] && g@ == seq![got],
    {
        let res = SaeError::ShapeMismatch {
            name: name.to_owned(),
            expected: vec![expected],
            got: vec![got],
        };
        assert(res@->expected =~= seq![expected]);
        assert(res@->got =~= seq![got]);
        res
    }

    /// A two-dimensional shape that is not as expected.
    pub fn shape(name: &str, rows: usize, cols: usize, got_rows: usize, got_cols: usize) -> (res: Self)
        ensures
            res@ == (ErrorView::ShapeMismatch {
                name: name@,
                expected: seq![rows, cols],
                got: seq![got_rows, got_cols],
            }),
    {
        let res = SaeError::ShapeMismatch {
            name: name.to_owned(),
            expected: vec![rows, cols],
            got: vec![got_rows, got_cols],
        };
        assert(res@->expected =~= seq![rows, cols]);
        assert(res@->got =~= seq![got_rows, got_cols]);
        res
    }
}

} // verus!
