use vstd::prelude::*;

verus! {

/// How a writer redirection opens its file.
#[derive(Clone, Copy, Debug, PartialEq, Eq, Structural)]
pub enum WriteMode {
    Truncate,
    Append,
}

/// One I/O redirection. The path type `P` is a `Word` in the syntax tree
/// and raw bytes once expanded; the merging forms carry no path and no
/// mode.
#[derive(Clone, Debug, PartialEq)]
pub enum Redirect<P> {
    /// `<path`: file onto stdin.
    InFile(P),
    /// `>&2`: stderr onto stdout.
    OutErr,
    /// `>path` / `>>path`: file onto stdout.
    OutFile(P, WriteMode),
    /// `2>&1`: stdout onto stderr.
    ErrOut,
    /// `2>path` / `2>>path`: file onto stderr.
    ErrFile(P, WriteMode),
}

impl<P: View> View for Redirect<P> {
    type V = Redirect<P::V>;

    open spec fn view(&self) -> Redirect<P::V> {
        match self {
            Redirect::InFile(p) => Redirect::InFile(p@),
            Redirect::OutErr => Redirect::OutErr,
            Redirect::OutFile(p, m) => Redirect::OutFile(p@, *m),
            Redirect::ErrOut => Redirect::ErrOut,
            Redirect::ErrFile(p, m) => Redirect::ErrFile(p@, *m),
        }
    }
}

} // verus!
