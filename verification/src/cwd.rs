use vstd::prelude::*;

use crate::expand::SLASH;
use crate::word::copy_bytes;

verus! {

pub const DASH: u8 = 45;

/// The working-directory tracker: the current canonical path, and the
/// previous one once a `cd` has happened.
pub struct Cwd {
    path: Vec<u8>,
    last: Option<Vec<u8>>,
}

/// Mathematical image of a `Cwd`.
pub struct CwdView {
    pub path: Seq<u8>,
    pub last: Option<Seq<u8>>,
}

impl View for Cwd {
    type V = CwdView;

    closed spec fn view(&self) -> CwdView {
        CwdView {
            path: self.path@,
            last: match self.last {
                Some(ref l) => Some(l@),
                None => None,
            },
        }
    }
}

/// What `cd`'s (already expanded) arguments resolve to: `-` is the
/// previous directory (or the current when none is recorded), no argument
/// is `home`, anything else is itself; more than one argument is refused.
pub open spec fn cd_resolve_spec(cwd: CwdView, home: Seq<u8>, argv: Seq<Seq<u8>>) -> Option<
    Seq<u8>,
> {
    if argv.len() > 1 {
        None
    } else if argv.len() == 0 {
        Some(home)
    } else if argv[0] == seq![DASH] {
        Some(
            match cwd.last {
                Some(l) => l,
                None => cwd.path,
            },
        )
    } else {
        Some(argv[0])
    }
}

/// How a successful `cd` leaves the tracker: the new canonical path is
/// current and the old current rotates into the previous slot.
pub open spec fn cd_commit_model(cwd: CwdView, canonical: Seq<u8>) -> CwdView {
    CwdView { path: canonical, last: Some(cwd.path) }
}

/// A target that is not absolute is taken relative to the current
/// directory.
pub open spec fn absolutize_spec(cwd: Seq<u8>, target: Seq<u8>) -> Seq<u8> {
    if target.len() > 0 && target[0] == SLASH {
        target
    } else if cwd.len() == 0 {
        target
    } else if cwd.last() == SLASH {
        cwd + target
    } else {
        cwd + seq![SLASH] + target
    }
}

/// The result of resolving `cd`'s arguments.
pub enum CdResolution {
    TooManyArguments,
    Target(Vec<u8>),
}

impl Cwd {
    /// Starts at the given (canonical) directory, with no previous one.
    pub fn new(path: Vec<u8>) -> (r: Self)
        ensures
            r@.path == path@,
            r@.last is None,
    {
        Self { path, last: None }
    }

    pub fn current(&self) -> (r: &Vec<u8>)
        ensures
            r@ == self@.path,
    {
        &self.path
    }

    /// Resolves `cd`'s arguments to a target path.
    pub fn resolve(&self, home: &[u8], argv: &Vec<Vec<u8>>) -> (r: CdResolution)
        ensures
            match r {
                CdResolution::TooManyArguments => cd_resolve_spec(
                    self@,
                    home@,
                    argv@.map_values(|a: Vec<u8>| a@),
                ) is None,
                CdResolution::Target(p) => cd_resolve_spec(
                    self@,
                    home@,
                    argv@.map_values(|a: Vec<u8>| a@),
                ) == Some(p@),
            },
    {
        let ghost argvv = argv@.map_values(|a: Vec<u8>| a@);
        if argv.len() > 1 {
            return CdResolution::TooManyArguments;
        }
        if argv.len() == 0 {
            return CdResolution::Target(copy_bytes(home));
        }
        let first = &argv[0];
        proof {
            assert(argvv[0] == argv@[0]@);
        }
        if first.len() == 1 && first[0] == DASH {
            proof {
                assert(argvv[0] =~= seq![DASH]);
            }
            match &self.last {
                Some(l) => CdResolution::Target(copy_bytes(l.as_slice())),
                None => CdResolution::Target(copy_bytes(self.path.as_slice())),
            }
        } else {
            proof {
                if argvv[0] == seq![DASH] {
                    assert(argv@[0]@.len() == 1);
                    assert(argv@[0]@[0] == DASH);
                }
            }
            CdResolution::Target(copy_bytes(first.as_slice()))
        }
    }

    /// Joins a target onto the current directory when it is relative.
    pub fn absolutize(&self, target: &[u8]) -> (r: Vec<u8>)
        ensures
            r@ == absolutize_spec(self@.path, target@),
    {
        if target.len() > 0 && target[0] == SLASH {
            return copy_bytes(target);
        }
        if self.path.len() == 0 {
            return copy_bytes(target);
        }
        let mut r = copy_bytes(self.path.as_slice());
        if self.path[self.path.len() - 1] != SLASH {
            r.push(SLASH);
        }
        crate::expand::append_bytes(&mut r, target);
        proof {
            assert(r@ =~= absolutize_spec(self@.path, target@));
        }
        r
    }

    /// Records a completed directory change.
    pub fn commit(&mut self, canonical: Vec<u8>)
        ensures
            final(self)@ == cd_commit_model(old(self)@, canonical@),
    {
        let previous = copy_bytes(self.path.as_slice());
        self.path = canonical;
        self.last = Some(previous);
    }
}

/// `cd -` twice returns to the starting directory: rotating through the
/// previous slot and back restores the current path.
pub proof fn lemma_cd_dash_twice(c: CwdView, home: Seq<u8>)
    ensures
        ({
            let t1 = cd_resolve_spec(c, home, seq![seq![DASH]]);
            let c1 = cd_commit_model(c, t1->Some_0);
            let t2 = cd_resolve_spec(c1, home, seq![seq![DASH]]);
            let c2 = cd_commit_model(c1, t2->Some_0);
            &&& t1 is Some
            &&& t2 is Some
            &&& c2.path == c.path
        }),
{
}

} // verus!
