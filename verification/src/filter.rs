//! Client versions as the `clver` key of a server filter carries them.

use vstd::prelude::*;

use crate::text::{dec, push_dec};

verus! {

/// A client version: major, minor and patch numbers.
#[derive(Clone, Copy, Debug, PartialEq, Eq, Hash, Structural)]
pub struct Version {
    pub major: u8,
    pub minor: u8,
    pub patch: u8,
}

/// Whether version `a` comes before version `b`: by major, then minor, then patch number.
pub open spec fn version_lt(a: Version, b: Version) -> bool {
    a.major < b.major || (a.major == b.major && (a.minor < b.minor || (a.minor == b.minor
        && a.patch < b.patch)))
}

/// The text of a version: `major.minor`, and `.patch` after it when the patch number is not
/// zero.
pub open spec fn version_text(v: Version) -> Seq<u8> {
    dec(v.major as nat) + seq![46u8] + dec(v.minor as nat) + if v.patch == 0 {
        Seq::empty()
    } else {
        seq![46u8] + dec(v.patch as nat)
    }
}

/// The client version that requests claim by default, 0.20.
pub open spec fn client_version() -> Version {
    Version { major: 0, minor: 20, patch: 0 }
}

impl Version {
    /// The version `major.minor`.
    pub fn new(major: u8, minor: u8) -> (r: Self)
        ensures
            r == (Version { major, minor, patch: 0 }),
    {
        Version { major, minor, patch: 0 }
    }

    /// The version `major.minor.patch`.
    pub fn with_patch(major: u8, minor: u8, patch: u8) -> (r: Self)
        ensures
            r == (Version { major, minor, patch }),
    {
        Version { major, minor, patch }
    }

    /// Whether this version comes before `other`.
    pub fn lt(&self, other: &Version) -> (r: bool)
        ensures
            r == version_lt(*self, *other),
    {
        self.major < other.major || (self.major == other.major && (self.minor < other.minor || (
        self.minor == other.minor && self.patch < other.patch)))
    }

    /// Appends the text of this version to `out`.
    pub fn push_text(&self, out: &mut Vec<u8>)
        ensures
            final(out)@ == old(out)@ + version_text(*self),
    {
        let ghost o = out@;
        push_dec(out, self.major as u32);
        out.push(46u8);
        push_dec(out, self.minor as u32);
        if self.patch != 0 {
            out.push(46u8);
            push_dec(out, self.patch as u32);
        }
        assert(out@ =~= o + version_text(*self));
    }
}

/// The client version that requests claim by default, 0.20.
pub fn default_client_version() -> (r: Version)
    ensures
        r == client_version(),
{
    Version::new(0, 20)
}

/// A version never comes before itself, and of two different versions one comes first.
pub proof fn lemma_version_order(a: Version, b: Version)
    ensures
        !version_lt(a, a),
        a != b ==> version_lt(a, b) != version_lt(b, a),
{
}

} // verus!
