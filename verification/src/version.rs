//! Semantic versions.

use vstd::prelude::*;

use crate::text::{decimal, same, to_decimal};

verus! {

/// A version as its parts: major, minor and patch number, pre-release and build metadata.
pub type VersionParts = (u64, u64, u64, Seq<char>, Seq<char>);

/// A semantic version. The pre-release and the build metadata are empty where there is none.
pub struct Version {
    pub major: u64,
    pub minor: u64,
    pub patch: u64,
    pub pre: String,
    pub build: String,
}

impl View for Version {
    type V = VersionParts;

    open spec fn view(&self) -> VersionParts {
        (self.major, self.minor, self.patch, self.pre@, self.build@)
    }
}

/// The contents of an optional version.
pub open spec fn opt_version(o: Option<Version>) -> Option<VersionParts> {
    match o {
        Some(v) => Some(v@),
        None => None,
    }
}

/// A part with its mark before it, or nothing where the part is empty.
pub open spec fn marked(mark: char, part: Seq<char>) -> Seq<char> {
    if part.len() == 0 {
        Seq::<char>::empty()
    } else {
        seq![mark] + part
    }
}

/// The text of a version.
pub open spec fn version_text(v: VersionParts) -> Seq<char> {
    decimal(v.0 as nat) + seq!['.'] + decimal(v.1 as nat) + seq!['.'] + decimal(v.2 as nat) + marked(
        '-',
        v.3,
    ) + marked('+', v.4)
}

/// What `semver::Version::parse` makes of a text.
pub uninterp spec fn semver_parsed(text: Seq<char>) -> Option<VersionParts>;

/// Whether one pre-release comes before another by `Ord` of `semver::Prerelease`; `None` where one
/// of them is no pre-release.
pub uninterp spec fn prerelease_order(a: Seq<char>, b: Seq<char>) -> Option<bool>;

/// Whether one piece of build metadata comes before another by `Ord` of `semver::BuildMetadata`;
/// `None` where one of them is no build metadata.
pub uninterp spec fn build_order(a: Seq<char>, b: Seq<char>) -> Option<bool>;

/// `semver::Version::parse`, by its name. A version that it accepts is written back as the text
/// that it was read from: numbers have no leading zeros, and the other parts are kept as they are.
#[verifier::external_body]
pub(crate) fn semver_parse(text: &str) -> (r: Option<Version>)
    ensures
        opt_version(r) == semver_parsed(text@),
        r is Some ==> version_text(r->Some_0@) == text@,
{
    let v = semver::Version::parse(text).ok()?;
    Some(
        Version {
            major: v.major,
            minor: v.minor,
            patch: v.patch,
            pre: v.pre.as_str().to_string(),
            build: v.build.as_str().to_string(),
        },
    )
}

/// `Ord` of `semver::Prerelease` on the values that `Prerelease::new` reads, by its name.
#[verifier::external_body]
fn prerelease_less(a: &str, b: &str) -> (r: Option<bool>)
    ensures
        r == prerelease_order(a@, b@),
{
    Some(semver::Prerelease::new(a).ok()? < semver::Prerelease::new(b).ok()?)
}

/// `Ord` of `semver::BuildMetadata` on the values that `BuildMetadata::new` reads, by its name.
#[verifier::external_body]
fn build_less(a: &str, b: &str) -> (r: Option<bool>)
    ensures
        r == build_order(a@, b@),
{
    Some(semver::BuildMetadata::new(a).ok()? < semver::BuildMetadata::new(b).ok()?)
}

/// Whether `a` comes before `b`: by the numbers first, then by the pre-release, then by the build
/// metadata.
pub open spec fn version_before(a: VersionParts, b: VersionParts) -> bool {
    if a.0 != b.0 {
        a.0 < b.0
    } else if a.1 != b.1 {
        a.1 < b.1
    } else if a.2 != b.2 {
        a.2 < b.2
    } else if a.3 != b.3 {
        prerelease_order(a.3, b.3) == Some(true)
    } else {
        build_order(a.4, b.4) == Some(true)
    }
}

impl Version {
    /// A version without pre-release and build metadata.
    pub fn new(major: u64, minor: u64, patch: u64) -> (r: Version)
        ensures
            r@ == (major, minor, patch, Seq::<char>::empty(), Seq::<char>::empty()),
    {
        Version { major, minor, patch, pre: String::new(), build: String::new() }
    }

    /// Reads a version.
    pub fn parse(text: &str) -> (r: Option<Version>)
        ensures
            opt_version(r) == semver_parsed(text@),
            r is Some ==> version_text(r->Some_0@) == text@,
    {
        semver_parse(text)
    }

    /// Another version with the same parts.
    pub fn copy(&self) -> (r: Version)
        ensures
            r@ == self@,
    {
        Version {
            major: self.major,
            minor: self.minor,
            patch: self.patch,
            pre: self.pre.clone(),
            build: self.build.clone(),
        }
    }

    /// Writes the version.
    pub fn to_text(&self) -> (r: String)
        ensures
            r@ == version_text(self@),
    {
        proof {
            reveal_strlit(".");
            reveal_strlit("-");
            reveal_strlit("+");
            assert("."@ =~= seq!['.']);
            assert("-"@ =~= seq!['-']);
            assert("+"@ =~= seq!['+']);
        }
        let mut out = to_decimal(self.major);
        out.append(".");
        let minor = to_decimal(self.minor);
        out.append(minor.as_str());
        out.append(".");
        let patch = to_decimal(self.patch);
        out.append(patch.as_str());
        let ghost numbers = out@;
        if !self.pre.as_str().is_empty() {
            out.append("-");
            out.append(self.pre.as_str());
        }
        proof {
            assert(out@ =~= numbers + marked('-', self.pre@));
        }
        let ghost released = out@;
        if !self.build.as_str().is_empty() {
            out.append("+");
            out.append(self.build.as_str());
        }
        proof {
            assert(out@ =~= released + marked('+', self.build@));
        }
        out
    }

    /// Whether this version comes before another.
    pub fn is_before(&self, other: &Version) -> (r: bool)
        ensures
            r == version_before(self@, other@),
    {
        if self.major != other.major {
            self.major < other.major
        } else if self.minor != other.minor {
            self.minor < other.minor
        } else if self.patch != other.patch {
            self.patch < other.patch
        } else if !same(self.pre.as_str(), other.pre.as_str()) {
            match prerelease_less(self.pre.as_str(), other.pre.as_str()) {
                Some(less) => less,
                None => false,
            }
        } else {
            match build_less(self.build.as_str(), other.build.as_str()) {
                Some(less) => less,
                None => false,
            }
        }
    }

    /// Whether two versions have the same parts.
    pub fn equals(&self, other: &Version) -> (r: bool)
        ensures
            r == (self@ == other@),
    {
        self.major == other.major && self.minor == other.minor && self.patch == other.patch && same(
            self.pre.as_str(),
            other.pre.as_str(),
        ) && same(self.build.as_str(), other.build.as_str())
    }
}

} // verus!
