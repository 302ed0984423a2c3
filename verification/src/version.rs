//! Package versions and version requirements.

use crate::text::{comes_before, lemma_text_order, str_eq, text_before};
use vstd::prelude::*;

verus! {

/// A version as a mathematical value.
pub struct VersionModel {
    pub major: u64,
    pub minor: u64,
    pub patch: u64,
    pub pre: Seq<char>,
    pub build: Seq<char>,
}

/// A semantic version: three numbers, a pre-release tag and build metadata,
/// the last two empty where the version has none.
#[derive(Debug)]
pub struct Version {
    pub major: u64,
    pub minor: u64,
    pub patch: u64,
    pub pre: String,
    pub build: String,
}

impl View for Version {
    type V = VersionModel;

    open spec fn view(&self) -> VersionModel {
        VersionModel {
            major: self.major,
            minor: self.minor,
            patch: self.patch,
            pre: self.pre@,
            build: self.build@,
        }
    }
}

impl Clone for Version {
    fn clone(&self) -> (copy: Version)
        ensures
            copy@ == self@,
    {
        Version {
            major: self.major,
            minor: self.minor,
            patch: self.patch,
            pre: self.pre.clone(),
            build: self.build.clone(),
        }
    }
}

/// `a` stands before `b` where versions are listed: by their numbers, then
/// by the pre-release tag and the build metadata in the order of the
/// dictionary.
pub open spec fn version_before(a: VersionModel, b: VersionModel) -> bool {
    if a.major != b.major {
        a.major < b.major
    } else if a.minor != b.minor {
        a.minor < b.minor
    } else if a.patch != b.patch {
        a.patch < b.patch
    } else if a.pre != b.pre {
        text_before(a.pre, b.pre)
    } else {
        text_before(a.build, b.build)
    }
}

/// Versions are listed in an order: none stands before itself, of two
/// different versions one stands before the other and not the other way
/// round, and what stands before a version stands before what that version
/// stands before.
pub proof fn lemma_version_order(a: VersionModel, b: VersionModel, c: VersionModel)
    ensures
        !version_before(a, a),
        a != b ==> (version_before(a, b) != version_before(b, a)),
        version_before(a, b) && version_before(b, c) ==> version_before(a, c),
{
    lemma_text_order(a.pre, b.pre, c.pre);
    lemma_text_order(a.build, b.build, c.build);
    lemma_text_order(b.pre, a.pre, c.pre);
    lemma_text_order(b.build, a.build, c.build);
    lemma_text_order(c.pre, a.pre, b.pre);
    lemma_text_order(c.build, a.build, b.build);
}

/// A version requirement in its written form, such as `>=1.2.0, <2`.
#[derive(Debug)]
pub struct VersionReq {
    pub text: String,
}

impl View for VersionReq {
    type V = Seq<char>;

    open spec fn view(&self) -> Seq<char> {
        self.text@
    }
}

impl Clone for VersionReq {
    fn clone(&self) -> (copy: VersionReq)
        ensures
            copy@ == self@,
    {
        VersionReq { text: self.text.clone() }
    }
}

/// What `semver::Version::parse` makes of `text`: the version that the text
/// denotes, or nothing where the text is no version.
pub uninterp spec fn semver_parse(text: Seq<char>) -> Option<VersionModel>;

/// What `semver::VersionReq::matches` says of `version` for the requirement
/// written as `req`; nothing where `req` is no requirement, or where the
/// pre-release tag or the build metadata of `version` is not one that semver
/// accepts.
pub uninterp spec fn semver_matches(req: Seq<char>, version: VersionModel) -> Option<bool>;

/// Calls `Version::parse` of the semver crate, as `cargo_metadata` exports
/// it, and hands out the fields of the parsed version: the three numbers,
/// and the pre-release tag and the build metadata as `as_str` gives them.
/// Believed, not proved: the result is what the crate makes of the text, and
/// depends on the text alone.
#[verifier::external_body]
fn semver_version(text: &str) -> (parsed: Option<Version>)
    ensures
        match parsed {
            Some(version) => semver_parse(text@) == Some(version@),
            None => semver_parse(text@) is None,
        },
{
    match cargo_metadata::Version::parse(text) {
        Ok(v) => Some(
            Version {
                major: v.major,
                minor: v.minor,
                patch: v.patch,
                pre: v.pre.as_str().to_owned(),
                build: v.build.as_str().to_owned(),
            },
        ),
        Err(_) => None,
    }
}

/// Calls `VersionReq::matches` of the semver crate. The requirement is
/// what `VersionReq::parse` makes of `req`; the version has the numbers of
/// `version` and the tags that `Prerelease::from_str` and
/// `BuildMetadata::from_str` make of its two texts. Where one of the three
/// is refused there is no answer. Believed, not proved: the answer is the
/// crate's, and depends on the requirement's text and the version's fields
/// alone.
#[verifier::external_body]
fn semver_req_matches(req: &str, version: &Version) -> (answer: Option<bool>)
    ensures
        answer == semver_matches(req@, version@),
{
    let req = cargo_metadata::VersionReq::parse(req).ok()?;
    let pre = version.pre.parse().ok()?;
    let build = version.build.parse().ok()?;
    let (major, minor, patch) = (version.major, version.minor, version.patch);
    Some(req.matches(&cargo_metadata::Version { major, minor, patch, pre, build }))
}

impl Version {
    /// The version `major.minor.patch`, without pre-release tag or build
    /// metadata.
    pub fn new(major: u64, minor: u64, patch: u64) -> (version: Version)
        ensures
            version@ == (VersionModel {
                major,
                minor,
                patch,
                pre: Seq::<char>::empty(),
                build: Seq::<char>::empty(),
            }),
    {
        Version { major, minor, patch, pre: String::new(), build: String::new() }
    }

    /// The version that `text` denotes by the rules of semantic versioning.
    pub fn parse(text: &str) -> (parsed: Option<Version>)
        ensures
            match parsed {
                Some(version) => semver_parse(text@) == Some(version@),
                None => semver_parse(text@) is None,
            },
    {
        semver_version(text)
    }

    /// Whether this version stands before `other` where versions are
    /// listed.
    pub fn before(&self, other: &Version) -> (first: bool)
        ensures
            first == version_before(self@, other@),
    {
        if self.major != other.major {
            self.major < other.major
        } else if self.minor != other.minor {
            self.minor < other.minor
        } else if self.patch != other.patch {
            self.patch < other.patch
        } else if !str_eq(self.pre.as_str(), other.pre.as_str()) {
            comes_before(self.pre.as_str(), other.pre.as_str())
        } else {
            comes_before(self.build.as_str(), other.build.as_str())
        }
    }

    /// Whether two versions are the same in every part.
    pub fn same(&self, other: &Version) -> (same: bool)
        ensures
            same == (self@ == other@),
    {
        self.major == other.major && self.minor == other.minor && self.patch == other.patch
            && self.pre == other.pre && self.build == other.build
    }
}

impl VersionReq {
    /// Whether the requirement holds of `version`. A text that is no
    /// requirement holds of no version.
    pub fn matches(&self, version: &Version) -> (holds: bool)
        ensures
            holds == (semver_matches(self@, version@) == Some(true)),
    {
        match semver_req_matches(self.text.as_str(), version) {
            Some(answer) => answer,
            None => false,
        }
    }
}

} // verus!
