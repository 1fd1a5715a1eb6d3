//! What the registry knows of a package: its versions, and which of them
//! are shown or chosen.

use vstd::prelude::*;
use vstd::string::*;
use crate::error::{DiffError, ErrorView};
use crate::order::{lemma_rank_cases, rank, Rank};
use crate::text::{push_line, texts};

verus! {

/// One published version of a package.
#[derive(Clone, Debug, PartialEq, Eq)]
pub struct VersionInfo {
    pub version: String,
    /// Withdrawn by its publisher.
    pub yanked: bool,
}

/// A published version as a mathematical value.
pub struct VersionView {
    pub version: Seq<char>,
    pub yanked: bool,
}

impl View for VersionInfo {
    type V = VersionView;

    open spec fn view(&self) -> VersionView {
        VersionView { version: self.version@, yanked: self.yanked }
    }
}

/// The versions of a list as mathematical values.
pub open spec fn version_views(versions: Seq<VersionInfo>) -> Seq<VersionView> {
    versions.map_values(|v: VersionInfo| v@)
}

/// The versions that are listed: those that were not yanked, in the order
/// of the registry.
pub open spec fn listed(versions: Seq<VersionView>) -> Seq<Seq<char>> {
    versions.filter(|v: VersionView| !v.yanked).map_values(|v: VersionView| v.version)
}

/// `at` is the first position whose version is `wanted`.
pub open spec fn first_match(versions: Seq<VersionView>, wanted: Seq<char>, at: int) -> bool {
    &&& 0 <= at < versions.len()
    &&& versions[at].version == wanted
    &&& forall|i: int| 0 <= i < at ==> (#[trigger] versions[i]).version != wanted
}

/// Some version is `wanted`.
pub open spec fn published(versions: Seq<VersionView>, wanted: Seq<char>) -> bool {
    exists|i: int| 0 <= i < versions.len() && (#[trigger] versions[i]).version == wanted
}

/// The version strings that are listed for a package.
pub fn listed_versions(versions: &Vec<VersionInfo>) -> (r: Vec<String>)
    ensures
        texts(r@) == listed(version_views(versions@)),
{
    let ghost all = version_views(versions@);
    let ghost keep = |v: VersionView| !v.yanked;
    let ghost word = |v: VersionView| v.version;
    let mut out: Vec<String> = Vec::new();
    let mut i: usize = 0;
    assert(all.take(0) =~= Seq::<VersionView>::empty());
    assert(texts(out@) =~= all.take(0).filter(keep).map_values(word));
    while i < versions.len()
        invariant
            i <= versions.len(),
            all == version_views(versions@),
            keep == |v: VersionView| !v.yanked,
            word == |v: VersionView| v.version,
            texts(out@) == all.take(i as int).filter(keep).map_values(word),
        decreases versions.len() - i,
    {
        proof {
            assert(all.take(i + 1) =~= all.take(i as int).push(all[i as int]));
            Seq::lemma_filter_push(all.take(i as int), all[i as int], keep);
        }
        if !versions[i].yanked {
            let ghost before = all.take(i as int).filter(keep);
            push_line(&mut out, versions[i].version.clone());
            assert(before.push(all[i as int]).map_values(word) =~= before.map_values(word).push(
                all[i as int].version,
            ));
        }
        i += 1;
    }
    assert(all.take(i as int) =~= all);
    out
}

/// Hands on what the registry has for a package, or says that it has no
/// package of this name.
pub fn known_package<T>(package: &str, found: Option<T>) -> (r: Result<T, DiffError>)
    ensures
        match found {
            Some(entry) => r == Ok::<T, DiffError>(entry),
            None => r is Err && r->Err_0@ == (ErrorView::PackageNotFound { package: package@ }),
        },
{
    match found {
        Some(entry) => Ok(entry),
        None => Err(DiffError::PackageNotFound { package: String::from_str(package) }),
    }
}

/// The position of the first version that is `wanted`, or the failure that
/// names the version and the package.
pub fn find_version(package: &str, versions: &Vec<VersionInfo>, wanted: &str) -> (r: Result<
    usize,
    DiffError,
>)
    ensures
        match r {
            Ok(at) => first_match(version_views(versions@), wanted@, at as int),
            Err(error) => !published(version_views(versions@), wanted@) && error@ == (
            ErrorView::VersionNotFound { package: package@, version: wanted@ }),
        },
{
    let ghost all = version_views(versions@);
    let mut i: usize = 0;
    while i < versions.len()
        invariant
            i <= versions.len(),
            all == version_views(versions@),
            forall|k: int| 0 <= k < i ==> (#[trigger] all[k]).version != wanted@,
        decreases versions.len() - i,
    {
        if rank(versions[i].version.as_str(), wanted) == Rank::Same {
            proof {
                lemma_rank_cases(all[i as int].version, wanted@);
            }
            return Ok(i);
        }
        proof {
            lemma_rank_cases(all[i as int].version, wanted@);
        }
        i += 1;
    }
    Err(
        DiffError::VersionNotFound {
            package: String::from_str(package),
            version: String::from_str(wanted),
        },
    )
}

} // verus!
