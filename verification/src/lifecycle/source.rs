//! Where a rule list's raw text comes from: a remote URL, or a file under the
//! manager's data directory. Fetching is I/O and lives with the caller.

use std::path::{Path, PathBuf};
use vstd::prelude::*;

use crate::text::{chars_of, string_of};

verus! {

#[verifier::external_type_specification]
#[verifier::external_body]
pub struct ExPathBuf(PathBuf);

#[verifier::external_type_specification]
#[verifier::external_body]
pub struct ExPath(Path);

/// std's `Path::join`: `rel` appended to `dir` as a path component (or
/// replacing it when `rel` is absolute). Nothing is stated of the result.
#[verifier::external_body]
fn join_path(dir: &Path, rel: &str) -> PathBuf {
    dir.join(rel)
}

/// One list's origin, detected from the configured `url` string.
#[derive(Debug, PartialEq, Eq)]
pub enum ListSource {
    Remote(String),
    LocalFile(PathBuf),
}

/// `http://` or `https://` at the start.
pub open spec fn is_remote_url(url: Seq<char>) -> bool {
    (url.len() >= 7 && url.take(7) == seq!['h', 't', 't', 'p', ':', '/', '/']) || (url.len() >= 8
        && url.take(8) == seq![
        'h',
        't',
        't',
        'p',
        's',
        ':',
        '/',
        '/',
    ])
}

/// Whether `v` starts with `p`.
fn has_prefix(v: &[char], p: &[char]) -> (b: bool)
    ensures
        b == (p@.len() <= v@.len() && v@.take(p@.len() as int) == p@),
{
    if p.len() > v.len() {
        return false;
    }
    let mut k: usize = 0;
    while k < p.len()
        invariant
            p.len() <= v.len(),
            k <= p.len(),
            forall|j: int| 0 <= j < k ==> v@[j] == p@[j],
        decreases p.len() - k,
    {
        if v[k] != p[k] {
            assert(v@.take(p@.len() as int)[k as int] != p@[k as int]);
            return false;
        }
        k += 1;
    }
    assert(v@.take(p@.len() as int) =~= p@);
    true
}

impl ListSource {
    /// `http://` and `https://` are remote; anything else is a path under
    /// `data_dir`.
    pub fn from_url(url: &str, data_dir: &Path) -> (r: ListSource)
        ensures
            is_remote_url(url@) <==> r is Remote,
            r matches ListSource::Remote(s) ==> s@ == url@,
    {
        let v = chars_of(url);
        let http = ['h', 't', 't', 'p', ':', '/', '/'];
        let https = ['h', 't', 't', 'p', 's', ':', '/', '/'];
        proof {
            assert(http@ =~= seq!['h', 't', 't', 'p', ':', '/', '/']);
            assert(https@ =~= seq!['h', 't', 't', 'p', 's', ':', '/', '/']);
        }
        if has_prefix(v.as_slice(), &http) || has_prefix(v.as_slice(), &https) {
            ListSource::Remote(string_of(v.as_slice()))
        } else {
            ListSource::LocalFile(join_path(data_dir, url))
        }
    }
}

} // verus!
