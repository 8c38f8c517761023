//! The version resolver: among directory names of the form
//! `app-<semver>`, find the one whose version is greatest under full
//! semantic-version precedence.

use vstd::prelude::*;
use vstd::string::StrSliceExecFns;
use vstd::string::StringExecFns;
use crate::version::{
    SemVer, VerKey, key_wf, valid_semver, fits_u64, key_of, parse_semver, lemma_split_pre_valid,
    spec_pre, has_pre, is_pre_ident,
};
use crate::order::{
    key_lt, key_eq, lemma_key_tri, lemma_key_trans, lemma_key_eq_same, lemma_key_irrefl,
    version_lt,
};

verus! {

/// Whether a directory name starts with the fixed literal prefix
/// `app-`.
pub open spec fn has_app_prefix(s: Seq<char>) -> bool {
    s.len() >= 4 && s[0] == 'a' && s[1] == 'p' && s[2] == 'p' && s[3] == '-'
}

/// The version text of a name: what follows the prefix.
pub open spec fn suffix_of(s: Seq<char>) -> Seq<char> {
    s.subrange(4, s.len() as int)
}

/// A candidate name: the fixed prefix followed by a grammatically valid
/// semantic version whose numeric components fit the machine word.
pub open spec fn is_candidate(s: Seq<char>) -> bool {
    has_app_prefix(s) && valid_semver(suffix_of(s)) && fits_u64(suffix_of(s))
}

/// The version key a candidate name carries.
pub open spec fn name_key(s: Seq<char>) -> VerKey {
    key_of(suffix_of(s))
}

/// A name without the fixed prefix is never a candidate, whatever else
/// it holds.
pub proof fn lemma_wrong_prefix_excluded(s: Seq<char>)
    ensures
        !has_app_prefix(s) ==> !is_candidate(s),
{
}

/// A name whose suffix does not parse as a semantic version is never a
/// candidate.
pub proof fn lemma_invalid_suffix_excluded(s: Seq<char>)
    ensures
        !valid_semver(suffix_of(s)) ==> !is_candidate(s),
{
}

/// A candidate's key is well formed.
pub proof fn lemma_candidate_key_wf(s: Seq<char>)
    requires
        is_candidate(s),
    ensures
        key_wf(name_key(s)),
{
    let t = suffix_of(s);
    if has_pre(t) {
        lemma_split_pre_valid(spec_pre(t));
    }
}

/// A well-formed parsed version has a well-formed key.
pub proof fn lemma_parsed_key_wf(v: SemVer)
    requires
        v.wf(),
    ensures
        key_wf(v@),
{
    assert forall|i: int| 0 <= i < v@.pre.len() implies is_pre_ident(#[trigger] v@.pre[i]) by {
        assert(v@.pre[i] =~= v.pre@[i]@);
    }
}

/// Parses a directory name as a candidate: the fixed prefix, then a
/// semantic version.
pub fn candidate_version(name: &str) -> (r: Option<SemVer>)
    ensures
        (r is Some) <==> is_candidate(name@),
        r matches Some(v) ==> v.wf() && v@ == name_key(name@),
{
    let n = name.unicode_len();
    if n < 4 {
        return None;
    }
    if name.get_char(0) != 'a' || name.get_char(1) != 'p' || name.get_char(2) != 'p'
        || name.get_char(3) != '-' {
        return None;
    }
    let suf = name.substring_char(4, n);
    proof {
        assert(suf@ =~= suffix_of(name@));
    }
    parse_semver(suf)
}

/// Finds the index of the newest versioned directory name.
///
/// Returns the index of a candidate whose version no other candidate
/// exceeds, and the first such index where several candidates tie;
/// returns nothing exactly when no name is a candidate.
pub fn find_newest_versioned(names: &Vec<String>) -> (r: Option<usize>)
    ensures
        match r {
            Some(i) => i < names@.len() && is_candidate(names@[i as int]@) && (forall|j: int|
                0 <= j < names@.len() && is_candidate(#[trigger] names@[j]@) ==> !key_lt(
                    name_key(names@[i as int]@),
                    name_key(names@[j]@),
                )) && (forall|j: int|
                0 <= j < i && is_candidate(#[trigger] names@[j]@) ==> key_lt(
                    name_key(names@[j]@),
                    name_key(names@[i as int]@),
                )),
            None => forall|j: int| 0 <= j < names@.len() ==> !is_candidate(#[trigger] names@[j]@),
        },
{
    let mut best_i: usize = 0;
    let mut best_v: Option<SemVer> = None;
    let mut k: usize = 0;
    while k < names.len()
        invariant
            0 <= k <= names@.len(),
            best_v matches Some(v) ==> best_i < k && is_candidate(names@[best_i as int]@)
                && v.wf() && v@ == name_key(names@[best_i as int]@),
            best_v matches Some(v) ==> forall|j: int|
                0 <= j < k && is_candidate(#[trigger] names@[j]@) ==> !key_lt(
                    v@,
                    name_key(names@[j]@),
                ),
            best_v matches Some(v) ==> forall|j: int|
                0 <= j < best_i && is_candidate(#[trigger] names@[j]@) ==> key_lt(
                    name_key(names@[j]@),
                    v@,
                ),
            best_v is None ==> forall|j: int|
                0 <= j < k ==> !is_candidate(#[trigger] names@[j]@),
        decreases names@.len() - k,
    {
        match candidate_version(names[k].as_str()) {
            Some(v) => {
                let replace: bool = match &best_v {
                    None => true,
                    Some(b) => version_lt(b, &v),
                };
                if replace {
                    proof {
                        lemma_key_irrefl(v@);
                        if let Some(b) = best_v {
                            assert forall|j: int|
                                0 <= j <= k && is_candidate(#[trigger] names@[j]@) implies !key_lt(
                                v@,
                                name_key(names@[j]@),
                            ) by {
                                if j < k && key_lt(v@, name_key(names@[j]@)) {
                                    lemma_key_trans(b@, v@, name_key(names@[j]@));
                                }
                            }

                            assert forall|j: int|
                                0 <= j < k && is_candidate(#[trigger] names@[j]@) implies key_lt(
                                name_key(names@[j]@),
                                v@,
                            ) by {
                                lemma_candidate_key_wf(names@[j]@);
                                lemma_parsed_key_wf(v);
                                lemma_key_tri(name_key(names@[j]@), v@);
                                if key_lt(v@, name_key(names@[j]@)) {
                                    lemma_key_trans(b@, v@, name_key(names@[j]@));
                                }
                                if key_eq(name_key(names@[j]@), v@) {
                                    lemma_key_eq_same(name_key(names@[j]@), v@, b@);
                                    assert(key_lt(b@, name_key(names@[j]@)) == key_lt(b@, v@));
                                }
                            }
                        }
                    }
                    best_i = k;
                    best_v = Some(v);
                }
            },
            None => {},
        }
        k += 1;
    }
    if best_v.is_some() {
        Some(best_i)
    } else {
        None
    }
}

/// The installation directory under the per-user application-data
/// directory: its fixed `Discord` subdirectory.
pub fn install_dir(local_app_data: &str) -> (r: String)
    ensures
        r@ == local_app_data@ + "\\Discord"@,
{
    let mut out = String::from_str(local_app_data);
    out.append("\\Discord");
    out
}

/// The path of the executable inside a resolved installation
/// directory.
pub fn exe_path(dir: &str) -> (r: String)
    ensures
        r@ == dir@ + "\\Discord.exe"@,
{
    let mut out = String::from_str(dir);
    out.append("\\Discord.exe");
    out
}

} // verus!
