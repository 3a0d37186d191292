//! The branch that is checked out.

use crate::refs::{find_ref, stored_refs, stored_target, RefType, Target};
use crate::repository::Repository;
use crate::text::strip_prefix;
use vstd::prelude::*;

verus! {

/// The branch that a target of `HEAD` names: what follows `refs/heads/` in
/// the name of an indirect target.
pub open spec fn branch_of(target: Option<Target>) -> Option<Seq<char>> {
    match target {
        Some(Target::Indirect(name)) => if "refs/heads/"@.is_prefix_of(name) {
            Some(name.skip("refs/heads/"@.len() as int))
        } else {
            None
        },
        _ => None,
    }
}

/// The branch that is checked out: the branch that `HEAD` names. There is
/// none where `HEAD` is not stored or names no branch.
pub fn branch_get_active(repo: &Repository) -> (branch: Option<String>)
    ensures
        match branch_of(stored_target(stored_refs(repo.refs@), "HEAD"@)) {
            Some(name) => branch matches Some(b) && b@ == name,
            None => branch is None,
        },
{
    let at = find_ref(&repo.refs, &"HEAD".to_owned());
    if at >= repo.refs.len() {
        return None;
    }
    assert(stored_refs(repo.refs@)[at as int] == repo.refs@[at as int]@);
    match &repo.refs[at].target {
        Some(RefType::Indirect(name)) => {
            match strip_prefix(name.as_str(), "refs/heads/") {
                Some(rest) => {
                    assert(name@.skip("refs/heads/"@.len() as int) =~= rest@);
                    Some(rest.to_owned())
                },
                None => None,
            }
        },
        _ => None,
    }
}

} // verus!
