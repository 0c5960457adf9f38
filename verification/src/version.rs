use semver::Version;
use vstd::prelude::*;

verus! {

/// Whether `remote` is at least `current` under the version order of `semver`, or
/// `None` when either is not a semantic version.
pub uninterp spec fn semver_at_least(remote: Seq<char>, current: Seq<char>) -> Option<bool>;

/// An ASCII digit.
pub open spec fn is_digit(c: char) -> bool {
    '0' <= c && c <= '9'
}

/// The number a string of digits spells in decimal.
pub open spec fn digits_value(s: Seq<char>) -> nat
    decreases s.len(),
{
    if s.len() == 0 {
        0
    } else {
        digits_value(s.drop_last()) * 10 + ((s.last() as int - '0' as int) as nat)
    }
}

/// A number of a semantic version: digits, with no leading zero, at most `u64::MAX`.
pub open spec fn numeric_part(s: Seq<char>) -> bool {
    &&& s.len() > 0
    &&& forall|i: int| 0 <= i < s.len() ==> is_digit(#[trigger] s[i])
    &&& (s.len() == 1 || s[0] != '0')
    &&& digits_value(s) <= u64::MAX
}

/// `s` is a release version `MAJOR.MINOR.PATCH` (no pre-release, no build) whose
/// three numbers are `v`.
pub open spec fn plain_version(s: Seq<char>, v: (nat, nat, nat)) -> bool {
    exists|a: Seq<char>, b: Seq<char>, c: Seq<char>|
        #![trigger numeric_part(a), numeric_part(b), numeric_part(c)]
        s == a + seq!['.'] + b + seq!['.'] + c && numeric_part(a) && numeric_part(b) && numeric_part(c)
            && v == (digits_value(a), digits_value(b), digits_value(c))
}

/// `x` is at least `y` in the order of version numbers: by major, then minor, then
/// patch.
pub open spec fn triple_at_least(x: (nat, nat, nat), y: (nat, nat, nat)) -> bool {
    x.0 > y.0 || (x.0 == y.0 && (x.1 > y.1 || (x.1 == y.1 && x.2 >= y.2)))
}

/// `semver::Version::parse` on both strings, then `>=` on the two versions (the
/// derived order: major, minor, patch, pre-release, build). The result is named by
/// `semver_at_least`; beside the name it claims three facts the source shows: the
/// empty string is no version, a version is at least itself, and two release
/// versions `MAJOR.MINOR.PATCH` (`Version::parse` gives `Version::new` of their
/// numbers, with empty pre-release and build) compare by their numbers in order.
/// How versions with a pre-release or build part compare is left to the name.
#[verifier::external_body]
fn version_at_least(remote: &str, current: &str) -> (r: Option<bool>)
    ensures
        r == semver_at_least(remote@, current@),
        remote@.len() == 0 ==> r is None,
        remote@ == current@ && r is Some ==> r == Some(true),
        forall|rv: (nat, nat, nat), cv: (nat, nat, nat)|
            #[trigger] plain_version(remote@, rv) && #[trigger] plain_version(current@, cv)
                ==> r == Some(triple_at_least(rv, cv)),
{
    match (Version::parse(remote), Version::parse(current)) {
        (Ok(rv), Ok(cv)) => Some(rv >= cv),
        _ => None,
    }
}

/// Whether an update is offered, given the version comparison: its answer when both
/// versions parsed, otherwise whether a remote version was given at all.
pub fn update_decision(cmp: Option<bool>, remote: &str) -> (r: bool)
    ensures
        r == match cmp {
            Some(b) => b,
            None => remote@.len() > 0,
        },
{
    match cmp {
        Some(b) => b,
        None => !remote.is_empty(),
    }
}

/// Whether the remote version is an update for the current one: `remote >= current`
/// when both are semantic versions (for release versions, by major, minor and patch
/// in turn: an older patch of the same release line is no update), otherwise whether
/// a remote version was given.
pub fn update_available(current: &str, remote: &str) -> (r: bool)
    ensures
        r == match semver_at_least(remote@, current@) {
            Some(b) => b,
            None => remote@.len() > 0,
        },
        remote@ == current@ ==> r == (remote@.len() > 0),
        forall|rv: (nat, nat, nat), cv: (nat, nat, nat)|
            #[trigger] plain_version(remote@, rv) && #[trigger] plain_version(current@, cv)
                ==> r == triple_at_least(rv, cv),
{
    let cmp = version_at_least(remote, current);
    update_decision(cmp, remote)
}

} // verus!
