//! Names for staging directories.

use crate::names::{
    is_absolute, is_entry_name, joined, last_step, lemma_parent_holds_path,
    lemma_parent_of_joined, lemma_steps_of_joined, parent_of, stem, steps,
};
use rand::distributions::{Alphanumeric, DistString};
use rand::rngs::ThreadRng;
use vstd::prelude::*;

verus! {

/// The random number generator of the current thread. Nothing is known of
/// what it holds.
#[verifier::external_type_specification]
#[verifier::external_body]
pub struct ExThreadRng(rand::rngs::ThreadRng);

/// How many characters the name of a staging directory has.
pub const STAGING_NAME_LEN: usize = 10;

/// An ASCII letter or an ASCII digit.
pub open spec fn is_alphanumeric(c: char) -> bool {
    ||| 'a' <= c <= 'z'
    ||| 'A' <= c <= 'Z'
    ||| '0' <= c <= '9'
}

/// What every name of a staging directory looks like: ten characters,
/// each an ASCII letter or digit.
pub open spec fn is_staging_name(name: Seq<char>) -> bool {
    &&& name.len() == STAGING_NAME_LEN
    &&& forall|i: int| 0 <= i < name.len() ==> is_alphanumeric(#[trigger] name[i])
}

/// `rand::distributions::DistString::sample_string` on
/// `rand::distributions::Alphanumeric`: a string of `len` characters, each
/// drawn from the ASCII letters and digits. Which ones is left open.
#[verifier::external_body]
fn sample_alphanumeric(rng: &mut ThreadRng, len: usize) -> (text: String)
    requires
        len <= isize::MAX,
    ensures
        text@.len() == len,
        forall|i: int| 0 <= i < text@.len() ==> is_alphanumeric(#[trigger] text@[i]),
{
    Alphanumeric.sample_string(rng, len)
}

/// Draws a name for a staging directory.
pub fn fresh_name(rng: &mut ThreadRng) -> (name: String)
    ensures
        is_staging_name(name@),
{
    sample_alphanumeric(rng, STAGING_NAME_LEN)
}

/// The name of a staging directory names an entry: it is not empty, holds
/// no separator, and is neither `.` nor `..`.
pub proof fn lemma_staging_name_is_entry_name(name: Seq<char>)
    requires
        is_staging_name(name),
    ensures
        is_entry_name(name),
{
    assert forall|i: int| 0 <= i < name.len() implies name[i] != '/' by {
        assert(is_alphanumeric(name[i]));
    }
    assert(is_alphanumeric(name[0]));
}

/// A staging directory is an entry of the directory that holds the
/// scanned one. If `root` has the parent `base`, then the walk to `root`
/// is the walk to `base` followed by the name of an entry, and the walk
/// to the staging directory is the walk to `base` followed by the staging
/// name, from the same start. The two walks are equally long, so the
/// staging directory is not below `root`; they are the same walk only if
/// the staging name is the name of `root` itself, and then the directory
/// exists and cannot be made.
pub proof fn lemma_staging_is_sibling(root: Seq<char>, base: Seq<char>, name: Seq<char>)
    requires
        parent_of(root) == Some(base),
        is_staging_name(name),
    ensures
        ({
            let staging = joined(base, name);
            let scanned = last_step(stem(root));
            &&& is_entry_name(scanned)
            &&& steps(root) == steps(base).push(scanned)
            &&& steps(staging) == steps(base).push(name)
            &&& is_absolute(staging) == is_absolute(root)
            &&& steps(staging) == steps(root) <==> name == scanned
            &&& parent_of(staging) == Some(base)
        }),
{
    let staging = joined(base, name);
    let scanned = last_step(stem(root));
    lemma_parent_holds_path(root);
    lemma_staging_name_is_entry_name(name);
    lemma_steps_of_joined(base, name);
    lemma_parent_of_joined(base, name);
    if steps(staging) == steps(root) {
        assert(steps(base).push(name).last() == steps(base).push(scanned).last());
    }
}

} // verus!
