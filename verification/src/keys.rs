//! The reserved annotation keys: the opt-in key naming the secret, the state
//! key carrying the journal, and the platform's last-applied bookkeeping key.
//! None of them is ever a substitution target.

use vstd::prelude::*;
use vstd::string::*;

verus! {

/// Key whose presence opts an ingress in; its value names the secret.
pub open spec fn secret_name_key() -> Seq<char> {
    "kirillorlov.pro/annotationsFromSecretName"@
}

/// Key under which the journal of pre-substitution originals is stored.
pub open spec fn journal_key() -> Seq<char> {
    "kirillorlov.pro/annotationsFromSecretState"@
}

/// The platform's last-applied-configuration bookkeeping key.
pub open spec fn last_applied_key() -> Seq<char> {
    "kubectl.kubernetes.io/last-applied-configuration"@
}

/// Keys excluded from every substitution pass.
pub open spec fn is_reserved(k: Seq<char>) -> bool {
    k == secret_name_key() || k == journal_key() || k == last_applied_key()
}

pub fn secret_name_key_str() -> (r: String)
    ensures
        r@ == secret_name_key(),
{
    String::from_str("kirillorlov.pro/annotationsFromSecretName")
}

pub fn journal_key_str() -> (r: String)
    ensures
        r@ == journal_key(),
{
    String::from_str("kirillorlov.pro/annotationsFromSecretState")
}

pub fn last_applied_key_str() -> (r: String)
    ensures
        r@ == last_applied_key(),
{
    String::from_str("kubectl.kubernetes.io/last-applied-configuration")
}

/// The three reserved keys are pairwise distinct.
pub proof fn lemma_reserved_distinct()
    ensures
        secret_name_key() != journal_key(),
        secret_name_key() != last_applied_key(),
        journal_key() != last_applied_key(),
{
    reveal_strlit("kirillorlov.pro/annotationsFromSecretName");
    reveal_strlit("kirillorlov.pro/annotationsFromSecretState");
    reveal_strlit("kubectl.kubernetes.io/last-applied-configuration");
    assert(secret_name_key().len() == 41);
    assert(journal_key().len() == 42);
    assert(last_applied_key().len() == 48);
}

} // verus!
