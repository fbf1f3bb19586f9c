//! The guarantees the substitution scheme is built around, proved over the
//! engine's ghost model: a second run right after a patch stages nothing, an
//! annotation without placeholders is never touched, and the reserved keys
//! are never substitution targets.

use vstd::prelude::*;
use crate::engine::{base_of, cand_of, merged_journal_of, staged_of};
use crate::journal::json_of;
use crate::reconcile::{processed_action, ReconcileAction};
use crate::keys::{
    is_reserved, journal_key, last_applied_key, lemma_reserved_distinct, secret_name_key,
};
use crate::template::{lemma_fold_replace_all_absent, lemma_fold_replace_no_dollar, spec_contains, spec_token};

verus! {

broadcast use vstd::set::group_set_axioms, vstd::map::group_map_axioms;

/// Reconciling is idempotent: after the staged changes and the merged journal
/// (carried in the state annotation, whatever text `sv` it serializes to) are
/// applied to the annotation map, a second pass with the same replacement set
/// stages nothing, so no second patch is ever submitted.
pub proof fn lemma_reconcile_idempotent(
    am: Map<Seq<char>, Seq<char>>,
    jm: Map<Seq<char>, Seq<char>>,
    rents: Seq<(Seq<char>, Seq<char>)>,
    sv: Seq<char>,
)
    ensures
        ({
            let staged = staged_of(am, jm, rents);
            let merged = merged_journal_of(am, jm, rents);
            let am2 = am.union_prefer_right(staged).insert(journal_key(), sv);
            staged_of(am2, merged, rents) == Map::<Seq<char>, Seq<char>>::empty()
        }),
{
    let staged = staged_of(am, jm, rents);
    let merged = merged_journal_of(am, jm, rents);
    let am2 = am.union_prefer_right(staged).insert(journal_key(), sv);
    assert forall|k: Seq<char>| !(#[trigger] staged_of(am2, merged, rents).contains_key(k)) by {
        if am2.contains_key(k) && !is_reserved(k) {
            assert(k != journal_key());
            if staged.contains_key(k) {
                assert(merged.contains_key(k));
                assert(merged[k] == base_of(k, am, jm));
                assert(base_of(k, am2, merged) == base_of(k, am, jm));
                assert(cand_of(k, am2, merged, rents) == cand_of(k, am, jm, rents));
                assert(am2[k] == staged[k]);
                assert(am2[k] == cand_of(k, am2, merged, rents));
            } else {
                assert(am.contains_key(k));
                assert(am2[k] == am[k]);
                assert(cand_of(k, am, jm, rents) == am[k]);
                if jm.contains_key(k) {
                    assert(merged.contains_key(k));
                    assert(merged[k] == jm[k]);
                    assert(base_of(k, am2, merged) == base_of(k, am, jm));
                } else {
                    assert(!merged.contains_key(k));
                    assert(base_of(k, am2, merged) == am2[k]);
                    assert(base_of(k, am, jm) == am[k]);
                }
                assert(cand_of(k, am2, merged, rents) == am2[k]);
            }
        }
    }
    assert(staged_of(am2, merged, rents) =~= Map::<Seq<char>, Seq<char>>::empty());
}

/// After a submitted patch lands — the annotation map becomes the old one
/// overlaid with the staged changes plus the serialized merged journal under
/// its reserved key — the next reconcile of the same ingress and secret can
/// only report that nothing differs: no second patch is ever submitted. The
/// journal codec's round trip guarantees that the state annotation written as
/// `json_of(merged)` decodes back to exactly the merged journal.
pub proof fn lemma_second_run_reports_up_to_date(
    am: Map<Seq<char>, Seq<char>>,
    jm: Map<Seq<char>, Seq<char>>,
    rents: Seq<(Seq<char>, Seq<char>)>,
    r2: ReconcileAction,
)
    requires
        ({
            let staged = staged_of(am, jm, rents);
            let merged = merged_journal_of(am, jm, rents);
            let am2 = am.union_prefer_right(staged).insert(journal_key(), json_of(merged));
            processed_action(am2, merged, rents, r2)
        }),
    ensures
        r2 == (ReconcileAction::UpToDate { requeue_secs: 300 }),
{
    lemma_reconcile_idempotent(am, jm, rents, json_of(merged_journal_of(am, jm, rents)));
}

/// An annotation whose value holds no `$` (so no placeholder token at all)
/// and for which no substitution was ever journaled is never altered and
/// never gains a journal entry.
pub proof fn lemma_no_placeholder_untouched(
    am: Map<Seq<char>, Seq<char>>,
    jm: Map<Seq<char>, Seq<char>>,
    rents: Seq<(Seq<char>, Seq<char>)>,
    k: Seq<char>,
)
    requires
        am.contains_key(k),
        !jm.contains_key(k),
        !am[k].contains('$'),
    ensures
        !staged_of(am, jm, rents).contains_key(k),
        !merged_journal_of(am, jm, rents).contains_key(k),
{
    assert(base_of(k, am, jm) == am[k]);
    lemma_fold_replace_no_dollar(am[k], rents);
    assert(cand_of(k, am, jm, rents) == am[k]);
}

/// An annotation in which no replacement key's placeholder token occurs, and
/// for which no substitution was ever journaled, is never altered and never
/// gains a journal entry.
pub proof fn lemma_no_matching_token_untouched(
    am: Map<Seq<char>, Seq<char>>,
    jm: Map<Seq<char>, Seq<char>>,
    rents: Seq<(Seq<char>, Seq<char>)>,
    k: Seq<char>,
)
    requires
        am.contains_key(k),
        !jm.contains_key(k),
        forall|i: int| 0 <= i < rents.len() ==> !spec_contains(
            am[k],
            spec_token((#[trigger] rents[i]).0),
        ),
    ensures
        !staged_of(am, jm, rents).contains_key(k),
        !merged_journal_of(am, jm, rents).contains_key(k),
{
    assert(base_of(k, am, jm) == am[k]);
    lemma_fold_replace_all_absent(am[k], rents);
    assert(cand_of(k, am, jm, rents) == am[k]);
}

/// A journaled original is stable: whatever one reconcile stages — in
/// particular after a secret rotation — the merged journal keeps an existing
/// journal entry's value unchanged.
pub proof fn lemma_journal_original_stable(
    am: Map<Seq<char>, Seq<char>>,
    jm: Map<Seq<char>, Seq<char>>,
    rents: Seq<(Seq<char>, Seq<char>)>,
    k: Seq<char>,
)
    requires
        jm.contains_key(k),
    ensures
        merged_journal_of(am, jm, rents).contains_key(k),
        merged_journal_of(am, jm, rents)[k] == jm[k],
{
    assert(base_of(k, am, jm) == jm[k]);
}

/// A reserved key — the trigger annotation, the state annotation, and the
/// platform's last-applied bookkeeping key — is never a substitution target.
pub proof fn lemma_reserved_never_staged(
    am: Map<Seq<char>, Seq<char>>,
    jm: Map<Seq<char>, Seq<char>>,
    rents: Seq<(Seq<char>, Seq<char>)>,
    k: Seq<char>,
)
    requires
        is_reserved(k),
    ensures
        !staged_of(am, jm, rents).contains_key(k),
{
}

/// The submitted patch — the staged changes plus the journal under its own
/// reserved key — never touches the trigger annotation or the platform's
/// last-applied key, whatever text `sv` the journal serializes to.
pub proof fn lemma_patch_keeps_reserved(
    am: Map<Seq<char>, Seq<char>>,
    jm: Map<Seq<char>, Seq<char>>,
    rents: Seq<(Seq<char>, Seq<char>)>,
    sv: Seq<char>,
)
    ensures
        ({
            let patch = staged_of(am, jm, rents).insert(journal_key(), sv);
            !patch.contains_key(secret_name_key()) && !patch.contains_key(last_applied_key())
        }),
{
    lemma_reserved_distinct();
}

} // verus!
