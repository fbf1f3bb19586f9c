//! One reconcile pass over a single ingress snapshot: decide whether the
//! ingress opts in, which secret to fetch, what patch to submit, and which
//! requeue interval to report back to the controller framework.

use vstd::prelude::*;
use vstd::string::*;
use crate::engine::{compute_changes, merged_journal_of, staged_of};
use crate::journal::{decode_journal, encode_journal, json_of};
use crate::keys::{journal_key, journal_key_str, secret_name_key, secret_name_key_str};
use crate::secret::{all_data_utf8, build_replacements, decoded_data, spec_merge, SecretView};
use crate::strmap::StrMap;

verus! {

/// An ingress snapshot: identity plus its annotation map. Any of the parts
/// may be absent; absence is an ordinary, handled outcome.
pub struct IngressView {
    pub namespace: Option<String>,
    pub name: Option<String>,
    pub annotations: Option<StrMap>,
}

impl IngressView {
    pub open spec fn wf(self) -> bool {
        match self.annotations {
            Some(a) => a.wf(),
            None => true,
        }
    }

    /// Whether the ingress opts in: it carries the secret-naming annotation.
    pub open spec fn has_trigger(self) -> bool {
        self.annotations is Some && self.annotations.unwrap().as_map().contains_key(
            secret_name_key(),
        )
    }

    /// The annotation map, empty when absent.
    pub open spec fn ann_map(self) -> Map<Seq<char>, Seq<char>> {
        if self.annotations is Some {
            self.annotations.unwrap().as_map()
        } else {
            Map::empty()
        }
    }
}

/// The replacement entries a secret snapshot yields, in ascending key order.
pub open spec fn repl_entries_of(s: SecretView) -> Seq<(Seq<char>, Seq<char>)> {
    spec_merge(decoded_data(s.data_entries()), s.string_entries())
}

/// What the reconciler asks the caller to fetch before substitution can run.
pub enum FetchPlan {
    /// No trigger annotation: nothing to do, wait for the next event.
    NoTrigger,
    /// The ingress opts in but carries no namespace to fetch the secret from.
    MissingNamespace,
    /// Fetch this secret from this namespace.
    Fetch { namespace: String, name: String },
}

/// Resource-scoped failures of one reconcile.
pub enum ReconcileError {
    /// The referenced secret could not be fetched.
    SecretFetch,
    /// A secret `data` value is not valid UTF-8 text.
    SecretValueNotUtf8,
}

/// The outcome of one reconcile, reported to the external scheduler.
pub enum ReconcileAction {
    /// No trigger annotation: wait for the next event, no timer.
    NoOp,
    /// Nothing differs; revisit after the periodic interval.
    UpToDate { requeue_secs: u64 },
    /// Submit this merge patch to the annotation map, then revisit.
    SubmitPatch { annotations: StrMap, requeue_secs: u64 },
    /// The reconcile failed; retry after the short interval.
    Fail { error: ReconcileError, requeue_secs: u64 },
}

/// The action a processed ingress yields for journal `jm`: no patch when the
/// engine stages nothing, otherwise the staged changes plus the re-encoded
/// journal under its reserved key, each with the periodic revisit interval.
pub open spec fn processed_action(
    am: Map<Seq<char>, Seq<char>>,
    jm: Map<Seq<char>, Seq<char>>,
    rents: Seq<(Seq<char>, Seq<char>)>,
    r: ReconcileAction,
) -> bool {
    if staged_of(am, jm, rents) == Map::<Seq<char>, Seq<char>>::empty() {
        r == (ReconcileAction::UpToDate { requeue_secs: 300 })
    } else {
        match r {
            ReconcileAction::SubmitPatch { annotations, requeue_secs } => {
                &&& requeue_secs == 300
                &&& annotations.wf()
                &&& annotations.as_map() == staged_of(am, jm, rents).insert(
                    journal_key(),
                    json_of(merged_journal_of(am, jm, rents)),
                )
            },
            _ => false,
        }
    }
}

/// Decides what to fetch for an ingress snapshot.
pub fn plan_fetch(ingress: &IngressView) -> (r: FetchPlan)
    requires
        ingress.wf(),
    ensures
        (r is NoTrigger) == !ingress.has_trigger(),
        (r is MissingNamespace) == (ingress.has_trigger() && ingress.namespace is None),
        match r {
            FetchPlan::Fetch { namespace, name } => {
                &&& ingress.has_trigger()
                &&& ingress.namespace is Some
                &&& namespace@ == ingress.namespace.unwrap()@
                &&& name@ == ingress.ann_map()[secret_name_key()]
            },
            _ => true,
        },
{
    let ann = match &ingress.annotations {
        Some(a) => a,
        None => {
            return FetchPlan::NoTrigger;
        },
    };
    let tkey = secret_name_key_str();
    let name = match ann.get(tkey.as_str()) {
        Some(v) => v,
        None => {
            return FetchPlan::NoTrigger;
        },
    };
    let namespace = match &ingress.namespace {
        Some(ns) => ns,
        None => {
            return FetchPlan::MissingNamespace;
        },
    };
    FetchPlan::Fetch { namespace: namespace.clone(), name: name.clone() }
}

/// Runs one reconcile against an ingress snapshot and the fetched secret
/// (`None` when the fetch failed). No trigger annotation is a no-op; a fetch
/// or decode failure reports a short retry; otherwise the substitution engine
/// decides between nothing-to-do and a patch, both revisited periodically.
pub fn reconcile(ingress: &IngressView, fetched: Option<&SecretView>) -> (r: ReconcileAction)
    requires
        ingress.wf(),
        match fetched {
            Some(s) => s.wf(),
            None => true,
        },
    ensures
        !ingress.has_trigger() ==> r == ReconcileAction::NoOp,
        ingress.has_trigger() && fetched is None ==> r == (ReconcileAction::Fail {
            error: ReconcileError::SecretFetch,
            requeue_secs: 60,
        }),
        ingress.has_trigger() && fetched is Some && !all_data_utf8(
            fetched.unwrap().data_entries(),
        ) ==> r == (ReconcileAction::Fail {
            error: ReconcileError::SecretValueNotUtf8,
            requeue_secs: 60,
        }),
        ingress.has_trigger() && fetched is Some && all_data_utf8(
            fetched.unwrap().data_entries(),
        ) ==> {
            &&& forall|jm: Map<Seq<char>, Seq<char>>|
                ingress.ann_map().contains_key(journal_key()) && ingress.ann_map()[journal_key()]
                    == #[trigger] json_of(jm) ==> processed_action(
                    ingress.ann_map(),
                    jm,
                    repl_entries_of(*fetched.unwrap()),
                    r,
                )
            &&& !ingress.ann_map().contains_key(journal_key()) ==> processed_action(
                ingress.ann_map(),
                Map::empty(),
                repl_entries_of(*fetched.unwrap()),
                r,
            )
            &&& exists|jm: Map<Seq<char>, Seq<char>>| #[trigger] processed_action(
                ingress.ann_map(),
                jm,
                repl_entries_of(*fetched.unwrap()),
                r,
            )
        },
{
    let ann = match &ingress.annotations {
        Some(a) => a,
        None => {
            return ReconcileAction::NoOp;
        },
    };
    let tkey = secret_name_key_str();
    if !ann.contains_key(tkey.as_str()) {
        return ReconcileAction::NoOp;
    }
    let secret = match fetched {
        Some(s) => s,
        None => {
            return ReconcileAction::Fail {
                error: ReconcileError::SecretFetch,
                requeue_secs: 60,
            };
        },
    };
    let repl = match build_replacements(secret) {
        Some(m) => m,
        None => {
            return ReconcileAction::Fail {
                error: ReconcileError::SecretValueNotUtf8,
                requeue_secs: 60,
            };
        },
    };
    let ghost am = ingress.ann_map();
    let ghost rents = repl_entries_of(*secret);
    proof {
        assert(ann.as_map() == am);
        assert(repl.entries() == rents);
    }
    let journal = decode_journal(ann);
    let (staged, merged) = compute_changes(ann, &journal, &repl);
    let ghost jm0 = journal.as_map();
    if staged.is_empty() {
        let r = ReconcileAction::UpToDate { requeue_secs: 300 };
        proof {
            assert(staged_of(am, jm0, rents) == Map::<Seq<char>, Seq<char>>::empty());
            assert(processed_action(am, jm0, rents, r));
            assert forall|jm: Map<Seq<char>, Seq<char>>|
                am.contains_key(journal_key()) && am[journal_key()] == #[trigger] json_of(jm)
                implies processed_action(am, jm, rents, r) by {
                assert(jm == jm0);
            }
        }
        r
    } else {
        let json = encode_journal(&merged);
        let jkey = journal_key_str();
        let mut patch = staged;
        patch.insert(jkey, json);
        let r = ReconcileAction::SubmitPatch { annotations: patch, requeue_secs: 300 };
        proof {
            assert(staged_of(am, jm0, rents) != Map::<Seq<char>, Seq<char>>::empty());
            assert(processed_action(am, jm0, rents, r));
            assert forall|jm: Map<Seq<char>, Seq<char>>|
                am.contains_key(journal_key()) && am[journal_key()] == #[trigger] json_of(jm)
                implies processed_action(am, jm, rents, r) by {
                assert(jm == jm0);
            }
        }
        r
    }
}

/// The retry interval reported after a failed reconcile or a rejected patch.
pub fn error_policy() -> (r: u64)
    ensures
        r == 60,
{
    60
}

} // verus!
