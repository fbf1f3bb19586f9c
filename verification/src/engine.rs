//! The journal-aware substitution engine. For every non-reserved annotation it
//! substitutes into the journaled original (if any) rather than the live
//! value, which keeps repeated runs and secret rotations idempotent, and it
//! stages a change only where the outcome differs from the live value.

use vstd::prelude::*;
use vstd::string::*;
use crate::keys::{
    is_reserved, journal_key_str, last_applied_key_str, secret_name_key_str,
};
use crate::strmap::{lemma_map_of_dom, str_eq, StrMap};
use crate::template::{fold_replace, replace_all, token_of};

verus! {

broadcast use vstd::seq_lib::group_seq_properties, vstd::set::group_set_axioms, vstd::map::group_map_axioms;

/// The text substitution starts from: the journaled original if one exists,
/// otherwise the live annotation value.
pub open spec fn base_of(k: Seq<char>, am: Map<Seq<char>, Seq<char>>, jm: Map<Seq<char>, Seq<char>>) -> Seq<char> {
    if jm.contains_key(k) {
        jm[k]
    } else {
        am[k]
    }
}

/// The outcome of one full substitution pass for annotation key `k`.
pub open spec fn cand_of(
    k: Seq<char>,
    am: Map<Seq<char>, Seq<char>>,
    jm: Map<Seq<char>, Seq<char>>,
    rents: Seq<(Seq<char>, Seq<char>)>,
) -> Seq<char> {
    fold_replace(base_of(k, am, jm), rents)
}

/// The annotation changes one reconcile stages: exactly the non-reserved keys
/// whose substitution outcome differs from the live value.
pub open spec fn staged_of(
    am: Map<Seq<char>, Seq<char>>,
    jm: Map<Seq<char>, Seq<char>>,
    rents: Seq<(Seq<char>, Seq<char>)>,
) -> Map<Seq<char>, Seq<char>> {
    Map::new(
        |k: Seq<char>|
            am.contains_key(k) && !is_reserved(k) && cand_of(k, am, jm, rents) != am[k],
        |k: Seq<char>| cand_of(k, am, jm, rents),
    )
}

/// The journal after one reconcile: the old journal overlaid with the
/// pre-substitution original of every staged key.
pub open spec fn merged_journal_of(
    am: Map<Seq<char>, Seq<char>>,
    jm: Map<Seq<char>, Seq<char>>,
    rents: Seq<(Seq<char>, Seq<char>)>,
) -> Map<Seq<char>, Seq<char>> {
    Map::new(
        |k: Seq<char>| jm.contains_key(k) || staged_of(am, jm, rents).contains_key(k),
        |k: Seq<char>|
            if staged_of(am, jm, rents).contains_key(k) {
                base_of(k, am, jm)
            } else {
                jm[k]
            },
    )
}

/// Runs one substitution pass over all annotations. Returns the staged
/// annotation changes and the journal to persist with them.
pub fn compute_changes(ann: &StrMap, journal: &StrMap, repl: &StrMap) -> (res: (StrMap, StrMap))
    requires
        ann.wf(),
        journal.wf(),
    ensures
        res.0.wf(),
        res.1.wf(),
        res.0.as_map() == staged_of(ann.as_map(), journal.as_map(), repl.entries()),
        res.1.as_map() == merged_journal_of(ann.as_map(), journal.as_map(), repl.entries()),
    {
    let ghost am = ann.as_map();
    let ghost jm = journal.as_map();
    let ghost rents = repl.entries();
    let ghost full = staged_of(am, jm, rents);

    let reserved_a = secret_name_key_str();
    let reserved_b = journal_key_str();
    let reserved_c = last_applied_key_str();

    let mut staged = StrMap::new();
    let mut nj = journal.duplicate();

    let n = ann.len();
    let mut i: usize = 0;
    while i < n
        invariant
            ann.wf(),
            journal.wf(),
            staged.wf(),
            nj.wf(),
            n == ann.entries().len(),
            i <= n,
            am == ann.as_map(),
            jm == journal.as_map(),
            rents == repl.entries(),
            full == staged_of(am, jm, rents),
            reserved_a@ == crate::keys::secret_name_key(),
            reserved_b@ == crate::keys::journal_key(),
            reserved_c@ == crate::keys::last_applied_key(),
            forall|k: Seq<char>| #[trigger] staged.as_map().contains_key(k) ==> full.contains_key(
                k,
            ) && staged.as_map()[k] == full[k] && (exists|t: int|
                0 <= t < i && (#[trigger] ann.entries()[t]).0 == k),
            forall|t: int|
                0 <= t < i && full.contains_key((#[trigger] ann.entries()[t]).0)
                    ==> staged.as_map().contains_key(ann.entries()[t].0),
            forall|k: Seq<char>| #[trigger] nj.as_map().contains_key(k) == (jm.contains_key(k)
                || staged.as_map().contains_key(k)),
            forall|k: Seq<char>| #[trigger] nj.as_map().contains_key(k) ==> nj.as_map()[k] == (
            if staged.as_map().contains_key(k) {
                base_of(k, am, jm)
            } else {
                jm[k]
            }),
        decreases n - i,
    {
        proof {
            ann.lemma_entry_in_map(i as int);
        }
        let key = ann.key_at(i);
        let live = ann.val_at(i);
        let ghost k = ann.entries()[i as int].0;
        let is_res = str_eq(key.as_str(), reserved_a.as_str()) || str_eq(
            key.as_str(),
            reserved_b.as_str(),
        ) || str_eq(key.as_str(), reserved_c.as_str());
        if !is_res {
            let base: &String = match journal.get(key.as_str()) {
                Some(orig) => orig,
                None => live,
            };
            proof {
                assert(base@ == base_of(k, am, jm));
            }
            let mut cur: String = base.clone();
            let rn = repl.len();
            let mut t: usize = 0;
            proof {
                assert(rents.skip(0) =~= rents);
            }
            while t < rn
                invariant
                    rn == repl.entries().len(),
                    t <= rn,
                    rents == repl.entries(),
                    fold_replace(base@, rents) == fold_replace(cur@, rents.skip(t as int)),
                decreases rn - t,
            {
                let rkey = repl.key_at(t);
                let rval = repl.val_at(t);
                let token = token_of(rkey.as_str());
                let next = replace_all(cur.as_str(), token.as_str(), rval.as_str());
                proof {
                    assert(rents.skip(t as int)[0] == rents[t as int]);
                    assert(rents.skip(t as int).skip(1) =~= rents.skip(t + 1));
                }
                cur = next;
                t = t + 1;
            }
            proof {
                assert(rents.skip(rn as int).len() == 0);
                assert(cur@ == cand_of(k, am, jm, rents));
            }
            let changed = !str_eq(cur.as_str(), live.as_str());
            if changed {
                proof {
                    assert(am[k] == ann.entries()[i as int].1);
                    assert(full.contains_key(k));
                    assert(full[k] == cur@);
                }
                let ghost staged_before = staged;
                let ghost nj_before = nj;
                staged.insert(key.clone(), cur);
                nj.insert(key.clone(), base.clone());
                proof {
                    assert forall|q: Seq<char>| #[trigger]
                        staged.as_map().contains_key(q) implies full.contains_key(q)
                        && staged.as_map()[q] == full[q] && (exists|u: int|
                        0 <= u < i + 1 && (#[trigger] ann.entries()[u]).0 == q) by {
                        if q == k {
                            assert(ann.entries()[i as int].0 == q);
                        } else {
                            assert(staged_before.as_map().contains_key(q));
                        }
                    }
                }
            } else {
                proof {
                    assert(am[k] == live@);
                    assert(!full.contains_key(k));
                }
            }
        } else {
            proof {
                assert(is_reserved(k));
                assert(!full.contains_key(k));
            }
        }
        i = i + 1;
    }
    proof {
        assert(staged.as_map() =~= full) by {
            assert forall|k: Seq<char>| full.contains_key(k) implies staged.as_map().contains_key(
                k,
            ) by {
                lemma_map_of_dom(ann.entries(), k);
            }
        }
        assert(nj.as_map() =~= merged_journal_of(am, jm, rents));
    }
    (staged, nj)
}

} // verus!
