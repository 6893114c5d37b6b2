use vstd::prelude::*;
use crate::codec::checksum_of;
use crate::error::Error;
use crate::store::{batch_last, key_of, lemma_batch_last_char, lemma_store_round_trip, lookup,
    store_inv, WorkStore};
use crate::workflow::{Workflow, WorkflowView};

verus! {

/// No record of the batch after position `i` reuses the key of the record at
/// `i`: the record at `i` is the one the batch leaves under its key.
pub open spec fn last_occurrence(s: Seq<WorkflowView>, i: int) -> bool {
    forall|j: int| i < j < s.len() ==> key_of(#[trigger] s[j]) != key_of(s[i])
}

/// The freshly parsed catalog diverges from the stored one: some id that the
/// parsed set defines is absent from the store, or is stored with another
/// checksum. A stored id with no parsed counterpart does not diverge.
pub open spec fn divergent(parsed: Seq<WorkflowView>, stored: Seq<WorkflowView>) -> bool {
    exists|k: Seq<char>|
        #[trigger] batch_last(parsed, k) is Some && (match lookup(stored, k) {
            None => true,
            Some(sw) => checksum_of(sw) != checksum_of(batch_last(parsed, k).unwrap()),
        })
}

/// The catalog reconciler.
pub struct Crawler {}

impl Crawler {
    /// Compare the freshly parsed workflows with the store, record by record
    /// and checksum by checksum.
    fn is_different(workflows: &Vec<Workflow>, store: &WorkStore) -> (r: bool)
        requires
            store_inv(store@),
        ensures
            r == divergent(workflows@.map_values(|w: Workflow| w@), store@),
    {
        let ghost parsed = workflows@.map_values(|w: Workflow| w@);
        let n: usize = workflows.len();
        let mut i: usize = 0;
        while i < n
            invariant
                n == workflows@.len(),
                parsed == workflows@.map_values(|w: Workflow| w@),
                store_inv(store@),
                i <= n,
                forall|a: int|
                    0 <= a < i && last_occurrence(parsed, a) ==> (match lookup(
                        store@,
                        key_of(#[trigger] parsed[a]),
                    ) {
                        None => false,
                        Some(sw) => checksum_of(sw) == checksum_of(parsed[a]),
                    }),
            decreases n - i,
        {
            // Only the last record of the batch with a given id counts.
            let mut is_last: bool = true;
            let mut j: usize = i + 1;
            let id_i = workflows[i].id();
            while j < n && is_last
                invariant
                    n == workflows@.len(),
                    parsed == workflows@.map_values(|w: Workflow| w@),
                    i < j <= n,
                    id_i@ == key_of(parsed[i as int]),
                    is_last ==> forall|b: int|
                        i < b < j ==> key_of(#[trigger] parsed[b]) != key_of(parsed[i as int]),
                    !is_last ==> exists|b: int|
                        i < b < n && key_of(#[trigger] parsed[b]) == key_of(parsed[i as int]),
                decreases n - j + (if is_last { 1int } else { 0int }),
            {
                let id_j = workflows[j].id();
                if crate::text::chars_eq(
                    &crate::text::str_to_chars(id_j.inner()),
                    &crate::text::str_to_chars(id_i.inner()),
                ) {
                    proof {
                        assert(parsed[j as int] == workflows@[j as int]@);
                        assert(key_of(parsed[j as int]) == key_of(parsed[i as int]));
                    }
                    is_last = false;
                } else {
                    j += 1;
                }
            }
            if is_last {
                match store.get(id_i.inner()) {
                    Ok(Some(sw)) => {
                        if sw.checksum() != workflows[i].checksum() {
                            proof {
                                lemma_store_round_trip(parsed, i as int);
                                assert(batch_last(parsed, key_of(parsed[i as int])) == Some(
                                    parsed[i as int],
                                ));
                            }
                            return true;
                        }
                    },
                    Ok(None) => {
                        proof {
                            lemma_store_round_trip(parsed, i as int);
                        }
                        return true;
                    },
                    Err(_) => {
                        proof {
                            assert(false);
                        }
                    },
                }
            }
            i += 1;
            proof {
                assert forall|a: int|
                    0 <= a < i && last_occurrence(parsed, a) implies (match lookup(
                    store@,
                    key_of(#[trigger] parsed[a]),
                ) {
                    None => false,
                    Some(sw) => checksum_of(sw) == checksum_of(parsed[a]),
                }) by {
                    if a == i - 1 {
                        assert(is_last);
                    }
                }
            }
        }
        proof {
            if divergent(parsed, store@) {
                let k = choose|k: Seq<char>|
                    #[trigger] batch_last(parsed, k) is Some && (match lookup(store@, k) {
                        None => true,
                        Some(sw) => checksum_of(sw) != checksum_of(batch_last(parsed, k).unwrap()),
                    });
                lemma_batch_last_char(parsed, k);
                let a = choose|a: int|
                    0 <= a < parsed.len() && parsed[a] == batch_last(parsed, k).unwrap() && key_of(
                        #[trigger] parsed[a],
                    ) == k && (forall|j: int|
                        a < j < parsed.len() ==> key_of(#[trigger] parsed[j]) != k);
                assert(last_occurrence(parsed, a));
                assert(false);
            }
        }
        false
    }

    /// Reconcile the store with a freshly parsed catalog: where any parsed
    /// record is missing from the store or stored with another checksum, the
    /// whole catalog is replaced; otherwise the store is left untouched.
    pub fn crawl(workflows: Vec<Workflow>, store: &mut WorkStore) -> (r: Result<(), Error>)
        requires
            store_inv(old(store)@),
        ensures
            r is Ok,
            store_inv(final(store)@),
            divergent(workflows@.map_values(|w: Workflow| w@), old(store)@) ==> forall|
                k: Seq<char>,
            |
                #[trigger] lookup(final(store)@, k) == batch_last(
                    workflows@.map_values(|w: Workflow| w@),
                    k,
                ),
            !divergent(workflows@.map_values(|w: Workflow| w@), old(store)@) ==> final(store)@
                == old(store)@,
    {
        let ghost parsed = workflows@.map_values(|w: Workflow| w@);
        let differs = Self::is_different(&workflows, store);
        if differs {
            let r1 = store.delete_all();
            match r1 {
                Ok(_) => {},
                Err(_) => {
                    proof {
                        assert(false);
                    }
                },
            }
            let r2 = store.insert_all(workflows);
            match r2 {
                Ok(_) => {},
                Err(_) => {
                    proof {
                        assert(false);
                    }
                },
            }
        }
        Ok(())
    }
}

/// Reconciliation is idempotent: after a run of `crawl`, the store no longer
/// diverges from the same parsed catalog, so a second run with unchanged
/// sources leaves the store exactly as the first run left it.
pub proof fn lemma_reconcile_no_op(parsed: Seq<WorkflowView>, s0: Seq<WorkflowView>, s1: Seq<
    WorkflowView,
>)
    requires
        divergent(parsed, s0) ==> forall|k: Seq<char>|
            #[trigger] lookup(s1, k) == batch_last(parsed, k),
        !divergent(parsed, s0) ==> s1 == s0,
    ensures
        !divergent(parsed, s1),
{
    if divergent(parsed, s0) {
        if divergent(parsed, s1) {
            let k = choose|k: Seq<char>|
                #[trigger] batch_last(parsed, k) is Some && (match lookup(s1, k) {
                    None => true,
                    Some(sw) => checksum_of(sw) != checksum_of(batch_last(parsed, k).unwrap()),
                });
            assert(lookup(s1, k) == batch_last(parsed, k));
            assert(false);
        }
    } else {
        if divergent(parsed, s1) {
            assert(divergent(parsed, s0));
        }
    }
}

/// Reconciliation detects a changed source: where the store holds an id with
/// one checksum and the parsed catalog defines the same id with another, the
/// two diverge, and `crawl` replaces the catalog, so the store then holds the
/// parsed record under that id.
pub proof fn lemma_reconcile_divergence(parsed: Seq<WorkflowView>, stored: Seq<WorkflowView>, k: Seq<
    char,
>)
    requires
        batch_last(parsed, k) is Some,
        (match lookup(stored, k) {
            None => true,
            Some(sw) => checksum_of(sw) != checksum_of(batch_last(parsed, k).unwrap()),
        }),
    ensures
        divergent(parsed, stored),
{
}

} // verus!
