use vstd::prelude::*;
use crate::error::Error;
use crate::text::{chars_eq, chars_lt, lemma_lex_trichotomy, lemma_lex_trans, lex_lt, str_to_chars};
use crate::workflow::{id_of_name, Workflow, WorkflowView};

verus! {

/// The key under which a record is stored.
pub open spec fn key_of(w: WorkflowView) -> Seq<char> {
    id_of_name(w.name)
}

/// The records of the store are strictly ordered by key: every key occurs
/// once.
pub open spec fn store_inv(s: Seq<WorkflowView>) -> bool {
    forall|i: int, j: int|
        0 <= i < j < s.len() ==> lex_lt(key_of(#[trigger] s[i]), key_of(#[trigger] s[j]))
}

/// The record under a key: the first match of a scan.
pub open spec fn lookup(s: Seq<WorkflowView>, k: Seq<char>) -> Option<WorkflowView>
    decreases s.len(),
{
    if s.len() == 0 {
        None
    } else if key_of(s[0]) == k {
        Some(s[0])
    } else {
        lookup(s.drop_first(), k)
    }
}

/// The record a batch leaves under a key: the last write wins.
pub open spec fn batch_last(s: Seq<WorkflowView>, k: Seq<char>) -> Option<WorkflowView>
    decreases s.len(),
{
    if s.len() == 0 {
        None
    } else if key_of(s.last()) == k {
        Some(s.last())
    } else {
        batch_last(s.drop_last(), k)
    }
}

/// What `lookup` finds is a record of the store under that key; where it
/// finds nothing, no record has the key.
pub proof fn lemma_lookup_char(s: Seq<WorkflowView>, k: Seq<char>)
    ensures
        (match lookup(s, k) {
            Some(w) => exists|i: int| 0 <= i < s.len() && s[i] == w && key_of(#[trigger] s[i]) == k,
            None => forall|i: int| 0 <= i < s.len() ==> key_of(#[trigger] s[i]) != k,
        }),
    decreases s.len(),
{
    if s.len() > 0 && key_of(s[0]) != k {
        lemma_lookup_char(s.drop_first(), k);
        match lookup(s.drop_first(), k) {
            Some(w) => {
                let i = choose|i: int|
                    0 <= i < s.drop_first().len() && s.drop_first()[i] == w && key_of(
                        #[trigger] s.drop_first()[i],
                    ) == k;
                assert(s[i + 1] == w);
            },
            None => {
                assert(forall|i: int|
                    1 <= i < s.len() ==> #[trigger] s[i] == s.drop_first()[i - 1]);
            },
        }
    }
}

/// In an ordered store, `lookup` returns exactly the record at any index
/// whose key matches.
pub proof fn lemma_lookup_at(s: Seq<WorkflowView>, i: int)
    requires
        store_inv(s),
        0 <= i < s.len(),
    ensures
        lookup(s, key_of(s[i])) == Some(s[i]),
    decreases s.len(),
{
    if i == 0 {
    } else {
        assert(lex_lt(key_of(s[0]), key_of(s[i])));
        assert(key_of(s[0]) != key_of(s[i])) by {
            crate::text::lemma_lex_irrefl(key_of(s[i]));
        }
        assert(forall|a: int, b: int|
            0 <= a < b < s.drop_first().len() ==> lex_lt(
                key_of(#[trigger] s.drop_first()[a]),
                key_of(#[trigger] s.drop_first()[b]),
            )) by {
            assert(forall|a: int|
                0 <= a < s.drop_first().len() ==> #[trigger] s.drop_first()[a] == s[a + 1]);
        }
        lemma_lookup_at(s.drop_first(), i - 1);
        assert(s.drop_first()[i - 1] == s[i]);
    }
}

/// The persistent, ordered catalog of workflow records, keyed by workflow
/// id. The records are held sorted by key; every key occurs once.
#[derive(Debug)]
pub struct WorkStore {
    pub entries: Vec<Workflow>,
}

impl View for WorkStore {
    type V = Seq<WorkflowView>;

    open spec fn view(&self) -> Seq<WorkflowView> {
        self.entries@.map_values(|w: Workflow| w@)
    }
}

impl Clone for WorkStore {
    fn clone(&self) -> (r: Self)
        ensures
            r@ == self@,
    {
        let mut entries: Vec<Workflow> = Vec::new();
        let mut i: usize = 0;
        while i < self.entries.len()
            invariant
                i <= self.entries@.len(),
                entries@.len() == i,
                forall|k: int| 0 <= k < i ==> (#[trigger] entries@[k])@ == self.entries@[k]@,
            decreases self.entries@.len() - i,
        {
            entries.push(self.entries[i].clone());
            i += 1;
        }
        let r = WorkStore { entries };
        proof {
            assert(r@ =~= self@);
        }
        r
    }
}

impl WorkStore {
    /// An empty store.
    pub fn init() -> (r: WorkStore)
        ensures
            r@ == Seq::<WorkflowView>::empty(),
            store_inv(r@),
    {
        let r = WorkStore { entries: Vec::new() };
        proof {
            assert(r@ =~= Seq::<WorkflowView>::empty());
        }
        r
    }

    /// The id under which a record at a given position is stored.
    fn entry_key(&self, i: usize) -> (r: Vec<char>)
        requires
            i < self@.len(),
        ensures
            r@ == key_of(self@[i as int]),
    {
        let id = self.entries[i].id();
        str_to_chars(id.inner())
    }

    /// Store one record under its id: an existing record with the same id is
    /// replaced, any other record is kept.
    pub fn insert_one(&mut self, w: Workflow)
        requires
            store_inv(old(self)@),
        ensures
            store_inv(final(self)@),
            forall|k: Seq<char>|
                #[trigger] lookup(final(self)@, k) == (if k == key_of(w@) {
                    Some(w@)
                } else {
                    lookup(old(self)@, k)
                }),
    {
        let ghost s0 = self@;
        let wid = w.id();
        let wkey = str_to_chars(wid.inner());
        let n: usize = self.entries.len();
        let mut pos: usize = 0;
        while pos < n && chars_lt(&self.entry_key(pos), &wkey)
            invariant
                n == self@.len(),
                self@ == s0,
                wkey@ == key_of(w@),
                pos <= n,
                forall|j: int| 0 <= j < pos ==> lex_lt(key_of(#[trigger] s0[j]), wkey@),
            decreases n - pos,
        {
            pos += 1;
        }
        let replace: bool = pos < n && chars_eq(&self.entry_key(pos), &wkey);
        if replace {
            self.entries.remove(pos);
            self.entries.insert(pos, w);
            proof {
                assert(self@ =~= s0.update(pos as int, w@));
            }
        } else {
            self.entries.insert(pos, w);
            proof {
                assert(self@ =~= s0.subrange(0, pos as int).push(w@) + s0.subrange(
                    pos as int,
                    n as int,
                ));
            }
        }
        proof {
            let s1 = self@;
            // Sortedness of the result.
            assert(store_inv(s1)) by {
                if replace {
                    assert(forall|j: int| 0 <= j < pos ==> lex_lt(key_of(#[trigger] s0[j]), wkey@));
                    assert(forall|j: int|
                        pos < j < s0.len() ==> lex_lt(key_of(s0[pos as int]), key_of(
                            #[trigger] s0[j],
                        )));
                    assert(key_of(s0[pos as int]) == wkey@);
                    assert forall|i: int, j: int|
                        0 <= i < j < s1.len() implies lex_lt(
                        key_of(#[trigger] s1[i]),
                        key_of(#[trigger] s1[j]),
                    ) by {
                        if i == pos {
                            assert(s1[j] == s0[j]);
                        } else if j == pos {
                            assert(s1[i] == s0[i]);
                        } else {
                            assert(s1[i] == s0[i] && s1[j] == s0[j]);
                        }
                    }
                } else {
                    if pos < n {
                        assert(!lex_lt(key_of(s0[pos as int]), wkey@));
                        assert(key_of(s0[pos as int]) != wkey@);
                        lemma_lex_trichotomy(key_of(s0[pos as int]), wkey@);
                        assert(lex_lt(wkey@, key_of(s0[pos as int])));
                    }
                    assert forall|i: int, j: int|
                        0 <= i < j < s1.len() implies lex_lt(
                        key_of(#[trigger] s1[i]),
                        key_of(#[trigger] s1[j]),
                    ) by {
                        if i < pos && j < pos {
                            assert(s1[i] == s0[i] && s1[j] == s0[j]);
                        } else if i < pos && j == pos {
                            assert(s1[i] == s0[i] && s1[j] == w@);
                        } else if i < pos && j > pos {
                            assert(s1[i] == s0[i] && s1[j] == s0[j - 1]);
                        } else if i == pos && j > pos {
                            assert(s1[i] == w@ && s1[j] == s0[j - 1]);
                            assert(j - 1 >= pos);
                            if j - 1 == pos {
                                assert(lex_lt(wkey@, key_of(s0[pos as int])));
                            } else {
                                assert(lex_lt(wkey@, key_of(s0[pos as int])));
                                assert(lex_lt(key_of(s0[pos as int]), key_of(s0[j - 1])));
                                lemma_lex_trans(wkey@, key_of(s0[pos as int]), key_of(s0[j - 1]));
                            }
                        } else {
                            assert(i > pos && j > pos);
                            assert(s1[i] == s0[i - 1] && s1[j] == s0[j - 1]);
                        }
                    }
                }
            }
            // Lookup semantics of the result.
            assert forall|k: Seq<char>|
                #[trigger] lookup(s1, k) == (if k == key_of(w@) {
                    Some(w@)
                } else {
                    lookup(s0, k)
                }) by {
                if k == key_of(w@) {
                    assert(s1[pos as int] == w@);
                    lemma_lookup_at(s1, pos as int);
                } else {
                    lemma_lookup_char(s0, k);
                    lemma_lookup_char(s1, k);
                    match lookup(s0, k) {
                        Some(v) => {
                            let i = choose|i: int|
                                0 <= i < s0.len() && s0[i] == v && key_of(#[trigger] s0[i]) == k;
                            // The same record survives in the result.
                            if replace {
                                assert(i != pos);
                                assert(s1[i] == v);
                                lemma_lookup_at(s1, i);
                            } else {
                                if i < pos {
                                    assert(s1[i] == v);
                                    lemma_lookup_at(s1, i);
                                } else {
                                    assert(s1[i + 1] == v);
                                    lemma_lookup_at(s1, i + 1);
                                }
                            }
                        },
                        None => {
                            match lookup(s1, k) {
                                Some(v) => {
                                    let i = choose|i: int|
                                        0 <= i < s1.len() && s1[i] == v && key_of(
                                            #[trigger] s1[i],
                                        ) == k;
                                    if replace {
                                        assert(i != pos ==> s1[i] == s0[i]);
                                        assert(i == pos ==> s1[i] == w@);
                                        assert(false);
                                    } else {
                                        if i < pos {
                                            assert(s1[i] == s0[i]);
                                        } else if i == pos {
                                            assert(s1[i] == w@);
                                        } else {
                                            assert(s1[i] == s0[i - 1]);
                                        }
                                        assert(false);
                                    }
                                },
                                None => {},
                            }
                        },
                    }
                }
            }
        }
    }

    /// Atomic batch write: all records become visible together. Within one
    /// batch the later write under a key wins.
    pub fn insert_all(&mut self, data: Vec<Workflow>) -> (r: Result<(), Error>)
        requires
            store_inv(old(self)@),
        ensures
            r is Ok,
            store_inv(final(self)@),
            forall|k: Seq<char>|
                #[trigger] lookup(final(self)@, k) == (match batch_last(
                    data@.map_values(|w: Workflow| w@),
                    k,
                ) {
                    Some(w) => Some(w),
                    None => lookup(old(self)@, k),
                }),
    {
        let ghost s0 = self@;
        let ghost batch = data@.map_values(|w: Workflow| w@);
        let n: usize = data.len();
        let mut i: usize = 0;
        let mut data = data;
        proof {
            assert(batch.subrange(0, 0) =~= Seq::<WorkflowView>::empty());
        }
        while i < n
            invariant
                n == data@.len(),
                batch == data@.map_values(|w: Workflow| w@),
                i <= n,
                store_inv(self@),
                forall|k: Seq<char>|
                    #[trigger] lookup(self@, k) == (match batch_last(
                        batch.subrange(0, i as int),
                        k,
                    ) {
                        Some(w) => Some(w),
                        None => lookup(s0, k),
                    }),
            decreases n - i,
        {
            let w = data[i].clone();
            proof {
                assert(w@ == batch[i as int]);
            }
            self.insert_one(w);
            i += 1;
            proof {
                let pre = batch.subrange(0, i - 1);
                let now = batch.subrange(0, i as int);
                assert(now.last() == batch[i - 1]);
                assert(now.drop_last() =~= pre);
                assert forall|k: Seq<char>|
                    #[trigger] lookup(self@, k) == (match batch_last(now, k) {
                        Some(w2) => Some(w2),
                        None => lookup(s0, k),
                    }) by {
                    if k == key_of(batch[i - 1]) {
                        assert(batch_last(now, k) == Some(batch[i - 1]));
                    } else {
                        assert(batch_last(now, k) == batch_last(pre, k));
                    }
                }
            }
        }
        proof {
            assert(batch.subrange(0, n as int) =~= batch);
        }
        Ok(())
    }

    /// Point lookup: the record stored under `key`, or nothing.
    pub fn get(&self, key: &str) -> (r: Result<Option<Workflow>, Error>)
        requires
            store_inv(self@),
        ensures
            (match r {
                Ok(Some(w)) => lookup(self@, key@) == Some(w@),
                Ok(None) => lookup(self@, key@) is None,
                Err(_) => false,
            }),
    {
        let kc = str_to_chars(key);
        let n: usize = self.entries.len();
        let mut i: usize = 0;
        while i < n
            invariant
                n == self@.len(),
                kc@ == key@,
                i <= n,
                forall|j: int| 0 <= j < i ==> key_of(#[trigger] self@[j]) != key@,
                store_inv(self@),
            decreases n - i,
        {
            if chars_eq(&self.entry_key(i), &kc) {
                let w = self.entries[i].clone();
                proof {
                    lemma_lookup_at(self@, i as int);
                }
                return Ok(Some(w));
            }
            i += 1;
        }
        proof {
            lemma_lookup_char(self@, key@);
            if lookup(self@, key@) is Some {
                let j = choose|j: int|
                    0 <= j < self@.len() && self@[j] == lookup(self@, key@).unwrap() && key_of(
                        #[trigger] self@[j],
                    ) == key@;
                assert(false);
            }
        }
        Ok(None)
    }

    /// Full scan, in the store's key order.
    pub fn get_all(&self) -> (r: Result<Vec<Workflow>, Error>)
        ensures
            (match r {
                Ok(ws) => ws@.map_values(|w: Workflow| w@) == self@,
                Err(_) => false,
            }),
    {
        let mut out: Vec<Workflow> = Vec::new();
        let mut i: usize = 0;
        while i < self.entries.len()
            invariant
                i <= self.entries@.len(),
                out@.len() == i,
                forall|k: int| 0 <= k < i ==> (#[trigger] out@[k])@ == self.entries@[k]@,
            decreases self.entries@.len() - i,
        {
            out.push(self.entries[i].clone());
            i += 1;
        }
        proof {
            assert(out@.map_values(|w: Workflow| w@) =~= self@);
        }
        Ok(out)
    }

    /// Scan all records whose key is at or after `key`, in key order.
    pub fn iterate_from(&self, key: &str) -> (r: Result<Vec<Workflow>, Error>)
        requires
            store_inv(self@),
        ensures
            (match r {
                Ok(ws) => exists|i: int|
                    0 <= i <= self@.len() && ws@.map_values(|w: Workflow| w@) == self@.subrange(
                        i,
                        self@.len() as int,
                    ) && (forall|j: int| 0 <= j < i ==> lex_lt(key_of(#[trigger] self@[j]), key@))
                        && (forall|j: int|
                        i <= j < self@.len() ==> !lex_lt(key_of(#[trigger] self@[j]), key@)),
                Err(_) => false,
            }),
    {
        let kc = str_to_chars(key);
        let n: usize = self.entries.len();
        let mut start: usize = 0;
        while start < n && chars_lt(&self.entry_key(start), &kc)
            invariant
                n == self@.len(),
                kc@ == key@,
                start <= n,
                store_inv(self@),
                forall|j: int| 0 <= j < start ==> lex_lt(key_of(#[trigger] self@[j]), key@),
            decreases n - start,
        {
            start += 1;
        }
        let mut out: Vec<Workflow> = Vec::new();
        let mut i: usize = start;
        while i < n
            invariant
                start <= i <= n,
                n == self.entries@.len(),
                out@.len() == i - start,
                forall|k: int|
                    0 <= k < out@.len() ==> (#[trigger] out@[k])@ == self.entries@[start + k]@,
            decreases n - i,
        {
            out.push(self.entries[i].clone());
            i += 1;
        }
        proof {
            assert(out@.map_values(|w: Workflow| w@) =~= self@.subrange(
                start as int,
                self@.len() as int,
            ));
            assert forall|j: int|
                start <= j < self@.len() implies !lex_lt(key_of(#[trigger] self@[j]), key@) by {
                if j == start {
                } else {
                    assert(lex_lt(key_of(self@[start as int]), key_of(self@[j])));
                    if lex_lt(key_of(self@[j]), key@) {
                        lemma_lex_trans(key_of(self@[start as int]), key_of(self@[j]), key@);
                    }
                }
            }
        }
        Ok(out)
    }

    /// Remove the record under `key`; removing an absent key changes nothing.
    pub fn delete(&mut self, key: &str) -> (r: Result<(), Error>)
        requires
            store_inv(old(self)@),
        ensures
            r is Ok,
            store_inv(final(self)@),
            forall|k: Seq<char>|
                #[trigger] lookup(final(self)@, k) == (if k == key@ {
                    None::<WorkflowView>
                } else {
                    lookup(old(self)@, k)
                }),
    {
        let ghost s0 = self@;
        let kc = str_to_chars(key);
        let n: usize = self.entries.len();
        let mut i: usize = 0;
        while i < n
            invariant
                n == self@.len(),
                self@ == s0,
                s0 == old(self)@,
                kc@ == key@,
                i <= n,
                forall|j: int| 0 <= j < i ==> key_of(#[trigger] self@[j]) != key@,
                store_inv(self@),
            decreases n - i,
        {
            if chars_eq(&self.entry_key(i), &kc) {
                self.entries.remove(i);
                proof {
                    let s1 = self@;
                    assert(s1 =~= s0.subrange(0, i as int) + s0.subrange(i + 1, n as int));
                    assert forall|a: int, b: int|
                        0 <= a < b < s1.len() implies lex_lt(
                        key_of(#[trigger] s1[a]),
                        key_of(#[trigger] s1[b]),
                    ) by {
                        let a0 = if a < i { a } else { a + 1 };
                        let b0 = if b < i { b } else { b + 1 };
                        assert(s1[a] == s0[a0] && s1[b] == s0[b0]);
                    }
                    assert forall|k: Seq<char>|
                        #[trigger] lookup(s1, k) == (if k == key@ {
                            None::<WorkflowView>
                        } else {
                            lookup(s0, k)
                        }) by {
                        lemma_lookup_char(s1, k);
                        lemma_lookup_char(s0, k);
                        if k == key@ {
                            match lookup(s1, k) {
                                Some(v) => {
                                    let j = choose|j: int|
                                        0 <= j < s1.len() && s1[j] == v && key_of(
                                            #[trigger] s1[j],
                                        ) == k;
                                    let j0 = if j < i { j } else { j + 1 };
                                    assert(s1[j] == s0[j0]);
                                    assert(key_of(s0[i as int]) == key@);
                                    assert(j0 != i);
                                    if j0 < i {
                                        assert(lex_lt(key_of(s0[j0]), key_of(s0[i as int])));
                                        crate::text::lemma_lex_irrefl(key@);
                                    } else {
                                        assert(lex_lt(key_of(s0[i as int]), key_of(s0[j0])));
                                        crate::text::lemma_lex_irrefl(key@);
                                    }
                                },
                                None => {},
                            }
                        } else {
                            match lookup(s0, k) {
                                Some(v) => {
                                    let j = choose|j: int|
                                        0 <= j < s0.len() && s0[j] == v && key_of(
                                            #[trigger] s0[j],
                                        ) == k;
                                    assert(j != i);
                                    if j < i {
                                        assert(s1[j] == v);
                                        lemma_lookup_at(s1, j);
                                    } else {
                                        assert(s1[j - 1] == v);
                                        lemma_lookup_at(s1, j - 1);
                                    }
                                },
                                None => {
                                    match lookup(s1, k) {
                                        Some(v) => {
                                            let j = choose|j: int|
                                                0 <= j < s1.len() && s1[j] == v && key_of(
                                                    #[trigger] s1[j],
                                                ) == k;
                                            let j0 = if j < i { j } else { j + 1 };
                                            assert(s1[j] == s0[j0]);
                                            assert(false);
                                        },
                                        None => {},
                                    }
                                },
                            }
                        }
                    }
                }
                return Ok(());
            }
            i += 1;
        }
        proof {
            lemma_lookup_char(self@, key@);
            if lookup(self@, key@) is Some {
                let j = choose|j: int|
                    0 <= j < self@.len() && self@[j] == lookup(self@, key@).unwrap() && key_of(
                        #[trigger] self@[j],
                    ) == key@;
                assert(false);
            }
            assert(forall|k: Seq<char>|
                #[trigger] lookup(self@, k) == lookup(s0, k));
        }
        Ok(())
    }

    /// Remove every record; safe on an empty store.
    pub fn delete_all(&mut self) -> (r: Result<(), Error>)
        ensures
            r is Ok,
            final(self)@ == Seq::<WorkflowView>::empty(),
            store_inv(final(self)@),
    {
        self.entries.clear();
        proof {
            assert(self@ =~= Seq::<WorkflowView>::empty());
        }
        Ok(())
    }
}


/// What a batch leaves under a key is its last record with that key; where
/// it leaves nothing, no record of the batch has the key.
pub proof fn lemma_batch_last_char(s: Seq<WorkflowView>, k: Seq<char>)
    ensures
        (match batch_last(s, k) {
            Some(w) => exists|i: int|
                0 <= i < s.len() && s[i] == w && key_of(#[trigger] s[i]) == k && (forall|j: int|
                    i < j < s.len() ==> key_of(#[trigger] s[j]) != k),
            None => forall|i: int| 0 <= i < s.len() ==> key_of(#[trigger] s[i]) != k,
        }),
    decreases s.len(),
{
    if s.len() > 0 && key_of(s.last()) != k {
        lemma_batch_last_char(s.drop_last(), k);
        match batch_last(s.drop_last(), k) {
            Some(w) => {
                let i = choose|i: int|
                    0 <= i < s.drop_last().len() && s.drop_last()[i] == w && key_of(
                        #[trigger] s.drop_last()[i],
                    ) == k && (forall|j: int|
                        i < j < s.drop_last().len() ==> key_of(#[trigger] s.drop_last()[j]) != k);
                assert(s[i] == w);
                assert(forall|j: int|
                    i < j < s.len() - 1 ==> #[trigger] s[j] == s.drop_last()[j]);
            },
            None => {
                assert(forall|i: int|
                    0 <= i < s.len() - 1 ==> #[trigger] s[i] == s.drop_last()[i]);
            },
        }
    } else if s.len() > 0 {
        assert(s[s.len() - 1] == s.last());
    }
}

/// Store round trip: a batch leaves each of its records under that record's
/// id, provided no later record of the batch reuses the id; with the batch
/// insert's contract, getting that id then returns a record with the same
/// name, command and id.
pub proof fn lemma_store_round_trip(batch: Seq<WorkflowView>, i: int)
    requires
        0 <= i < batch.len(),
        forall|j: int| i < j < batch.len() ==> key_of(#[trigger] batch[j]) != key_of(batch[i]),
    ensures
        batch_last(batch, key_of(batch[i])) == Some(batch[i]),
    decreases batch.len(),
{
    if i == batch.len() - 1 {
        assert(batch.last() == batch[i]);
    } else {
        assert(batch.last() == batch[batch.len() - 1]);
        assert(key_of(batch.last()) != key_of(batch[i]));
        assert(batch.drop_last()[i] == batch[i]);
        assert(forall|j: int|
            i < j < batch.drop_last().len() ==> #[trigger] batch.drop_last()[j] == batch[j]);
        lemma_store_round_trip(batch.drop_last(), i);
    }
}

} // verus!\n