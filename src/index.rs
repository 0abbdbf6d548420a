use vstd::prelude::*;

verus! {

/// Every element is smaller than the next: sorted and free of duplicates.
pub open spec fn strictly_sorted(s: Seq<u64>) -> bool {
    forall|i: int, j: int| 0 <= i < j < s.len() ==> s[i] < s[j]
}

/// Appending `v` to `s` adds exactly `v` to what `s` contains.
pub proof fn lemma_push_contains(s: Seq<u64>, v: u64, x: u64)
    ensures
        s.push(v).contains(x) <==> (s.contains(x) || x == v),
{
    if s.push(v).contains(x) {
        let k = choose|k: int| 0 <= k < s.push(v).len() && s.push(v)[k] == x;
        if k < s.len() {
            assert(s[k] == x);
        }
    }
    if s.contains(x) {
        let k = choose|k: int| 0 <= k < s.len() && s[k] == x;
        assert(s.push(v)[k] == x);
    }
    if x == v {
        assert(s.push(v)[s.len() as int] == v);
    }
}

/// The postings of one term: the term and the sorted identifiers of the
/// documents that hold it.
pub struct TermEntry {
    pub term: String,
    pub docs: Vec<u64>,
}

pub open spec fn entry_has(e: TermEntry, t: Seq<char>, d: u64) -> bool {
    e.term@ == t && e.docs@.contains(d)
}

/// Whether some entry of `s` records document `d` under term `t`.
pub open spec fn seq_has(s: Seq<TermEntry>, t: Seq<char>, d: u64) -> bool {
    exists|i: int| 0 <= i < s.len() && entry_has(#[trigger] s[i], t, d)
}

/// Taking one more entry of a sequence adds exactly what that entry records.
pub proof fn lemma_seq_has_extend(s: Seq<TermEntry>, k: int, t: Seq<char>, d: u64)
    requires
        0 <= k < s.len(),
    ensures
        seq_has(s.subrange(0, k + 1), t, d) <==> (seq_has(s.subrange(0, k), t, d) || entry_has(
            s[k],
            t,
            d,
        )),
{
    let a = s.subrange(0, k);
    let b = s.subrange(0, k + 1);
    if seq_has(b, t, d) {
        let i = choose|i: int| 0 <= i < b.len() && entry_has(#[trigger] b[i], t, d);
        if i < k {
            assert(entry_has(a[i], t, d));
        }
    }
    if seq_has(a, t, d) {
        let i = choose|i: int| 0 <= i < a.len() && entry_has(#[trigger] a[i], t, d);
        assert(entry_has(b[i], t, d));
    }
    if entry_has(s[k], t, d) {
        assert(entry_has(b[k], t, d));
    }
}

/// An inverted index held in memory: for each term, the documents that hold it.
pub struct InMemoryIndex {
    pub entries: Vec<TermEntry>,
}

/// Union of two strictly sorted posting lists, strictly sorted again.
pub fn union_sorted(a: &Vec<u64>, b: &Vec<u64>) -> (r: Vec<u64>)
    requires
        strictly_sorted(a@),
        strictly_sorted(b@),
    ensures
        strictly_sorted(r@),
        forall|x: u64| #[trigger] r@.contains(x) <==> (a@.contains(x) || b@.contains(x)),
        r@.len() >= a@.len(),
        r@.len() >= b@.len(),
{
    let mut r: Vec<u64> = Vec::new();
    let mut i: usize = 0;
    let mut j: usize = 0;
    while i < a.len() || j < b.len()
        invariant
            i <= a.len(),
            j <= b.len(),
            strictly_sorted(a@),
            strictly_sorted(b@),
            strictly_sorted(r@),
            r@.len() >= i,
            r@.len() >= j,
            forall|x: u64|
                #[trigger] r@.contains(x) <==> (a@.subrange(0, i as int).contains(x) || b@.subrange(
                    0,
                    j as int,
                ).contains(x)),
            forall|k: int|
                0 <= k < r@.len() ==> (i < a@.len() ==> #[trigger] r@[k] < a@[i as int]) && (j
                    < b@.len() ==> r@[k] < b@[j as int]),
        decreases a.len() + b.len() - i - j,
    {
        let ghost old_r = r@;
        let ghost ai = a@.subrange(0, i as int);
        let ghost bj = b@.subrange(0, j as int);
        let v: u64;
        if j >= b.len() || (i < a.len() && a[i] < b[j]) {
            v = a[i];
            i = i + 1;
        } else if i >= a.len() || b[j] < a[i] {
            v = b[j];
            j = j + 1;
        } else {
            v = a[i];
            i = i + 1;
            j = j + 1;
        }
        r.push(v);
        proof {
            let ai2 = a@.subrange(0, i as int);
            let bj2 = b@.subrange(0, j as int);
            assert forall|x: u64| #[trigger] r@.contains(x) <==> (ai2.contains(x) || bj2.contains(x)) by {
                lemma_push_contains(old_r, v, x);
                if ai2.len() > ai.len() {
                    assert(ai2 == ai.push(v));
                    lemma_push_contains(ai, v, x);
                } else {
                    assert(ai2 == ai);
                }
                if bj2.len() > bj.len() {
                    assert(bj2 == bj.push(v));
                    lemma_push_contains(bj, v, x);
                } else {
                    assert(bj2 == bj);
                }
            }
            assert forall|k: int| 0 <= k < r@.len() implies (i < a@.len() ==> #[trigger] r@[k] < a@[i as int]) && (j
                    < b@.len() ==> r@[k] < b@[j as int]) by {
                if k < old_r.len() {
                    assert(r@[k] == old_r[k]);
                }
            }
        }
    }
    assert(a@.subrange(0, a@.len() as int) == a@);
    assert(b@.subrange(0, b@.len() as int) == b@);
    r
}

impl View for InMemoryIndex {
    type V = Set<(Seq<char>, u64)>;

    /// The (term, document) pairs that the index records.
    open spec fn view(&self) -> Set<(Seq<char>, u64)> {
        Set::new(|p: (Seq<char>, u64)| self.has(p.0, p.1))
    }
}

impl InMemoryIndex {
    /// Whether document `d` is recorded under term `t`.
    pub open spec fn has(&self, t: Seq<char>, d: u64) -> bool {
        seq_has(self.entries@, t, d)
    }

    /// Terms are distinct, and each term's postings are non-empty and
    /// strictly sorted by document identifier.
    pub open spec fn wf(&self) -> bool {
        &&& forall|i: int, j: int|
            0 <= i < j < self.entries@.len() ==> self.entries@[i].term@ != self.entries@[j].term@
        &&& forall|i: int|
            0 <= i < self.entries@.len() ==> strictly_sorted(#[trigger] self.entries@[i].docs@)
                && self.entries@[i].docs@.len() > 0
    }

    /// An index with no postings.
    pub fn new() -> (r: InMemoryIndex)
        ensures
            r.wf(),
            r@ == Set::<(Seq<char>, u64)>::empty(),
    {
        let r = InMemoryIndex { entries: Vec::new() };
        assert(r@ =~= Set::<(Seq<char>, u64)>::empty());
        r
    }

    /// Position of the entry for `term`, if there is one.
    pub fn find_term(&self, term: &String) -> (r: Option<usize>)
        ensures
            match r {
                Some(i) => i < self.entries@.len() && self.entries@[i as int].term@ == term@,
                None => forall|i: int|
                    0 <= i < self.entries@.len() ==> #[trigger] self.entries@[i].term@ != term@,
            },
    {
        let mut i: usize = 0;
        while i < self.entries.len()
            invariant
                i <= self.entries@.len(),
                forall|k: int| 0 <= k < i ==> #[trigger] self.entries@[k].term@ != term@,
            decreases self.entries@.len() - i,
        {
            if self.entries[i].term.eq(term) {
                return Some(i);
            }
            i = i + 1;
        }
        None
    }

    /// Records every document of the strictly sorted list `docs` under `term`.
    pub fn add_postings(&mut self, term: &String, docs: &Vec<u64>)
        requires
            old(self).wf(),
            strictly_sorted(docs@),
            docs@.len() > 0,
        ensures
            final(self).wf(),
            forall|t: Seq<char>, d: u64|
                #[trigger] final(self).has(t, d) <==> (old(self).has(t, d) || (t == term@
                    && docs@.contains(d))),
    {
        match self.find_term(term) {
            Some(i) => {
                let merged = union_sorted(&self.entries[i].docs, docs);
                let ghost old_entries = self.entries@;
                self.entries.set(i, TermEntry { term: term.clone(), docs: merged });
                proof {
                    assert forall|t: Seq<char>, d: u64|
                        #[trigger] self.has(t, d) <==> (old(self).has(t, d) || (t == term@
                            && docs@.contains(d))) by {
                        if self.has(t, d) {
                            let k = choose|k: int|
                                0 <= k < self.entries@.len() && entry_has(
                                    #[trigger] self.entries@[k],
                                    t,
                                    d,
                                );
                            if k != i {
                                assert(entry_has(old_entries[k], t, d));
                            } else if !docs@.contains(d) {
                                assert(entry_has(old_entries[k], t, d));
                            }
                        }
                        if old(self).has(t, d) {
                            let k = choose|k: int|
                                0 <= k < old_entries.len() && entry_has(
                                    #[trigger] old_entries[k],
                                    t,
                                    d,
                                );
                            assert(entry_has(self.entries@[k], t, d));
                        }
                        if t == term@ && docs@.contains(d) {
                            assert(entry_has(self.entries@[i as int], t, d));
                        }
                    }
                }
            },
            None => {
                let ghost old_entries = self.entries@;
                self.entries.push(TermEntry { term: term.clone(), docs: docs.clone() });
                proof {
                    assert forall|t: Seq<char>, d: u64|
                        #[trigger] self.has(t, d) <==> (old(self).has(t, d) || (t == term@
                            && docs@.contains(d))) by {
                        if self.has(t, d) {
                            let k = choose|k: int|
                                0 <= k < self.entries@.len() && entry_has(
                                    #[trigger] self.entries@[k],
                                    t,
                                    d,
                                );
                            if k < old_entries.len() {
                                assert(entry_has(old_entries[k], t, d));
                            }
                        }
                        if old(self).has(t, d) {
                            let k = choose|k: int|
                                0 <= k < old_entries.len() && entry_has(
                                    #[trigger] old_entries[k],
                                    t,
                                    d,
                                );
                            assert(entry_has(self.entries@[k], t, d));
                        }
                        if t == term@ && docs@.contains(d) {
                            assert(entry_has(self.entries@[old_entries.len() as int], t, d));
                        }
                    }
                }
            },
        }
    }

    /// Records document `doc` under `term`.
    pub fn insert(&mut self, term: &String, doc: u64)
        requires
            old(self).wf(),
        ensures
            final(self).wf(),
            final(self)@ == old(self)@.insert((term@, doc)),
    {
        let one: Vec<u64> = vec![doc];
        assert(one@[0] == doc);
        assert(one@.contains(doc));
        self.add_postings(term, &one);
        proof {
            assert forall|d: u64| one@.contains(d) implies d == doc by {
                let k = choose|k: int| 0 <= k < one@.len() && one@[k] == d;
            }
            assert(self@ =~= old(self)@.insert((term@, doc)));
        }
    }

    /// Adds every posting of `other` to this index: the result records the
    /// union of the two.
    pub fn merge(&mut self, other: &InMemoryIndex)
        requires
            old(self).wf(),
            other.wf(),
        ensures
            final(self).wf(),
            final(self)@ == old(self)@ + other@,
    {
        let mut k: usize = 0;
        while k < other.entries.len()
            invariant
                self.wf(),
                other.wf(),
                k <= other.entries@.len(),
                forall|t: Seq<char>, d: u64|
                    #[trigger] self.has(t, d) <==> (old(self).has(t, d) || seq_has(
                        other.entries@.subrange(0, k as int),
                        t,
                        d,
                    )),
            decreases other.entries@.len() - k,
        {
            let e = &other.entries[k];
            self.add_postings(&e.term, &e.docs);
            proof {
                assert forall|t: Seq<char>, d: u64|
                    #[trigger] self.has(t, d) <==> (old(self).has(t, d) || seq_has(
                        other.entries@.subrange(0, k + 1),
                        t,
                        d,
                    )) by {
                    lemma_seq_has_extend(other.entries@, k as int, t, d);
                }
            }
            k = k + 1;
        }
        assert(other.entries@.subrange(0, k as int) == other.entries@);
        assert(self@ =~= old(self)@ + other@);
    }

    /// The sorted documents recorded under `term`; empty for an unknown term.
    pub fn postings(&self, term: &String) -> (r: Vec<u64>)
        requires
            self.wf(),
        ensures
            strictly_sorted(r@),
            forall|d: u64| #[trigger] r@.contains(d) <==> self@.contains((term@, d)),
    {
        match self.find_term(term) {
            Some(i) => {
                let r = self.entries[i].docs.clone();
                proof {
                    assert forall|d: u64| #[trigger] r@.contains(d) <==> self.has(term@, d) by {
                        if self.has(term@, d) {
                            let k = choose|k: int|
                                0 <= k < self.entries@.len() && entry_has(
                                    #[trigger] self.entries@[k],
                                    term@,
                                    d,
                                );
                            assert(k == i);
                        }
                        if r@.contains(d) {
                            assert(entry_has(self.entries@[i as int], term@, d));
                        }
                    }
                }
                r
            },
            None => {
                let r: Vec<u64> = Vec::new();
                proof {
                    assert forall|d: u64| #[trigger] r@.contains(d) <==> self.has(term@, d) by {
                        if self.has(term@, d) {
                            let k = choose|k: int|
                                0 <= k < self.entries@.len() && entry_has(
                                    #[trigger] self.entries@[k],
                                    term@,
                                    d,
                                );
                        }
                    }
                }
                r
            },
        }
    }

    /// Number of distinct terms; the size by which a running index is flushed.
    pub fn term_count(&self) -> (r: usize)
        ensures
            r == self.entries@.len(),
    {
        self.entries.len()
    }

    /// Whether the index records no posting at all.
    pub fn is_empty(&self) -> (r: bool)
        requires
            self.wf(),
        ensures
            r <==> self@ == Set::<(Seq<char>, u64)>::empty(),
    {
        if self.entries.len() == 0 {
            assert(self@ =~= Set::<(Seq<char>, u64)>::empty());
            true
        } else {
            let ghost e = self.entries@[0];
            assert(entry_has(e, e.term@, e.docs@[0]));
            assert(self@.contains((e.term@, e.docs@[0])));
            false
        }
    }
}

/// Merging unions the recorded pairs, so neither the grouping nor the order
/// of merges changes the result.
pub proof fn lemma_merge_order_irrelevant(a: InMemoryIndex, b: InMemoryIndex, c: InMemoryIndex)
    ensures
        (a@ + b@) + c@ == a@ + (b@ + c@),
        a@ + b@ == b@ + a@,
        (a@ + b@) + c@ == (c@ + b@) + a@,
        (a@ + b@) + c@ == (a@ + c@) + b@,
{
    assert((a@ + b@) + c@ =~= a@ + (b@ + c@));
    assert(a@ + b@ =~= b@ + a@);
    assert((a@ + b@) + c@ =~= (c@ + b@) + a@);
    assert((a@ + b@) + c@ =~= (a@ + c@) + b@);
}

/// Two strictly sorted posting lists with the same documents are the same
/// list: indexes that record the same pairs give the same postings per term.
pub proof fn lemma_sorted_unique(s1: Seq<u64>, s2: Seq<u64>)
    requires
        strictly_sorted(s1),
        strictly_sorted(s2),
        forall|x: u64| #[trigger] s1.contains(x) <==> s2.contains(x),
    ensures
        s1 == s2,
    decreases s1.len(),
{
    if s1.len() == 0 {
        if s2.len() > 0 {
            assert(s2.contains(s2[0]));
            assert(s1.contains(s2[0]));
        }
        assert(s1 =~= s2);
    } else {
        assert(s1.contains(s1[0]));
        if s2.len() == 0 {
            assert(false);
        }
        assert(s2.contains(s2[0]));
        assert(s1.contains(s2[0]));
        let j = choose|j: int| 0 <= j < s2.len() && s2[j] == s1[0];
        let i = choose|i: int| 0 <= i < s1.len() && s1[i] == s2[0];
        assert(s1[0] == s2[0]);
        let t1 = s1.drop_first();
        let t2 = s2.drop_first();
        assert forall|x: u64| #[trigger] t1.contains(x) <==> t2.contains(x) by {
            if t1.contains(x) {
                let a = choose|a: int| 0 <= a < t1.len() && t1[a] == x;
                assert(s1[a + 1] == x);
                assert(s1.contains(x));
                let b = choose|b: int| 0 <= b < s2.len() && s2[b] == x;
                assert(b != 0);
                assert(t2[b - 1] == x);
            }
            if t2.contains(x) {
                let a = choose|a: int| 0 <= a < t2.len() && t2[a] == x;
                assert(s2[a + 1] == x);
                assert(s2.contains(x));
                assert(s1.contains(x));
                let b = choose|b: int| 0 <= b < s1.len() && s1[b] == x;
                assert(b != 0);
                assert(t1[b - 1] == x);
            }
        }
        lemma_sorted_unique(t1, t2);
        assert(s1.len() == s2.len());
        assert forall|k: int| 0 <= k < s1.len() implies s1[k] == s2[k] by {
            if k > 0 {
                assert(s1[k] == t1[k - 1]);
                assert(s2[k] == t2[k - 1]);
            }
        }
        assert(s1 =~= s2);
    }
}

/// A well-formed index holds no term twice and no document twice under a term.
pub proof fn lemma_no_duplicate_postings(idx: InMemoryIndex, e: int, j: int, k: int)
    requires
        idx.wf(),
        0 <= e < idx.entries@.len(),
        0 <= j < k < idx.entries@[e].docs@.len(),
    ensures
        idx.entries@[e].docs@[j] != idx.entries@[e].docs@[k],
        forall|f: int| 0 <= f < idx.entries@.len() && f != e ==> idx.entries@[f].term@ != idx.entries@[e].term@,
{
    assert(strictly_sorted(idx.entries@[e].docs@));
}

} // verus!
