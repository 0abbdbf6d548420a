use crate::index::InMemoryIndex;
use crate::tokenize::{lowercase, tokenize, words};
use vstd::prelude::*;

verus! {

/// The (term, document) pairs of one document `doc` whose terms are `terms`.
pub open spec fn doc_pairs(terms: Seq<String>, doc: u64) -> Set<(Seq<char>, u64)> {
    Set::new(
        |p: (Seq<char>, u64)|
            p.1 == doc && exists|k: int| 0 <= k < terms.len() && #[trigger] terms[k]@ == p.0,
    )
}

/// The (term, document) pairs of a corpus, document `k` having identifier `k`.
pub open spec fn corpus_pairs(docs: Seq<Vec<String>>) -> Set<(Seq<char>, u64)> {
    Set::new(
        |p: (Seq<char>, u64)|
            p.1 < docs.len() && doc_pairs(docs[p.1 as int]@, p.1).contains(p),
    )
}

/// The (term, document) pairs of the first `n` read results, counting the
/// documents that were read; `None` stands for a document that could not be read.
pub open spec fn read_pairs(reads: Seq<Option<Vec<String>>>, n: int) -> Set<(Seq<char>, u64)> {
    Set::new(
        |p: (Seq<char>, u64)|
            p.1 < n && p.1 < reads.len() && reads[p.1 as int] is Some && doc_pairs(
                reads[p.1 as int]->0@,
                p.1,
            ).contains(p),
    )
}

/// The union of the views of a sequence of indexes.
pub open spec fn union_all(s: Seq<InMemoryIndex>) -> Set<(Seq<char>, u64)>
    decreases s.len(),
{
    if s.len() == 0 {
        Set::empty()
    } else {
        union_all(s.drop_last()) + s.last()@
    }
}

/// The index of one document: each of its terms, recorded under `doc`.
pub fn index_document(doc: u64, terms: &Vec<String>) -> (r: InMemoryIndex)
    ensures
        r.wf(),
        r@ == doc_pairs(terms@, doc),
{
    let mut idx = InMemoryIndex::new();
    let mut i: usize = 0;
    while i < terms.len()
        invariant
            idx.wf(),
            i <= terms@.len(),
            idx@ == doc_pairs(terms@.subrange(0, i as int), doc),
        decreases terms@.len() - i,
    {
        idx.insert(&terms[i], doc);
        proof {
            let a = terms@.subrange(0, i as int);
            let b = terms@.subrange(0, i + 1);
            assert forall|p: (Seq<char>, u64)| #[trigger] doc_pairs(b, doc).contains(p) <==> doc_pairs(
                a,
                doc,
            ).insert((terms@[i as int]@, doc)).contains(p) by {
                if doc_pairs(b, doc).contains(p) {
                    let k = choose|k: int| 0 <= k < b.len() && #[trigger] b[k]@ == p.0;
                    if k < i {
                        assert(a[k]@ == p.0);
                    }
                }
                if doc_pairs(a, doc).contains(p) {
                    let k = choose|k: int| 0 <= k < a.len() && #[trigger] a[k]@ == p.0;
                    assert(b[k]@ == p.0);
                }
                if p == (terms@[i as int]@, doc) {
                    assert(b[i as int]@ == p.0);
                }
            }
            assert(doc_pairs(b, doc) =~= doc_pairs(a, doc).insert((terms@[i as int]@, doc)));
        }
        i = i + 1;
    }
    assert(terms@.subrange(0, terms@.len() as int) == terms@);
    idx
}

/// The index of one document's text: each word of its lowercase form,
/// recorded under `doc`.
pub fn index_text(doc: u64, text: &str) -> (r: InMemoryIndex)
    ensures
        r.wf(),
        r@ == Set::new(
            |p: (Seq<char>, u64)| p.1 == doc && words(lowercase(text@)).contains(p.0),
        ),
{
    let terms = tokenize(text);
    let r = index_document(doc, &terms);
    proof {
        let ws = words(lowercase(text@));
        assert forall|p: (Seq<char>, u64)| #[trigger] r@.contains(p) <==> (p.1 == doc && ws.contains(p.0)) by {
            if r@.contains(p) {
                let k = choose|k: int| 0 <= k < terms@.len() && #[trigger] terms@[k]@ == p.0;
                assert(ws[k] == p.0);
            }
            if p.1 == doc && ws.contains(p.0) {
                let k = choose|k: int| 0 <= k < ws.len() && ws[k] == p.0;
                assert(terms@[k]@ == p.0);
                assert(doc_pairs(terms@, doc).contains(p));
            }
        }
        assert(r@ =~= Set::new(
            |p: (Seq<char>, u64)| p.1 == doc && words(lowercase(text@)).contains(p.0),
        ));
    }
    r
}

/// Accumulates document indexes and hands out the accumulator as a segment
/// once its size, the number of distinct terms, exceeds `flush_threshold`.
/// A segment handed out is never empty.
pub struct Merger {
    pub acc: InMemoryIndex,
    pub flush_threshold: usize,
    /// Every pair taken in so far.
    pub consumed: Ghost<Set<(Seq<char>, u64)>>,
    /// Every pair handed out so far, in segments.
    pub emitted: Ghost<Set<(Seq<char>, u64)>>,
}

impl Merger {
    /// Nothing is lost: what was taken in was handed out or is still held.
    pub open spec fn wf(&self) -> bool {
        &&& self.acc.wf()
        &&& self.acc@ + self.emitted@ == self.consumed@
    }

    /// A merger with an empty accumulator that has taken in nothing yet.
    pub fn new(flush_threshold: usize) -> (r: Merger)
        ensures
            r.wf(),
            r.flush_threshold == flush_threshold,
            r.acc@ == Set::<(Seq<char>, u64)>::empty(),
            r.consumed@ == Set::<(Seq<char>, u64)>::empty(),
            r.emitted@ == Set::<(Seq<char>, u64)>::empty(),
    {
        let r = Merger {
            acc: InMemoryIndex::new(),
            flush_threshold,
            consumed: Ghost(Set::empty()),
            emitted: Ghost(Set::empty()),
        };
        assert(r.acc@ + r.emitted@ =~= r.consumed@);
        r
    }

    /// Unions `doc_index` into the accumulator; returns the accumulator as a
    /// segment, and starts a fresh one, when it holds more than
    /// `flush_threshold` terms.
    pub fn push(&mut self, doc_index: &InMemoryIndex) -> (r: Option<InMemoryIndex>)
        requires
            old(self).wf(),
            doc_index.wf(),
        ensures
            final(self).wf(),
            final(self).flush_threshold == old(self).flush_threshold,
            final(self).consumed@ == old(self).consumed@ + doc_index@,
            match r {
                Some(seg) => {
                    &&& seg.wf()
                    &&& seg@ == old(self).acc@ + doc_index@
                    &&& seg@ != Set::<(Seq<char>, u64)>::empty()
                    &&& seg.entries@.len() > old(self).flush_threshold
                    &&& final(self).acc@ == Set::<(Seq<char>, u64)>::empty()
                    &&& final(self).emitted@ == old(self).emitted@ + seg@
                },
                None => {
                    &&& final(self).acc@ == old(self).acc@ + doc_index@
                    &&& final(self).acc.entries@.len() <= old(self).flush_threshold
                    &&& final(self).emitted@ == old(self).emitted@
                },
            },
    {
        self.acc.merge(doc_index);
        self.consumed = Ghost(self.consumed@ + doc_index@);
        assert(self.acc@ + self.emitted@ =~= self.consumed@);
        if self.acc.term_count() > self.flush_threshold {
            proof {
                let e = self.acc.entries@[0];
                assert(crate::index::entry_has(e, e.term@, e.docs@[0]));
                assert(self.acc@.contains((e.term@, e.docs@[0])));
            }
            let mut seg = InMemoryIndex::new();
            core::mem::swap(&mut seg, &mut self.acc);
            self.emitted = Ghost(self.emitted@ + seg@);
            assert(self.acc@ + self.emitted@ =~= self.consumed@);
            Some(seg)
        } else {
            None
        }
    }

    /// Ends the stream: the accumulator as a last segment, unless it is empty.
    pub fn finish(self) -> (r: Option<InMemoryIndex>)
        requires
            self.wf(),
        ensures
            match r {
                Some(seg) => seg.wf() && seg@ == self.acc@ && seg@ != Set::<(Seq<char>, u64)>::empty()
                    && self.emitted@ + seg@ == self.consumed@,
                None => self.acc@ == Set::<(Seq<char>, u64)>::empty() && self.emitted@
                    == self.consumed@,
            },
    {
        if self.acc.is_empty() {
            assert(self.emitted@ =~= self.consumed@);
            None
        } else {
            assert(self.emitted@ + self.acc@ =~= self.consumed@);
            Some(self.acc)
        }
    }
}

/// Merges all segments into one index holding the union of their postings.
pub fn merge_segments(segments: &Vec<InMemoryIndex>) -> (r: InMemoryIndex)
    requires
        forall|i: int| 0 <= i < segments@.len() ==> (#[trigger] segments@[i]).wf(),
    ensures
        r.wf(),
        r@ == union_all(segments@),
{
    let mut r = InMemoryIndex::new();
    let mut i: usize = 0;
    while i < segments.len()
        invariant
            r.wf(),
            i <= segments@.len(),
            forall|i: int| 0 <= i < segments@.len() ==> (#[trigger] segments@[i]).wf(),
            r@ == union_all(segments@.subrange(0, i as int)),
        decreases segments@.len() - i,
    {
        r.merge(&segments[i]);
        assert(segments@.subrange(0, i + 1).drop_last() == segments@.subrange(0, i as int));
        i = i + 1;
    }
    assert(segments@.subrange(0, segments@.len() as int) == segments@);
    r
}

/// Runs the stages in memory over the results of reading each document
/// (`None`: the document could not be read). Document `k` gets identifier
/// `k`. Reading stops at the first failure, whose position is returned beside
/// the merged index of the documents read before it.
pub fn run_stages(reads: &Vec<Option<Vec<String>>>, flush_threshold: usize) -> (r: (
    InMemoryIndex,
    Option<usize>,
))
    ensures
        r.0.wf(),
        match r.1 {
            Some(k) => {
                &&& k < reads@.len()
                &&& reads@[k as int] is None
                &&& forall|j: int| 0 <= j < k ==> #[trigger] reads@[j] is Some
                &&& r.0@ == read_pairs(reads@, k as int)
            },
            None => {
                &&& forall|j: int| 0 <= j < reads@.len() ==> #[trigger] reads@[j] is Some
                &&& r.0@ == read_pairs(reads@, reads@.len() as int)
            },
        },
{
    let mut merger = Merger::new(flush_threshold);
    let mut segments: Vec<InMemoryIndex> = Vec::new();
    let mut failed: Option<usize> = None;
    let mut k: usize = 0;
    assert(read_pairs(reads@, 0) =~= Set::<(Seq<char>, u64)>::empty());
    while k < reads.len() && failed.is_none()
        invariant
            k <= reads@.len(),
            match failed {
                Some(f) => f == k && k < reads@.len() && reads@[k as int] is None,
                None => true,
            },
            forall|j: int| 0 <= j < k ==> #[trigger] reads@[j] is Some,
            merger.wf(),
            merger.consumed@ == read_pairs(reads@, k as int),
            forall|i: int| 0 <= i < segments@.len() ==> (#[trigger] segments@[i]).wf(),
            union_all(segments@) == merger.emitted@,
        decreases 2 * (reads@.len() - k) + (if failed is None { 1int } else { 0int }),
    {
        match &reads[k] {
            None => {
                failed = Some(k);
            },
            Some(terms) => {
                let d = index_document(k as u64, terms);
                let ghost old_segments = segments@;
                match merger.push(&d) {
                    Some(seg) => {
                        segments.push(seg);
                        assert(segments@.drop_last() == old_segments);
                    },
                    None => {},
                }
                assert(read_pairs(reads@, k + 1) =~= read_pairs(reads@, k as int) + doc_pairs(
                    terms@,
                    k as u64,
                ));
                k = k + 1;
            },
        }
    }
    let ghost before = segments@;
    match merger.finish() {
        Some(seg) => {
            segments.push(seg);
            assert(segments@.drop_last() == before);
        },
        None => {},
    }
    let index = merge_segments(&segments);
    (index, failed)
}

/// The index that one thread computes by recording each term of each
/// document directly, document `k` having identifier `k`.
pub fn reference_index(docs: &Vec<Vec<String>>) -> (r: InMemoryIndex)
    ensures
        r.wf(),
        r@ == corpus_pairs(docs@),
{
    let mut r = InMemoryIndex::new();
    let mut k: usize = 0;
    assert(corpus_pairs(docs@.subrange(0, 0)) =~= Set::<(Seq<char>, u64)>::empty());
    while k < docs.len()
        invariant
            r.wf(),
            k <= docs@.len(),
            r@ == corpus_pairs(docs@.subrange(0, k as int)),
        decreases docs@.len() - k,
    {
        let terms = &docs[k];
        let ghost base = r@;
        let mut i: usize = 0;
        while i < terms.len()
            invariant
                r.wf(),
                i <= terms@.len(),
                r@ == base + doc_pairs(terms@.subrange(0, i as int), k as u64),
            decreases terms@.len() - i,
        {
            r.insert(&terms[i], k as u64);
            proof {
                let a = terms@.subrange(0, i as int);
                let b = terms@.subrange(0, i + 1);
                assert forall|p: (Seq<char>, u64)| #[trigger] doc_pairs(b, k as u64).contains(p) <==> doc_pairs(
                    a,
                    k as u64,
                ).insert((terms@[i as int]@, k as u64)).contains(p) by {
                    if doc_pairs(b, k as u64).contains(p) {
                        let j = choose|j: int| 0 <= j < b.len() && #[trigger] b[j]@ == p.0;
                        if j < i {
                            assert(a[j]@ == p.0);
                        }
                    }
                    if doc_pairs(a, k as u64).contains(p) {
                        let j = choose|j: int| 0 <= j < a.len() && #[trigger] a[j]@ == p.0;
                        assert(b[j]@ == p.0);
                    }
                    if p == (terms@[i as int]@, k as u64) {
                        assert(b[i as int]@ == p.0);
                    }
                }
                assert(r@ =~= base + doc_pairs(b, k as u64));
            }
            i = i + 1;
        }
        assert(terms@.subrange(0, terms@.len() as int) == terms@);
        assert(corpus_pairs(docs@.subrange(0, k + 1)) =~= corpus_pairs(docs@.subrange(0, k as int))
            + doc_pairs(docs@[k as int]@, k as u64));
        k = k + 1;
    }
    assert(docs@.subrange(0, docs@.len() as int) == docs@);
    r
}

/// When every document is read, the staged run records exactly the pairs
/// that the single-threaded reference computes: no document is dropped or
/// duplicated.
pub proof fn lemma_stages_complete(reads: Seq<Option<Vec<String>>>, docs: Seq<Vec<String>>)
    requires
        reads.len() == docs.len(),
        forall|k: int| 0 <= k < docs.len() ==> #[trigger] reads[k] == Some(docs[k]),
    ensures
        read_pairs(reads, reads.len() as int) == corpus_pairs(docs),
{
    assert forall|p: (Seq<char>, u64)| #[trigger] read_pairs(reads, reads.len() as int).contains(p)
        <==> corpus_pairs(docs).contains(p) by {
        if p.1 < docs.len() {
            assert(reads[p.1 as int] == Some(docs[p.1 as int]));
        }
    }
    assert(read_pairs(reads, reads.len() as int) =~= corpus_pairs(docs));
}

/// When document `k` cannot be read and all before it can, the staged run
/// records exactly the pairs of the documents before `k`.
pub proof fn lemma_failure_keeps_earlier(
    reads: Seq<Option<Vec<String>>>,
    docs: Seq<Vec<String>>,
    k: int,
)
    requires
        0 <= k < reads.len(),
        k == docs.len(),
        reads[k] is None,
        forall|j: int| 0 <= j < k ==> #[trigger] reads[j] == Some(docs[j]),
    ensures
        read_pairs(reads, k) == corpus_pairs(docs),
{
    assert forall|p: (Seq<char>, u64)| #[trigger] read_pairs(reads, k).contains(p)
        <==> corpus_pairs(docs).contains(p) by {
        if p.1 < k {
            assert(reads[p.1 as int] == Some(docs[p.1 as int]));
        }
    }
    assert(read_pairs(reads, k) =~= corpus_pairs(docs));
}

/// The stage whose failure an error reports.
#[derive(Clone, Copy, Debug, PartialEq, Eq, Structural)]
pub enum FailureKind {
    /// A document could not be read.
    ReadFailure,
    /// A segment could not be written.
    WriteFailure,
    /// A segment could not be read back, or the final index not written.
    MergeFailure,
}

/// A stage's terminal error: which stage, which resource, and what went wrong.
pub struct PipelineError {
    pub kind: FailureKind,
    pub resource: String,
    pub message: String,
}

/// The pipeline's result from the stages' own: the reader's error first, then
/// the writer's, then the segment merger's; success when none failed.
pub fn first_error(
    reader: Result<(), PipelineError>,
    writer: Result<(), PipelineError>,
    segment_merger: Result<(), PipelineError>,
) -> (r: Result<(), PipelineError>)
    ensures
        r == (if reader is Err {
            reader
        } else if writer is Err {
            writer
        } else {
            segment_merger
        }),
{
    if reader.is_err() {
        reader
    } else if writer.is_err() {
        writer
    } else {
        segment_merger
    }
}

/// What is left to publish as the final index, from the writer's result and
/// the segment merger's: the merged index when both succeeded; nothing when
/// the writer failed, so that no partial final index is ever published; the
/// segment merger's error when it failed.
pub fn index_to_publish(
    writer: &Result<(), PipelineError>,
    merged: Result<InMemoryIndex, PipelineError>,
) -> (r: Result<Option<InMemoryIndex>, PipelineError>)
    ensures
        r == (match merged {
            Err(e) => Err(e),
            Ok(idx) => if writer is Err {
                Ok(None)
            } else {
                Ok(Some(idx))
            },
        }),
{
    match merged {
        Err(e) => Err(e),
        Ok(idx) => {
            if writer.is_err() {
                Ok(None)
            } else {
                Ok(Some(idx))
            }
        },
    }
}

} // verus!
