use crate::index::{entry_has, seq_has, strictly_sorted, InMemoryIndex, TermEntry};
use crate::tokenize::chars_of;
use vstd::prelude::*;

verus! {

/// The eight big-endian bytes of `v`.
pub open spec fn be_bytes(v: u64) -> Seq<u8> {
    seq![
        (v >> 56u64) as u8,
        (v >> 48u64) as u8,
        (v >> 40u64) as u8,
        (v >> 32u64) as u8,
        (v >> 24u64) as u8,
        (v >> 16u64) as u8,
        (v >> 8u64) as u8,
        v as u8,
    ]
}

/// The value of eight big-endian bytes.
pub open spec fn be_value(b: Seq<u8>) -> u64 {
    ((b[0] as u64) << 56u64) | ((b[1] as u64) << 48u64) | ((b[2] as u64) << 40u64) | ((b[3] as u64)
        << 32u64) | ((b[4] as u64) << 24u64) | ((b[5] as u64) << 16u64) | ((b[6] as u64) << 8u64)
        | (b[7] as u64)
}

/// Words laid out as bytes, each word as its eight big-endian bytes.
pub open spec fn words_bytes(ws: Seq<u64>) -> Seq<u8> {
    ws.map_values(|w: u64| be_bytes(w)).flatten()
}

pub(crate) proof fn lemma_be_round_trip(v: u64)
    ensures
        be_value(be_bytes(v)) == v,
        be_bytes(v).len() == 8,
{
    let b0 = (v >> 56u64) as u8;
    let b1 = (v >> 48u64) as u8;
    let b2 = (v >> 40u64) as u8;
    let b3 = (v >> 32u64) as u8;
    let b4 = (v >> 24u64) as u8;
    let b5 = (v >> 16u64) as u8;
    let b6 = (v >> 8u64) as u8;
    let b7 = v as u8;
    assert(((b0 as u64) << 56u64) | ((b1 as u64) << 48u64) | ((b2 as u64) << 40u64) | ((b3 as u64)
        << 32u64) | ((b4 as u64) << 24u64) | ((b5 as u64) << 16u64) | ((b6 as u64) << 8u64) | (b7 as u64)
        == v) by (bit_vector)
        requires
            b0 == (v >> 56u64) as u8,
            b1 == (v >> 48u64) as u8,
            b2 == (v >> 40u64) as u8,
            b3 == (v >> 32u64) as u8,
            b4 == (v >> 24u64) as u8,
            b5 == (v >> 16u64) as u8,
            b6 == (v >> 8u64) as u8,
            b7 == v as u8,
    ;
}

proof fn lemma_words_bytes_front(ws: Seq<u64>)
    requires
        ws.len() > 0,
    ensures
        words_bytes(ws) == be_bytes(ws[0]) + words_bytes(ws.drop_first()),
{
    let m = ws.map_values(|w: u64| be_bytes(w));
    assert(m.drop_first() =~= ws.drop_first().map_values(|w: u64| be_bytes(w)));
}

/// Each word takes eight bytes.
pub proof fn lemma_words_bytes_len(ws: Seq<u64>)
    ensures
        words_bytes(ws).len() == 8 * ws.len(),
    decreases ws.len(),
{
    if ws.len() == 0 {
        assert(words_bytes(ws) =~= Seq::<u8>::empty());
    } else {
        lemma_words_bytes_front(ws);
        lemma_words_bytes_len(ws.drop_first());
        lemma_be_round_trip(ws[0]);
    }
}

proof fn lemma_words_bytes_injective(a: Seq<u64>, b: Seq<u64>)
    requires
        words_bytes(a) == words_bytes(b),
    ensures
        a == b,
    decreases a.len(),
{
    lemma_words_bytes_len(a);
    lemma_words_bytes_len(b);
    if a.len() > 0 {
        lemma_words_bytes_front(a);
        lemma_words_bytes_front(b);
        lemma_be_round_trip(a[0]);
        lemma_be_round_trip(b[0]);
        let wa = words_bytes(a);
        assert(be_bytes(a[0]) == wa.subrange(0, 8));
        assert(be_bytes(b[0]) == wa.subrange(0, 8));
        assert(words_bytes(a.drop_first()) == wa.subrange(8, wa.len() as int));
        assert(words_bytes(b.drop_first()) == wa.subrange(8, wa.len() as int));
        lemma_words_bytes_injective(a.drop_first(), b.drop_first());
        assert(a =~= seq![a[0]] + a.drop_first());
        assert(b =~= seq![b[0]] + b.drop_first());
    } else {
        assert(a =~= b);
    }
}

/// Appends the eight big-endian bytes of `v`.
pub(crate) fn push_word(out: &mut Vec<u8>, v: u64)
    ensures
        final(out)@ == old(out)@ + be_bytes(v),
{
    out.push(#[verifier::truncate] ((v >> 56u64) as u8));
    out.push(#[verifier::truncate] ((v >> 48u64) as u8));
    out.push(#[verifier::truncate] ((v >> 40u64) as u8));
    out.push(#[verifier::truncate] ((v >> 32u64) as u8));
    out.push(#[verifier::truncate] ((v >> 24u64) as u8));
    out.push(#[verifier::truncate] ((v >> 16u64) as u8));
    out.push(#[verifier::truncate] ((v >> 8u64) as u8));
    out.push(#[verifier::truncate] (v as u8));
    assert(final(out)@ =~= old(out)@ + be_bytes(v));
}

/// The bytes of a word sequence.
fn words_to_bytes(ws: &Vec<u64>) -> (r: Vec<u8>)
    ensures
        r@ == words_bytes(ws@),
{
    let mut out: Vec<u8> = Vec::new();
    let mut i: usize = 0;
    assert(words_bytes(ws@.subrange(0, 0)) =~= Seq::<u8>::empty());
    while i < ws.len()
        invariant
            i <= ws@.len(),
            out@ == words_bytes(ws@.subrange(0, i as int)),
        decreases ws@.len() - i,
    {
        push_word(&mut out, ws[i]);
        proof {
            let a = ws@.subrange(0, i as int);
            let b = ws@.subrange(0, i + 1);
            assert(b.map_values(|w: u64| be_bytes(w)) =~= a.map_values(|w: u64| be_bytes(w)).push(
                be_bytes(ws@[i as int]),
            ));
            a.map_values(|w: u64| be_bytes(w)).lemma_flatten_push(be_bytes(ws@[i as int]));
        }
        i = i + 1;
    }
    assert(ws@.subrange(0, ws@.len() as int) == ws@);
    out
}

/// The words of a byte string whose length is a multiple of eight.
fn bytes_to_words(b: &[u8]) -> (r: Option<Vec<u64>>)
    ensures
        match r {
            Some(ws) => words_bytes(ws@) == b@,
            None => b@.len() % 8 != 0,
        },
{
    if b.len() % 8 != 0 {
        return None;
    }
    let len = b.len();
    let n = len / 8;
    let mut ws: Vec<u64> = Vec::new();
    let mut i: usize = 0;
    assert(words_bytes(ws@) =~= Seq::<u8>::empty());
    while i < n
        invariant
            n * 8 == b@.len(),
            len == b@.len(),
            i <= n,
            ws@.len() == i,
            words_bytes(ws@) == b@.subrange(0, 8 * i),
        decreases n - i,
    {
        assert(8 * i + 8 <= len) by (nonlinear_arith)
            requires
                i < n,
                n * 8 == len,
        ;
        let p = 8 * i;
        let v = ((b[p] as u64) << 56u64) | ((b[p + 1] as u64) << 48u64) | ((b[p + 2] as u64) << 40u64)
            | ((b[p + 3] as u64) << 32u64) | ((b[p + 4] as u64) << 24u64) | ((b[p + 5] as u64) << 16u64)
            | ((b[p + 6] as u64) << 8u64) | (b[p + 7] as u64);
        proof {
            let chunk = b@.subrange(p as int, p + 8);
            assert(v == be_value(chunk));
            let c0 = chunk[0];
            let c1 = chunk[1];
            let c2 = chunk[2];
            let c3 = chunk[3];
            let c4 = chunk[4];
            let c5 = chunk[5];
            let c6 = chunk[6];
            let c7 = chunk[7];
            assert((v >> 56u64) as u8 == c0 && (v >> 48u64) as u8 == c1 && (v >> 40u64) as u8 == c2
                && (v >> 32u64) as u8 == c3 && (v >> 24u64) as u8 == c4 && (v >> 16u64) as u8 == c5
                && (v >> 8u64) as u8 == c6 && v as u8 == c7) by (bit_vector)
                requires
                    v == ((c0 as u64) << 56u64) | ((c1 as u64) << 48u64) | ((c2 as u64) << 40u64) | ((
                    c3 as u64) << 32u64) | ((c4 as u64) << 24u64) | ((c5 as u64) << 16u64) | ((c6 as u64)
                        << 8u64) | (c7 as u64),
            ;
            assert(be_bytes(v) =~= chunk);
            let old_ws = ws@;
            assert(old_ws.push(v).map_values(|w: u64| be_bytes(w)) =~= old_ws.map_values(
                |w: u64| be_bytes(w),
            ).push(be_bytes(v)));
            old_ws.map_values(|w: u64| be_bytes(w)).lemma_flatten_push(be_bytes(v));
            assert(b@.subrange(0, 8 * i + 8) =~= b@.subrange(0, 8 * i) + chunk);
        }
        ws.push(v);
        i = i + 1;
    }
    assert(b@.subrange(0, 8 * n as int) =~= b@);
    Some(ws)
}

/// Relies on `char::from_u32`: the character of that code point, or `None`
/// when the value is a surrogate or beyond the last code point.
#[verifier::external_body]
fn char_from_u32(n: u32) -> (r: Option<char>)
    ensures
        match r {
            Some(c) => c as u32 == n,
            None => n > 0x10FFFF || (0xD800 <= n <= 0xDFFF),
        },
{
    char::from_u32(n)
}

/// The words of one entry: the term's length and code points, then the
/// number of documents and the documents.
pub open spec fn entry_words(e: TermEntry) -> Seq<u64> {
    seq![e.term@.len() as u64] + e.term@.map_values(|c: char| (c as u32) as u64) + seq![
        e.docs@.len() as u64,
    ] + e.docs@
}

/// The words of a sequence of entries, one after the other.
pub open spec fn index_words(es: Seq<TermEntry>) -> Seq<u64> {
    es.map_values(|e: TermEntry| entry_words(e)).flatten()
}

/// The segment encoding of a sequence of entries.
pub open spec fn encoding(es: Seq<TermEntry>) -> Seq<u8> {
    words_bytes(index_words(es))
}

/// Every entry's documents are strictly sorted and non-empty.
pub open spec fn valid_entries(es: Seq<TermEntry>) -> bool {
    forall|i: int|
        0 <= i < es.len() ==> strictly_sorted(#[trigger] es[i].docs@) && es[i].docs@.len() > 0
}

/// The (term, document) pairs that a sequence of entries records.
pub open spec fn entries_pairs(es: Seq<TermEntry>) -> Set<(Seq<char>, u64)> {
    Set::new(|p: (Seq<char>, u64)| seq_has(es, p.0, p.1))
}

proof fn lemma_index_words_push(es: Seq<TermEntry>, e: TermEntry)
    ensures
        index_words(es.push(e)) == index_words(es) + entry_words(e),
{
    assert(es.push(e).map_values(|e: TermEntry| entry_words(e)) =~= es.map_values(
        |e: TermEntry| entry_words(e),
    ).push(entry_words(e)));
    es.map_values(|e: TermEntry| entry_words(e)).lemma_flatten_push(entry_words(e));
}

proof fn lemma_pairs_push(es: Seq<TermEntry>, e: TermEntry)
    ensures
        forall|t: Seq<char>, d: u64|
            #[trigger] seq_has(es.push(e), t, d) <==> (seq_has(es, t, d) || entry_has(e, t, d)),
{
    assert forall|t: Seq<char>, d: u64|
        #[trigger] seq_has(es.push(e), t, d) <==> (seq_has(es, t, d) || entry_has(e, t, d)) by {
        let s = es.push(e);
        if seq_has(s, t, d) {
            let i = choose|i: int| 0 <= i < s.len() && entry_has(#[trigger] s[i], t, d);
            if i < es.len() {
                assert(entry_has(es[i], t, d));
            }
        }
        if seq_has(es, t, d) {
            let i = choose|i: int| 0 <= i < es.len() && entry_has(#[trigger] es[i], t, d);
            assert(entry_has(s[i], t, d));
        }
        if entry_has(e, t, d) {
            assert(entry_has(s[es.len() as int], t, d));
        }
    }
}

/// Two entries with the same term and the same documents.
pub open spec fn same_entry(a: TermEntry, b: TermEntry) -> bool {
    a.term@ == b.term@ && a.docs@ == b.docs@
}

/// `ws` are the words of the valid entries `es`.
pub open spec fn encodes(ws: Seq<u64>, es: Seq<TermEntry>) -> bool {
    valid_entries(es) && ws == index_words(es)
}

/// `parsed` agrees with the first entries of `es`.
pub open spec fn same_prefix(parsed: Seq<TermEntry>, es: Seq<TermEntry>) -> bool {
    &&& parsed.len() <= es.len()
    &&& forall|i: int| 0 <= i < parsed.len() ==> same_entry(#[trigger] parsed[i], es[i])
}

proof fn lemma_char_code(c: char, d: char)
    ensures
        (c as u32) <= 0x10FFFF,
        !(0xD800 <= (c as u32) <= 0xDFFF),
        (c as u32) == (d as u32) ==> c == d,
{
}

proof fn lemma_index_words_split(es: Seq<TermEntry>, k: int)
    requires
        0 <= k <= es.len(),
    ensures
        index_words(es) == index_words(es.subrange(0, k)) + index_words(es.subrange(k, es.len() as int)),
{
    let a = es.subrange(0, k);
    let b = es.subrange(k, es.len() as int);
    assert(es.map_values(|e: TermEntry| entry_words(e)) =~= a.map_values(|e: TermEntry| entry_words(e))
        + b.map_values(|e: TermEntry| entry_words(e)));
    vstd::seq_lib::lemma_flatten_concat(
        a.map_values(|e: TermEntry| entry_words(e)),
        b.map_values(|e: TermEntry| entry_words(e)),
    );
}

proof fn lemma_index_words_front(es: Seq<TermEntry>)
    requires
        es.len() > 0,
    ensures
        index_words(es) == entry_words(es[0]) + index_words(es.drop_first()),
{
    let m = es.map_values(|e: TermEntry| entry_words(e));
    assert(m.drop_first() =~= es.drop_first().map_values(|e: TermEntry| entry_words(e)));
}

proof fn lemma_same_views(parsed: Seq<TermEntry>, es: Seq<TermEntry>)
    requires
        parsed.len() == es.len(),
        forall|i: int| 0 <= i < parsed.len() ==> same_entry(#[trigger] parsed[i], es[i]),
    ensures
        index_words(parsed) == index_words(es),
        entries_pairs(parsed) == entries_pairs(es),
{
    assert(parsed.map_values(|e: TermEntry| entry_words(e)) =~= es.map_values(
        |e: TermEntry| entry_words(e),
    )) by {
        assert forall|i: int| 0 <= i < parsed.len() implies entry_words(parsed[i]) == entry_words(
            es[i],
        ) by {
            assert(same_entry(parsed[i], es[i]));
        }
    }
    assert forall|p: (Seq<char>, u64)| #[trigger] entries_pairs(parsed).contains(p)
        <==> entries_pairs(es).contains(p) by {
        if seq_has(parsed, p.0, p.1) {
            let i = choose|i: int| 0 <= i < parsed.len() && entry_has(#[trigger] parsed[i], p.0, p.1);
            assert(same_entry(parsed[i], es[i]));
            assert(entry_has(es[i], p.0, p.1));
        }
        if seq_has(es, p.0, p.1) {
            let i = choose|i: int| 0 <= i < es.len() && entry_has(#[trigger] es[i], p.0, p.1);
            assert(same_entry(parsed[i], es[i]));
            assert(entry_has(parsed[i], p.0, p.1));
        }
    }
    assert(entries_pairs(parsed) =~= entries_pairs(es));
}

/// Where the words of valid entries continue past the entries already
/// parsed, they hold the next entry, laid out as `entry_words` says.
proof fn lemma_next_entry(ws: Seq<u64>, es: Seq<TermEntry>, parsed: Seq<TermEntry>, w: int)
    requires
        encodes(ws, es),
        same_prefix(parsed, es),
        ws.subrange(0, w) == index_words(parsed),
        0 <= w <= ws.len(),
        ws.len() <= u64::MAX,
    ensures
        w < ws.len() ==> parsed.len() < es.len(),
        w == ws.len() ==> parsed.len() == es.len(),
        parsed.len() < es.len() ==> ({
            let e = es[parsed.len() as int];
            let n = e.term@.len() as int;
            let m = e.docs@.len() as int;
            &&& w + 2 + n + m <= ws.len()
            &&& ws[w] == n
            &&& ws[w + 1 + n] == m
            &&& m > 0
            &&& strictly_sorted(e.docs@)
            &&& forall|i: int| 0 <= i < n ==> ws[w + 1 + i] == (e.term@[i] as u32) as u64
            &&& forall|i: int| 0 <= i < m ==> ws[w + 2 + n + i] == e.docs@[i]
        }),
{
    let k = parsed.len() as int;
    let pre = es.subrange(0, k);
    lemma_same_views(parsed, pre);
    lemma_index_words_split(es, k);
    let rest = es.subrange(k, es.len() as int);
    assert(index_words(parsed).len() == w);
    if k < es.len() {
        lemma_index_words_front(rest);
        let e = es[k];
        assert(rest[0] == e);
        let ew = entry_words(e);
        let n = e.term@.len() as int;
        let m = e.docs@.len() as int;
        assert(ew.len() == 2 + n + m);
        assert(ws == index_words(pre) + (ew + index_words(rest.drop_first())));
        assert(strictly_sorted(es[k].docs@) && es[k].docs@.len() > 0);
        assert forall|j: int| 0 <= j < ew.len() implies ws[w + j] == ew[j] by {
            assert((ew + index_words(rest.drop_first()))[j] == ew[j]);
        }
        assert(ws[w] == ew[0]);
        assert(ew[0] == n as u64);
        assert(ws[w + 1 + n] == ew[1 + n]);
        assert(ew[1 + n] == m as u64);
        assert forall|i: int| 0 <= i < n implies ws[w + 1 + i] == (e.term@[i] as u32) as u64 by {
            assert(ws[w + 1 + i] == ew[1 + i]);
        }
        assert forall|i: int| 0 <= i < m implies ws[w + 2 + n + i] == e.docs@[i] by {
            assert(ws[w + 2 + n + i] == ew[2 + n + i]);
        }
    } else {
        assert(rest =~= Seq::<TermEntry>::empty());
        assert(index_words(rest) =~= Seq::<u64>::empty());
    }
}

/// The words of an index's entries.
fn entries_to_words(idx: &InMemoryIndex) -> (r: Vec<u64>)
    ensures
        r@ == index_words(idx.entries@),
{
    let mut ws: Vec<u64> = Vec::new();
    let mut k: usize = 0;
    assert(index_words(idx.entries@.subrange(0, 0)) =~= Seq::<u64>::empty());
    while k < idx.entries.len()
        invariant
            k <= idx.entries@.len(),
            ws@ == index_words(idx.entries@.subrange(0, k as int)),
        decreases idx.entries@.len() - k,
    {
        let e = &idx.entries[k];
        let ghost base = ws@;
        let cs = chars_of(e.term.as_str());
        ws.push(cs.len() as u64);
        let mut j: usize = 0;
        while j < cs.len()
            invariant
                j <= cs@.len(),
                ws@ == base + seq![cs@.len() as u64] + cs@.subrange(0, j as int).map_values(
                    |c: char| (c as u32) as u64,
                ),
            decreases cs@.len() - j,
        {
            ws.push((cs[j] as u32) as u64);
            assert(cs@.subrange(0, j + 1).map_values(|c: char| (c as u32) as u64) =~= cs@.subrange(
                0,
                j as int,
            ).map_values(|c: char| (c as u32) as u64).push((cs@[j as int] as u32) as u64));
            j = j + 1;
        }
        ws.push(e.docs.len() as u64);
        let ghost mid = ws@;
        let mut j: usize = 0;
        while j < e.docs.len()
            invariant
                j <= e.docs@.len(),
                ws@ == mid + e.docs@.subrange(0, j as int),
            decreases e.docs@.len() - j,
        {
            ws.push(e.docs[j]);
            assert(e.docs@.subrange(0, j + 1) =~= e.docs@.subrange(0, j as int).push(e.docs@[j as int]));
            j = j + 1;
        }
        proof {
            assert(cs@.subrange(0, cs@.len() as int) == cs@);
            assert(e.docs@.subrange(0, e.docs@.len() as int) == e.docs@);
            assert(ws@ =~= base + entry_words(*e));
            assert(idx.entries@.subrange(0, k + 1) == idx.entries@.subrange(0, k as int).push(*e));
            lemma_index_words_push(idx.entries@.subrange(0, k as int), *e);
        }
        k = k + 1;
    }
    assert(idx.entries@.subrange(0, idx.entries@.len() as int) == idx.entries@);
    ws
}

/// The segment encoding of an index: each entry's words, each word as eight
/// big-endian bytes.
pub fn serialize(idx: &InMemoryIndex) -> (r: Vec<u8>)
    ensures
        r@ == encoding(idx.entries@),
{
    let ws = entries_to_words(idx);
    words_to_bytes(&ws)
}

/// The index that a sequence of entry words records, or `None` when the
/// words are not such a sequence.
fn words_to_index(ws: &Vec<u64>) -> (r: Option<InMemoryIndex>)
    ensures
        r matches Some(idx) ==> idx.wf() && exists|es: Seq<TermEntry>|
            valid_entries(es) && ws@ == index_words(es) && idx@ == entries_pairs(es),
        forall|es: Seq<TermEntry>| #[trigger]
            encodes(ws@, es) ==> (r matches Some(idx) && idx@ == entries_pairs(es)),
{
    let mut idx = InMemoryIndex::new();
    let ghost mut parsed: Seq<TermEntry> = Seq::empty();
    let len = ws.len();
    let mut w: usize = 0;
    assert(index_words(parsed) =~= Seq::<u64>::empty());
    assert(idx@ =~= entries_pairs(parsed));
    while w < len
        invariant
            len == ws@.len(),
            idx.wf(),
            w <= len,
            ws@.subrange(0, w as int) == index_words(parsed),
            idx@ == entries_pairs(parsed),
            valid_entries(parsed),
            forall|es: Seq<TermEntry>| #[trigger] encodes(ws@, es) ==> same_prefix(parsed, es),
        decreases len - w,
    {
        let n64 = ws[w];
        if n64 >= (len - w) as u64 {
            proof {
                assert forall|es: Seq<TermEntry>| #[trigger] encodes(ws@, es) implies false by {
                    lemma_next_entry(ws@, es, parsed, w as int);
                }
            }
            return None;
        }
        let n = n64 as usize;
        if n + 1 >= len - w {
            proof {
                assert forall|es: Seq<TermEntry>| #[trigger] encodes(ws@, es) implies false by {
                    lemma_next_entry(ws@, es, parsed, w as int);
                }
            }
            return None;
        }
        let mut cs: Vec<char> = Vec::new();
        let mut j: usize = 0;
        while j < n
            invariant
                len == ws@.len(),
                w + n + 1 < len,
                n == ws@[w as int],
                ws@.subrange(0, w as int) == index_words(parsed),
                forall|es: Seq<TermEntry>| #[trigger] encodes(ws@, es) ==> same_prefix(parsed, es),
                j <= n,
                cs@.len() == j,
                forall|i: int| 0 <= i < j ==> (#[trigger] cs@[i]) as u32 == ws@[w + 1 + i],
            decreases n - j,
        {
            let x = ws[w + 1 + j];
            if x > 0xFFFF_FFFF {
                proof {
                    assert forall|es: Seq<TermEntry>| #[trigger] encodes(ws@, es) implies false by {
                        lemma_next_entry(ws@, es, parsed, w as int);
                        let t = es[parsed.len() as int].term@;
                        assert(j < t.len());
                        assert(ws@[w + 1 + j] == (t[j as int] as u32) as u64);
                    }
                }
                return None;
            }
            match char_from_u32(x as u32) {
                None => {
                    proof {
                        assert forall|es: Seq<TermEntry>| #[trigger] encodes(ws@, es) implies false by {
                            lemma_next_entry(ws@, es, parsed, w as int);
                            let c = es[parsed.len() as int].term@[j as int];
                            lemma_char_code(c, c);
                        }
                    }
                    return None;
                },
                Some(c) => {
                    cs.push(c);
                    assert(cs@[j as int] == c);
                },
            }
            j = j + 1;
        }
        let mpos = w + 1 + n;
        let m64 = ws[mpos];
        if m64 == 0 || m64 > (len - mpos - 1) as u64 {
            proof {
                assert forall|es: Seq<TermEntry>| #[trigger] encodes(ws@, es) implies false by {
                    lemma_next_entry(ws@, es, parsed, w as int);
                }
            }
            return None;
        }
        let m = m64 as usize;
        let mut docs: Vec<u64> = Vec::new();
        let mut j: usize = 0;
        while j < m
            invariant
                len == ws@.len(),
                mpos == w + 1 + n,
                n == ws@[w as int],
                m == ws@[mpos as int],
                mpos + m < len,
                ws@.subrange(0, w as int) == index_words(parsed),
                forall|es: Seq<TermEntry>| #[trigger] encodes(ws@, es) ==> same_prefix(parsed, es),
                j <= m,
                docs@.len() == j,
                strictly_sorted(docs@),
                forall|i: int| 0 <= i < j ==> #[trigger] docs@[i] == ws@[mpos + 1 + i],
            decreases m - j,
        {
            let d = ws[mpos + 1 + j];
            if j > 0 && d <= docs[j - 1] {
                proof {
                    assert forall|es: Seq<TermEntry>| #[trigger] encodes(ws@, es) implies false by {
                        lemma_next_entry(ws@, es, parsed, w as int);
                        let ds = es[parsed.len() as int].docs@;
                        assert(j < ds.len());
                        assert(docs@[j - 1] == ws@[mpos + 1 + (j - 1)]);
                        assert(ws@[w + 2 + n + (j - 1)] == ds[j - 1]);
                        assert(ws@[w + 2 + n + j] == ds[j as int]);
                        assert(ds[j - 1] < ds[j as int]);
                    }
                }
                return None;
            }
            docs.push(d);
            j = j + 1;
        }
        let term = crate::tokenize::string_of(&cs);
        let ghost before = idx;
        idx.add_postings(&term, &docs);
        let next = mpos + 1 + m;
        proof {
            let e = TermEntry { term: term, docs: docs };
            assert(entry_words(e) =~= ws@.subrange(w as int, next as int));
            lemma_index_words_push(parsed, e);
            assert(ws@.subrange(0, next as int) =~= ws@.subrange(0, w as int) + ws@.subrange(
                w as int,
                next as int,
            ));
            lemma_pairs_push(parsed, e);
            assert forall|p: (Seq<char>, u64)| #[trigger] idx@.contains(p) <==> entries_pairs(
                parsed.push(e),
            ).contains(p) by {
                assert(idx@.contains(p) == idx.has(p.0, p.1));
                assert(before@.contains(p) == before.has(p.0, p.1));
                assert(entries_pairs(parsed).contains(p) == seq_has(parsed, p.0, p.1));
            }
            assert forall|es: Seq<TermEntry>| #[trigger] encodes(ws@, es) implies same_prefix(
                parsed.push(e),
                es,
            ) by {
                lemma_next_entry(ws@, es, parsed, w as int);
                let k = parsed.len() as int;
                let t = es[k].term@;
                assert forall|i: int| 0 <= i < t.len() implies cs@[i] == t[i] by {
                    lemma_char_code(cs@[i], t[i]);
                }
                assert(cs@ =~= t);
                assert(docs@ =~= es[k].docs@);
                assert(same_entry(e, es[k]));
                assert forall|i: int| 0 <= i < parsed.len() + 1 implies same_entry(
                    #[trigger] parsed.push(e)[i],
                    es[i],
                ) by {
                    if i < k {
                        assert(parsed.push(e)[i] == parsed[i]);
                    }
                }
            }
            parsed = parsed.push(e);
            assert(idx@ =~= entries_pairs(parsed));
        }
        w = next;
    }
    proof {
        assert(ws@.subrange(0, len as int) == ws@);
        assert forall|es: Seq<TermEntry>| #[trigger] encodes(ws@, es) implies idx@ == entries_pairs(
            es,
        ) by {
            lemma_next_entry(ws@, es, parsed, w as int);
            lemma_same_views(parsed, es);
        }
    }
    Some(idx)
}

/// The index that a segment encoding records, or `None` when the bytes are
/// not one.
pub fn deserialize(bytes: &[u8]) -> (r: Option<InMemoryIndex>)
    ensures
        r matches Some(idx) ==> idx.wf() && exists|es: Seq<TermEntry>|
            valid_entries(es) && bytes@ == encoding(es) && idx@ == entries_pairs(es),
        forall|es: Seq<TermEntry>|
            valid_entries(es) && bytes@ == #[trigger] encoding(es) ==> (r matches Some(idx)
                && idx@ == entries_pairs(es)),
{
    match bytes_to_words(bytes) {
        None => {
            proof {
                assert forall|es: Seq<TermEntry>|
                    valid_entries(es) && bytes@ == #[trigger] encoding(es) implies false by {
                    lemma_words_bytes_len(index_words(es));
                }
            }
            None
        },
        Some(ws) => {
            let r = words_to_index(&ws);
            proof {
                assert forall|es: Seq<TermEntry>|
                    valid_entries(es) && bytes@ == #[trigger] encoding(es) implies (r matches Some(idx)
                        && idx@ == entries_pairs(es)) by {
                    lemma_words_bytes_injective(ws@, index_words(es));
                    assert(encodes(ws@, es));
                }
            }
            r
        },
    }
}

/// Decoding what `serialize` writes gives back exactly the pairs that the
/// index records: the entries of a well-formed index are valid, and the
/// pairs that they record are its view.
pub proof fn lemma_round_trip(idx: InMemoryIndex)
    requires
        idx.wf(),
    ensures
        valid_entries(idx.entries@),
        entries_pairs(idx.entries@) == idx@,
{
    assert(entries_pairs(idx.entries@) =~= idx@);
}

} // verus!
