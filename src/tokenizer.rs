//! Lattice construction and minimum-cost path search over one input text.

use crate::dictionary::{ConnectionCostMatrix, Dictionary, WordEntry, WordId, WordTable};
use crate::trie::is_prefix;
use vstd::prelude::*;
use vstd::string::StringSliceAdditionalSpecFns;
use vstd::utf8::*;

verus! {

/// One analysed span of the input.
pub struct Token {
    pub text: String,
    pub byte_start: usize,
    pub byte_end: usize,
    pub position: usize,
    pub position_length: usize,
    pub word_id: WordId,
    pub details: Vec<String>,
}

/// The bytes of a token's text.
pub open spec fn text_bytes(t: Token) -> Seq<u8> {
    encode_utf8(t.text@)
}

/// `ts` cuts `bytes` into consecutive non-empty spans, in order, each token
/// holding its own span's text, numbered from 0.
pub open spec fn is_segmentation(bytes: Seq<u8>, ts: Seq<Token>) -> bool {
    &&& bytes.len() == 0 <==> ts.len() == 0
    &&& ts.len() > 0 ==> ts[0].byte_start == 0 && ts[ts.len() - 1].byte_end == bytes.len()
    &&& forall|i: int| 0 <= i < ts.len() - 1 ==> (#[trigger] ts[i]).byte_end == ts[i + 1].byte_start
    &&& forall|i: int| 0 <= i < ts.len() ==> {
        &&& (#[trigger] ts[i]).byte_start < ts[i].byte_end <= bytes.len()
        &&& text_bytes(ts[i]) == bytes.subrange(ts[i].byte_start as int, ts[i].byte_end as int)
        &&& ts[i].position == i
        &&& ts[i].position_length == 1
    }
}

/// The texts of `ts`, joined in order.
pub open spec fn joined_text(ts: Seq<Token>) -> Seq<u8>
    decreases ts.len(),
{
    if ts.len() == 0 {
        Seq::empty()
    } else {
        joined_text(ts.drop_last()) + text_bytes(ts[ts.len() - 1])
    }
}

/// A segmentation reproduces its input: joining the token texts gives back the
/// input bytes exactly, nothing dropped, repeated or reordered.
pub proof fn lemma_segmentation_rejoins(bytes: Seq<u8>, ts: Seq<Token>)
    requires
        is_segmentation(bytes, ts),
    ensures
        joined_text(ts) == bytes,
{
    if ts.len() > 0 {
        lemma_prefix_rejoins(bytes, ts, ts.len() as int);
        assert(ts.subrange(0, ts.len() as int) =~= ts);
        assert(bytes.subrange(0, bytes.len() as int) =~= bytes);
    }
}

proof fn lemma_prefix_rejoins(bytes: Seq<u8>, ts: Seq<Token>, k: int)
    requires
        ts.len() > 0 && ts[0].byte_start == 0,
        forall|i: int| 0 <= i < ts.len() - 1 ==> (#[trigger] ts[i]).byte_end == ts[i + 1].byte_start,
        forall|i: int| 0 <= i < ts.len() ==> (#[trigger] ts[i]).byte_start < ts[i].byte_end <= bytes.len()
            && text_bytes(ts[i]) == bytes.subrange(ts[i].byte_start as int, ts[i].byte_end as int),
        0 < k <= ts.len(),
    ensures
        joined_text(ts.subrange(0, k)) == bytes.subrange(0, ts[k - 1].byte_end as int),
    decreases k,
{
    let sub = ts.subrange(0, k);
    assert(sub.drop_last() =~= ts.subrange(0, k - 1));
    let last = ts[k - 1];
    assert(sub[k - 1] == last);
    assert(joined_text(sub) == joined_text(ts.subrange(0, k - 1)) + text_bytes(last));
    if k == 1 {
        assert(joined_text(ts.subrange(0, 0)) =~= Seq::empty());
        assert(text_bytes(last) == bytes.subrange(0, last.byte_end as int));
    } else {
        lemma_prefix_rejoins(bytes, ts, k - 1);
        let before = ts[k - 2];
        assert(before.byte_end == last.byte_start);
        assert(bytes.subrange(0, last.byte_end as int) =~= bytes.subrange(0, before.byte_end as int)
            + bytes.subrange(last.byte_start as int, last.byte_end as int));
    }
}

/// A node of the lattice: a word ending at the position whose row holds it.
#[derive(Clone, Copy)]
struct Node {
    start: usize,
    entry: WordEntry,
    cost: i64,
    prev: usize,
}

/// Bound on what one edge adds to a path cost: a connection cost and a word cost.
const EDGE_BOUND: i64 = 65536;

spec fn node_ok(ends: Seq<Vec<Node>>, p: int, n: Node, bytes: Seq<u8>, size: int) -> bool {
    &&& (n.entry.right_id as int) < size
    &&& -(p * EDGE_BOUND) <= n.cost <= p * EDGE_BOUND
    &&& is_char_boundary(bytes, p)
    &&& p == 0 ==> n.start == 0
    &&& p > 0 ==> n.start < p && n.prev < ends[n.start as int]@.len()
}

/// Every node is sound, and each position keeps at most one node, the best
/// found, per right context id.
spec fn lattice_ok(ends: Seq<Vec<Node>>, bytes: Seq<u8>, size: int) -> bool {
    &&& ends.len() == bytes.len() + 1
    &&& forall|p: int, q: int| 0 <= p < ends.len() && 0 <= q < ends[p]@.len()
        ==> node_ok(ends, p, #[trigger] ends[p]@[q], bytes, size)
    &&& forall|p: int, q1: int, q2: int| 0 <= p < ends.len() && 0 <= q1 < q2 < ends[p]@.len()
        ==> (#[trigger] ends[p]@[q1]).entry.right_id != (#[trigger] ends[p]@[q2]).entry.right_id
}

/// The analyser: a system dictionary and an optional user word table whose
/// context ids index the same matrix.
pub struct Tokenizer {
    pub dictionary: Dictionary,
    pub user_dictionary: Option<WordTable>,
}

/// Inputs are kept below 2^31 bytes, so that no path cost overflows.
pub const MAX_TEXT_LEN: usize = 0x8000_0000;

/// The first position from `e` on that is a character boundary or the end.
pub open spec fn boundary_from(b: Seq<u8>, e: int) -> int
    decreases b.len() - e,
{
    if e >= b.len() || is_char_boundary(b, e) {
        e
    } else {
        boundary_from(b, e + 1)
    }
}

/// The first character boundary after `pos`.
pub(crate) fn next_boundary(text: &str, pos: usize) -> (e: usize)
    requires
        pos < text.spec_bytes().len() < MAX_TEXT_LEN,
    ensures
        pos < e <= text.spec_bytes().len(),
        is_char_boundary(text.spec_bytes(), e as int),
        e == boundary_from(text.spec_bytes(), pos + 1),
{
    let n = text.len();
    let mut e: usize = pos + 1;
    while e < n && !text.is_char_boundary(e)
        invariant
            n == text.spec_bytes().len(),
            pos < e <= n,
            boundary_from(text.spec_bytes(), pos + 1) == boundary_from(text.spec_bytes(), e as int),
        decreases n - e,
    {
        e += 1;
    }
    proof {
        broadcast use encode_utf8_valid_utf8, is_char_boundary_start_end_of_seq;
        assert(valid_utf8(text.spec_bytes()));
        assert(is_char_boundary(text.spec_bytes(), text.spec_bytes().len() as int));
    }
    e
}

/// The text between two character boundaries.
pub(crate) fn substring(text: &str, start: usize, end: usize) -> (r: String)
    requires
        start < end <= text.spec_bytes().len(),
        is_char_boundary(text.spec_bytes(), start as int),
        is_char_boundary(text.spec_bytes(), end as int),
    ensures
        encode_utf8(r@) == text.spec_bytes().subrange(start as int, end as int),
{
    let ghost bytes = text.spec_bytes();
    proof {
        broadcast use encode_utf8_valid_utf8;
        assert(valid_utf8(bytes));
        valid_utf8_split(bytes, end as int);
    }
    let (head, _) = text.split_at(end);
    proof {
        let hb = head.spec_bytes();
        assert(hb == bytes.subrange(0, end as int));
        if start > 0 {
            is_char_boundary_iff_not_is_continuation_byte(bytes, start as int);
            is_char_boundary_iff_not_is_continuation_byte(hb, start as int);
        }
    }
    let (_, mid) = head.split_at(start);
    assert(mid.spec_bytes() =~= bytes.subrange(start as int, end as int));
    mid.to_owned()
}

impl Tokenizer {
    pub open spec fn wf(&self) -> bool {
        &&& self.dictionary.wf()
        &&& self.user_dictionary matches Some(u) ==> u.wf(self.dictionary.matrix.size as int)
    }

    pub fn new(dictionary: Dictionary, user_dictionary: Option<WordTable>) -> (r: Tokenizer)
        ensures
            r.dictionary == dictionary,
            r.user_dictionary == user_dictionary,
    {
        Tokenizer { dictionary, user_dictionary }
    }
}

spec fn candidate_ok(c: (usize, WordEntry), pos: int, bytes: Seq<u8>, size: int) -> bool {
    &&& pos < c.0 <= bytes.len()
    &&& is_char_boundary(bytes, c.0 as int)
    &&& (c.1.left_id as int) < size
    &&& (c.1.right_id as int) < size
}

/// Entry `e` of `t` as a word of the system (`sys`) or the user table.
pub open spec fn word_of(t: &WordTable, e: u32, sys: bool) -> WordEntry {
    WordEntry {
        word_id: WordId { index: e, is_system: sys },
        left_id: t.entries@[e as int].left_id,
        right_id: t.entries@[e as int].right_id,
        word_cost: t.entries@[e as int].word_cost,
    }
}

/// `c` is a word of `t` whose surface starts at byte `pos` of `b` and ends on a
/// character boundary at `c.0`.
pub open spec fn table_cand(t: &WordTable, sys: bool, b: Seq<u8>, pos: int, c: (usize, WordEntry)) -> bool {
    exists|j: int, k: int| 0 <= j < t.index.view().len() && 0 <= k < t.index.view()[j].1.len()
        && is_prefix(t.index.view()[j].0, b.subrange(pos, b.len() as int))
        && c.0 == pos + t.index.view()[j].0.len()
        && is_char_boundary(b, c.0 as int)
        && c.1 == word_of(t, #[trigger] t.index.view()[j].1[k], sys)
}

pub proof fn lemma_push_contains<T>(s: Seq<T>, x: T)
    ensures
        forall|y: T| #[trigger] s.push(x).contains(y) <==> s.contains(y) || y == x,
{
    assert forall|y: T| #[trigger] s.push(x).contains(y) <==> s.contains(y) || y == x by {
        if s.contains(y) {
            let w = choose|w: int| 0 <= w < s.len() && s[w] == y;
            assert(s.push(x)[w] == y);
        }
        if y == x {
            assert(s.push(x)[s.len() as int] == y);
        }
        if s.push(x).contains(y) && y != x {
            let w = choose|w: int| 0 <= w < s.push(x).len() && s.push(x)[w] == y;
            assert(s[w] == y);
        }
    }
}

/// The words of `table` that start at `pos` and end on a character boundary.
fn table_candidates(table: &WordTable, size: Ghost<int>, is_system: bool, text: &str, pos: usize)
    -> (r: Vec<(usize, WordEntry)>)
    requires
        table.wf(size@),
        pos < text.spec_bytes().len() < MAX_TEXT_LEN,
    ensures
        forall|k: int| 0 <= k < r@.len() ==> candidate_ok(#[trigger] r@[k], pos as int, text.spec_bytes(), size@),
        forall|c: (usize, WordEntry)| #[trigger] r@.contains(c) <==> table_cand(table, is_system, text.spec_bytes(), pos as int, c),
{
    let ghost b = text.spec_bytes();
    let bytes = text.as_bytes();
    let rest = vstd::slice::slice_subrange(bytes, pos, bytes.len());
    let found = table.index.common_prefix_search(rest);
    let mut out: Vec<(usize, WordEntry)> = Vec::new();
    let mut i: usize = 0;
    while i < found.len()
        invariant
            table.wf(size@),
            pos < text.spec_bytes().len() < MAX_TEXT_LEN,
            bytes@ == text.spec_bytes(),
            rest@ == bytes@.subrange(pos as int, bytes@.len() as int),
            forall|i: int| #![trigger found@[i]] 0 <= i < found@.len() ==> {
                let (len, e) = found@[i];
                &&& 0 < len <= rest@.len()
                &&& exists|j: int| 0 <= j < table.index.view().len() && table.index.view()[j].0 == rest@.subrange(0, len as int)
                    && #[trigger] table.index.view()[j].1.contains(e)
            },
            0 <= i <= found@.len(),
            forall|k: int| 0 <= k < out@.len() ==> candidate_ok(#[trigger] out@[k], pos as int, text.spec_bytes(), size@),
            b == text.spec_bytes(),
            forall|c: (usize, WordEntry)| #[trigger] out@.contains(c) ==> table_cand(table, is_system, b, pos as int, c),
            forall|m: int| 0 <= m < i && is_char_boundary(b, pos + (#[trigger] found@[m]).0)
                ==> out@.contains(((pos + found@[m].0) as usize, word_of(table, found@[m].1, is_system))),
        decreases found@.len() - i,
    {
        let (len, e) = found[i];
        let ghost prev = out@;
        proof {
            let j = choose|j: int| 0 <= j < table.index.view().len() && table.index.view()[j].0 == rest@.subrange(0, len as int)
                && #[trigger] table.index.view()[j].1.contains(e);
            let t = choose|t: int| 0 <= t < table.index.view()[j].1.len() && table.index.view()[j].1[t] == e;
            assert(table.index.view()[j].1[t] == e);
        }
        let end = pos + len;
        if text.is_char_boundary(end) {
            let entry = table.entries[e as usize];
            proof {
                assert(table.entries@[e as int] == entry);
            }
            let w = WordEntry {
                word_id: WordId { index: e, is_system },
                left_id: entry.left_id,
                right_id: entry.right_id,
                word_cost: entry.word_cost,
            };
            out.push((end, w));
            proof {
                assert(candidate_ok(out@[out@.len() - 1], pos as int, text.spec_bytes(), size@));
                lemma_push_contains(prev, (end, w));
                let j = choose|j: int| 0 <= j < table.index.view().len() && table.index.view()[j].0 == rest@.subrange(0, len as int)
                    && #[trigger] table.index.view()[j].1.contains(e);
                let t = choose|t: int| 0 <= t < table.index.view()[j].1.len() && table.index.view()[j].1[t] == e;
                assert(rest@.subrange(0, len as int) =~= b.subrange(pos as int, b.len() as int).subrange(0, len as int));
                assert(w == word_of(table, table.index.view()[j].1[t], is_system));
                assert(table_cand(table, is_system, b, pos as int, (end, w)));
            }
        }
        i += 1;
    }
    proof {
        assert forall|c: (usize, WordEntry)| table_cand(table, is_system, b, pos as int, c) implies #[trigger] out@.contains(c) by {
            let (j, k) = choose|j: int, k: int| 0 <= j < table.index.view().len() && 0 <= k < table.index.view()[j].1.len()
                && is_prefix(table.index.view()[j].0, b.subrange(pos as int, b.len() as int))
                && c.0 == pos + table.index.view()[j].0.len()
                && is_char_boundary(b, c.0 as int)
                && c.1 == word_of(table, #[trigger] table.index.view()[j].1[k], is_system);
            assert(rest@ =~= b.subrange(pos as int, b.len() as int));
            assert(found@.contains((table.index.view()[j].0.len() as usize, table.index.view()[j].1[k])));
            let m = choose|m: int| 0 <= m < found@.len() && found@[m] == (table.index.view()[j].0.len() as usize, table.index.view()[j].1[k]);
            assert(found@[m].0 == table.index.view()[j].0.len());
        }
    }
    out
}

impl Tokenizer {
    /// `c` is a word of either table starting at byte `pos` of `b`.
    pub open spec fn dict_cand(&self, b: Seq<u8>, pos: int, c: (usize, WordEntry)) -> bool {
        ||| table_cand(&self.dictionary.words, true, b, pos, c)
        ||| match self.user_dictionary {
            Some(u) => table_cand(&u, false, b, pos, c),
            None => false,
        }
    }

    /// The words that may start at byte `pos` of `b`: those of both tables; when
    /// there are none, the unknown words of `unknown_spec`; when there are none
    /// either, the generic unknown word over one code point.
    pub open spec fn is_candidate(&self, b: Seq<u8>, pos: int, c: (usize, WordEntry)) -> bool {
        if exists|d: (usize, WordEntry)| #[trigger] self.dict_cand(b, pos, d) {
            self.dict_cand(b, pos, c)
        } else if self.unknown_spec(b, pos).len() > 0 {
            self.unknown_spec(b, pos).contains(c)
        } else {
            c == (boundary_from(b, pos + 1) as usize, self.dictionary.unknown)
        }
    }

    /// The words that may start at `pos`: those of both word tables; when
    /// there are none, the unknown words of the category of the code point
    /// there; when there are none either, one generic unknown word spanning
    /// that code point.
    fn candidates(&self, text: &str, pos: usize) -> (r: Vec<(usize, WordEntry)>)
        requires
            self.wf(),
            pos < text.spec_bytes().len() < MAX_TEXT_LEN,
            is_char_boundary(text.spec_bytes(), pos as int),
        ensures
            r@.len() > 0,
            forall|k: int| 0 <= k < r@.len()
                ==> candidate_ok(#[trigger] r@[k], pos as int, text.spec_bytes(), self.dictionary.matrix.size as int),
            forall|c: (usize, WordEntry)| #[trigger] r@.contains(c) <==> self.is_candidate(text.spec_bytes(), pos as int, c),
    {
        let ghost size = self.dictionary.matrix.size as int;
        let ghost b = text.spec_bytes();
        let mut out = table_candidates(&self.dictionary.words, Ghost(size), true, text, pos);
        match &self.user_dictionary {
            Some(user) => {
                let more = table_candidates(user, Ghost(size), false, text, pos);
                let ghost first = out@;
                let mut i: usize = 0;
                while i < more.len()
                    invariant
                        0 <= i <= more@.len(),
                        forall|k: int| 0 <= k < more@.len() ==> candidate_ok(#[trigger] more@[k], pos as int, text.spec_bytes(), size),
                        forall|k: int| 0 <= k < out@.len() ==> candidate_ok(#[trigger] out@[k], pos as int, text.spec_bytes(), size),
                        forall|c: (usize, WordEntry)| #[trigger] out@.contains(c)
                            <==> first.contains(c) || more@.subrange(0, i as int).contains(c),
                    decreases more@.len() - i,
                {
                    let ghost prev = out@;
                    out.push(more[i]);
                    proof {
                        assert(candidate_ok(out@[out@.len() - 1], pos as int, text.spec_bytes(), size));
                        lemma_push_contains(prev, more@[i as int]);
                        assert(more@.subrange(0, i + 1) =~= more@.subrange(0, i as int).push(more@[i as int]));
                        lemma_push_contains(more@.subrange(0, i as int), more@[i as int]);
                    }
                    i += 1;
                }
                proof {
                    assert(more@.subrange(0, more@.len() as int) =~= more@);
                }
            },
            None => {},
        }
        proof {
            assert forall|c: (usize, WordEntry)| #[trigger] out@.contains(c) <==> self.dict_cand(b, pos as int, c) by {}
            if out@.len() > 0 {
                assert(out@.contains(out@[0]));
                assert(self.dict_cand(b, pos as int, out@[0]));
                assert forall|c: (usize, WordEntry)| #[trigger] out@.contains(c) <==> self.is_candidate(b, pos as int, c) by {}
            }
        }
        if out.len() == 0 {
            let ghost none = out@;
            proof {
                assert forall|d: (usize, WordEntry)| !#[trigger] self.dict_cand(b, pos as int, d) by {
                    if self.dict_cand(b, pos as int, d) {
                        assert(none.contains(d));
                    }
                }
            }
            out = self.unknown_candidates(text, pos);
            if out.len() == 0 {
                let end = next_boundary(text, pos);
                out.push((end, self.dictionary.unknown));
                proof {
                    assert(candidate_ok(out@[0], pos as int, text.spec_bytes(), size));
                    lemma_push_contains(Seq::<(usize, WordEntry)>::empty(), (end, self.dictionary.unknown));
                    assert(out@ =~= Seq::<(usize, WordEntry)>::empty().push((end, self.dictionary.unknown)));
                    assert(self.unknown_spec(b, pos as int).len() == 0);
                    assert forall|c: (usize, WordEntry)| #[trigger] out@.contains(c) <==> self.is_candidate(b, pos as int, c) by {
                        assert(Seq::<(usize, WordEntry)>::empty().contains(c) == false);
                    }
                }
            } else {
                proof {
                    assert forall|c: (usize, WordEntry)| #[trigger] out@.contains(c) <==> self.is_candidate(b, pos as int, c) by {}
                }
            }
        }
        out
    }
}

/// An edge of a path: start byte, end byte, word.
pub type Edge = (usize, usize, WordEntry);

impl Tokenizer {
    /// `p` is a path of candidate words from the start of `b` to byte `q`.
    pub open spec fn is_path(&self, b: Seq<u8>, p: Seq<Edge>, q: int) -> bool {
        &&& p.len() > 0
        &&& p[0].0 == 0
        &&& forall|i: int| 0 <= i < p.len() ==> (#[trigger] p[i]).0 < p[i].1 <= b.len()
            && self.is_candidate(b, p[i].0 as int, (p[i].1, p[i].2))
        &&& forall|i: int| 0 <= i < p.len() - 1 ==> (#[trigger] p[i]).1 == p[i + 1].0
        &&& p[p.len() - 1].1 == q
    }

    /// Every node has its cost from its predecessor and is a candidate word;
    /// the start of text is the single node at 0.
    spec fn frozen_ok(&self, ends: Seq<Vec<Node>>, b: Seq<u8>, pos: int) -> bool {
        &&& ends.len() > 0
        &&& ends[0]@.len() == 1
        &&& ends[0]@[0].cost == 0
        &&& ends[0]@[0].entry.right_id == 0
        &&& forall|p: int, q: int| 0 < p < ends.len() && 0 <= q < ends[p]@.len() ==> {
            let n = #[trigger] ends[p]@[q];
            &&& n.start < pos
            &&& self.is_candidate(b, n.start as int, (p as usize, n.entry))
            &&& n.cost == ends[n.start as int]@[n.prev as int].cost
                + self.dictionary.matrix.spec_cost(ends[n.start as int]@[n.prev as int].entry.right_id as int, n.entry.left_id as int)
                + n.entry.word_cost
        }
    }

    proof fn lemma_frozen_weaken(&self, ends: Seq<Vec<Node>>, b: Seq<u8>, pos: int)
        requires
            self.frozen_ok(ends, b, pos),
        ensures
            self.frozen_ok(ends, b, pos + 1),
    {
        assert forall|p: int, q: int| 0 < p < ends.len() && 0 <= q < ends[p]@.len() implies (#[trigger] ends[p]@[q]).start < pos + 1 by {}
    }

    /// One relaxation keeps every node a candidate word with its cost from its
    /// predecessor.
    #[verifier::spinoff_prover]
    proof fn lemma_edge_step(&self, e0: Seq<Vec<Node>>, e1: Seq<Vec<Node>>, b: Seq<u8>, pos: int, c: (usize, WordEntry))
        requires
            self.frozen_ok(e0, b, pos + 1),
            0 <= pos < c.0 < e0.len(),
            self.is_candidate(b, pos, c),
            e1.len() == e0.len(),
            forall|p: int| 0 <= p < e1.len() && p != c.0 ==> #[trigger] e1[p] == e0[p],
            forall|j: int| 0 <= j < e1[c.0 as int]@.len() ==> {
                ||| (j < e0[c.0 as int]@.len() && #[trigger] e1[c.0 as int]@[j] == e0[c.0 as int]@[j])
                ||| new_node(e1[c.0 as int]@[j], pos, c.1, e0[pos]@, &self.dictionary.matrix)
            },
        ensures
            self.frozen_ok(e1, b, pos + 1),
    {
        let end = c.0 as int;
        assert(e1[pos] == e0[pos]);
        assert(e1[0] == e0[0]);
        assert forall|p: int, q: int| 0 < p < e1.len() && 0 <= q < e1[p]@.len() implies {
            let n = #[trigger] e1[p]@[q];
            &&& n.start < pos + 1
            &&& self.is_candidate(b, n.start as int, (p as usize, n.entry))
            &&& n.cost == e1[n.start as int]@[n.prev as int].cost
                + self.dictionary.matrix.spec_cost(e1[n.start as int]@[n.prev as int].entry.right_id as int, n.entry.left_id as int)
                + n.entry.word_cost
        } by {
            let n = e1[p]@[q];
            if p == end && !(q < e0[end]@.len() && e1[end]@[q] == e0[end]@[q]) {
                assert(new_node(n, pos, c.1, e0[pos]@, &self.dictionary.matrix));
            } else {
                let n0 = e0[p]@[q];
                assert(n == n0);
                assert(n0.start < pos + 1);
                assert(e1[n0.start as int] == e0[n0.start as int]);
            }
        }
    }
}

/// The cost of a path through `pred` extended by word `w`.
spec fn edge_cost(pred: Node, w: WordEntry, matrix: &ConnectionCostMatrix) -> int {
    pred.cost + matrix.spec_cost(pred.entry.right_id as int, w.left_id as int) + w.word_cost
}

/// `n` extends the best of `preds`, the nodes ending at `pos`, by word `w`.
spec fn new_node(n: Node, pos: int, w: WordEntry, preds: Seq<Node>, matrix: &ConnectionCostMatrix) -> bool {
    &&& n.start == pos
    &&& n.entry == w
    &&& n.prev < preds.len()
    &&& n.cost == edge_cost(preds[n.prev as int], w, matrix)
}

/// Node `n` is at least as good as a path of cost `cost` ending in word `w`:
/// cheaper, or as cheap and of no higher word index.
spec fn beats(n: Node, cost: int, w: WordEntry) -> bool {
    n.cost < cost || (n.cost == cost && n.entry.word_id.index <= w.word_id.index)
}

/// Relaxes the edges from the nodes ending at `pos` into word `c.1` ending at
/// `c.0`: the cheapest such path is kept for `c.1`'s right context id unless a
/// cheaper one (or an equal one of lower word index) is held already.
fn add_edge(ends: &mut Vec<Vec<Node>>, matrix: &ConnectionCostMatrix, bytes: Ghost<Seq<u8>>, pos: usize, c: (usize, WordEntry))
    requires
        matrix.wf(),
        lattice_ok(old(ends)@, bytes@, matrix.size as int),
        candidate_ok(c, pos as int, bytes@, matrix.size as int),
        bytes@.len() < MAX_TEXT_LEN,
        old(ends)@[pos as int]@.len() > 0,
    ensures
        lattice_ok(final(ends)@, bytes@, matrix.size as int),
        final(ends)@[c.0 as int]@.len() > 0,
        forall|p: int| 0 <= p < final(ends)@.len() ==> #[trigger] final(ends)@[p]@.len() >= old(ends)@[p]@.len(),
        forall|p: int| 0 <= p <= pos ==> #[trigger] final(ends)@[p] == old(ends)@[p],
        forall|q: int| #![trigger old(ends)@[pos as int]@[q]] 0 <= q < old(ends)@[pos as int]@.len() ==> exists|k: int| 0 <= k < final(ends)@[c.0 as int]@.len()
            && (#[trigger] final(ends)@[c.0 as int]@[k]).entry.right_id == c.1.right_id
            && beats(final(ends)@[c.0 as int]@[k], edge_cost(old(ends)@[pos as int]@[q], c.1, matrix), c.1),
        final(ends)@.len() == old(ends)@.len(),
        forall|p: int| 0 <= p < final(ends)@.len() && p != c.0 ==> #[trigger] final(ends)@[p] == old(ends)@[p],
        forall|k: int| 0 <= k < old(ends)@[c.0 as int]@.len() ==> (#[trigger] final(ends)@[c.0 as int]@[k]).entry.right_id
            == old(ends)@[c.0 as int]@[k].entry.right_id && final(ends)@[c.0 as int]@[k].cost <= old(ends)@[c.0 as int]@[k].cost,
        forall|k: int| 0 <= k < final(ends)@[c.0 as int]@.len() ==> {
            ||| (k < old(ends)@[c.0 as int]@.len() && #[trigger] final(ends)@[c.0 as int]@[k] == old(ends)@[c.0 as int]@[k])
            ||| new_node(final(ends)@[c.0 as int]@[k], pos as int, c.1, old(ends)@[pos as int]@, matrix)
        },
{
    let ghost size = matrix.size as int;
    let ghost e0 = ends@;
    let (end, w) = c;
    let preds = &ends[pos];
    let mut best_q: usize = 0;
    let mut best_cost: i64 = 0;
    let mut q: usize = 0;
    while q < preds.len()
        invariant
            matrix.wf(),
            lattice_ok(e0, bytes@, size),
            size == matrix.size,
            *preds == e0[pos as int],
            candidate_ok(c, pos as int, bytes@, size),
            (end, w) == c,
            bytes@.len() < MAX_TEXT_LEN,
            0 <= q <= preds@.len(),
            q > 0 ==> best_q < preds@.len(),
            -(end * EDGE_BOUND) <= best_cost <= end * EDGE_BOUND,
            forall|m: int| 0 <= m < q ==> best_cost <= edge_cost(#[trigger] preds@[m], w, matrix),
            q > 0 ==> best_cost == edge_cost(preds@[best_q as int], w, matrix),
        decreases preds@.len() - q,
    {
        let pred = preds[q];
        proof {
            assert(node_ok(e0, pos as int, e0[pos as int]@[q as int], bytes@, size));
            assert(pos * EDGE_BOUND + EDGE_BOUND <= end * EDGE_BOUND) by (nonlinear_arith)
                requires pos + 1 <= end;
        }
        let cost = pred.cost + matrix.cost(pred.entry.right_id, w.left_id) as i64 + w.word_cost as i64;
        if q == 0 || cost < best_cost {
            best_q = q;
            best_cost = cost;
        }
        q += 1;
    }
    let node = Node { start: pos, entry: w, cost: best_cost, prev: best_q };
    let old_row = &ends[end];
    let mut row: Vec<Node> = Vec::new();
    let mut found: usize = old_row.len();
    let mut k: usize = 0;
    while k < old_row.len()
        invariant
            *old_row == e0[end as int],
            0 <= k <= old_row@.len(),
            row@ == old_row@.subrange(0, k as int),
            found <= old_row@.len(),
            found < old_row@.len() ==> old_row@[found as int].entry.right_id == w.right_id,
            found == old_row@.len() ==> forall|m: int| 0 <= m < k ==> (#[trigger] old_row@[m]).entry.right_id != w.right_id,
        decreases old_row@.len() - k,
    {
        if found == old_row.len() && old_row[k].entry.right_id == w.right_id {
            found = k;
        }
        row.push(old_row[k]);
        proof {
            assert(row@ =~= old_row@.subrange(0, k + 1));
        }
        k += 1;
    }
    proof {
        assert(row@ =~= old_row@);
    }
    let ghost kept: int;
    if found < row.len() {
        let held = row[found];
        if node.cost < held.cost || (node.cost == held.cost && node.entry.word_id.index < held.entry.word_id.index) {
            row.set(found, node);
        }
        proof {
            kept = found as int;
        }
    } else {
        row.push(node);
        proof {
            kept = row@.len() - 1;
        }
    }
    ends.set(end, row);
    proof {
        let e1 = ends@;
        assert(e1[end as int]@[kept].entry.right_id == w.right_id && beats(e1[end as int]@[kept], best_cost as int, w));
        assert forall|q: int| #![trigger e0[pos as int]@[q]] 0 <= q < e0[pos as int]@.len() implies exists|k: int| 0 <= k < e1[end as int]@.len()
            && (#[trigger] e1[end as int]@[k]).entry.right_id == w.right_id
            && beats(e1[end as int]@[k], edge_cost(e0[pos as int]@[q], w, matrix), w) by {
            assert(best_cost <= edge_cost(preds@[q], w, matrix));
            assert(e1[end as int]@[kept].entry.right_id == w.right_id);
        }
        assert forall|p: int, q: int| 0 <= p < e1.len() && 0 <= q < e1[p]@.len()
            implies node_ok(e1, p, #[trigger] e1[p]@[q], bytes@, size) by {
            if p == end && e1[p]@[q] == node {
            } else {
                if p == end {
                    let q0 = if found < e0[p]@.len() && q == found { found as int } else { q };
                    assert(e1[p]@[q] == e0[p]@[q0]);
                    assert(node_ok(e0, p, e0[p]@[q0], bytes@, size));
                } else {
                    assert(node_ok(e0, p, e0[p]@[q], bytes@, size));
                }
            }
        }
        assert forall|p: int, q1: int, q2: int| 0 <= p < e1.len() && 0 <= q1 < q2 < e1[p]@.len()
            implies (#[trigger] e1[p]@[q1]).entry.right_id != (#[trigger] e1[p]@[q2]).entry.right_id by {
            if p == end {
                if found < e0[p]@.len() {
                    assert(e1[p]@[q1].entry.right_id == e0[p]@[q1].entry.right_id);
                    assert(e1[p]@[q2].entry.right_id == e0[p]@[q2].entry.right_id);
                } else if q2 == e0[p]@.len() {
                    assert(e1[p]@[q1] == e0[p]@[q1]);
                } else {
                    assert(e1[p]@[q1] == e0[p]@[q1]);
                    assert(e1[p]@[q2] == e0[p]@[q2]);
                }
            } else {
                assert(e1[p] == e0[p]);
            }
        }
    }
}

impl Tokenizer {
    /// Details of a word: from the table that `id` names, or the unknown
    /// word's when no entry has that number.
    fn details_of(&self, id: WordId) -> Vec<String> {
        if id.is_system {
            if (id.index as usize) < self.dictionary.words.details.len() {
                return self.dictionary.words.details[id.index as usize].clone();
            }
        } else {
            match &self.user_dictionary {
                Some(user) => {
                    if (id.index as usize) < user.details.len() {
                        return user.details[id.index as usize].clone();
                    }
                },
                None => {},
            }
        }
        self.dictionary.unknown_details.clone()
    }

    /// Segments `text` by a minimum-cost search through the lattice of
    /// dictionary and unknown words. The tokens cut the text into consecutive
    /// non-empty spans that rejoin to it, at least one whenever the text is not
    /// empty, and follow a path of candidate words whose ids they carry.
    #[verifier::rlimit(100)]
    pub fn tokenize(&self, text: &str) -> (r: Vec<Token>)
        requires
            self.wf(),
            text.spec_bytes().len() < MAX_TEXT_LEN,
        ensures
            is_segmentation(text.spec_bytes(), r@),
            text.spec_bytes().len() > 0 ==> exists|t: Seq<Edge>| {
                &&& self.is_path(text.spec_bytes(), t, text.spec_bytes().len() as int)
                &&& t.len() == r@.len()
                &&& forall|i: int| 0 <= i < t.len() ==> (#[trigger] r@[i]).byte_start == t[i].0
                    && r@[i].byte_end == t[i].1 && r@[i].word_id == t[i].2.word_id
            },
    {
        let ghost bytes = text.spec_bytes();
        let ghost size = self.dictionary.matrix.size as int;
        let n = text.len();
        if n == 0 {
            return Vec::new();
        }
        let mut ends: Vec<Vec<Node>> = Vec::new();
        let mut i: usize = 0;
        while i <= n
            invariant
                n == bytes.len(),
                n < MAX_TEXT_LEN,
                0 <= i <= n + 1,
                ends@.len() == i,
                forall|p: int| 0 <= p < i ==> (#[trigger] ends@[p])@.len() == 0,
            decreases n + 1 - i,
        {
            ends.push(Vec::new());
            i += 1;
        }
        let bos = Node {
            start: 0,
            entry: WordEntry { word_id: WordId { index: 0, is_system: true }, left_id: 0, right_id: 0, word_cost: 0 },
            cost: 0,
            prev: 0,
        };
        let mut first: Vec<Node> = Vec::new();
        first.push(bos);
        let ghost blank = ends@;
        ends.set(0, first);
        proof {
            broadcast use encode_utf8_valid_utf8;
            assert(valid_utf8(bytes));
            assert(is_char_boundary(bytes, 0));
            assert forall|p: int, q: int| 0 <= p < ends@.len() && 0 <= q < ends@[p]@.len()
                implies node_ok(ends@, p, #[trigger] ends@[p]@[q], bytes, size) by {
                if p > 0 {
                    assert(ends@[p] == blank[p]);
                }
            }
            assert(ends@[0]@.len() > 0);
            assert forall|p: int| 0 < p < ends@.len() implies (#[trigger] ends@[p])@.len() == 0 by {
                assert(ends@[p] == blank[p]);
            }
            assert(self.frozen_ok(ends@, bytes, 0));
        }
        let mut pos: usize = 0;
        while pos < n
            invariant
                self.wf(),
                size == self.dictionary.matrix.size,
                n == bytes.len(),
                bytes == text.spec_bytes(),
                n < MAX_TEXT_LEN,
                0 <= pos <= n,
                lattice_ok(ends@, bytes, size),
                exists|q: int| pos <= q <= n && (#[trigger] ends@[q])@.len() > 0,
                self.frozen_ok(ends@, bytes, pos as int),
            decreases n - pos,
        {
            proof {
                self.lemma_frozen_weaken(ends@, bytes, pos as int);
            }
            if ends[pos].len() > 0 {
                proof {
                    assert(node_ok(ends@, pos as int, ends@[pos as int]@[0], bytes, size));
                }
                let cands = self.candidates(text, pos);
                let mut k: usize = 0;
                while k < cands.len()
                    invariant
                        self.wf(),
                        size == self.dictionary.matrix.size,
                        n == bytes.len(),
                        n < MAX_TEXT_LEN,
                        0 <= pos < n,
                        lattice_ok(ends@, bytes, size),
                        ends@[pos as int]@.len() > 0,
                        forall|j: int| 0 <= j < cands@.len() ==> candidate_ok(#[trigger] cands@[j], pos as int, bytes, size),
                        0 <= k <= cands@.len(),
                        k > 0 ==> exists|q: int| pos < q <= n && (#[trigger] ends@[q])@.len() > 0,
                        self.frozen_ok(ends@, bytes, pos + 1),
                        bytes == text.spec_bytes(),
                        forall|c: (usize, WordEntry)| #[trigger] cands@.contains(c) <==> self.is_candidate(bytes, pos as int, c),
                    decreases cands@.len() - k,
                {
                    let ghost before = ends@;
                    add_edge(&mut ends, &self.dictionary.matrix, Ghost(bytes), pos, cands[k]);
                    proof {
                        assert(cands@.contains(cands@[k as int]));
                        self.lemma_edge_step(before, ends@, bytes, pos as int, cands@[k as int]);
                        assert(candidate_ok(cands@[k as int], pos as int, bytes, size));
                        assert(ends@[cands@[k as int].0 as int]@.len() > 0);
                        assert(ends@[pos as int] == before[pos as int]);
                    }
                    k += 1;
                }
            }
            pos += 1;
        }
        assert(ends@[n as int]@.len() > 0);
        // end of text: connect each node ending there to context id 0
        let last = &ends[n];
        let mut best_q: usize = 0;
        let mut best_cost: i64 = 0;
        let mut q: usize = 0;
        while q < last.len()
            invariant
                self.wf(),
                size == self.dictionary.matrix.size,
                lattice_ok(ends@, bytes, size),
                n == bytes.len(),
                n < MAX_TEXT_LEN,
                *last == ends@[n as int],
                self.frozen_ok(ends@, bytes, n as int),
                0 <= q <= last@.len(),
                best_q < last@.len(),
                -((n + 1) * EDGE_BOUND) <= best_cost <= (n + 1) * EDGE_BOUND,
            decreases last@.len() - q,
        {
            let node = last[q];
            proof {
                assert(node_ok(ends@, n as int, ends@[n as int]@[q as int], bytes, size));
            }
            let cost = node.cost + self.dictionary.matrix.cost(node.entry.right_id, 0) as i64;
            if q == 0 || cost < best_cost {
                best_q = q;
                best_cost = cost;
            }
            q += 1;
        }
        // follow the predecessors back to the start
        let mut path: Vec<(usize, usize, WordEntry)> = Vec::new();
        proof {
            assert(node_ok(ends@, n as int, ends@[n as int]@[best_q as int], bytes, size));
        }
        let mut p: usize = n;
        let mut q: usize = best_q;
        while p > 0
            invariant
                lattice_ok(ends@, bytes, size),
                n == bytes.len(),
                n > 0,
                0 <= p <= n,
                q < ends@[p as int]@.len(),
                path@.len() == 0 ==> p == n,
                path@.len() > 0 ==> path@[0].1 == n && path@[path@.len() - 1].0 == p,
                forall|k: int| 0 <= k < path@.len() - 1 ==> (#[trigger] path@[k]).0 == path@[k + 1].1,
                forall|k: int| 0 <= k < path@.len() ==> (#[trigger] path@[k]).0 < path@[k].1 <= n
                    && is_char_boundary(bytes, path@[k].0 as int) && is_char_boundary(bytes, path@[k].1 as int),
                is_char_boundary(bytes, p as int),
                self.frozen_ok(ends@, bytes, n as int),
                forall|k: int| 0 <= k < path@.len() ==> self.is_candidate(bytes, (#[trigger] path@[k]).0 as int, (path@[k].1, path@[k].2)),
            decreases p,
        {
            let node = ends[p][q];
            proof {
                assert(self.is_candidate(bytes, node.start as int, (p, node.entry)));
                assert(node_ok(ends@, p as int, ends@[p as int]@[q as int], bytes, size));
                assert(node_ok(ends@, node.start as int, ends@[node.start as int]@[node.prev as int], bytes, size));
            }
            path.push((node.start, p, node.entry));
            q = node.prev;
            p = node.start;
        }
        self.emit_tokens(text, &path)
    }
}

impl Tokenizer {
    /// The tokens of a backtracked path, given from its last word to its first.
    fn emit_tokens(&self, text: &str, path: &Vec<(usize, usize, WordEntry)>) -> (r: Vec<Token>)
        requires
            self.wf(),
            0 < text.spec_bytes().len() < MAX_TEXT_LEN,
            path@.len() > 0,
            path@[0].1 == text.spec_bytes().len(),
            path@[path@.len() - 1].0 == 0,
            forall|k: int| 0 <= k < path@.len() - 1 ==> (#[trigger] path@[k]).0 == path@[k + 1].1,
            forall|k: int| 0 <= k < path@.len() ==> (#[trigger] path@[k]).0 < path@[k].1 <= text.spec_bytes().len()
                && is_char_boundary(text.spec_bytes(), path@[k].0 as int) && is_char_boundary(text.spec_bytes(), path@[k].1 as int),
            forall|k: int| 0 <= k < path@.len() ==> self.is_candidate(text.spec_bytes(), (#[trigger] path@[k]).0 as int, (path@[k].1, path@[k].2)),
        ensures
            is_segmentation(text.spec_bytes(), r@),
            exists|t: Seq<Edge>| {
                &&& self.is_path(text.spec_bytes(), t, text.spec_bytes().len() as int)
                &&& t.len() == r@.len()
                &&& forall|i: int| 0 <= i < t.len() ==> (#[trigger] r@[i]).byte_start == t[i].0
                    && r@[i].byte_end == t[i].1 && r@[i].word_id == t[i].2.word_id
            },
    {
        let ghost bytes = text.spec_bytes();
        let n = text.len();
        let mut tokens: Vec<Token> = Vec::new();
        let plen = path.len();
        let mut i: usize = plen;
        while i > 0
            invariant
                n == bytes.len(),
                bytes == text.spec_bytes(),
                plen == path@.len(),
                plen > 0,
                path@[0].1 == n,
                path@[plen - 1].0 == 0,
                forall|k: int| 0 <= k < path@.len() - 1 ==> (#[trigger] path@[k]).0 == path@[k + 1].1,
                forall|k: int| 0 <= k < path@.len() ==> (#[trigger] path@[k]).0 < path@[k].1 <= n
                    && is_char_boundary(bytes, path@[k].0 as int) && is_char_boundary(bytes, path@[k].1 as int),
                0 <= i <= plen,
                forall|k: int| 0 <= k < path@.len() ==> self.is_candidate(bytes, (#[trigger] path@[k]).0 as int, (path@[k].1, path@[k].2)),
                forall|t: int| 0 <= t < tokens@.len() ==> (#[trigger] tokens@[t]).word_id == path@[plen - 1 - t].2.word_id,
                tokens@.len() == plen - i,
                forall|t: int| 0 <= t < tokens@.len() ==> {
                    &&& (#[trigger] tokens@[t]).byte_start == path@[plen - 1 - t].0
                    &&& tokens@[t].byte_end == path@[plen - 1 - t].1
                    &&& text_bytes(tokens@[t]) == bytes.subrange(tokens@[t].byte_start as int, tokens@[t].byte_end as int)
                    &&& tokens@[t].position == t
                    &&& tokens@[t].position_length == 1
                },
            decreases i,
        {
            let (s, e, w) = path[i - 1];
            proof {
                assert(path@[i - 1].0 < path@[i - 1].1 <= n);
            }
            let piece = substring(text, s, e);
            let details = self.details_of(w.word_id);
            let position = tokens.len();
            tokens.push(Token {
                text: piece,
                byte_start: s,
                byte_end: e,
                position,
                position_length: 1,
                word_id: w.word_id,
                details,
            });
            i -= 1;
        }
        proof {
            let ts = tokens@;
            assert forall|t: int| 0 <= t < ts.len() - 1 implies (#[trigger] ts[t]).byte_end == ts[t + 1].byte_start by {
                assert(path@[plen - 1 - (t + 1)].0 == path@[plen - 1 - (t + 1) + 1].1);
            }
            assert(ts[0].byte_start == 0);
            let t = Seq::new(plen as nat, |i: int| path@[plen - 1 - i]);
            assert forall|i: int| 0 <= i < t.len() implies (#[trigger] t[i]).0 < t[i].1 <= bytes.len()
                && self.is_candidate(bytes, t[i].0 as int, (t[i].1, t[i].2)) by {
                assert(t[i] == path@[plen - 1 - i]);
            }
            assert forall|i: int| 0 <= i < t.len() - 1 implies (#[trigger] t[i]).1 == t[i + 1].0 by {
                assert(path@[plen - 1 - (i + 1)].0 == path@[plen - 1 - (i + 1) + 1].1);
            }
            assert(self.is_path(bytes, t, bytes.len() as int));
            assert forall|i: int| 0 <= i < t.len() implies (#[trigger] ts[i]).byte_start == t[i].0
                && ts[i].byte_end == t[i].1 && ts[i].word_id == t[i].2.word_id by {}
        }
        tokens
    }
}

/// The code point that starts at byte `pos` of `b`.
pub open spec fn char_at_spec(b: Seq<u8>, pos: int) -> char {
    decode_utf8(b.subrange(pos, b.len() as int))[0]
}

/// The code point that starts at byte `pos`.
fn char_at(text: &str, pos: usize) -> (c: char)
    requires
        pos < text.spec_bytes().len(),
        is_char_boundary(text.spec_bytes(), pos as int),
    ensures
        c == char_at_spec(text.spec_bytes(), pos as int),
{
    let (_, rest) = text.split_at(pos);
    proof {
        if rest@.len() == 0 {
            assert(encode_utf8(rest@) =~= seq![]);
        }
        encode_utf8_decode_utf8(rest@);
    }
    rest.get_char(0)
}

impl Tokenizer {
    /// The end of the run of code points of category `cat` from byte `e` on,
    /// `count` of them already taken, at most `cap` in all when `cap` is not 0.
    pub open spec fn run_spec(&self, b: Seq<u8>, e: int, cat: usize, count: int, cap: int) -> int
        decreases b.len() - e,
    {
        if e < 0 || e >= b.len() || (cap != 0 && count >= cap) {
            e
        } else if self.dictionary.char_def.category_from(char_at_spec(b, e) as u32, 0) != Some(cat) {
            e
        } else {
            let e2 = boundary_from(b, e + 1);
            if e < e2 <= b.len() {
                self.run_spec(b, e2, cat, count + 1, cap)
            } else {
                e
            }
        }
    }

    /// The unknown words at `pos`: none when the code point there has no
    /// category or its category does not invoke unknown words; else one word of
    /// that code point, and for a grouping category one word of its run when the
    /// run is longer.
    pub open spec fn unknown_spec(&self, b: Seq<u8>, pos: int) -> Seq<(usize, WordEntry)> {
        let def = self.dictionary.char_def;
        match def.category_from(char_at_spec(b, pos) as u32, 0) {
            None => Seq::empty(),
            Some(k) => {
                if k >= def.categories@.len() || !def.categories@[k as int].invoke {
                    Seq::empty()
                } else {
                    let entry = def.unknown_entries@[k as int];
                    let e = boundary_from(b, pos + 1);
                    let one = seq![(e as usize, entry)];
                    if def.categories@[k as int].group {
                        let re = self.run_spec(b, e, k, 1, def.categories@[k as int].length as int);
                        if re > e {
                            one.push((re as usize, entry))
                        } else {
                            one
                        }
                    } else {
                        one
                    }
                }
            },
        }
    }

    /// Unknown words at `pos`, by the category of the code point there: none if
    /// it has no category or its category does not invoke unknown-word
    /// processing; else one spanning that code point, and, for a grouping
    /// category, one spanning the run of code points of that category (at most
    /// `length` of them when `length` is not 0) when the run is longer.
    fn unknown_candidates(&self, text: &str, pos: usize) -> (r: Vec<(usize, WordEntry)>)
        requires
            self.wf(),
            pos < text.spec_bytes().len() < MAX_TEXT_LEN,
            is_char_boundary(text.spec_bytes(), pos as int),
        ensures
            forall|k: int| 0 <= k < r@.len()
                ==> candidate_ok(#[trigger] r@[k], pos as int, text.spec_bytes(), self.dictionary.matrix.size as int),
            r@ == self.unknown_spec(text.spec_bytes(), pos as int),
    {
        let ghost size = self.dictionary.matrix.size as int;
        let ghost b = text.spec_bytes();
        let def = &self.dictionary.char_def;
        let n = text.len();
        let mut out: Vec<(usize, WordEntry)> = Vec::new();
        let c = char_at(text, pos);
        proof {
            def.lemma_category_in_range(c as u32, 0, size);
        }
        let cat = match def.category(c) {
            Some(k) => k,
            None => {
                proof {
                    assert(out@ =~= self.unknown_spec(b, pos as int));
                }
                return out;
            },
        };
        let data = def.categories[cat];
        if !data.invoke {
            proof {
                assert(out@ =~= self.unknown_spec(b, pos as int));
            }
            return out;
        }
        let entry = def.unknown_entries[cat];
        proof {
            assert(def.unknown_entries@[cat as int] == entry);
        }
        let end = next_boundary(text, pos);
        out.push((end, entry));
        proof {
            assert(candidate_ok(out@[0], pos as int, text.spec_bytes(), size));
        }
        if data.group {
            let ghost goal = self.run_spec(b, end as int, cat, 1, data.length as int);
            let mut run_end = end;
            let mut count: usize = 1;
            let mut go = true;
            while go && run_end < n && (data.length == 0 || count < data.length)
                invariant
                    b == text.spec_bytes(),
                    *def == self.dictionary.char_def,
                    n == b.len(),
                    n < MAX_TEXT_LEN,
                    pos < end <= run_end <= n,
                    count <= run_end - pos,
                    is_char_boundary(b, run_end as int),
                    go ==> self.run_spec(b, run_end as int, cat, count as int, data.length as int) == goal,
                    !go ==> run_end == goal,
                decreases n - run_end + if go { 1int } else { 0int },
            {
                let next = char_at(text, run_end);
                let same = match def.category(next) {
                    Some(k) => k == cat,
                    None => false,
                };
                if same {
                    run_end = next_boundary(text, run_end);
                    count += 1;
                } else {
                    go = false;
                }
            }
            if run_end > end {
                out.push((run_end, entry));
                proof {
                    assert(candidate_ok(out@[1], pos as int, text.spec_bytes(), size));
                }
            }
        }
        proof {
            assert(out@ =~= self.unknown_spec(b, pos as int));
        }
        out
    }
}

} // verus!
