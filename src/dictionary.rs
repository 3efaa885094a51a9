//! The static resources of analysis: word tables over a prefix index, and the
//! connection-cost matrix. Loaded once, never changed afterwards.

use crate::error::{LinderaError, LinderaErrorKind};
use crate::trie::PrefixDict;
use vstd::prelude::*;

verus! {

/// Identifies one entry of the system (`is_system`) or the user word table.
#[derive(Clone, Copy, Debug, PartialEq, Eq, Structural)]
pub struct WordId {
    pub index: u32,
    pub is_system: bool,
}

/// Context ids and cost of one word; lower cost is preferred.
#[derive(Clone, Copy, Debug, PartialEq, Eq, Structural)]
pub struct WordEntry {
    pub word_id: WordId,
    pub left_id: u16,
    pub right_id: u16,
    pub word_cost: i16,
}

/// A square table of costs: `cost(r, l)` is the cost of a word whose left
/// context id is `l` following one whose right context id is `r`.
pub struct ConnectionCostMatrix {
    pub size: usize,
    pub costs: Vec<i16>,
}

impl ConnectionCostMatrix {
    pub open spec fn wf(&self) -> bool {
        &&& 0 < self.size < 0x1_0000
        &&& self.costs@.len() == self.size * self.size
    }

    pub open spec fn spec_cost(&self, right_id: int, left_id: int) -> int {
        self.costs@[right_id * self.size + left_id] as int
    }

    /// A matrix of `size` x `size` costs, row by row; `None` when `costs` has
    /// another length or `size` is 0 or above 65535.
    pub fn new(size: usize, costs: Vec<i16>) -> (r: Option<ConnectionCostMatrix>)
        ensures
            r is Some <==> 0 < size < 0x1_0000 && costs@.len() == size * size,
            r matches Some(m) ==> m.wf() && m.size == size && m.costs@ == costs@,
    {
        if size == 0 || size >= 0x1_0000 {
            return None;
        }
        proof {
            assert(size * size <= 0xffff * 0xffff) by (nonlinear_arith)
                requires size < 0x1_0000;
        }
        if costs.len() != size * size {
            return None;
        }
        Some(ConnectionCostMatrix { size, costs })
    }

    pub fn cost(&self, right_id: u16, left_id: u16) -> (r: i16)
        requires
            self.wf(),
            (right_id as int) < self.size,
            (left_id as int) < self.size,
        ensures
            r as int == self.spec_cost(right_id as int, left_id as int),
    {
        proof {
            let s = self.size as int;
            let rr = right_id as int;
            let ll = left_id as int;
            assert(rr * s + ll < s * s) by (nonlinear_arith)
                requires 0 <= rr < s, 0 <= ll < s;
            assert(0 <= rr * s) by (nonlinear_arith)
                requires 0 <= rr, 0 <= s;
            assert(s * s <= 0xffff * 0xffff) by (nonlinear_arith)
                requires 0 < s < 0x1_0000;
        }
        let row = right_id as usize * self.size;
        self.costs[row + left_id as usize]
    }
}

/// The little-endian two's-complement value of bytes `lo`, `hi`.
pub open spec fn le_i16(lo: u8, hi: u8) -> int {
    let v = lo as int + 256 * hi as int;
    if v >= 0x8000 { v - 0x1_0000 } else { v }
}

/// The little-endian unsigned value of bytes `lo`, `hi`.
pub open spec fn le_u16(lo: u8, hi: u8) -> int {
    lo as int + 256 * hi as int
}

/// `data` is a well-formed matrix resource: two equal non-zero little-endian
/// 16-bit sizes, then that many squared 16-bit costs.
pub open spec fn matrix_resource_ok(data: Seq<u8>) -> bool {
    &&& data.len() >= 4
    &&& le_u16(data[0], data[1]) == le_u16(data[2], data[3])
    &&& le_u16(data[0], data[1]) > 0
    &&& data.len() == 4 + 2 * le_u16(data[0], data[1]) * le_u16(data[0], data[1])
}

fn decode_i16(lo: u8, hi: u8) -> (r: i16)
    ensures
        r as int == le_i16(lo, hi),
{
    let v: u32 = lo as u32 + 256 * hi as u32;
    if v >= 0x8000 {
        (v as i32 - 0x1_0000) as i16
    } else {
        v as i16
    }
}

impl ConnectionCostMatrix {
    /// Decodes the matrix resource. A missing resource is an `Io` error naming
    /// it; a malformed one, a `Deserialize` error.
    pub fn load(data: Option<&[u8]>) -> (r: Result<ConnectionCostMatrix, LinderaError>)
        ensures
            data is None <==> (r is Err && r->Err_0.kind == LinderaErrorKind::Io),
            data is None ==> r->Err_0.message@ == "matrix.mtx is missing"@,
            data is Some ==> (r is Ok <==> matrix_resource_ok(data->0@)),
            (data is Some && !matrix_resource_ok(data->0@)) ==> (r is Err && r->Err_0.kind == LinderaErrorKind::Deserialize),
            r is Ok ==> ({
                let m = r->Ok_0;
                let d = data->0@;
                &&& data is Some
                &&& m.wf()
                &&& m.size == le_u16(d[0], d[1])
                &&& forall|k: int| 0 <= k < m.costs@.len() ==> #[trigger] m.costs@[k] as int == le_i16(d[4 + 2 * k], d[5 + 2 * k])
            }),
    {
        let d = match data {
            Some(d) => d,
            None => {
                return Err(LinderaErrorKind::Io.with_message(String::from_str("matrix.mtx is missing")));
            },
        };
        if d.len() < 4 {
            return Err(LinderaErrorKind::Deserialize.with_message(String::from_str("matrix.mtx is truncated")));
        }
        let forward = d[0] as usize + 256 * d[1] as usize;
        let backward = d[2] as usize + 256 * d[3] as usize;
        assert(forward == le_u16(d@[0], d@[1]));
        assert(backward == le_u16(d@[2], d@[3]));
        if forward != backward || forward == 0 {
            return Err(LinderaErrorKind::Deserialize.with_message(String::from_str("matrix.mtx is not square")));
        }
        proof {
            assert(forward * forward <= 0xffff * 0xffff) by (nonlinear_arith)
                requires forward <= 0xffff;
        }
        let cells = forward * forward;
        let needed: u64 = 4 + 2 * (cells as u64);
        proof {
            let f = le_u16(d@[0], d@[1]);
            assert(cells as int == f * f) by (nonlinear_arith)
                requires cells as int == forward as int * forward as int, forward as int == f;
            assert(needed as int == 4 + 2 * f * f) by (nonlinear_arith)
                requires needed as int == 4 + 2 * cells as int, cells as int == f * f;
        }
        if d.len() as u64 != needed {
            assert(!matrix_resource_ok(d@));
            return Err(LinderaErrorKind::Deserialize.with_message(String::from_str("matrix.mtx has a wrong length")));
        }
        assert(matrix_resource_ok(d@));
        let mut costs: Vec<i16> = Vec::new();
        let mut k: usize = 0;
        while k < cells
            invariant
                d@.len() == d.len(),
                d@.len() == 4 + 2 * cells,
                0 <= k <= cells,
                costs@.len() == k,
                forall|j: int| 0 <= j < k ==> #[trigger] costs@[j] as int == le_i16(d@[4 + 2 * j], d@[5 + 2 * j]),
            decreases cells - k,
        {
            let i = 4 + 2 * k;
            costs.push(decode_i16(d[i], d[i + 1]));
            k += 1;
        }
        Ok(ConnectionCostMatrix { size: forward, costs })
    }
}

/// A word table: a prefix index whose entry numbers point into `entries`, with
/// the detail strings of each entry.
pub struct WordTable {
    pub index: PrefixDict,
    pub entries: Vec<WordEntry>,
    pub details: Vec<Vec<String>>,
}

impl WordTable {
    /// Every entry number in the index names an entry, every entry's context
    /// ids fit a matrix of `size`, and every entry has its details.
    pub open spec fn wf(&self, size: int) -> bool {
        &&& self.index.wf()
        &&& forall|j: int, t: int| 0 <= j < self.index.view().len() && 0 <= t < self.index.view()[j].1.len()
            ==> (#[trigger] self.index.view()[j].1[t] as int) < self.entries@.len()
        &&& forall|e: int| 0 <= e < self.entries@.len()
            ==> (#[trigger] self.entries@[e]).left_id < size && self.entries@[e].right_id < size
        &&& self.details@.len() == self.entries@.len()
    }
}

/// Scanning hints of a character category: whether unknown words are made for
/// it, whether runs of it are grouped, and the longest run (0: unbounded).
#[derive(Clone, Copy, Debug, PartialEq, Eq, Structural)]
pub struct CategoryData {
    pub invoke: bool,
    pub group: bool,
    pub length: usize,
}

/// Character categories: `ranges` maps code points `lo..=hi` to a category
/// number, the first range that holds a code point deciding; each category has
/// its hints and the entry of its unknown words.
pub struct CharacterDefinition {
    pub categories: Vec<CategoryData>,
    pub unknown_entries: Vec<WordEntry>,
    pub ranges: Vec<(u32, u32, usize)>,
}

impl CharacterDefinition {
    pub open spec fn wf(&self, size: int) -> bool {
        &&& self.unknown_entries@.len() == self.categories@.len()
        &&& forall|i: int| 0 <= i < self.ranges@.len() ==> (#[trigger] self.ranges@[i]).2 < self.categories@.len()
        &&& forall|i: int| 0 <= i < self.unknown_entries@.len()
            ==> (#[trigger] self.unknown_entries@[i]).left_id < size && self.unknown_entries@[i].right_id < size
    }

    /// The category of the first range from the `i`-th on that holds `c`.
    pub open spec fn category_from(&self, c: u32, i: int) -> Option<usize>
        decreases self.ranges@.len() - i,
    {
        if i < 0 || i >= self.ranges@.len() {
            None
        } else if self.ranges@[i].0 <= c <= self.ranges@[i].1 {
            Some(self.ranges@[i].2)
        } else {
            self.category_from(c, i + 1)
        }
    }

    pub proof fn lemma_category_in_range(&self, c: u32, i: int, size: int)
        requires
            self.wf(size),
        ensures
            self.category_from(c, i) matches Some(k) ==> k < self.categories@.len(),
        decreases self.ranges@.len() - i,
    {
        if 0 <= i < self.ranges@.len() && !(self.ranges@[i].0 <= c <= self.ranges@[i].1) {
            self.lemma_category_in_range(c, i + 1, size);
        }
    }

    /// The category of `c`, if a range holds it.
    pub fn category(&self, c: char) -> (r: Option<usize>)
        ensures
            r == self.category_from(c as u32, 0),
            r is None <==> !exists|i: int| 0 <= i < self.ranges@.len()
                && (#[trigger] self.ranges@[i]).0 <= c as u32 <= self.ranges@[i].1,
            r matches Some(k) ==> exists|i: int| 0 <= i < self.ranges@.len()
                && (#[trigger] self.ranges@[i]).0 <= c as u32 <= self.ranges@[i].1 && self.ranges@[i].2 == k
                && forall|m: int| 0 <= m < i ==> !((#[trigger] self.ranges@[m]).0 <= c as u32 <= self.ranges@[m].1),
    {
        let code = c as u32;
        let mut i: usize = 0;
        while i < self.ranges.len()
            invariant
                code == c as u32,
                0 <= i <= self.ranges@.len(),
                forall|m: int| 0 <= m < i ==> !((#[trigger] self.ranges@[m]).0 <= code <= self.ranges@[m].1),
                self.category_from(code, 0) == self.category_from(code, i as int),
            decreases self.ranges@.len() - i,
        {
            let (lo, hi, k) = self.ranges[i];
            if lo <= code && code <= hi {
                proof {
                    assert(self.ranges@[i as int].0 <= c as u32 <= self.ranges@[i as int].1);
                }
                return Some(k);
            }
            i += 1;
        }
        None
    }
}

/// The system dictionary: its word table, the connection costs, the character
/// categories, and the entry used for a code point no other candidate covers.
pub struct Dictionary {
    pub words: WordTable,
    pub matrix: ConnectionCostMatrix,
    pub char_def: CharacterDefinition,
    pub unknown: WordEntry,
    pub unknown_details: Vec<String>,
}

impl Dictionary {
    pub open spec fn wf(&self) -> bool {
        &&& self.matrix.wf()
        &&& self.words.wf(self.matrix.size as int)
        &&& self.char_def.wf(self.matrix.size as int)
        &&& (self.unknown.left_id as int) < self.matrix.size
        &&& (self.unknown.right_id as int) < self.matrix.size
    }
}

} // verus!
