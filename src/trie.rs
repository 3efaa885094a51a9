//! Prefix-searchable index from byte strings to entry numbers, laid out as a
//! double-array trie.

use vstd::prelude::*;

verus! {

/// `a` comes strictly before `b` in byte-string order, as std orders slices:
/// at the first byte where they differ `a`'s is smaller, or `a` is a proper
/// prefix of `b`.
pub open spec fn lex_lt(a: Seq<u8>, b: Seq<u8>) -> bool {
    ||| exists|k: int| 0 <= k < a.len() && k < b.len() && a.subrange(0, k) == b.subrange(0, k) && a[k] < b[k]
    ||| (a.len() < b.len() && b.subrange(0, a.len() as int) == a)
}

pub open spec fn lex_le(a: Seq<u8>, b: Seq<u8>) -> bool {
    lex_lt(a, b) || a == b
}

/// `p` is a prefix of `s`.
pub open spec fn is_prefix(p: Seq<u8>, s: Seq<u8>) -> bool {
    p.len() <= s.len() && s.subrange(0, p.len() as int) == p
}

/// The summed length of some byte strings.
pub open spec fn total_len(ks: Seq<Seq<u8>>) -> int
    decreases ks.len(),
{
    if ks.len() == 0 {
        0
    } else {
        total_len(ks.drop_last()) + ks.last().len()
    }
}

/// Bound on key bytes plus keys: each trie node adds at most one block of 256
/// units, which keeps every offset below the 2^29 that the layout asserts.
pub const MAX_KEYSET_SIZE: usize = 0x20_0000;

/// The byte strings and values that a double array can be built from: keys in
/// strictly increasing order, none empty or holding a NUL byte, values below 2^31,
/// and fewer than `MAX_KEYSET_SIZE` key bytes and keys together.
pub open spec fn valid_keyset(ks: Seq<(Seq<u8>, u32)>) -> bool {
    &&& ks.len() > 0
    &&& total_len(ks.map_values(|p: (Seq<u8>, u32)| p.0)) + ks.len() < MAX_KEYSET_SIZE
    &&& forall|i: int| 0 <= i < ks.len() - 1 ==> lex_lt(#[trigger] ks[i].0, ks[i + 1].0)
    &&& forall|i: int| 0 <= i < ks.len() ==> ks[i].0.len() > 0 && ks[i].1 < 0x8000_0000
    &&& forall|i: int, k: int| 0 <= i < ks.len() && 0 <= k < ks[i].0.len() ==> ks[i].0[k] != 0
}

pub open spec fn keyset_view(ks: Seq<(Vec<u8>, u32)>) -> Seq<(Seq<u8>, u32)> {
    ks.map_values(|p: (Vec<u8>, u32)| (p.0@, p.1))
}

/// What a prefix search over keyset `ks` reports for `key`: each `(value, length)`
/// pair names a key of `ks` that is a non-empty prefix of `key`, every such key is
/// reported, and lengths increase.
pub open spec fn prefix_result(ks: Seq<(Seq<u8>, u32)>, key: Seq<u8>, r: Seq<(u32, usize)>) -> bool {
    &&& forall|i: int| #![trigger r[i]] 0 <= i < r.len() ==> 0 < r[i].1 <= key.len()
        && exists|j: int| 0 <= j < ks.len() && ks[j].0 == key.subrange(0, r[i].1 as int) && ks[j].1 == r[i].0
    &&& forall|j: int| #![trigger ks[j]] 0 <= j < ks.len() && is_prefix(ks[j].0, key)
        ==> exists|i: int| 0 <= i < r.len() && r[i].0 == ks[j].1 && r[i].1 == ks[j].0.len()
    &&& forall|i: int, k: int| 0 <= i < k < r.len() ==> r[i].1 < r[k].1
}

/// The bytes of the double array that yada lays out for a keyset.
pub uninterp spec fn double_array_of(ks: Seq<(Seq<u8>, u32)>) -> Seq<u8>;

/// Relies on yada's `DoubleArrayBuilder::build`: given a sorted keyset of distinct,
/// non-empty, NUL-free keys with values below 2^31, small enough that no offset
/// reaches 2^29, it returns the double array laid out for that keyset. On such a
/// keyset the root call of the layout cannot fail, so the result is always `Some`.
#[verifier::external_body]
fn double_array_build(keyset: &Vec<(Vec<u8>, u32)>) -> (r: Option<Vec<u8>>)
    requires
        valid_keyset(keyset_view(keyset@)),
    ensures
        r is Some,
        r matches Some(b) ==> b@ == double_array_of(keyset_view(keyset@)),
{
    yada::builder::DoubleArrayBuilder::build(keyset.as_slice())
}

/// Relies on yada's `DoubleArray::common_prefix_search`: over an array laid out for
/// a keyset, it yields `(value, length)` for each key that is a prefix of the
/// query, shortest first. A NUL byte in the query would step into an unused unit,
/// so the query holds none.
#[verifier::external_body]
fn double_array_prefixes(da: &Vec<u8>, key: &[u8]) -> (r: Vec<(u32, usize)>)
    requires
        exists|ks: Seq<(Seq<u8>, u32)>| valid_keyset(ks) && da@ == double_array_of(ks),
        !has_nul(key@),
    ensures
        forall|ks: Seq<(Seq<u8>, u32)>|
            valid_keyset(ks) && da@ == double_array_of(ks) ==> prefix_result(ks, key@, r@),
{
    yada::DoubleArray::new(da.as_slice()).common_prefix_search(key).collect()
}

/// Relies on std's `slice::sort`: the result is a permutation of the input, and
/// pairs are ordered lexicographically, so keys come in byte-string order; a
/// permutation of distinct pairs holds no pair twice.
#[verifier::external_body]
pub(crate) fn sort_keyset(v: Vec<(Vec<u8>, u32)>) -> (r: Vec<(Vec<u8>, u32)>)
    ensures
        r@.len() == v@.len(),
        forall|x: (Seq<u8>, u32)| keyset_view(r@).contains(x) <==> keyset_view(v@).contains(x),
        forall|i: int, j: int| 0 <= i < j < r@.len() ==> lex_le(r@[i].0@, r@[j].0@),
        (forall|i: int, j: int| 0 <= i < j < v@.len() ==> keyset_view(v@)[i] != keyset_view(v@)[j])
            ==> (forall|i: int, j: int| 0 <= i < j < r@.len() ==> keyset_view(r@)[i] != keyset_view(r@)[j]),
{
    let mut v = v;
    v.sort();
    v
}

} // verus!


verus! {

/// Why an index cannot be built.
#[derive(Debug, Clone, Copy, PartialEq, Eq, Structural)]
pub enum TrieError {
    /// A key is empty.
    EmptyKey,
    /// A key holds a NUL byte, which the double array reserves.
    NulByte,
    /// Keys are not in strictly increasing byte-string order.
    NotSorted,
    /// More keys than the double array can number.
    TooManyKeys,
    /// Key bytes and keys together reach `MAX_KEYSET_SIZE`.
    TooLarge,
    /// Two keys are equal.
    DuplicateKey,
}

pub open spec fn has_nul(b: Seq<u8>) -> bool {
    exists|k: int| 0 <= k < b.len() && b[k] == 0
}

/// `a` is strictly before `b` in byte-string order.
pub fn bytes_lt(a: &[u8], b: &[u8]) -> (r: bool)
    ensures
        r == lex_lt(a@, b@),
{
    let mut k: usize = 0;
    while k < a.len() && k < b.len()
        invariant
            0 <= k <= a@.len(),
            k <= b@.len(),
            a@.subrange(0, k as int) == b@.subrange(0, k as int),
        decreases a@.len() - k,
    {
        if a[k] != b[k] {
            if a[k] < b[k] {
                return true;
            }
            proof {
                assert forall|m: int| 0 <= m < a@.len() && m < b@.len() && a@.subrange(0, m) == b@.subrange(0, m)
                    implies !(a@[m] < b@[m]) by {
                    if m < k {
                        assert(a@.subrange(0, k as int)[m] == b@.subrange(0, k as int)[m]);
                    } else if m > k {
                        assert(a@.subrange(0, m)[k as int] == b@.subrange(0, m)[k as int]);
                    }
                }
            }
            return false;
        }
        proof {
            assert(a@.subrange(0, k + 1) =~= a@.subrange(0, k as int).push(a@[k as int]));
            assert(b@.subrange(0, k + 1) =~= b@.subrange(0, k as int).push(b@[k as int]));
        }
        k += 1;
    }
    proof {
        assert forall|m: int| 0 <= m < a@.len() && m < b@.len() && a@.subrange(0, m) == b@.subrange(0, m)
            implies !(a@[m] < b@[m]) by {
            assert(a@.subrange(0, k as int)[m] == b@.subrange(0, k as int)[m]);
        }
    }
    if a.len() < b.len() {
        proof {
            assert(a@.subrange(0, k as int) =~= a@);
        }
        true
    } else {
        false
    }
}

/// The total of a prefix never exceeds the whole.
proof fn lemma_total_len_prefix(ks: Seq<Seq<u8>>, k: int)
    requires
        0 <= k <= ks.len(),
    ensures
        total_len(ks.subrange(0, k)) <= total_len(ks),
    decreases ks.len() - k,
{
    if k < ks.len() {
        lemma_total_len_prefix(ks, k + 1);
        assert(ks.subrange(0, k + 1).drop_last() =~= ks.subrange(0, k));
    } else {
        assert(ks.subrange(0, k) =~= ks);
    }
}

/// An immutable index from byte-string keys to lists of entry numbers.
pub struct PrefixDict {
    da: Vec<u8>,
    keys: Ghost<Seq<(Seq<u8>, u32)>>,
    groups: Vec<Vec<u32>>,
}

impl PrefixDict {
    /// Each key with the entry numbers stored under it, in key order.
    pub closed spec fn view(&self) -> Seq<(Seq<u8>, Seq<u32>)> {
        Seq::new(self.keys@.len(), |j: int| (self.keys@[j].0, self.groups@[j]@))
    }

    pub closed spec fn wf(&self) -> bool {
        &&& self.groups@.len() == self.keys@.len()
        &&& self.keys@.len() > 0 ==> valid_keyset(self.keys@) && self.da@ == double_array_of(self.keys@)
        &&& forall|j: int| 0 <= j < self.keys@.len() ==> #[trigger] self.keys@[j].1 == j
    }

    /// An index of the given keys, key `j` holding `keys[j].1`. The keys must be
    /// non-empty, free of NUL bytes, fewer than 2^31, and strictly increasing.
    pub fn new(keys: &Vec<(Vec<u8>, Vec<u32>)>) -> (r: Result<PrefixDict, TrieError>)
        ensures
            r matches Ok(d) ==> d.wf() && d.view() == keys@.map_values(|p: (Vec<u8>, Vec<u32>)| (p.0@, p.1@)),
            r is Err <==> {
                ||| keys@.len() >= 0x8000_0000
                ||| total_len(keys@.map_values(|p: (Vec<u8>, Vec<u32>)| p.0@)) + keys@.len() >= MAX_KEYSET_SIZE
                ||| exists|j: int| 0 <= j < keys@.len() && ((#[trigger] keys@[j]).0@.len() == 0 || has_nul(keys@[j].0@))
                ||| exists|j: int| 0 <= j < keys@.len() - 1 && !lex_lt(#[trigger] keys@[j].0@, keys@[j + 1].0@)
            },
    {
        let ghost kv = keys@.map_values(|p: (Vec<u8>, Vec<u32>)| (p.0@, p.1@));
        let n = keys.len();
        if n >= 0x8000_0000 {
            return Err(TrieError::TooManyKeys);
        }
        let ghost kb = keys@.map_values(|p: (Vec<u8>, Vec<u32>)| p.0@);
        let mut keyset: Vec<(Vec<u8>, u32)> = Vec::new();
        let mut groups: Vec<Vec<u32>> = Vec::new();
        let mut total: usize = 0;
        let mut j: usize = 0;
        while j < n
            invariant
                n == keys@.len(),
                n < 0x8000_0000,
                0 <= j <= n,
                kb == keys@.map_values(|p: (Vec<u8>, Vec<u32>)| p.0@),
                total as int == total_len(kb.subrange(0, j as int)) + j,
                total < MAX_KEYSET_SIZE,
                keyset@.len() == j,
                groups@.len() == j,
                forall|i: int| 0 <= i < j ==> (#[trigger] keyset@[i]).0@ == keys@[i].0@ && keyset@[i].1 == i
                    && groups@[i]@ == keys@[i].1@,
                forall|i: int| 0 <= i < j ==> (#[trigger] keys@[i]).0@.len() > 0 && !has_nul(keys@[i].0@),
                forall|i: int| 0 <= i < j - 1 ==> lex_lt(#[trigger] keys@[i].0@, keys@[i + 1].0@),
            decreases n - j,
        {
            let key = &keys[j].0;
            if key.len() == 0 {
                proof {
                    assert(keys@[j as int].0@.len() == 0);
                }
                return Err(TrieError::EmptyKey);
            }
            let mut k: usize = 0;
            while k < key.len()
                invariant
                    n == keys@.len(),
                    n < 0x8000_0000,
                    0 <= j < n,
                    *key == keys@[j as int].0,
                    0 <= k <= key@.len(),
                    forall|c: int| 0 <= c < k ==> key@[c] != 0,
                decreases key@.len() - k,
            {
                if key[k] == 0 {
                    proof {
                        assert(has_nul(keys@[j as int].0@));
                    }
                    return Err(TrieError::NulByte);
                }
                k += 1;
            }
            if j > 0 && !bytes_lt(keys[j - 1].0.as_slice(), key.as_slice()) {
                proof {
                    assert(!lex_lt(keys@[j - 1].0@, keys@[(j - 1) + 1].0@));
                }
                return Err(TrieError::NotSorted);
            }
            proof {
                assert(!has_nul(keys@[j as int].0@));
            }
            proof {
                assert(kb.subrange(0, j + 1).drop_last() =~= kb.subrange(0, j as int));
                assert(kb.subrange(0, j + 1).last() == key@);
            }
            if key.len() >= MAX_KEYSET_SIZE - total || key.len() + 1 >= MAX_KEYSET_SIZE - total {
                proof {
                    lemma_total_len_prefix(kb, j as int + 1);
                }
                return Err(TrieError::TooLarge);
            }
            total = total + key.len() + 1;
            keyset.push((vstd::slice::slice_to_vec(key.as_slice()), j as u32));
            groups.push(vstd::slice::slice_to_vec(keys[j].1.as_slice()));
            j += 1;
        }
        let ghost ks = keyset_view(keyset@);
        proof {
            assert(kb.subrange(0, n as int) =~= kb);
            assert(ks.map_values(|p: (Seq<u8>, u32)| p.0) =~= kb) by {
                assert forall|i: int| 0 <= i < n implies ks.map_values(|p: (Seq<u8>, u32)| p.0)[i] == kb[i] by {
                    assert(keyset@[i].0@ == keys@[i].0@);
                }
            }
            assert(!(total_len(keys@.map_values(|p: (Vec<u8>, Vec<u32>)| p.0@)) + keys@.len() >= MAX_KEYSET_SIZE));
            assert(!(exists|j: int| 0 <= j < keys@.len() && ((#[trigger] keys@[j]).0@.len() == 0 || has_nul(keys@[j].0@))));
            assert(!(exists|j: int| 0 <= j < keys@.len() - 1 && !lex_lt(#[trigger] keys@[j].0@, keys@[j + 1].0@)));
            assert forall|i: int| 0 <= i < ks.len() implies #[trigger] ks[i].1 == i by {
                assert(keyset@[i].1 == i);
            }
        }
        let dict = if n == 0 {
            PrefixDict { da: Vec::new(), keys: Ghost(ks), groups }
        } else {
            proof {
                assert forall|i: int| 0 <= i < ks.len() - 1 implies lex_lt(#[trigger] ks[i].0, ks[i + 1].0) by {
                    assert(keyset@[i].0@ == keys@[i].0@);
                    assert(keyset@[i + 1].0@ == keys@[i + 1].0@);
                }
                assert forall|i: int| 0 <= i < ks.len() implies ks[i].0.len() > 0 && ks[i].1 < 0x8000_0000 by {
                    assert(keyset@[i].0@ == keys@[i].0@);
                    assert(keys@[i].0@.len() > 0);
                }
                assert forall|i: int, c: int| 0 <= i < ks.len() && 0 <= c < ks[i].0.len() implies ks[i].0[c] != 0 by {
                    assert(keyset@[i].0@ == keys@[i].0@);
                    assert(!has_nul(keys@[i].0@));
                }
            }
            let da = double_array_build(&keyset).unwrap();
            PrefixDict { da, keys: Ghost(ks), groups }
        };
        proof {
            assert(dict.view() =~= kv);
        }
        Ok(dict)
    }
}

impl PrefixDict {
    /// Every entry number stored under a key that is a prefix of `input`, each
    /// paired with that key's length; nothing else. Keys are never empty.
    pub fn common_prefix_search(&self, input: &[u8]) -> (r: Vec<(usize, u32)>)
        requires
            self.wf(),
        ensures
            forall|i: int| #![trigger r@[i]] 0 <= i < r@.len() ==> {
                let (len, e) = r@[i];
                &&& 0 < len <= input@.len()
                &&& exists|j: int| 0 <= j < self.view().len() && self.view()[j].0 == input@.subrange(0, len as int)
                    && #[trigger] self.view()[j].1.contains(e)
            },
            forall|j: int, t: int| 0 <= j < self.view().len() && 0 <= t < self.view()[j].1.len()
                && is_prefix(self.view()[j].0, input@)
                ==> r@.contains((self.view()[j].0.len() as usize, #[trigger] self.view()[j].1[t])),
    {
        let mut out: Vec<(usize, u32)> = Vec::new();
        if self.groups.len() == 0 {
            return out;
        }
        // no key holds a NUL byte, so no key matches across one: search up to the first
        let mut cut: usize = 0;
        while cut < input.len() && input[cut] != 0
            invariant
                0 <= cut <= input@.len(),
                forall|c: int| 0 <= c < cut ==> input@[c] != 0,
            decreases input@.len() - cut,
        {
            cut += 1;
        }
        let query = vstd::slice::slice_subrange(input, 0, cut);
        assert(!has_nul(query@));
        let found = double_array_prefixes(&self.da, query);
        let ghost ks = self.keys@;
        let ghost gs = self.groups@;
        let ghost mut srcs: Seq<int> = Seq::empty();
        assert(prefix_result(ks, query@, found@));
        let mut i: usize = 0;
        while i < found.len()
            invariant
                self.wf(),
                ks == self.keys@,
                gs == self.groups@,
                prefix_result(ks, query@, found@),
                0 <= i <= found@.len(),
                srcs.len() == out@.len(),
                forall|k: int| #![trigger out@[k]] 0 <= k < out@.len() ==>
                    0 < out@[k].0 <= query@.len() && 0 <= srcs[k] < ks.len()
                    && ks[srcs[k]].0 == query@.subrange(0, out@[k].0 as int) && gs[srcs[k]]@.contains(out@[k].1),
                forall|a: int, t: int| 0 <= a < i && 0 <= t < gs[found@[a].0 as int]@.len()
                    ==> out@.contains((found@[a].1, #[trigger] gs[found@[a].0 as int]@[t])),
            decreases found@.len() - i,
        {
            let (v, len) = found[i];
            proof {
                let j = choose|j: int| 0 <= j < ks.len() && ks[j].0 == query@.subrange(0, len as int) && ks[j].1 == v;
                assert(ks[j].1 == j);
            }
            let group = &self.groups[v as usize];
            let mut t: usize = 0;
            while t < group.len()
                invariant
                    self.wf(),
                    ks == self.keys@,
                    gs == self.groups@,
                    prefix_result(ks, query@, found@),
                    0 <= i < found@.len(),
                    (v, len) == found@[i as int],
                    (v as int) < gs.len(),
                    ks[v as int].0 == query@.subrange(0, len as int),
                    0 < len <= query@.len(),
                    *group == gs[v as int],
                    0 <= t <= group@.len(),
                    srcs.len() == out@.len(),
                    forall|k: int| #![trigger out@[k]] 0 <= k < out@.len() ==>
                        0 < out@[k].0 <= query@.len() && 0 <= srcs[k] < ks.len()
                        && ks[srcs[k]].0 == query@.subrange(0, out@[k].0 as int) && gs[srcs[k]]@.contains(out@[k].1),
                    forall|a: int, u: int| 0 <= a < i && 0 <= u < gs[found@[a].0 as int]@.len()
                        ==> out@.contains((found@[a].1, #[trigger] gs[found@[a].0 as int]@[u])),
                    forall|u: int| 0 <= u < t ==> out@.contains((len, #[trigger] group@[u])),
                decreases group@.len() - t,
            {
                let e = group[t];
                let ghost prev = out@;
                out.push((len, e));
                proof {
                    srcs = srcs.push(v as int);
                    assert forall|x: (usize, u32)| prev.contains(x) implies out@.contains(x) by {
                        let w = choose|w: int| 0 <= w < prev.len() && prev[w] == x;
                        assert(out@[w] == x);
                    }
                    assert(gs[v as int]@[t as int] == e);
                    assert(gs[v as int]@.contains(e));
                    assert(out@[out@.len() - 1] == (len, e));
                    assert forall|k: int| #![trigger out@[k]] 0 <= k < out@.len() implies
                        0 < out@[k].0 <= query@.len() && 0 <= srcs[k] < ks.len()
                        && ks[srcs[k]].0 == query@.subrange(0, out@[k].0 as int) && gs[srcs[k]]@.contains(out@[k].1) by {
                        if k < prev.len() {
                            assert(out@[k] == prev[k]);
                        }
                    }
                    assert forall|a: int, u: int| 0 <= a < i && 0 <= u < gs[found@[a].0 as int]@.len()
                        implies out@.contains((found@[a].1, #[trigger] gs[found@[a].0 as int]@[u])) by {
                        assert(prev.contains((found@[a].1, gs[found@[a].0 as int]@[u])));
                    }
                    assert forall|u: int| 0 <= u <= t implies out@.contains((len, #[trigger] group@[u])) by {
                        if u < t {
                            assert(prev.contains((len, group@[u])));
                        } else {
                            assert(out@[out@.len() - 1] == (len, group@[u]));
                        }
                    }
                }
                t += 1;
            }
            i += 1;
        }
        proof {
            assert forall|k: int| #![trigger out@[k]] 0 <= k < out@.len() implies {
                let (len, e) = out@[k];
                &&& 0 < len <= query@.len()
                &&& exists|j: int| 0 <= j < self.view().len() && self.view()[j].0 == query@.subrange(0, len as int)
                    && #[trigger] self.view()[j].1.contains(e)
            } by {
                assert(0 < out@[k].0 <= query@.len() && 0 <= srcs[k] < ks.len());
                let j = srcs[k];
                assert(self.view()[j].1 == gs[j]@);
                assert(self.view()[j].1.contains(out@[k].1));
            }
            assert forall|j: int, t: int| 0 <= j < self.view().len() && 0 <= t < self.view()[j].1.len()
                && is_prefix(self.view()[j].0, query@)
                implies out@.contains((self.view()[j].0.len() as usize, #[trigger] self.view()[j].1[t])) by {
                assert(ks[j] == ks[j]);
                let a = choose|a: int| 0 <= a < found@.len() && found@[a].0 == ks[j].1 && found@[a].1 == ks[j].0.len();
                assert(found@[a].0 == j);
                assert(gs[found@[a].0 as int]@[t] == self.view()[j].1[t]);
            }
        }
        proof {
            assert forall|i: int| #![trigger out@[i]] 0 <= i < out@.len() implies {
                let (len, e) = out@[i];
                &&& 0 < len <= input@.len()
                &&& exists|j: int| 0 <= j < self.view().len() && self.view()[j].0 == input@.subrange(0, len as int)
                    && #[trigger] self.view()[j].1.contains(e)
            } by {
                let (len, e) = out@[i];
                let j = choose|j: int| 0 <= j < self.view().len() && self.view()[j].0 == query@.subrange(0, len as int)
                    && #[trigger] self.view()[j].1.contains(e);
                assert(query@.subrange(0, len as int) =~= input@.subrange(0, len as int));
            }
            assert forall|j: int, t: int| 0 <= j < self.view().len() && 0 <= t < self.view()[j].1.len()
                && is_prefix(self.view()[j].0, input@)
                implies out@.contains((self.view()[j].0.len() as usize, #[trigger] self.view()[j].1[t])) by {
                let k = self.view()[j].0;
                assert(k == ks[j].0);
                if k.len() > cut {
                    assert(input@[cut as int] == 0);
                    assert(k[cut as int] == input@.subrange(0, k.len() as int)[cut as int]);
                    assert(k[cut as int] != 0);
                }
                assert(query@.subrange(0, k.len() as int) =~= input@.subrange(0, k.len() as int));
                assert(is_prefix(k, query@));
            }
        }
        out
    }
}

} // verus!
