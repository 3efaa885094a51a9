//! Token filters: passes over a token sequence that keep, drop or rewrite tokens.

use crate::tokenizer::{boundary_from, next_boundary, substring, Token, MAX_TEXT_LEN};
use crate::trie::{
    has_nul, is_prefix, keyset_view, lex_le, lex_lt, sort_keyset, total_len, PrefixDict,
    TrieError, MAX_KEYSET_SIZE,
};
use vstd::prelude::*;
use vstd::string::StringSliceAdditionalSpecFns;
use vstd::utf8::*;

verus! {

/// The name of the part-of-speech keeping filter.
pub const JAPANESE_KEEP_TAGS_TOKEN_FILTER_NAME: &'static str = "japanese_keep_tags";

/// Number of commas in `s`.
pub open spec fn comma_count(s: Seq<char>) -> nat
    decreases s.len(),
{
    if s.len() == 0 {
        0
    } else {
        comma_count(s.drop_last()) + if s.last() == ',' { 1nat } else { 0nat }
    }
}

/// A part-of-speech tag of up to four comma-separated levels, with the missing
/// levels filled by `*`: `名詞,一般` becomes `名詞,一般,*,*`.
pub open spec fn padded_tag(s: Seq<char>) -> Seq<char>
    recommends
        comma_count(s) <= 3,
{
    if comma_count(s) == 0 {
        s + seq![',', '*', ',', '*', ',', '*']
    } else if comma_count(s) == 1 {
        s + seq![',', '*', ',', '*']
    } else if comma_count(s) == 2 {
        s + seq![',', '*']
    } else {
        s
    }
}

/// The tag that a token's details carry: its first four fields joined by commas,
/// or, with fewer than four fields, the first one padded.
pub open spec fn token_tag(d: Seq<Seq<char>>) -> Seq<char>
    recommends
        d.len() > 0,
{
    if d.len() >= 4 {
        d[0] + seq![','] + d[1] + seq![','] + d[2] + seq![','] + d[3]
    } else {
        d[0] + seq![',', '*', ',', '*', ',', '*']
    }
}

pub open spec fn details_view(t: Token) -> Seq<Seq<char>> {
    t.details@.map_values(|s: String| s@)
}

fn count_commas(s: &str) -> (r: usize)
    ensures
        r as nat == comma_count(s@),
{
    let n = s.unicode_len();
    let mut i: usize = 0;
    let mut c: usize = 0;
    while i < n
        invariant
            n == s@.len(),
            0 <= i <= n,
            c as nat == comma_count(s@.subrange(0, i as int)),
            c <= i,
        decreases n - i,
    {
        proof {
            assert(s@.subrange(0, i + 1).drop_last() =~= s@.subrange(0, i as int));
        }
        if s.get_char(i) == ',' {
            c += 1;
        }
        i += 1;
    }
    proof {
        assert(s@.subrange(0, n as int) =~= s@);
    }
    c
}

/// The character sequences of some strings.
pub open spec fn strings_view(v: Seq<String>) -> Seq<Seq<char>> {
    v.map_values(|s: String| s@)
}

/// No two elements of `s` are equal.
pub open spec fn distinct(s: Seq<Seq<char>>) -> bool {
    forall|a: int, b: int| 0 <= a < b < s.len() ==> #[trigger] s[a] != #[trigger] s[b]
}

proof fn lemma_push_fresh(s: Seq<Seq<char>>, x: Seq<char>)
    requires
        distinct(s),
        !s.contains(x),
    ensures
        distinct(s.push(x)),
{
    let t = s.push(x);
    assert forall|a: int, b: int| 0 <= a < b < t.len() implies #[trigger] t[a] != #[trigger] t[b] by {
        if b == s.len() {
            assert(t[a] == s[a]);
        } else {
            assert(t[a] == s[a] && t[b] == s[b]);
        }
    }
}

proof fn lemma_tags_step(prev: Seq<Seq<char>>, now: Seq<Seq<char>>, tags: Seq<String>, i: int)
    requires
        0 <= i < tags.len(),
        forall|x: Seq<char>| #[trigger] prev.contains(x)
            <==> exists|k: int| 0 <= k < i && x == padded_tag((#[trigger] tags[k])@),
        now == prev.push(padded_tag(tags[i]@)) || (now == prev && prev.contains(padded_tag(tags[i]@))),
    ensures
        forall|x: Seq<char>| #[trigger] now.contains(x)
            <==> exists|k: int| 0 <= k < i + 1 && x == padded_tag((#[trigger] tags[k])@),
{
    assert forall|x: Seq<char>| #[trigger] now.contains(x)
        <==> exists|k: int| 0 <= k < i + 1 && x == padded_tag((#[trigger] tags[k])@) by {
        if now.contains(x) && !prev.contains(x) {
            let w = choose|w: int| 0 <= w < now.len() && now[w] == x;
            if w < prev.len() {
                assert(prev[w] == x);
            }
        }
        if prev.contains(x) {
            let w = choose|w: int| 0 <= w < prev.len() && prev[w] == x;
            assert(now[w] == x);
        }
        if exists|k: int| 0 <= k < i + 1 && x == padded_tag((#[trigger] tags[k])@) {
            let k = choose|k: int| 0 <= k < i + 1 && x == padded_tag((#[trigger] tags[k])@);
            if k == i && !prev.contains(x) {
                assert(now[now.len() - 1] == x);
            }
        }
    }
}

/// Whether `v` holds a string equal to `t`.
fn strings_contain(v: &Vec<String>, t: &String) -> (r: bool)
    ensures
        r == strings_view(v@).contains(t@),
{
    let mut i: usize = 0;
    while i < v.len()
        invariant
            0 <= i <= v@.len(),
            forall|k: int| 0 <= k < i ==> (#[trigger] v@[k])@ != t@,
        decreases v@.len() - i,
    {
        if v[i] == *t {
            proof {
                assert(strings_view(v@)[i as int] == t@);
            }
            return true;
        }
        i += 1;
    }
    proof {
        let vv = strings_view(v@);
        if vv.contains(t@) {
            let k = choose|k: int| 0 <= k < vv.len() && #[trigger] vv[k] == t@;
            assert(v@[k]@ == t@);
        }
    }
    false
}

/// Configuration of the part-of-speech keeping filter: the tags to keep, each
/// padded to four levels.
pub struct JapaneseKeepTagsTokenFilterConfig {
    pub tags: Vec<String>,
}

impl JapaneseKeepTagsTokenFilterConfig {
    pub open spec fn tags_view(&self) -> Seq<Seq<char>> {
        strings_view(self.tags@)
    }

    /// Pads each tag to four comma-separated levels with `*`, keeping each padded
    /// tag once.
    pub fn new(tags: Vec<String>) -> (r: Self)
        requires
            forall|i: int| 0 <= i < tags@.len() ==> comma_count((#[trigger] tags@[i])@) <= 3,
        ensures
            forall|x: Seq<char>| #[trigger] r.tags_view().contains(x)
                <==> exists|i: int| 0 <= i < tags@.len() && x == padded_tag((#[trigger] tags@[i])@),
            distinct(r.tags_view()),
    {
        let mut out: Vec<String> = Vec::new();
        let mut i: usize = 0;
        while i < tags.len()
            invariant
                forall|i: int| 0 <= i < tags@.len() ==> comma_count((#[trigger] tags@[i])@) <= 3,
                0 <= i <= tags@.len(),
                forall|x: Seq<char>| #[trigger] strings_view(out@).contains(x)
                    <==> exists|k: int| 0 <= k < i && x == padded_tag((#[trigger] tags@[k])@),
                distinct(strings_view(out@)),
            decreases tags@.len() - i,
        {
            let tag = tags[i].as_str();
            let c = count_commas(tag);
            let mut t = tag.to_owned();
            let mut k: usize = c;
            proof {
                reveal_strlit(",*");
            }
            while k < 3
                invariant
                    c <= k <= 3,
                    c as nat == comma_count(tag@),
                    t@ == tag@ + Seq::new((2 * (k - c)) as nat, |j: int| if j % 2 == 0 { ',' } else { '*' }),
                    ",*"@ == seq![',', '*'],
                decreases 3 - k,
            {
                t.append(",*");
                proof {
                    assert(t@ =~= tag@ + Seq::new((2 * (k + 1 - c)) as nat, |j: int| if j % 2 == 0 { ',' } else { '*' }));
                }
                k += 1;
            }
            proof {
                assert(t@ =~= padded_tag(tag@));
            }
            let ghost prev = strings_view(out@);
            if !strings_contain(&out, &t) {
                out.push(t);
                proof {
                    assert(strings_view(out@) =~= prev.push(padded_tag(tags@[i as int]@)));
                    lemma_push_fresh(prev, padded_tag(tags@[i as int]@));
                }
            }
            proof {
                lemma_tags_step(prev, strings_view(out@), tags@, i as int);
            }
            i += 1;
        }
        let r = JapaneseKeepTagsTokenFilterConfig { tags: out };
        r
    }
}

/// Keeps only the tokens whose part-of-speech tag is listed.
pub struct JapaneseKeepTagsTokenFilter {
    pub config: JapaneseKeepTagsTokenFilterConfig,
}

impl JapaneseKeepTagsTokenFilter {
    pub fn new(config: JapaneseKeepTagsTokenFilterConfig) -> (r: Self)
        ensures
            r.config == config,
    {
        JapaneseKeepTagsTokenFilter { config }
    }

    pub fn name(&self) -> (r: &'static str)
        ensures
            r == JAPANESE_KEEP_TAGS_TOKEN_FILTER_NAME,
    {
        JAPANESE_KEEP_TAGS_TOKEN_FILTER_NAME
    }

    /// Whether this filter keeps a token with details `d`.
    pub open spec fn keeps(&self, t: Token) -> bool {
        self.config.tags_view().contains(token_tag(details_view(t)))
    }

    fn tag_of(details: &Vec<String>) -> (r: String)
        requires
            details@.len() > 0,
        ensures
            r@ == token_tag(details@.map_values(|s: String| s@)),
    {
        proof {
            reveal_strlit(",");
            reveal_strlit(",*,*,*");
        }
        let mut r = details[0].clone();
        if details.len() >= 4 {
            r.append(",");
            r.append(details[1].as_str());
            r.append(",");
            r.append(details[2].as_str());
            r.append(",");
            r.append(details[3].as_str());
        } else {
            r.append(",*,*,*");
        }
        proof {
            assert(r@ =~= token_tag(details@.map_values(|s: String| s@)));
        }
        r
    }

    fn has_tag(&self, tag: &String) -> (r: bool)
        ensures
            r == self.config.tags_view().contains(tag@),
    {
        let mut i: usize = 0;
        while i < self.config.tags.len()
            invariant
                0 <= i <= self.config.tags@.len(),
                forall|k: int| 0 <= k < i ==> (#[trigger] self.config.tags@[k])@ != tag@,
            decreases self.config.tags@.len() - i,
        {
            if self.config.tags[i] == *tag {
                proof {
                    assert(self.config.tags_view()[i as int] == tag@);
                }
                return true;
            }
            i += 1;
        }
        proof {
            if self.config.tags_view().contains(tag@) {
                let k = choose|k: int| 0 <= k < self.config.tags_view().len() && self.config.tags_view()[k] == tag@;
                assert(self.config.tags@[k]@ == tag@);
            }
        }
        false
    }

    /// Drops every token whose tag is not listed; the others stay, in order.
    pub fn apply(&self, tokens: &mut Vec<Token>)
        requires
            forall|i: int| 0 <= i < old(tokens)@.len() ==> (#[trigger] old(tokens)@[i]).details@.len() > 0,
        ensures
            final(tokens)@ == old(tokens)@.filter(|t: Token| self.keeps(t)),
    {
        let ghost orig = tokens@;
        let mut rest: Vec<Token> = Vec::new();
        std::mem::swap(tokens, &mut rest);
        let ghost pred = |t: Token| self.keeps(t);
        let ghost mut k: int = 0;
        while rest.len() > 0
            invariant
                forall|i: int| 0 <= i < orig.len() ==> (#[trigger] orig[i]).details@.len() > 0,
                0 <= k <= orig.len(),
                rest@ == orig.subrange(k, orig.len() as int),
                tokens@ == orig.subrange(0, k).filter(pred),
                pred == (|t: Token| self.keeps(t)),
            decreases rest@.len(),
        {
            let t = rest.remove(0);
            proof {
                assert(t == orig[k]);
                orig.subrange(0, k).lemma_filter_push(t, pred);
                assert(orig.subrange(0, k + 1) =~= orig.subrange(0, k).push(t));
                assert(rest@ =~= orig.subrange(k + 1, orig.len() as int));
            }
            let tag = Self::tag_of(&t.details);
            if self.has_tag(&tag) {
                tokens.push(t);
            }
            proof {
                k = k + 1;
            }
        }
        proof {
            assert(orig.subrange(0, orig.len() as int) =~= orig);
        }
    }
}

/// The name of the character mapping filter.
pub const MAPPING_TOKEN_FILTER_NAME: &'static str = "mapping";

/// Configuration of the mapping filter: pairs of text to find and its replacement.
pub struct MappingTokenFilterConfig {
    pub mapping: Vec<(String, String)>,
}

impl MappingTokenFilterConfig {
    pub fn new(map: Vec<(String, String)>) -> (r: Self)
        ensures
            r.mapping == map,
    {
        MappingTokenFilterConfig { mapping: map }
    }
}

/// The UTF-8 bytes of the key of pair `i`.
pub open spec fn pair_key(m: Seq<(String, String)>, i: int) -> Seq<u8> {
    encode_utf8(m[i].0@)
}

/// The bytes of the non-empty keys plus their number.
pub open spec fn mapping_size(m: Seq<(String, String)>) -> int
    decreases m.len(),
{
    if m.len() == 0 {
        0
    } else {
        let k = pair_key(m, m.len() - 1);
        mapping_size(m.drop_last()) + if k.len() > 0 { k.len() + 1 } else { 0 }
    }
}

/// A mapping that can be indexed: fewer than 2^31 pairs; its non-empty keys
/// free of NUL and pairwise distinct; their bytes plus their number below
/// `MAX_KEYSET_SIZE` (about 2 MB of keys).
pub open spec fn mapping_ok(m: Seq<(String, String)>) -> bool {
    &&& m.len() < 0x8000_0000
    &&& forall|i: int| 0 <= i < m.len() && (#[trigger] pair_key(m, i)).len() > 0 ==> !has_nul(pair_key(m, i))
    &&& forall|i: int, j: int| 0 <= i < j < m.len() && (#[trigger] pair_key(m, i)).len() > 0
        ==> pair_key(m, i) != #[trigger] pair_key(m, j)
    &&& mapping_size(m) < MAX_KEYSET_SIZE
}

/// Each pair counts its key's bytes plus one.
pub open spec fn pairs_size(s: Seq<(Seq<u8>, u32)>) -> int
    decreases s.len(),
{
    if s.len() == 0 {
        0
    } else {
        pairs_size(s.drop_last()) + s[s.len() - 1].0.len() + 1
    }
}

proof fn lemma_mapping_size_prefix(m: Seq<(String, String)>, k: int)
    requires
        0 <= k <= m.len(),
    ensures
        mapping_size(m.subrange(0, k)) <= mapping_size(m),
    decreases m.len() - k,
{
    if k < m.len() {
        lemma_mapping_size_prefix(m, k + 1);
        let sub = m.subrange(0, k + 1);
        assert(sub.drop_last() =~= m.subrange(0, k));
        assert(pair_key(sub, k) == pair_key(m, k));
    } else {
        assert(m.subrange(0, k) =~= m);
    }
}

proof fn lemma_pairs_size_remove(s: Seq<(Seq<u8>, u32)>, k: int)
    requires
        0 <= k < s.len(),
    ensures
        pairs_size(s) == pairs_size(s.remove(k)) + s[k].0.len() + 1,
    decreases s.len(),
{
    if k < s.len() - 1 {
        let init = s.drop_last();
        lemma_pairs_size_remove(init, k);
        assert(s.remove(k).drop_last() =~= init.remove(k));
        assert(s.remove(k)[s.remove(k).len() - 1] == s[s.len() - 1]);
    } else {
        assert(s.remove(k) =~= s.drop_last());
    }
}

/// Two sequences of distinct pairs holding the same pairs have the same size.
proof fn lemma_pairs_size_perm(a: Seq<(Seq<u8>, u32)>, b: Seq<(Seq<u8>, u32)>)
    requires
        a.len() == b.len(),
        forall|i: int, j: int| 0 <= i < j < a.len() ==> a[i] != a[j],
        forall|i: int, j: int| 0 <= i < j < b.len() ==> b[i] != b[j],
        forall|x: (Seq<u8>, u32)| a.contains(x) <==> b.contains(x),
    ensures
        pairs_size(a) == pairs_size(b),
    decreases a.len(),
{
    if a.len() > 0 {
        let x = a[a.len() - 1];
        assert(a.contains(x));
        let k = choose|k: int| 0 <= k < b.len() && b[k] == x;
        let a2 = a.drop_last();
        let b2 = b.remove(k);
        assert forall|y: (Seq<u8>, u32)| a2.contains(y) <==> b2.contains(y) by {
            if a2.contains(y) {
                let w = choose|w: int| 0 <= w < a2.len() && a2[w] == y;
                assert(a[w] == y && y != x);
                assert(a.contains(y));
                let v = choose|v: int| 0 <= v < b.len() && b[v] == y;
                assert(v != k);
                if v < k {
                    assert(b2[v] == y);
                } else {
                    assert(b2[v - 1] == y);
                }
            }
            if b2.contains(y) {
                let w = choose|w: int| 0 <= w < b2.len() && b2[w] == y;
                let v = if w < k { w } else { w + 1 };
                assert(b[v] == y && v != k);
                assert(b.contains(y));
                let u = choose|u: int| 0 <= u < a.len() && a[u] == y;
                assert(u != a.len() - 1);
                assert(a2[u] == y);
            }
        }
        assert forall|i: int, j: int| 0 <= i < j < b2.len() implies b2[i] != b2[j] by {
            let ii = if i < k { i } else { i + 1 };
            let jj = if j < k { j } else { j + 1 };
            assert(b2[i] == b[ii] && b2[j] == b[jj]);
        }
        lemma_pairs_size_perm(a2, b2);
        lemma_pairs_size_remove(b, k);
    }
}

proof fn lemma_pairs_size_keys(sv: Seq<(Seq<u8>, u32)>, kb: Seq<Seq<u8>>)
    requires
        kb.len() == sv.len(),
        forall|j: int| 0 <= j < kb.len() ==> kb[j] == sv[j].0,
    ensures
        total_len(kb) + kb.len() == pairs_size(sv),
    decreases kb.len(),
{
    if kb.len() > 0 {
        lemma_pairs_size_keys(sv.drop_last(), kb.drop_last());
    }
}

/// The non-empty keys of the mapping with their pair numbers, in pair order, and
/// whether their size reaches `MAX_KEYSET_SIZE`; a NUL byte in one of them is an
/// error.
fn collect_keys(mapping: &Vec<(String, String)>) -> (r: Result<(Vec<(Vec<u8>, u32)>, bool), TrieError>)
    requires
        mapping@.len() < 0x8000_0000,
    ensures
        r is Err <==> exists|i: int| 0 <= i < mapping@.len() && (#[trigger] pair_key(mapping@, i)).len() > 0
            && has_nul(pair_key(mapping@, i)),
        r is Err ==> r == Err::<(Vec<(Vec<u8>, u32)>, bool), TrieError>(TrieError::NulByte),
        r matches Ok((ks, big)) ==> {
            &&& forall|x: (Seq<u8>, u32)| #[trigger] keyset_view(ks@).contains(x) <==> ((x.1 as int) < mapping@.len()
                && x.0 == pair_key(mapping@, x.1 as int) && x.0.len() > 0)
            &&& forall|a: int, b: int| 0 <= a < b < ks@.len() ==> (#[trigger] ks@[a]).1 < (#[trigger] ks@[b]).1
            &&& forall|a: int| 0 <= a < ks@.len() ==> (#[trigger] ks@[a]).0@ == pair_key(mapping@, ks@[a].1 as int)
                && (ks@[a].1 as int) < mapping@.len()
            &&& ks@.len() <= mapping@.len()
            &&& big <==> mapping_size(mapping@) >= MAX_KEYSET_SIZE
            &&& pairs_size(keyset_view(ks@)) == mapping_size(mapping@)
        },
{
    let n = mapping.len();
    let mut ks: Vec<(Vec<u8>, u32)> = Vec::new();
    let mut total: usize = 0;
    let mut big = false;
    let mut i: usize = 0;
    while i < n
        invariant
            n == mapping@.len(),
            n < 0x8000_0000,
            0 <= i <= n,
            forall|x: (Seq<u8>, u32)| #[trigger] keyset_view(ks@).contains(x) <==> ((x.1 as int) < i
                && x.0 == pair_key(mapping@, x.1 as int) && x.0.len() > 0),
            forall|a: int, b: int| 0 <= a < b < ks@.len() ==> (#[trigger] ks@[a]).1 < (#[trigger] ks@[b]).1,
            forall|a: int| 0 <= a < ks@.len() ==> (#[trigger] ks@[a]).0@ == pair_key(mapping@, ks@[a].1 as int)
                && (ks@[a].1 as int) < i,
            ks@.len() <= i,
            forall|k: int| 0 <= k < i && (#[trigger] pair_key(mapping@, k)).len() > 0 ==> !has_nul(pair_key(mapping@, k)),
            pairs_size(keyset_view(ks@)) == mapping_size(mapping@.subrange(0, i as int)),
            !big ==> total == mapping_size(mapping@.subrange(0, i as int)) && total < MAX_KEYSET_SIZE,
            big ==> mapping_size(mapping@.subrange(0, i as int)) >= MAX_KEYSET_SIZE,
        decreases n - i,
    {
        let key = mapping[i].0.as_str().as_bytes();
        assert(key@ == pair_key(mapping@, i as int));
        if key.len() > 0 {
            let mut c: usize = 0;
            while c < key.len()
                invariant
                    n == mapping@.len(),
                    0 <= i < n,
                    key@ == pair_key(mapping@, i as int),
                    0 <= c <= key@.len(),
                    forall|d: int| 0 <= d < c ==> key@[d] != 0,
                decreases key@.len() - c,
            {
                if key[c] == 0 {
                    proof {
                        assert(has_nul(pair_key(mapping@, i as int)));
                    }
                    return Err(TrieError::NulByte);
                }
                c += 1;
            }
            if !big {
                if key.len() >= MAX_KEYSET_SIZE - total - 1 {
                    big = true;
                } else {
                    total = total + key.len() + 1;
                }
            }
            let ghost prev = keyset_view(ks@);
            ks.push((vstd::slice::slice_to_vec(key), i as u32));
            proof {
                assert(keyset_view(ks@) =~= prev.push((key@, i as u32)));
                lemma_keyset_push(prev, keyset_view(ks@), (key@, i as u32), i as int, mapping@);
                assert(keyset_view(ks@).drop_last() =~= prev);
            }
        }
        proof {
            let sub = mapping@.subrange(0, i + 1);
            assert(sub.drop_last() =~= mapping@.subrange(0, i as int));
            assert(pair_key(sub, i as int) == pair_key(mapping@, i as int));
        }
        i += 1;
    }
    proof {
        assert(mapping@.subrange(0, n as int) =~= mapping@);
    }
    Ok((ks, big))
}

proof fn lemma_keyset_push(prev: Seq<(Seq<u8>, u32)>, now: Seq<(Seq<u8>, u32)>, y: (Seq<u8>, u32),
    i: int, m: Seq<(String, String)>)
    requires
        now == prev.push(y),
        y.1 == i,
        0 <= i < m.len(),
        y.0 == pair_key(m, i),
        y.0.len() > 0,
        forall|x: (Seq<u8>, u32)| #[trigger] prev.contains(x) <==> ((x.1 as int) < i
            && x.0 == pair_key(m, x.1 as int) && x.0.len() > 0),
    ensures
        forall|x: (Seq<u8>, u32)| #[trigger] now.contains(x) <==> ((x.1 as int) < i + 1
            && x.0 == pair_key(m, x.1 as int) && x.0.len() > 0),
{
    assert forall|x: (Seq<u8>, u32)| #[trigger] now.contains(x) <==> ((x.1 as int) < i + 1
        && x.0 == pair_key(m, x.1 as int) && x.0.len() > 0) by {
        if now.contains(x) && x != y {
            let w = choose|w: int| 0 <= w < now.len() && now[w] == x;
            assert(prev[w] == x);
            assert(prev.contains(x));
        }
        if x == y {
            assert(now[now.len() - 1] == x);
        } else if (x.1 as int) < i + 1 && x.0 == pair_key(m, x.1 as int) && x.0.len() > 0 {
            assert(prev.contains(x));
            let w = choose|w: int| 0 <= w < prev.len() && prev[w] == x;
            assert(now[w] == x);
        }
    }
}

/// Whether two pairs of `ks` have equal keys.
fn has_duplicate(ks: &Vec<(Vec<u8>, u32)>) -> (r: bool)
    ensures
        r <==> exists|a: int, b: int| 0 <= a < b < ks@.len() && ks@[a].0@ == ks@[b].0@,
{
    let mut a: usize = 0;
    while a < ks.len()
        invariant
            0 <= a <= ks@.len(),
            forall|x: int, y: int| 0 <= x < a && x < y < ks@.len() ==> ks@[x].0@ != ks@[y].0@,
        decreases ks@.len() - a,
    {
        let mut b: usize = a + 1;
        while b < ks.len()
            invariant
                0 <= a < ks@.len(),
                a + 1 <= b <= ks@.len(),
                forall|x: int, y: int| 0 <= x < a && x < y < ks@.len() ==> ks@[x].0@ != ks@[y].0@,
                forall|y: int| a < y < b ==> ks@[a as int].0@ != ks@[y].0@,
            decreases ks@.len() - b,
        {
            if bytes_eq(&ks[a].0, &ks[b].0) {
                return true;
            }
            b += 1;
        }
        a += 1;
    }
    false
}

/// Byte-string equality.
fn bytes_eq(a: &Vec<u8>, b: &Vec<u8>) -> (r: bool)
    ensures
        r == (a@ == b@),
{
    if a.len() != b.len() {
        return false;
    }
    let mut i: usize = 0;
    while i < a.len()
        invariant
            a@.len() == b@.len(),
            0 <= i <= a@.len(),
            forall|k: int| 0 <= k < i ==> a@[k] == b@[k],
        decreases a@.len() - i,
    {
        if a[i] != b[i] {
            return false;
        }
        i += 1;
    }
    assert(a@ =~= b@);
    true
}

/// Collected keys that are pairwise distinct make the non-empty keys of the
/// mapping pairwise distinct.
proof fn lemma_two_positions(ks: Seq<(Vec<u8>, u32)>, m: Seq<(String, String)>, i: int, j: int)
    requires
        forall|x: (Seq<u8>, u32)| #[trigger] keyset_view(ks).contains(x) <==> ((x.1 as int) < m.len()
            && x.0 == pair_key(m, x.1 as int) && x.0.len() > 0),
        forall|a: int, b: int| 0 <= a < b < ks.len() ==> ks[a].0@ != ks[b].0@,
        m.len() < 0x8000_0000,
        0 <= i < j < m.len(),
        pair_key(m, i).len() > 0,
    ensures
        pair_key(m, i) != pair_key(m, j),
{
    if pair_key(m, i) != pair_key(m, j) {
        return;
    }
    let kv = keyset_view(ks);
    assert(kv.contains((pair_key(m, i), i as u32)));
    assert(kv.contains((pair_key(m, j), j as u32)));
    let a = choose|a: int| 0 <= a < kv.len() && kv[a] == (pair_key(m, i), i as u32);
    let b = choose|b: int| 0 <= b < kv.len() && kv[b] == (pair_key(m, j), j as u32);
    if a < b {
        assert(ks[a].0@ != ks[b].0@);
    } else {
        assert(ks[b].0@ != ks[a].0@);
    }
}

/// Sorted distinct keys of a valid mapping meet every check of `PrefixDict::new`.
proof fn lemma_keys_valid(sv: Seq<(Seq<u8>, u32)>, keys: Seq<(Vec<u8>, Vec<u32>)>, m: Seq<(String, String)>)
    requires
        mapping_ok(m),
        forall|x: (Seq<u8>, u32)| #[trigger] sv.contains(x) <==> ((x.1 as int) < m.len()
            && x.0 == pair_key(m, x.1 as int) && x.0.len() > 0),
        forall|a: int, b: int| 0 <= a < b < sv.len() ==> lex_le(sv[a].0, sv[b].0),
        forall|a: int, b: int| 0 <= a < b < sv.len() ==> sv[a] != sv[b],
        keys.len() == sv.len(),
        forall|j: int| 0 <= j < keys.len() ==> (#[trigger] keys[j]).0@ == sv[j].0,
        pairs_size(sv) == mapping_size(m),
        sv.len() <= m.len(),
    ensures
        !(keys.len() >= 0x8000_0000),
        !(total_len(keys.map_values(|p: (Vec<u8>, Vec<u32>)| p.0@)) + keys.len() >= MAX_KEYSET_SIZE),
        !(exists|j: int| 0 <= j < keys.len() && ((#[trigger] keys[j]).0@.len() == 0 || has_nul(keys[j].0@))),
        !(exists|j: int| 0 <= j < keys.len() - 1 && !lex_lt(#[trigger] keys[j].0@, keys[j + 1].0@)),
{
    let kb = keys.map_values(|p: (Vec<u8>, Vec<u32>)| p.0@);
    lemma_pairs_size_keys(sv, kb);
    assert forall|j: int| 0 <= j < keys.len() implies !((#[trigger] keys[j]).0@.len() == 0 || has_nul(keys[j].0@)) by {
        assert(sv.contains(sv[j]));
    }
    assert forall|j: int| 0 <= j < keys.len() - 1 implies lex_lt(#[trigger] keys[j].0@, keys[j + 1].0@) by {
        assert(sv.contains(sv[j]));
        assert(sv.contains(sv[j + 1]));
        assert(lex_le(sv[j].0, sv[j + 1].0));
        if sv[j].0 == sv[j + 1].0 {
            let (x, y) = (sv[j].1 as int, sv[j + 1].1 as int);
            assert(x != y);
            if x < y {
                assert(pair_key(m, x) != pair_key(m, y));
            } else {
                assert(pair_key(m, y) != pair_key(m, x));
            }
        }
    }
}

/// Rewrites token texts: at each position the longest key found is replaced by
/// its value; other characters are kept.
pub struct MappingTokenFilter {
    pub config: MappingTokenFilterConfig,
    pub trie: PrefixDict,
}

impl MappingTokenFilter {
    pub closed spec fn wf(&self) -> bool {
        &&& self.trie.wf()
        &&& forall|j: int, t: int| 0 <= j < self.trie.view().len() && 0 <= t < self.trie.view()[j].1.len()
            ==> (#[trigger] self.trie.view()[j].1[t] as int) < self.config.mapping@.len()
        &&& forall|j: int| 0 <= j < self.trie.view().len() ==> self.is_key(#[trigger] self.trie.view()[j].0)
        &&& mapping_ok(self.config.mapping@)
        &&& forall|j: int, t: int| 0 <= j < self.trie.view().len() && 0 <= t < self.trie.view()[j].1.len()
            ==> self.key_bytes(#[trigger] self.trie.view()[j].1[t] as int) == self.trie.view()[j].0
        &&& forall|i: int| 0 <= i < self.config.mapping@.len() && (#[trigger] self.key_bytes(i)).len() > 0
            ==> exists|j: int| 0 <= j < self.trie.view().len() && self.trie.view()[j].0 == self.key_bytes(i)
                && #[trigger] self.trie.view()[j].1.contains(i as u32)
    }

    /// Key `i` is non-empty, starts at byte `s` of `b`, and ends on a character
    /// boundary.
    pub open spec fn key_at(&self, b: Seq<u8>, s: int, i: int) -> bool {
        &&& 0 <= i < self.config.mapping@.len()
        &&& self.key_bytes(i).len() > 0
        &&& is_prefix(self.key_bytes(i), b.subrange(s, b.len() as int))
        &&& is_char_boundary(b, s + self.key_bytes(i).len())
    }

    /// Key `i` is the longest key at byte `s` of `b`.
    pub open spec fn longest_at(&self, b: Seq<u8>, s: int, i: int) -> bool {
        &&& self.key_at(b, s, i)
        &&& forall|k: int| #[trigger] self.key_at(b, s, k) ==> self.key_bytes(k).len() <= self.key_bytes(i).len()
    }

    /// The rewrite of `b` from byte `s` on: the longest key at `s` becomes its
    /// value; where no key starts, the character at `s` is copied.
    pub open spec fn mapped(&self, b: Seq<u8>, s: int) -> Seq<u8>
        decreases b.len() - s,
    {
        if s < 0 || s >= b.len() {
            Seq::empty()
        } else if exists|i: int| self.longest_at(b, s, i) {
            let i = choose|i: int| self.longest_at(b, s, i);
            let l = self.key_bytes(i).len();
            if l > 0 && s + l <= b.len() {
                encode_utf8(self.config.mapping@[i].1@) + self.mapped(b, s + l)
            } else {
                Seq::empty()
            }
        } else {
            let e = boundary_from(b, s + 1);
            if s < e <= b.len() {
                b.subrange(s, e) + self.mapped(b, e)
            } else {
                Seq::empty()
            }
        }
    }

    proof fn lemma_step_match(&self, b: Seq<u8>, s: int, best: int)
        requires
            self.wf(),
            0 <= s < b.len(),
            self.key_at(b, s, best),
            forall|k: int| #[trigger] self.key_at(b, s, k) ==> self.key_bytes(k).len() <= self.key_bytes(best).len(),
        ensures
            self.mapped(b, s) == encode_utf8(self.config.mapping@[best].1@) + self.mapped(b, s + self.key_bytes(best).len()),
    {
        assert(self.longest_at(b, s, best));
        let i = choose|i: int| self.longest_at(b, s, i);
        assert(self.key_bytes(i).len() == self.key_bytes(best).len());
        let l = self.key_bytes(i).len() as int;
        assert(self.key_bytes(i) == b.subrange(s, b.len() as int).subrange(0, l));
        assert(self.key_bytes(best) == b.subrange(s, b.len() as int).subrange(0, l));
        let m = self.config.mapping@;
        assert(self.key_bytes(i) == pair_key(m, i) && self.key_bytes(best) == pair_key(m, best));
        if i < best {
            assert(pair_key(m, i) != pair_key(m, best));
        } else if best < i {
            assert(pair_key(m, best) != pair_key(m, i));
        }
    }

    proof fn lemma_step_copy(&self, b: Seq<u8>, s: int)
        requires
            0 <= s < b.len(),
            forall|k: int| !#[trigger] self.key_at(b, s, k),
        ensures
            s < boundary_from(b, s + 1) <= b.len(),
            self.mapped(b, s) == b.subrange(s, boundary_from(b, s + 1)) + self.mapped(b, boundary_from(b, s + 1)),
    {
        lemma_boundary_from_ge(b, s + 1);
        assert(!exists|i: int| self.longest_at(b, s, i));
    }

    /// `k` is the UTF-8 form of a key of the mapping.
    pub open spec fn is_key(&self, k: Seq<u8>) -> bool {
        exists|i: int| 0 <= i < self.config.mapping@.len() && self.key_bytes(i) == k
    }

    /// The UTF-8 bytes of the `i`-th key of the mapping.
    pub open spec fn key_bytes(&self, i: int) -> Seq<u8> {
        encode_utf8(self.config.mapping@[i].0@)
    }

    /// Indexes the non-empty keys of the mapping; empty keys are ignored. Succeeds
    /// exactly when `mapping_ok` holds.
    pub fn new(config: MappingTokenFilterConfig) -> (r: Result<Self, TrieError>)
        ensures
            r is Ok <==> mapping_ok(config.mapping@),
            r matches Ok(f) ==> f.wf() && f.config == config,
    {
        let n = config.mapping.len();
        if n >= 0x8000_0000 {
            return Err(TrieError::TooManyKeys);
        }
        let (keyset, big) = match collect_keys(&config.mapping) {
            Ok(found) => found,
            Err(e) => {
                return Err(e);
            },
        };
        let ghost m = config.mapping@;
        if big {
            return Err(TrieError::TooLarge);
        }
        if has_duplicate(&keyset) {
            proof {
                let (a, b) = choose|a: int, b: int| 0 <= a < b < keyset@.len() && keyset@[a].0@ == keyset@[b].0@;
                assert(keyset_view(keyset@).contains(keyset_view(keyset@)[a]));
                assert(keyset_view(keyset@).contains(keyset_view(keyset@)[b]));
                let (ia, ib) = (keyset@[a].1 as int, keyset@[b].1 as int);
                assert(ia < ib);
                assert(pair_key(m, ia) == pair_key(m, ib));
                assert(!mapping_ok(m));
            }
            return Err(TrieError::DuplicateKey);
        }
        proof {
            assert forall|i: int| 0 <= i < m.len() && (#[trigger] pair_key(m, i)).len() > 0
                implies !has_nul(pair_key(m, i)) by {
            }
            assert(mapping_ok(m)) by {
                assert forall|i: int, j: int| 0 <= i < j < m.len() && (#[trigger] pair_key(m, i)).len() > 0
                    implies pair_key(m, i) != #[trigger] pair_key(m, j) by {
                    lemma_two_positions(keyset@, m, i, j);
                }
            }
            assert forall|a: int, b: int| 0 <= a < b < keyset@.len() implies keyset_view(keyset@)[a] != keyset_view(keyset@)[b] by {
                assert(keyset@[a].1 < keyset@[b].1);
            }
        }
        let sorted = sort_keyset(keyset);
        let ghost sv = keyset_view(sorted@);
        let mut keys: Vec<(Vec<u8>, Vec<u32>)> = Vec::new();
        let mut k: usize = 0;
        while k < sorted.len()
            invariant
                n == m.len(),
                sv == keyset_view(sorted@),
                forall|x: (Seq<u8>, u32)| #[trigger] sv.contains(x) <==> ((x.1 as int) < n
                    && x.0 == pair_key(m, x.1 as int) && x.0.len() > 0),
                0 <= k <= sorted@.len(),
                keys@.len() == k,
                forall|j: int| 0 <= j < k ==> (#[trigger] keys@[j]).1@ == seq![sorted@[j].1]
                    && keys@[j].0@ == sorted@[j].0@,
            decreases sorted@.len() - k,
        {
            let mut ids: Vec<u32> = Vec::new();
            ids.push(sorted[k].1);
            keys.push((vstd::slice::slice_to_vec(sorted[k].0.as_slice()), ids));
            k += 1;
        }
        proof {
            lemma_pairs_size_perm(keyset_view(keyset@), sv);
            assert forall|a: int, b: int| 0 <= a < b < sv.len() implies lex_le(sv[a].0, sv[b].0) by {
                assert(lex_le(sorted@[a].0@, sorted@[b].0@));
            }
            lemma_keys_valid(sv, keys@, m);
        }
        match PrefixDict::new(&keys) {
            Ok(trie) => {
                let f = MappingTokenFilter { config, trie };
                proof {
                    assert forall|j: int, t: int| 0 <= j < f.trie.view().len() && 0 <= t < f.trie.view()[j].1.len()
                        implies (#[trigger] f.trie.view()[j].1[t] as int) < f.config.mapping@.len() by {
                        assert(f.trie.view()[j].1 == keys@[j].1@);
                        let x = sv[j];
                        assert(sv.contains(x));
                    }
                    assert forall|j: int| 0 <= j < f.trie.view().len() implies f.is_key(#[trigger] f.trie.view()[j].0) by {
                        let x = sv[j];
                        assert(sv.contains(x));
                        assert(f.trie.view()[j].0 == keys@[j].0@);
                        assert(f.key_bytes(x.1 as int) == x.0);
                    }
                    assert forall|j: int, t: int| 0 <= j < f.trie.view().len() && 0 <= t < f.trie.view()[j].1.len()
                        implies f.key_bytes(#[trigger] f.trie.view()[j].1[t] as int) == f.trie.view()[j].0 by {
                        let x = sv[j];
                        assert(sv.contains(x));
                        assert(f.trie.view()[j].1 == keys@[j].1@);
                        assert(f.trie.view()[j].0 == keys@[j].0@);
                    }
                    assert forall|i: int| 0 <= i < f.config.mapping@.len() && (#[trigger] f.key_bytes(i)).len() > 0
                        implies exists|j: int| 0 <= j < f.trie.view().len() && f.trie.view()[j].0 == f.key_bytes(i)
                            && #[trigger] f.trie.view()[j].1.contains(i as u32) by {
                        assert(pair_key(m, i) == f.key_bytes(i));
                        assert(sv.contains((f.key_bytes(i), i as u32)));
                        let j = choose|j: int| 0 <= j < sv.len() && sv[j] == (f.key_bytes(i), i as u32);
                        assert(f.trie.view()[j].1 == keys@[j].1@);
                        assert(f.trie.view()[j].1[0] == i as u32);
                        assert(f.trie.view()[j].1.contains(i as u32));
                    }
                }
                Ok(f)
            },
            Err(e) => {
                proof {
                    assert(false);
                }
                Err(e)
            },
        }
    }

    pub fn name(&self) -> (r: &'static str)
        ensures
            r == MAPPING_TOKEN_FILTER_NAME,
    {
        MAPPING_TOKEN_FILTER_NAME
    }

    /// The mapped text: left to right, the longest key that starts at the
    /// current position and ends on a character boundary is replaced by its
    /// value; where none does, one character is copied.
    pub fn map_text(&self, text: &str) -> (r: String)
        requires
            self.wf(),
            text.spec_bytes().len() < MAX_TEXT_LEN,
        ensures
            encode_utf8(r@) == self.mapped(text.spec_bytes(), 0),
    {
        let ghost b = text.spec_bytes();
        let n = text.len();
        let bytes = text.as_bytes();
        let mut out = String::new();
        let mut start: usize = 0;
        proof {
            assert(encode_utf8(out@) =~= Seq::<u8>::empty());
            assert(encode_utf8(out@) + self.mapped(b, 0) =~= self.mapped(b, 0));
            broadcast use encode_utf8_valid_utf8;
            assert(valid_utf8(b));
            assert(is_char_boundary(b, 0));
        }
        while start < n
            invariant
                self.wf(),
                b == text.spec_bytes(),
                n == b.len(),
                bytes@ == b,
                n < MAX_TEXT_LEN,
                0 <= start <= n,
                is_char_boundary(b, start as int),
                encode_utf8(out@) + self.mapped(b, start as int) == self.mapped(b, 0),
            decreases n - start,
        {
            let rest = vstd::slice::slice_subrange(bytes, start, n);
            let found = self.trie.common_prefix_search(rest);
            let mut best_len: usize = 0;
            let mut best_id: u32 = 0;
            let mut i: usize = 0;
            while i < found.len()
                invariant
                    self.wf(),
                    b == text.spec_bytes(),
                    n == b.len(),
                    0 <= start < n,
                    rest@ == b.subrange(start as int, n as int),
                    forall|i: int| #![trigger found@[i]] 0 <= i < found@.len() ==> {
                        let (len, e) = found@[i];
                        &&& 0 < len <= rest@.len()
                        &&& exists|j: int| 0 <= j < self.trie.view().len() && self.trie.view()[j].0 == rest@.subrange(0, len as int)
                            && #[trigger] self.trie.view()[j].1.contains(e)
                    },
                    0 <= i <= found@.len(),
                    best_len <= n - start,
                    forall|m: int| 0 <= m < i && is_char_boundary(b, start + (#[trigger] found@[m]).0) ==> found@[m].0 <= best_len,
                    best_len > 0 ==> self.key_at(b, start as int, best_id as int) && self.key_bytes(best_id as int).len() == best_len,
                decreases found@.len() - i,
            {
                let (len, e) = found[i];
                proof {
                    assert(0 < len <= rest@.len());
                    let j = choose|j: int| 0 <= j < self.trie.view().len() && self.trie.view()[j].0 == rest@.subrange(0, len as int)
                        && #[trigger] self.trie.view()[j].1.contains(e);
                    let t = choose|t: int| 0 <= t < self.trie.view()[j].1.len() && self.trie.view()[j].1[t] == e;
                    assert(self.key_bytes(self.trie.view()[j].1[t] as int) == self.trie.view()[j].0);
                    assert(self.key_bytes(e as int) == rest@.subrange(0, len as int));
                }
                if len > best_len && text.is_char_boundary(start + len) {
                    best_len = len;
                    best_id = e;
                }
                i += 1;
            }
            proof {
                self.lemma_best_is_longest(b, start as int, rest@, found@, best_len as int);
            }
            if best_len > 0 {
                let value = self.config.mapping[best_id as usize].1.as_str();
                let ghost before = out@;
                out.append(value);
                proof {
                    self.lemma_step_match(b, start as int, best_id as int);
                    lemma_encode_utf8_concat(before, value@);
                    assert(encode_utf8(out@) + self.mapped(b, start + best_len) =~= encode_utf8(before) + self.mapped(b, start as int));
                }
                start = start + best_len;
            } else {
                let end = next_boundary(text, start);
                let piece = substring(text, start, end);
                let ghost before = out@;
                out.append(piece.as_str());
                proof {
                    self.lemma_step_copy(b, start as int);
                    lemma_encode_utf8_concat(before, piece@);
                    assert(encode_utf8(out@) + self.mapped(b, end as int) =~= encode_utf8(before) + self.mapped(b, start as int));
                }
                start = end;
            }
        }
        proof {
            assert(self.mapped(b, n as int) =~= Seq::<u8>::empty());
            assert(encode_utf8(out@) + self.mapped(b, n as int) =~= encode_utf8(out@));
        }
        out
    }

    proof fn lemma_best_is_longest(&self, b: Seq<u8>, start: int, rest: Seq<u8>, found: Seq<(usize, u32)>, best_len: int)
        requires
            self.wf(),
            0 <= start < b.len(),
            b.len() < MAX_TEXT_LEN,
            rest == b.subrange(start, b.len() as int),
            forall|j: int, t: int| 0 <= j < self.trie.view().len() && 0 <= t < self.trie.view()[j].1.len()
                && is_prefix(self.trie.view()[j].0, rest)
                ==> found.contains((self.trie.view()[j].0.len() as usize, #[trigger] self.trie.view()[j].1[t])),
            forall|m: int| 0 <= m < found.len() && is_char_boundary(b, start + (#[trigger] found[m]).0) ==> found[m].0 <= best_len,
        ensures
            forall|k: int| #[trigger] self.key_at(b, start, k) ==> self.key_bytes(k).len() <= best_len,
    {
        assert forall|k: int| #[trigger] self.key_at(b, start, k) implies self.key_bytes(k).len() <= best_len by {
            let j = choose|j: int| 0 <= j < self.trie.view().len() && self.trie.view()[j].0 == self.key_bytes(k)
                && #[trigger] self.trie.view()[j].1.contains(k as u32);
            let t = choose|t: int| 0 <= t < self.trie.view()[j].1.len() && self.trie.view()[j].1[t] == k as u32;
            assert(found.contains((self.trie.view()[j].0.len() as usize, self.trie.view()[j].1[t])));
            let m = choose|m: int| 0 <= m < found.len() && found[m] == (self.key_bytes(k).len() as usize, k as u32);
            assert(found[m].0 == self.key_bytes(k).len());
        }
    }

    /// Rewrites the text of every token with `map_text`; nothing else changes.
    pub fn apply(&self, tokens: &mut Vec<Token>)
        requires
            self.wf(),
            forall|i: int| 0 <= i < old(tokens)@.len() ==> (#[trigger] old(tokens)@[i]).text@.len() < MAX_TEXT_LEN / 4,
        ensures
            final(tokens)@.len() == old(tokens)@.len(),
            forall|i: int| 0 <= i < final(tokens)@.len() ==> {
                &&& (#[trigger] final(tokens)@[i]).byte_start == old(tokens)@[i].byte_start
                &&& final(tokens)@[i].byte_end == old(tokens)@[i].byte_end
                &&& final(tokens)@[i].position == old(tokens)@[i].position
                &&& final(tokens)@[i].position_length == old(tokens)@[i].position_length
                &&& final(tokens)@[i].word_id == old(tokens)@[i].word_id
                &&& final(tokens)@[i].details == old(tokens)@[i].details
                &&& encode_utf8(final(tokens)@[i].text@) == self.mapped(encode_utf8(old(tokens)@[i].text@), 0)
            },
    {
        let ghost orig = tokens@;
        let mut rest: Vec<Token> = Vec::new();
        std::mem::swap(tokens, &mut rest);
        let ghost mut k: int = 0;
        while rest.len() > 0
            invariant
                self.wf(),
                forall|i: int| 0 <= i < orig.len() ==> (#[trigger] orig[i]).text@.len() < MAX_TEXT_LEN / 4,
                0 <= k <= orig.len(),
                rest@ == orig.subrange(k, orig.len() as int),
                tokens@.len() == k,
                forall|i: int| 0 <= i < k ==> {
                    &&& (#[trigger] tokens@[i]).byte_start == orig[i].byte_start
                    &&& tokens@[i].byte_end == orig[i].byte_end
                    &&& tokens@[i].position == orig[i].position
                    &&& tokens@[i].position_length == orig[i].position_length
                    &&& tokens@[i].word_id == orig[i].word_id
                    &&& tokens@[i].details == orig[i].details
                    &&& encode_utf8(tokens@[i].text@) == self.mapped(encode_utf8(orig[i].text@), 0)
                },
            decreases rest@.len(),
        {
            let t = rest.remove(0);
            proof {
                assert(t == orig[k]);
                assert(rest@ =~= orig.subrange(k + 1, orig.len() as int));
                lemma_utf8_len_bound(t.text@);
            }
            let text = self.map_text(t.text.as_str());
            let Token { text: _, byte_start, byte_end, position, position_length, word_id, details } = t;
            tokens.push(Token { text, byte_start, byte_end, position, position_length, word_id, details });
            proof {
                k = k + 1;
            }
        }
    }
}

proof fn lemma_boundary_from_ge(b: Seq<u8>, e: int)
    ensures
        boundary_from(b, e) >= e,
        e <= b.len() ==> boundary_from(b, e) <= b.len(),
    decreases b.len() - e,
{
    if !(e >= b.len() || is_char_boundary(b, e)) {
        lemma_boundary_from_ge(b, e + 1);
    }
}

/// Encoding distributes over concatenation.
proof fn lemma_encode_utf8_concat(a: Seq<char>, b: Seq<char>)
    ensures
        encode_utf8(a + b) == encode_utf8(a) + encode_utf8(b),
    decreases a.len(),
{
    if a.len() == 0 {
        assert(a + b =~= b);
        assert(encode_utf8(a) =~= Seq::<u8>::empty());
        assert(encode_utf8(a) + encode_utf8(b) =~= encode_utf8(b));
    } else {
        lemma_encode_utf8_concat(a.drop_first(), b);
        assert((a + b).drop_first() =~= a.drop_first() + b);
        assert((a + b)[0] == a[0]);
        assert(encode_utf8(a + b) =~= encode_scalar(a[0] as u32) + encode_utf8(a.drop_first() + b));
    }
}

/// A character takes at most four bytes.
proof fn lemma_utf8_len_bound(s: Seq<char>)
    ensures
        encode_utf8(s).len() <= 4 * s.len(),
    decreases s.len(),
{
    if s.len() > 0 {
        lemma_utf8_len_bound(s.drop_first());
    }
}

} // verus!
