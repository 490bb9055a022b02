//! A text-to-text mapping with unique keys, kept in insertion order so that
//! its byte form is a function of the value.
use vstd::prelude::*;
use vstd::utf8::encode_utf8;

use crate::codec::{
    be32, cut_at, holds_at, lemma_cut_split, lemma_holds_split, lemma_text_round_trip,
    lemma_text_truncated, lemma_u32_round_trip, parse_text, parse_u32, put_text, put_u32, read_text, read_u32, text_eq,
    text_fits, text_wire, TEXT_MAX,
};
use crate::error::DecodeError;

verus! {

/// One key and its value, as character sequences.
pub type TextPair = (Seq<char>, Seq<char>);

/// The mapping that inserting the pairs one after another, from the first,
/// leaves: a later pair with the same key replaces an earlier one.
pub open spec fn map_of(ps: Seq<TextPair>) -> Map<Seq<char>, Seq<char>>
    decreases ps.len(),
{
    if ps.len() == 0 {
        Map::empty()
    } else {
        map_of(ps.drop_last()).insert(ps.last().0, ps.last().1)
    }
}

/// No two pairs share a key.
pub open spec fn keys_unique(ps: Seq<TextPair>) -> bool {
    forall|i: int, j: int| 0 <= i < j < ps.len() ==> ps[i].0 != ps[j].0
}

/// A key of no pair is not in the mapping.
pub proof fn lemma_map_of_absent(ps: Seq<TextPair>, k: Seq<char>)
    requires
        forall|i: int| 0 <= i < ps.len() ==> ps[i].0 != k,
    ensures
        !map_of(ps).contains_key(k),
    decreases ps.len(),
{
    if ps.len() > 0 {
        lemma_map_of_absent(ps.drop_last(), k);
    }
}

/// A key in the mapping is the key of some pair.
pub proof fn lemma_map_of_contains(ps: Seq<TextPair>, k: Seq<char>)
    requires
        map_of(ps).contains_key(k),
    ensures
        exists|i: int| 0 <= i < ps.len() && #[trigger] ps[i].0 == k,
{
    if forall|i: int| 0 <= i < ps.len() ==> ps[i].0 != k {
        lemma_map_of_absent(ps, k);
    }
}

/// With unique keys, each pair is in the mapping.
pub proof fn lemma_map_of_entry(ps: Seq<TextPair>, i: int)
    requires
        keys_unique(ps),
        0 <= i < ps.len(),
    ensures
        map_of(ps).contains_key(ps[i].0),
        map_of(ps)[ps[i].0] == ps[i].1,
    decreases ps.len(),
{
    if i < ps.len() - 1 {
        lemma_map_of_entry(ps.drop_last(), i);
    }
}

/// With unique keys, the mapping has one key per pair.
pub proof fn lemma_map_of_len(ps: Seq<TextPair>)
    requires
        keys_unique(ps),
    ensures
        map_of(ps).dom().finite(),
        map_of(ps).dom().len() == ps.len(),
    decreases ps.len(),
{
    if ps.len() > 0 {
        let d = ps.drop_last();
        lemma_map_of_len(d);
        lemma_map_of_absent(d, ps.last().0);
    }
}

/// With unique keys, giving a pair a new value inserts that value.
pub proof fn lemma_map_of_update(ps: Seq<TextPair>, i: int, v: Seq<char>)
    requires
        keys_unique(ps),
        0 <= i < ps.len(),
    ensures
        map_of(ps.update(i, (ps[i].0, v))) == map_of(ps).insert(ps[i].0, v),
    decreases ps.len(),
{
    let qs = ps.update(i, (ps[i].0, v));
    let d = ps.drop_last();
    if i == ps.len() - 1 {
        assert(qs.drop_last() =~= d);
        assert(map_of(qs) =~= map_of(ps).insert(ps[i].0, v));
    } else {
        assert(qs.drop_last() =~= d.update(i, (d[i].0, v)));
        lemma_map_of_update(d, i, v);
        assert(map_of(qs) =~= map_of(ps).insert(ps[i].0, v));
    }
}

/// The byte form of one pair: its key, then its value, each as text.
pub open spec fn pair_wire(e: TextPair) -> Seq<u8> {
    text_wire(e.0) + text_wire(e.1)
}

/// The byte form of the pairs in order, without their count.
pub open spec fn pairs_wire(ps: Seq<TextPair>) -> Seq<u8>
    decreases ps.len(),
{
    if ps.len() == 0 {
        Seq::empty()
    } else {
        pair_wire(ps[0]) + pairs_wire(ps.skip(1))
    }
}

/// The byte form of a mapping: the number of pairs, then the pairs.
pub open spec fn map_wire(ps: Seq<TextPair>) -> Seq<u8> {
    be32(ps.len() as u32) + pairs_wire(ps)
}

/// Every key and value fits its length field.
pub open spec fn pairs_fit(ps: Seq<TextPair>) -> bool {
    forall|i: int| 0 <= i < ps.len() ==> text_fits(#[trigger] ps[i].0) && text_fits(ps[i].1)
}

/// Reads `n` pairs at position `p` of `b`.
pub open spec fn parse_pairs(b: Seq<u8>, p: int, n: nat) -> Result<(Seq<TextPair>, int), DecodeError>
    decreases n,
{
    if n == 0 {
        Ok((Seq::empty(), p))
    } else {
        match parse_text(b, p) {
            Err(e) => Err(e),
            Ok((k, q)) => match parse_text(b, q) {
                Err(e) => Err(e),
                Ok((v, r)) => match parse_pairs(b, r, (n - 1) as nat) {
                    Err(e) => Err(e),
                    Ok((rest, t)) => Ok((seq![(k, v)] + rest, t)),
                },
            },
        }
    }
}

/// Reads a mapping at position `p` of `b`: a count, then that many pairs.
pub open spec fn parse_map(b: Seq<u8>, p: int) -> Result<(Seq<TextPair>, int), DecodeError> {
    match parse_u32(b, p) {
        Err(e) => Err(e),
        Ok((n, q)) => parse_pairs(b, q, n as nat),
    }
}

/// The byte form of pairs in a row is the byte form of each part in a row.
pub proof fn lemma_pairs_wire_concat(a: Seq<TextPair>, c: Seq<TextPair>)
    ensures
        pairs_wire(a + c) == pairs_wire(a) + pairs_wire(c),
    decreases a.len(),
{
    if a.len() == 0 {
        assert(a + c =~= c);
        assert(pairs_wire(a) + pairs_wire(c) =~= pairs_wire(c));
    } else {
        assert((a + c).skip(1) =~= a.skip(1) + c);
        lemma_pairs_wire_concat(a.skip(1), c);
        assert((a + c)[0] == a[0]);
        assert(pairs_wire(a + c) =~= pairs_wire(a) + pairs_wire(c));
    }
}

/// The byte form of a single pair.
pub proof fn lemma_pairs_wire_one(e: TextPair)
    ensures
        pairs_wire(seq![e]) == pair_wire(e),
{
    let one = seq![e];
    assert(one.skip(1) =~= Seq::<TextPair>::empty());
    assert(pairs_wire(one.skip(1)) =~= Seq::<u8>::empty());
    assert(pairs_wire(one) =~= pair_wire(e));
}

/// Each pair takes at least four bytes.
pub proof fn lemma_pairs_wire_len(ps: Seq<TextPair>)
    ensures
        pairs_wire(ps).len() >= 4 * ps.len(),
    decreases ps.len(),
{
    if ps.len() > 0 {
        lemma_pairs_wire_len(ps.skip(1));
    }
}

/// Reading back the byte form of pairs that fit gives those pairs.
pub proof fn lemma_pairs_round_trip(b: Seq<u8>, p: int, ps: Seq<TextPair>)
    requires
        pairs_fit(ps),
        holds_at(b, p, pairs_wire(ps)),
    ensures
        parse_pairs(b, p, ps.len()) == Ok::<(Seq<TextPair>, int), DecodeError>(
            (ps, p + pairs_wire(ps).len()),
        ),
    decreases ps.len(),
{
    if ps.len() == 0 {
        assert(ps =~= Seq::<TextPair>::empty());
    } else {
        let k = text_wire(ps[0].0);
        let v = text_wire(ps[0].1);
        let rest = ps.skip(1);
        assert(pairs_wire(ps) == k + v + pairs_wire(rest));
        lemma_holds_split(b, p, k + v, pairs_wire(rest));
        lemma_holds_split(b, p, k, v);
        lemma_text_round_trip(b, p, ps[0].0);
        lemma_text_round_trip(b, p + k.len(), ps[0].1);
        assert(pairs_fit(rest)) by {
            assert forall|i: int| 0 <= i < rest.len() implies text_fits(#[trigger] rest[i].0)
                && text_fits(rest[i].1) by {
                assert(rest[i] == ps[i + 1]);
            }
        }
        lemma_pairs_round_trip(b, p + k.len() + v.len(), rest);
        assert(seq![(ps[0].0, ps[0].1)] + rest =~= ps);
        assert(rest.len() == (ps.len() - 1) as nat);
    }
}

/// Reading a strict prefix of the byte form of pairs reports it incomplete.
pub proof fn lemma_pairs_truncated(b: Seq<u8>, p: int, ps: Seq<TextPair>)
    requires
        pairs_fit(ps),
        cut_at(b, p, pairs_wire(ps)),
    ensures
        parse_pairs(b, p, ps.len()) == Err::<(Seq<TextPair>, int), DecodeError>(
            DecodeError::Incomplete,
        ),
    decreases ps.len(),
{
    let k = text_wire(ps[0].0);
    let v = text_wire(ps[0].1);
    let rest = ps.skip(1);
    assert(pairs_wire(ps) == k + v + pairs_wire(rest));
    lemma_cut_split(b, p, k + v, pairs_wire(rest));
    if b.len() < p + k.len() + v.len() {
        lemma_cut_split(b, p, k, v);
        if b.len() < p + k.len() {
            lemma_text_truncated(b, p, ps[0].0);
        } else {
            lemma_text_round_trip(b, p, ps[0].0);
            lemma_text_truncated(b, p + k.len(), ps[0].1);
        }
    } else {
        lemma_holds_split(b, p, k, v);
        lemma_text_round_trip(b, p, ps[0].0);
        lemma_text_round_trip(b, p + k.len(), ps[0].1);
        assert(pairs_fit(rest)) by {
            assert forall|i: int| 0 <= i < rest.len() implies text_fits(#[trigger] rest[i].0)
                && text_fits(rest[i].1) by {
                assert(rest[i] == ps[i + 1]);
            }
        }
        lemma_pairs_truncated(b, p + k.len() + v.len(), rest);
    }
}

/// Writing a mapping and reading it back gives the same keys with the same
/// values, whatever order they were inserted in: what is read back is the
/// mapping's contents.
pub proof fn lemma_map_round_trip(m: Properties)
    requires
        pairs_fit(m.pairs()),
        m.pairs().len() <= u32::MAX,
    ensures
        parse_map(map_wire(m.pairs()), 0) matches Ok((ps, n)) && map_of(ps) == m@ && n
            == map_wire(m.pairs()).len(),
{
    let ps = m.pairs();
    let b = map_wire(ps);
    assert(b.subrange(0, b.len() as int) =~= b);
    lemma_holds_split(b, 0, be32(ps.len() as u32), pairs_wire(ps));
    lemma_u32_round_trip(b, 0, ps.len() as u32);
    lemma_pairs_round_trip(b, 4, ps);
}

/// A mapping of text keys to text values; each key occurs once.
#[derive(Debug, Eq)]
pub struct Properties {
    entries: Vec<(String, String)>,
}

impl View for Properties {
    type V = Map<Seq<char>, Seq<char>>;

    open spec fn view(&self) -> Map<Seq<char>, Seq<char>> {
        map_of(self.pairs())
    }
}

impl Properties {
    /// The entries in the order they were first inserted.
    pub closed spec fn pairs(&self) -> Seq<TextPair> {
        self.entries@.map_values(|e: (String, String)| (e.0@, e.1@))
    }

    /// Each key occurs in one entry only.
    #[verifier::type_invariant]
    closed spec fn inv(self) -> bool {
        keys_unique(self.pairs())
    }

    pub fn new() -> (r: Self)
        ensures
            r.pairs() == Seq::<TextPair>::empty(),
            r@ == Map::<Seq<char>, Seq<char>>::empty(),
    {
        let r = Properties { entries: Vec::new() };
        assert(r.pairs() =~= Seq::<TextPair>::empty());
        r
    }

    /// The position of `key` among the entries, if it is there.
    fn position(&self, key: &str) -> (r: Option<usize>)
        ensures
            match r {
                Some(i) => i < self.pairs().len() && self.pairs()[i as int].0 == key@,
                None => forall|i: int| 0 <= i < self.pairs().len() ==> self.pairs()[i].0 != key@,
            },
    {
        let mut i: usize = 0;
        while i < self.entries.len()
            invariant
                i <= self.entries.len(),
                forall|j: int| 0 <= j < i ==> self.pairs()[j].0 != key@,
            decreases self.entries.len() - i,
        {
            if text_eq(self.entries[i].0.as_str(), key) {
                return Some(i);
            }
            i += 1;
        }
        None
    }

    /// Sets the value of `key`. A key already present keeps its place and
    /// takes the new value; a new key goes after the others.
    pub fn insert(&mut self, key: String, value: String)
        ensures
            final(self)@ == old(self)@.insert(key@, value@),
    {
        proof {
            use_type_invariant(&*self);
        }
        let ghost ps = self.pairs();
        let found = self.position(key.as_str());
        let mut taken = Properties::new();
        std::mem::swap(self, &mut taken);
        let mut entries = taken.entries;
        assert(entries@.map_values(|e: (String, String)| (e.0@, e.1@)) == ps);
        match found {
            Some(i) => {
                entries.set(i, (key, value));
                let ghost qs = entries@.map_values(|e: (String, String)| (e.0@, e.1@));
                proof {
                    assert(qs =~= ps.update(i as int, (ps[i as int].0, value@)));
                    lemma_map_of_update(ps, i as int, value@);
                }
            },
            None => {
                entries.push((key, value));
                let ghost qs = entries@.map_values(|e: (String, String)| (e.0@, e.1@));
                proof {
                    assert(qs =~= ps.push((key@, value@)));
                    assert(qs.drop_last() =~= ps);
                }
            },
        }
        *self = Properties { entries };
    }

    /// The value of `key`, if the mapping has one.
    pub fn get(&self, key: &str) -> (r: Option<&String>)
        ensures
            match r {
                Some(v) => self@.contains_key(key@) && self@[key@] == v@,
                None => !self@.contains_key(key@),
            },
    {
        proof {
            use_type_invariant(self);
        }
        match self.position(key) {
            Some(i) => {
                proof {
                    lemma_map_of_entry(self.pairs(), i as int);
                }
                Some(&self.entries[i].1)
            },
            None => {
                proof {
                    lemma_map_of_absent(self.pairs(), key@);
                }
                None
            },
        }
    }

    /// The number of keys.
    pub fn len(&self) -> (r: usize)
        ensures
            r == self@.len(),
    {
        proof {
            use_type_invariant(self);
            lemma_map_of_len(self.pairs());
        }
        self.entries.len()
    }

    pub fn is_empty(&self) -> (r: bool)
        ensures
            r == (self@.len() == 0),
    {
        proof {
            use_type_invariant(self);
            lemma_map_of_len(self.pairs());
        }
        self.entries.len() == 0
    }

    /// Appends the byte form of the mapping: the number of entries, then each
    /// key and value in entry order.
    pub fn encode(&self, out: &mut Vec<u8>)
        requires
            pairs_fit(self.pairs()),
            self.pairs().len() <= u32::MAX,
        ensures
            final(out)@ == old(out)@ + map_wire(self.pairs()),
    {
        let ghost ps = self.pairs();
        put_u32(out, self.entries.len() as u32);
        let mut i: usize = 0;
        while i < self.entries.len()
            invariant
                ps == self.pairs(),
                ps.len() == self.entries.len(),
                i <= ps.len(),
                pairs_fit(ps),
                out@ == old(out)@ + be32(ps.len() as u32) + pairs_wire(ps.take(i as int)),
            decreases self.entries.len() - i,
        {
            let key = self.entries[i].0.as_str();
            let value = self.entries[i].1.as_str();
            assert(key@ == ps[i as int].0 && value@ == ps[i as int].1);
            put_text(out, key);
            put_text(out, value);
            proof {
                let one = seq![ps[i as int]];
                assert(ps.take(i + 1) =~= ps.take(i as int) + one);
                lemma_pairs_wire_concat(ps.take(i as int), one);
                lemma_pairs_wire_one(ps[i as int]);
            }
            i += 1;
        }
        assert(ps.take(i as int) =~= ps);
    }

    /// The byte length of `base` bytes followed by the byte form of the
    /// mapping; `None` where a key or value is too long for its length field
    /// or the total is too large for 32 bits.
    pub fn size_after(&self, base: u32) -> (r: Option<u32>)
        ensures
            r is Some <==> pairs_fit(self.pairs()) && base + map_wire(self.pairs()).len()
                <= u32::MAX,
            r matches Some(n) ==> n == base + map_wire(self.pairs()).len(),
    {
        let ghost ps = self.pairs();
        let mut acc: u64 = base as u64 + 4;
        if acc > u32::MAX as u64 {
            proof {
                lemma_pairs_wire_len(ps);
            }
            return None;
        }
        let mut i: usize = 0;
        while i < self.entries.len()
            invariant
                ps == self.pairs(),
                ps.len() == self.entries.len(),
                i <= ps.len(),
                forall|j: int| 0 <= j < i ==> text_fits(#[trigger] ps[j].0) && text_fits(ps[j].1),
                acc == base + 4 + pairs_wire(ps.take(i as int)).len(),
                acc <= u32::MAX,
            decreases self.entries.len() - i,
        {
            let key = self.entries[i].0.as_str();
            let value = self.entries[i].1.as_str();
            assert(key@ == ps[i as int].0 && value@ == ps[i as int].1);
            let k = key.as_bytes().len();
            let v = value.as_bytes().len();
            if k > TEXT_MAX || v > TEXT_MAX {
                return None;
            }
            assert(k == encode_utf8(key@).len() && v == encode_utf8(value@).len());
            assert(text_wire(key@).len() == k + 2 && text_wire(value@).len() == v + 2);
            proof {
                let one = seq![ps[i as int]];
                assert(ps.take(i + 1) =~= ps.take(i as int) + one);
                lemma_pairs_wire_concat(ps.take(i as int), one);
                lemma_pairs_wire_one(ps[i as int]);
                assert(ps =~= ps.take(i + 1) + ps.skip(i + 1));
                lemma_pairs_wire_concat(ps.take(i + 1), ps.skip(i + 1));
            }
            acc = acc + 4 + k as u64 + v as u64;
            if acc > u32::MAX as u64 {
                return None;
            }
            i += 1;
        }
        assert(ps.take(i as int) =~= ps);
        Some(acc as u32)
    }

    /// Reads a mapping at position `pos`: a count, then that many keys and
    /// values. A later entry with a key seen before replaces its value.
    pub fn decode_at(input: &[u8], pos: usize) -> (r: Result<(Properties, usize), DecodeError>)
        ensures
            match (r, parse_map(input@, pos as int)) {
                (Ok((m, q)), Ok((ps, n))) => m@ == map_of(ps) && q == n,
                (Err(e), Err(f)) => e == f,
                _ => false,
            },
            r matches Ok((_, q)) ==> pos <= q <= input@.len(),
    {
        let (n, start) = read_u32(input, pos)?;
        let mut m = Properties::new();
        let mut cur = start;
        let mut i: u32 = 0;
        let ghost acc: Seq<TextPair> = Seq::empty();
        while i < n
            invariant
                i <= n,
                pos <= cur <= input@.len(),
                m@ == map_of(acc),
                parse_map(input@, pos as int) == match parse_pairs(input@, cur as int, (n - i) as nat) {
                    Ok((rest, t)) => Ok((acc + rest, t)),
                    Err(e) => Err(e),
                },
            decreases n - i,
        {
            let (k, q) = read_text(input, cur)?;
            let (v, t) = read_text(input, q)?;
            let ghost kv = (k@, v@);
            m.insert(k, v);
            proof {
                match parse_pairs(input@, t as int, (n - i - 1) as nat) {
                    Ok((rest, e)) => {
                        assert(acc.push(kv) + rest =~= acc + (seq![kv] + rest));
                    },
                    Err(_) => {},
                }
                assert(acc.push(kv).drop_last() =~= acc);
                acc = acc.push(kv);
            }
            cur = t;
            i += 1;
        }
        proof {
            assert(acc + Seq::<TextPair>::empty() =~= acc);
        }
        Ok((m, cur))
    }
}

/// Two mappings are equal when they hold the same keys with the same values,
/// whatever order their entries are in.
impl PartialEq for Properties {
    fn eq(&self, other: &Properties) -> (r: bool) {
        proof {
            use_type_invariant(self);
            use_type_invariant(other);
            lemma_map_of_len(self.pairs());
            lemma_map_of_len(other.pairs());
        }
        let ghost ps = self.pairs();
        let ghost a_len = self@.dom().len();
        let ghost b_len = other@.dom().len();
        if self.entries.len() != other.entries.len() {
            assert(other.pairs().len() == other.entries@.len());
            return false;
        }
        assert(other.pairs().len() == other.entries@.len());
        let mut i: usize = 0;
        while i < self.entries.len()
            invariant
                ps == self.pairs(),
                ps.len() == self.entries.len(),
                self.entries.len() == other.entries.len(),
                a_len == ps.len(),
                b_len == other.pairs().len(),
                a_len == b_len,
                keys_unique(ps),
                i <= ps.len(),
                forall|j: int|
                    0 <= j < i ==> other@.contains_key(#[trigger] ps[j].0) && other@[ps[j].0]
                        == ps[j].1,
            decreases self.entries.len() - i,
        {
            let key = self.entries[i].0.as_str();
            let value = self.entries[i].1.as_str();
            assert(key@ == ps[i as int].0 && value@ == ps[i as int].1);
            proof {
                lemma_map_of_entry(ps, i as int);
            }
            match other.get(key) {
                None => {
                    return false;
                },
                Some(v) => {
                    if !text_eq(v.as_str(), value) {
                        return false;
                    }
                },
            }
            i += 1;
        }
        proof {
            let a = self@;
            let b = other@;
            assert forall|k: Seq<char>| #[trigger] a.dom().contains(k) implies b.dom().contains(k)
                && b[k] == a[k] by {
                lemma_map_of_contains(ps, k);
                let j = choose|j: int| 0 <= j < ps.len() && #[trigger] ps[j].0 == k;
                lemma_map_of_entry(ps, j);
            }
            assert(a.dom().subset_of(b.dom()));
            assert(other.pairs().len() == other.entries@.len());
            vstd::set_lib::lemma_subset_equality(a.dom(), b.dom());
            assert(a =~= b);
        }
        true
    }
}

impl vstd::std_specs::cmp::PartialEqSpecImpl for Properties {
    open spec fn obeys_eq_spec() -> bool {
        true
    }

    open spec fn eq_spec(&self, other: &Properties) -> bool {
        self@ == other@
    }
}

} // verus!
