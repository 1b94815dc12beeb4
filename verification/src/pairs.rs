//! The pair store: every combination attempt ever made, keyed by the
//! canonical (order-free) pair of names.
//!
//! A record is write-once: once a canonical key is present, the attempt is
//! never repeated. The value is the resulting element's name, or absent
//! when the combination yielded nothing.

use vstd::prelude::*;
use vstd::string::*;
use crate::order::canonical_key;
use crate::order::seq_le;
use crate::order::spec_key;
use crate::order::str_eq;

verus! {

/// One recorded combination attempt: the canonical pair of names, and the
/// resulting element's name (absent when the combination yields nothing).
#[derive(Debug)]
pub struct Pair {
    pub first: String,
    pub second: String,
    pub result: Option<String>,
}

/// The mathematical value of a [`Pair`].
pub ghost struct PairV {
    pub first: Seq<char>,
    pub second: Seq<char>,
    pub result: Option<Seq<char>>,
}

impl View for Pair {
    type V = PairV;

    open spec fn view(&self) -> PairV {
        PairV {
            first: self.first@,
            second: self.second@,
            result: match self.result {
                Some(s) => Some(s@),
                None => None,
            },
        }
    }
}

impl Pair {
    /// An exact copy.
    pub fn duplicate(&self) -> (r: Pair)
        ensures
            r == *self,
    {
        Pair {
            first: self.first.clone(),
            second: self.second.clone(),
            result: match &self.result {
                Some(s) => Some(s.clone()),
                None => None,
            },
        }
    }
}

/// The canonical form of a pair record: its two names sorted.
pub open spec fn canon_pair(p: PairV) -> PairV {
    PairV { first: spec_key(p.first, p.second).0, second: spec_key(p.first, p.second).1, result: p.result }
}

/// The contents of a sequence of pair records as a map from canonical key
/// to outcome; with duplicate keys the later entry wins.
pub open spec fn pairs_map(s: Seq<PairV>) -> Map<(Seq<char>, Seq<char>), Option<Seq<char>>>
    decreases s.len(),
{
    if s.len() == 0 {
        Map::empty()
    } else {
        pairs_map(s.drop_last()).insert((s.last().first, s.last().second), s.last().result)
    }
}

/// Whether some record of the sequence carries the given key.
pub open spec fn has_key(s: Seq<PairV>, k: (Seq<char>, Seq<char>)) -> bool {
    exists|i: int| 0 <= i < s.len() && (s[i].first, s[i].second) == k
}

/// No two records of the sequence share a key.
pub open spec fn unique_keys(s: Seq<PairV>) -> bool {
    forall|i: int, j: int|
        0 <= i < j < s.len() ==> (s[i].first, s[i].second) != (s[j].first, s[j].second)
}

/// Every record of the sequence has its names in canonical order.
pub open spec fn all_canonical(s: Seq<PairV>) -> bool {
    forall|i: int| 0 <= i < s.len() ==> seq_le(#[trigger] s[i].first, s[i].second)
}

/// A key is in `pairs_map(s)` exactly when a record of `s` has it.
pub proof fn lemma_pairs_map_domain(s: Seq<PairV>, k: (Seq<char>, Seq<char>))
    ensures
        pairs_map(s).contains_key(k) <==> has_key(s, k),
    decreases s.len(),
{
    if s.len() > 0 {
        lemma_pairs_map_domain(s.drop_last(), k);
        if (s.last().first, s.last().second) == k {
            assert((s[s.len() - 1].first, s[s.len() - 1].second) == k);
        } else {
            if has_key(s, k) {
                let i = choose|i: int| 0 <= i < s.len() && (s[i].first, s[i].second) == k;
                assert((s.drop_last()[i].first, s.drop_last()[i].second) == k);
            }
            if has_key(s.drop_last(), k) {
                let i = choose|i: int|
                    0 <= i < s.drop_last().len() && (s.drop_last()[i].first, s.drop_last()[i].second)
                        == k;
                assert((s[i].first, s[i].second) == k);
            }
        }
    }
}

/// With pairwise distinct keys, `pairs_map(s)` maps each record's key to
/// that record's outcome.
pub proof fn lemma_pairs_map_get(s: Seq<PairV>, i: int)
    requires
        unique_keys(s),
        0 <= i < s.len(),
    ensures
        pairs_map(s).contains_key((s[i].first, s[i].second)),
        pairs_map(s)[(s[i].first, s[i].second)] == s[i].result,
    decreases s.len(),
{
    if i < s.len() - 1 {
        assert(s.drop_last()[i] == s[i]);
        lemma_pairs_map_get(s.drop_last(), i);
        assert((s.last().first, s.last().second) != (s[i].first, s[i].second));
    }
}

/// The store of tried pairs, keyed by canonical pair key.
pub struct PairStore {
    pairs: Vec<Pair>,
}

impl View for PairStore {
    type V = Map<(Seq<char>, Seq<char>), Option<Seq<char>>>;

    open spec fn view(&self) -> Map<(Seq<char>, Seq<char>), Option<Seq<char>>> {
        pairs_map(self.seq_view())
    }
}

impl PairStore {
    /// The recorded pairs, in store order.
    pub closed spec fn seq_view(&self) -> Seq<PairV> {
        self.pairs@.map_values(|p: Pair| p@)
    }

    /// Well-formed: every record is canonical and no two share a key.
    pub open spec fn wf(&self) -> bool {
        all_canonical(self.seq_view()) && unique_keys(self.seq_view())
    }

    /// An empty store.
    pub fn new() -> (r: PairStore)
        ensures
            r.wf(),
            r.seq_view() =~= Seq::<PairV>::empty(),
            r@ =~= Map::<(Seq<char>, Seq<char>), Option<Seq<char>>>::empty(),
    {
        PairStore { pairs: Vec::new() }
    }

    /// How many pairs were recorded.
    pub fn len(&self) -> (n: usize)
        ensures
            n == self.seq_view().len(),
    {
        self.pairs.len()
    }

    /// Looks the record of an unordered pair of names up; the names may
    /// come in either order.
    pub fn get(&self, first: &str, second: &str) -> (r: Option<&Pair>)
        requires
            self.wf(),
        ensures
            match r {
                Some(p) => self@.contains_key(spec_key(first@, second@)) && (p@.first, p@.second)
                    == spec_key(first@, second@) && p@.result == self@[spec_key(first@, second@)],
                None => !self@.contains_key(spec_key(first@, second@)),
            },
    {
        let (k0, k1) = canonical_key(first, second);
        let n = self.pairs.len();
        let mut i: usize = 0;
        while i < n
            invariant
                i <= n,
                n == self.pairs@.len(),
                self.wf(),
                (k0@, k1@) == spec_key(first@, second@),
                forall|k: int|
                    0 <= k < i ==> (self.seq_view()[k].first, self.seq_view()[k].second) != (
                    k0@,
                    k1@,
                    ),
            decreases n - i,
        {
            if str_eq(self.pairs[i].first.as_str(), k0.as_str()) && str_eq(
                self.pairs[i].second.as_str(),
                k1.as_str(),
            ) {
                proof {
                    lemma_pairs_map_get(self.seq_view(), i as int);
                }
                return Some(&self.pairs[i]);
            }
            i = i + 1;
        }
        proof {
            lemma_pairs_map_domain(self.seq_view(), (k0@, k1@));
        }
        None
    }

    /// Whether the unordered pair of two names was already tried; the names
    /// may come in either order.
    pub fn contains(&self, first: &str, second: &str) -> (r: bool)
        requires
            self.wf(),
        ensures
            r == self@.contains_key(spec_key(first@, second@)),
    {
        self.get(first, second).is_some()
    }

    /// Records the outcome of a pair that was not tried before; the two
    /// names must already be in canonical order.
    pub fn record(&mut self, first: String, second: String, result: Option<String>)
        requires
            old(self).wf(),
            seq_le(first@, second@),
            !old(self)@.contains_key((first@, second@)),
        ensures
            final(self).wf(),
            final(self).seq_view() == old(self).seq_view().push(
                PairV {
                    first: first@,
                    second: second@,
                    result: match result {
                        Some(s) => Some(s@),
                        None => None,
                    },
                },
            ),
            final(self)@ == old(self)@.insert(
                (first@, second@),
                match result {
                    Some(s) => Some(s@),
                    None => None,
                },
            ),
    {
        proof {
            lemma_pairs_map_domain(old(self).seq_view(), (first@, second@));
        }
        let ghost old_seq = self.seq_view();
        let p = Pair { first, second, result };
        self.pairs.push(p);
        proof {
            assert(self.seq_view() =~= old_seq.push(p@));
            assert(self.seq_view().drop_last() =~= old_seq);
        }
    }

    /// Builds a store from loaded rows, sorting each row's names into
    /// canonical order; with duplicate keys the first row wins.
    pub fn from_rows(rows: &Vec<Pair>) -> (r: PairStore)
        ensures
            r.wf(),
            r.seq_view() == dedup_pairs(rows@.map_values(|p: Pair| canon_pair(p@))),
    {
        let ghost xs = rows@.map_values(|p: Pair| canon_pair(p@));
        let mut store = PairStore::new();
        let n = rows.len();
        let mut i: usize = 0;
        while i < n
            invariant
                i <= n,
                n == rows@.len(),
                xs == rows@.map_values(|p: Pair| canon_pair(p@)),
                store.wf(),
                store.seq_view() == dedup_pairs(xs.take(i as int)),
            decreases n - i,
        {
            proof {
                assert(xs.take(i as int + 1).drop_last() =~= xs.take(i as int));
                assert(xs.take(i as int + 1).last() == xs[i as int]);
            }
            let row = &rows[i];
            let (k0, k1) = canonical_key(row.first.as_str(), row.second.as_str());
            proof {
                crate::order::lemma_seq_le_total(row.first@, row.second@);
                assert(seq_le(k0@, k1@));
                assert(spec_key(k0@, k1@) == (k0@, k1@));
                lemma_pairs_map_domain(store.seq_view(), (k0@, k1@));
                assert((xs[i as int].first, xs[i as int].second) == (k0@, k1@));
            }
            if !store.contains(k0.as_str(), k1.as_str()) {
                let value: Option<String> = match &row.result {
                    Some(s) => Some(s.clone()),
                    None => None,
                };
                store.record(k0, k1, value);
            }
            i = i + 1;
        }
        proof {
            assert(xs.take(n as int) =~= xs);
        }
        store
    }
}

/// Loaded pair rows deduplicated front to back, the first occurrence of a
/// key winning.
pub open spec fn dedup_pairs(s: Seq<PairV>) -> Seq<PairV>
    decreases s.len(),
{
    if s.len() == 0 {
        Seq::empty()
    } else {
        let p = dedup_pairs(s.drop_last());
        if has_key(p, (s.last().first, s.last().second)) {
            p
        } else {
            p.push(s.last())
        }
    }
}

} // verus!
