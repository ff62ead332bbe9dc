//! The account record: an initialization flag plus an ordered
//! string-to-string map, together with its fixed-size binary codec.
//!
//! The in-memory form keeps the entries sorted by the byte-lexicographic
//! order of their keys, so that a record with given logical content always
//! serializes to the same bytes.

use vstd::prelude::*;
use vstd::utf8::encode_utf8;
use vstd::bytes::{
    spec_u32_from_le_bytes, spec_u32_to_le_bytes, lemma_auto_spec_u32_to_from_le_bytes,
    u32_from_le_bytes, u32_to_le_bytes,
};
use vstd::slice::{slice_index_get, slice_subrange};
use vstd::string::StrSliceExecFns;
use crate::bytestr::{
    bytes_lt, bytes_eq, lex_lt, lemma_lex_lt_irreflexive, lemma_lex_lt_asymmetric,
    lemma_lex_lt_transitive, lemma_lex_lt_total, lemma_encode_utf8_injective,
    spec_encode_string, spec_parse_string, lemma_parse_encode_string, read_string,
};
use crate::error::SampleError;

verus! {

/// Size of the initialization flag region.
pub const INITIALIZED_BYTES: usize = 1;
/// Size of the serialized-map length region.
pub const BTREE_LENGTH: usize = 4;
/// Size of the serialized-map payload region.
pub const BTREE_STORAGE: usize = 1019;
/// Total size of an account record buffer.
pub const ACCOUNT_STATE_SPACE: usize = INITIALIZED_BYTES + BTREE_LENGTH + BTREE_STORAGE;

// ---------------------------------------------------------------------
// The mathematical model: a sequence of key/value pairs and the map it
// denotes (later pairs win, as repeated inserts would).
// ---------------------------------------------------------------------

/// Inserts each pair of `es` into `m`, in order.
pub open spec fn spec_fold_pairs(
    m: Map<Seq<char>, Seq<char>>,
    es: Seq<(Seq<char>, Seq<char>)>,
) -> Map<Seq<char>, Seq<char>>
    decreases es.len(),
{
    if es.len() == 0 {
        m
    } else {
        spec_fold_pairs(m.insert(es[0].0, es[0].1), es.drop_first())
    }
}

/// The map denoted by a pair sequence.
pub open spec fn spec_pairs_map(es: Seq<(Seq<char>, Seq<char>)>) -> Map<Seq<char>, Seq<char>> {
    spec_fold_pairs(Map::empty(), es)
}

/// Entries strictly ordered by the byte-lexicographic order of their keys.
pub open spec fn spec_entries_sorted(es: Seq<(Seq<char>, Seq<char>)>) -> bool {
    forall|i: int, j: int|
        0 <= i < j < es.len() ==> lex_lt(
            encode_utf8(#[trigger] es[i].0),
            encode_utf8(#[trigger] es[j].0),
        )
}

pub proof fn lemma_fold_contains(
    m: Map<Seq<char>, Seq<char>>,
    es: Seq<(Seq<char>, Seq<char>)>,
    k: Seq<char>,
)
    ensures
        spec_fold_pairs(m, es).contains_key(k) <==> (m.contains_key(k) || exists|i: int|
            0 <= i < es.len() && (#[trigger] es[i]).0 == k),
    decreases es.len(),
{
    if es.len() > 0 {
        lemma_fold_contains(m.insert(es[0].0, es[0].1), es.drop_first(), k);
        if exists|i: int| 0 <= i < es.drop_first().len() && (#[trigger] es.drop_first()[i]).0 == k {
            let i = choose|i: int|
                0 <= i < es.drop_first().len() && (#[trigger] es.drop_first()[i]).0 == k;
            assert(es[i + 1].0 == k);
        }
        if exists|i: int| 0 <= i < es.len() && (#[trigger] es[i]).0 == k {
            let i = choose|i: int| 0 <= i < es.len() && (#[trigger] es[i]).0 == k;
            if i > 0 {
                assert(es.drop_first()[i - 1].0 == k);
            }
        }
    }
}

/// Inserting a key that none of `es` mentions commutes with the fold.
pub proof fn lemma_fold_insert_commutes(
    m: Map<Seq<char>, Seq<char>>,
    es: Seq<(Seq<char>, Seq<char>)>,
    k: Seq<char>,
    v: Seq<char>,
)
    requires
        forall|i: int| 0 <= i < es.len() ==> (#[trigger] es[i]).0 != k,
    ensures
        spec_fold_pairs(m.insert(k, v), es) == spec_fold_pairs(m, es).insert(k, v),
    decreases es.len(),
{
    if es.len() > 0 {
        let m2 = m.insert(es[0].0, es[0].1);
        assert(m.insert(k, v).insert(es[0].0, es[0].1) =~= m2.insert(k, v));
        assert(forall|i: int|
            0 <= i < es.drop_first().len() ==> (#[trigger] es.drop_first()[i]).0 != k);
        lemma_fold_insert_commutes(m2, es.drop_first(), k, v);
    }
}

pub proof fn lemma_fold_concat(
    m: Map<Seq<char>, Seq<char>>,
    a: Seq<(Seq<char>, Seq<char>)>,
    b: Seq<(Seq<char>, Seq<char>)>,
)
    ensures
        spec_fold_pairs(m, a + b) == spec_fold_pairs(spec_fold_pairs(m, a), b),
    decreases a.len(),
{
    if a.len() == 0 {
        assert(a + b =~= b);
    } else {
        assert((a + b)[0] == a[0]);
        assert((a + b).drop_first() =~= a.drop_first() + b);
        lemma_fold_concat(m.insert(a[0].0, a[0].1), a.drop_first(), b);
    }
}

/// Splits the map of `es` around index `i`: the entry there becomes the
/// final insert as long as no later entry shares its key.
pub proof fn lemma_pairs_map_split(es: Seq<(Seq<char>, Seq<char>)>, i: int)
    requires
        0 <= i < es.len(),
        forall|j: int| i < j < es.len() ==> (#[trigger] es[j]).0 != es[i].0,
    ensures
        spec_pairs_map(es) == spec_pairs_map(es.remove(i)).insert(es[i].0, es[i].1),
{
    let head = es.take(i);
    let mid = seq![es[i]];
    let tail = es.skip(i + 1);
    assert(es =~= head + (mid + tail));
    lemma_fold_concat(Map::empty(), head, mid + tail);
    lemma_fold_concat(spec_fold_pairs(Map::empty(), head), mid, tail);
    let base = spec_fold_pairs(Map::empty(), head);
    assert(spec_fold_pairs(base, mid) == base.insert(es[i].0, es[i].1)) by {
        assert(mid[0] == es[i]);
        assert(mid.drop_first() =~= Seq::<(Seq<char>, Seq<char>)>::empty());
        assert(spec_fold_pairs(base.insert(es[i].0, es[i].1), mid.drop_first()) == base.insert(
            es[i].0,
            es[i].1,
        ));
    }
    assert(forall|j: int| 0 <= j < tail.len() ==> (#[trigger] tail[j]).0 != es[i].0) by {
        assert forall|j: int| 0 <= j < tail.len() implies (#[trigger] tail[j]).0 != es[i].0 by {
            assert(tail[j] == es[i + 1 + j]);
        }
    }
    lemma_fold_insert_commutes(base, tail, es[i].0, es[i].1);
    assert(es.remove(i) =~= head + tail);
    lemma_fold_concat(Map::empty(), head, tail);
}

/// In a sorted sequence all keys are distinct.
pub proof fn lemma_sorted_distinct(es: Seq<(Seq<char>, Seq<char>)>)
    requires
        spec_entries_sorted(es),
    ensures
        forall|i: int, j: int|
            0 <= i < es.len() && 0 <= j < es.len() && i != j ==> (#[trigger] es[i]).0 != (
            #[trigger] es[j]).0,
{
    assert forall|i: int, j: int|
        0 <= i < es.len() && 0 <= j < es.len() && i != j implies (#[trigger] es[i]).0 != (
    #[trigger] es[j]).0 by {
        if es[i].0 == es[j].0 {
            if i < j {
                lemma_lex_lt_irreflexive(encode_utf8(es[i].0));
            } else {
                lemma_lex_lt_irreflexive(encode_utf8(es[j].0));
            }
        }
    }
}

/// In a sorted sequence, the map sends each present key to that entry's
/// value.
pub proof fn lemma_sorted_value_at(es: Seq<(Seq<char>, Seq<char>)>, i: int)
    requires
        spec_entries_sorted(es),
        0 <= i < es.len(),
    ensures
        spec_pairs_map(es).contains_key(es[i].0),
        spec_pairs_map(es)[es[i].0] == es[i].1,
{
    lemma_sorted_distinct(es);
    lemma_pairs_map_split(es, i);
}

/// Sorted sequences with the same map are the same sequence: the sorted
/// form is canonical, which is what makes the encoding deterministic.
pub proof fn lemma_sorted_canonical(a: Seq<(Seq<char>, Seq<char>)>, b: Seq<(Seq<char>, Seq<char>)>)
    requires
        spec_entries_sorted(a),
        spec_entries_sorted(b),
        spec_pairs_map(a) == spec_pairs_map(b),
    ensures
        a == b,
    decreases a.len(),
{
    lemma_fold_contains(Map::empty(), a, arbitrary());
    if a.len() == 0 {
        if b.len() > 0 {
            lemma_sorted_value_at(b, b.len() - 1);
            lemma_fold_contains(Map::empty(), a, b.last().0);
        }
        assert(a =~= b);
    } else if b.len() == 0 {
        lemma_sorted_value_at(a, a.len() - 1);
        lemma_fold_contains(Map::empty(), b, a.last().0);
        assert(a =~= b);
    } else {
        let ka = a.last().0;
        let kb = b.last().0;
        // each of the two last keys is the strict maximum of the shared domain
        assert(ka == kb) by {
            if ka != kb {
                lemma_sorted_value_at(a, a.len() - 1);
                lemma_sorted_value_at(b, b.len() - 1);
                lemma_fold_contains(Map::empty(), a, kb);
                lemma_fold_contains(Map::empty(), b, ka);
                let ia = choose|i: int| 0 <= i < a.len() && (#[trigger] a[i]).0 == kb;
                let ib = choose|i: int| 0 <= i < b.len() && (#[trigger] b[i]).0 == ka;
                lemma_sorted_distinct(a);
                lemma_sorted_distinct(b);
                assert(ia < a.len() - 1);
                assert(ib < b.len() - 1);
                assert(lex_lt(encode_utf8(kb), encode_utf8(ka)));
                assert(lex_lt(encode_utf8(ka), encode_utf8(kb)));
                lemma_lex_lt_asymmetric(encode_utf8(ka), encode_utf8(kb));
            }
        }
        lemma_sorted_value_at(a, a.len() - 1);
        lemma_sorted_value_at(b, b.len() - 1);
        assert(a.last().1 == b.last().1);
        // peel the last entry off both sides and recurse
        lemma_sorted_distinct(a);
        lemma_sorted_distinct(b);
        lemma_pairs_map_split(a, a.len() - 1);
        lemma_pairs_map_split(b, b.len() - 1);
        let a1 = a.drop_last();
        let b1 = b.drop_last();
        assert(a1 =~= a.remove(a.len() - 1));
        assert(b1 =~= b.remove(b.len() - 1));
        assert(!spec_pairs_map(a1).contains_key(ka)) by {
            lemma_fold_contains(Map::empty(), a1, ka);
            if exists|i: int| 0 <= i < a1.len() && (#[trigger] a1[i]).0 == ka {
                let i = choose|i: int| 0 <= i < a1.len() && (#[trigger] a1[i]).0 == ka;
                assert(a[i].0 == ka);
            }
        }
        assert(!spec_pairs_map(b1).contains_key(kb)) by {
            lemma_fold_contains(Map::empty(), b1, kb);
            if exists|i: int| 0 <= i < b1.len() && (#[trigger] b1[i]).0 == kb {
                let i = choose|i: int| 0 <= i < b1.len() && (#[trigger] b1[i]).0 == kb;
                assert(b[i].0 == kb);
            }
        }
        assert(spec_pairs_map(a1) =~= spec_pairs_map(a).remove(ka));
        assert(spec_pairs_map(b1) =~= spec_pairs_map(b).remove(kb));
        assert(spec_entries_sorted(a1));
        assert(spec_entries_sorted(b1));
        lemma_sorted_canonical(a1, b1);
        assert(a.len() == b.len());
        assert forall|i: int| 0 <= i < a.len() implies a[i] == b[i] by {
            if i < a.len() - 1 {
                assert(a[i] == a1[i]);
                assert(b[i] == b1[i]);
            } else {
                assert(a[i].0 == b[i].0);
                assert(a[i].1 == b[i].1);
                assert(a[i] =~= b[i]);
            }
        }
        assert(a =~= b);
    }
}

// ---------------------------------------------------------------------
// The record itself
// ---------------------------------------------------------------------

/// An account record: whether it has been initialized, and its key/value
/// entries, kept sorted by key bytes.
#[derive(Debug, PartialEq)]
pub struct ProgramAccountState {
    is_initialized: bool,
    btree_storage: Vec<(String, String)>,
}

impl ProgramAccountState {
    /// The entries as character sequences, in storage order.
    pub closed spec fn entries_model(&self) -> Seq<(Seq<char>, Seq<char>)> {
        self.btree_storage@.map_values(|p: (String, String)| (p.0@, p.1@))
    }

    /// The map this record holds.
    pub open spec fn as_map(&self) -> Map<Seq<char>, Seq<char>> {
        spec_pairs_map(self.entries_model())
    }

    pub closed spec fn initialized(&self) -> bool {
        self.is_initialized
    }

    /// Well-formedness: entries strictly sorted by key bytes.
    pub open spec fn wf(&self) -> bool {
        spec_entries_sorted(self.entries_model())
    }

    /// A fresh, uninitialized, empty record.
    pub fn new() -> (r: Self)
        ensures
            r.wf(),
            !r.initialized(),
            r.as_map() == Map::<Seq<char>, Seq<char>>::empty(),
            r.entries_model() == Seq::<(Seq<char>, Seq<char>)>::empty(),
    {
        let r = ProgramAccountState { is_initialized: false, btree_storage: Vec::new() };
        proof {
            assert(r.entries_model() =~= Seq::<(Seq<char>, Seq<char>)>::empty());
        }
        r
    }

    pub fn is_initialized(&self) -> (r: bool)
        ensures
            r == self.initialized(),
    {
        self.is_initialized
    }

    pub fn set_initialized(&mut self)
        ensures
            final(self).initialized(),
            final(self).entries_model() == old(self).entries_model(),
            final(self).as_map() == old(self).as_map(),
            final(self).wf() == old(self).wf(),
    {
        self.is_initialized = true;
    }

    /// Number of entries held.
    pub fn len(&self) -> (r: usize)
        ensures
            r == self.entries_model().len(),
    {
        self.btree_storage.len()
    }

    /// Index of the first entry whose key bytes are not below `key_bytes`,
    /// and whether that entry's key bytes equal `key_bytes`.
    fn find_index(&self, key_bytes: &[u8]) -> (r: (usize, bool))
        requires
            self.wf(),
        ensures
            r.0 <= self.entries_model().len(),
            forall|j: int|
                0 <= j < r.0 ==> lex_lt(encode_utf8(#[trigger] self.entries_model()[j].0), key_bytes@),
            r.1 ==> r.0 < self.entries_model().len() && encode_utf8(
                self.entries_model()[r.0 as int].0,
            ) == key_bytes@,
            !r.1 && r.0 < self.entries_model().len() ==> lex_lt(
                key_bytes@,
                encode_utf8(self.entries_model()[r.0 as int].0),
            ),
    {
        let n = self.btree_storage.len();
        let mut i: usize = 0;
        while i < n
            invariant
                i <= n,
                n == self.entries_model().len(),
                self.wf(),
                forall|j: int|
                    0 <= j < i ==> lex_lt(
                        encode_utf8(#[trigger] self.entries_model()[j].0),
                        key_bytes@,
                    ),
            decreases n - i,
        {
            let entry_key_bytes = self.btree_storage[i].0.as_str().as_bytes();
            proof {
                assert(entry_key_bytes@ == encode_utf8(self.entries_model()[i as int].0));
            }
            if bytes_lt(entry_key_bytes, key_bytes) {
                i = i + 1;
            } else {
                let eq = bytes_eq(entry_key_bytes, key_bytes);
                proof {
                    if !eq {
                        lemma_lex_lt_total(entry_key_bytes@, key_bytes@);
                    }
                }
                return (i, eq);
            }
        }
        (n, false)
    }

    /// No entry of a sorted record bears key `k` when the scan stopped at
    /// `pos` without an exact byte match.
    proof fn lemma_absent(&self, pos: int, k: Seq<char>, key_bytes: Seq<u8>)
        requires
            self.wf(),
            key_bytes == encode_utf8(k),
            0 <= pos <= self.entries_model().len(),
            forall|j: int|
                0 <= j < pos ==> lex_lt(encode_utf8(#[trigger] self.entries_model()[j].0), key_bytes),
            pos < self.entries_model().len() ==> lex_lt(
                key_bytes,
                encode_utf8(self.entries_model()[pos].0),
            ),
        ensures
            forall|j: int| 0 <= j < self.entries_model().len() ==> (#[trigger] self.entries_model()[j]).0 != k,
            !self.as_map().contains_key(k),
    {
        let es = self.entries_model();
        assert forall|j: int| 0 <= j < es.len() implies (#[trigger] es[j]).0 != k by {
            let ej = encode_utf8(es[j].0);
            if j < pos {
                lemma_lex_lt_asymmetric(ej, key_bytes);
            } else if j == pos {
                lemma_lex_lt_asymmetric(key_bytes, ej);
            } else {
                lemma_lex_lt_transitive(key_bytes, encode_utf8(es[pos].0), ej);
                lemma_lex_lt_asymmetric(key_bytes, ej);
            }
            if es[j].0 == k {
                assert(ej == key_bytes);
            }
        }
        lemma_fold_contains(Map::empty(), es, k);
    }

    /// Adds a new key/value pair to the account.  Fails, changing nothing,
    /// when the key is already present.
    pub fn add(&mut self, key: String, value: String) -> (r: Result<(), SampleError>)
        requires
            old(self).wf(),
        ensures
            final(self).wf(),
            final(self).initialized() == old(self).initialized(),
            old(self).as_map().contains_key(key@) ==> r == Err::<(), SampleError>(
                SampleError::KeyAlreadyExists,
            ) && *final(self) == *old(self),
            !old(self).as_map().contains_key(key@) ==> r is Ok && final(self).as_map() == old(
                self,
            ).as_map().insert(key@, value@),
    {
        let ghost es = old(self).entries_model();
        let key_bytes = key.as_str().as_bytes();
        proof {
            assert(key_bytes@ == encode_utf8(key@));
        }
        let (pos, found) = self.find_index(key_bytes);
        if found {
            proof {
                lemma_encode_utf8_injective(es[pos as int].0, key@);
                lemma_sorted_distinct(es);
                lemma_sorted_value_at(es, pos as int);
            }
            return Err(SampleError::KeyAlreadyExists);
        }
        proof {
            self.lemma_absent(pos as int, key@, key_bytes@);
        }
        self.btree_storage.insert(pos, (key, value));
        proof {
            let es2 = self.entries_model();
            assert(es2 =~= es.insert(pos as int, (key@, value@)));
            assert(spec_entries_sorted(es2)) by {
                assert forall|i: int, j: int| 0 <= i < j < es2.len() implies lex_lt(
                    encode_utf8(#[trigger] es2[i].0),
                    encode_utf8(#[trigger] es2[j].0),
                ) by {
                    let kb = key_bytes@;
                    if i < pos && j == pos {
                    } else if i == pos && j > pos {
                        if pos < es.len() {
                            if j - 1 > pos {
                                lemma_lex_lt_transitive(
                                    kb,
                                    encode_utf8(es[pos as int].0),
                                    encode_utf8(es[j - 1].0),
                                );
                            }
                        }
                    } else if i < pos && j > pos {
                        if j - 1 > pos {
                            lemma_lex_lt_transitive(
                                kb,
                                encode_utf8(es[pos as int].0),
                                encode_utf8(es[j - 1].0),
                            );
                        }
                        lemma_lex_lt_transitive(encode_utf8(es[i].0), kb, encode_utf8(es[j - 1].0));
                    }
                }
            }
            assert(es2.remove(pos as int) =~= es);
            lemma_sorted_distinct(es2);
            lemma_pairs_map_split(es2, pos as int);
        }
        Ok(())
    }

    /// Removes a key from the account and returns its value.  Fails,
    /// changing nothing, when the key is absent.
    pub fn remove(&mut self, key: &str) -> (r: Result<String, SampleError>)
        requires
            old(self).wf(),
        ensures
            final(self).wf(),
            final(self).initialized() == old(self).initialized(),
            !old(self).as_map().contains_key(key@) ==> r == Err::<String, SampleError>(
                SampleError::KeyNotFoundInAccount,
            ) && *final(self) == *old(self),
            old(self).as_map().contains_key(key@) ==> (r matches Ok(v) && v@ == old(
                self,
            ).as_map()[key@] && final(self).as_map() == old(self).as_map().remove(key@)),
    {
        let ghost es = old(self).entries_model();
        let key_bytes = key.as_bytes();
        proof {
            assert(key_bytes@ == encode_utf8(key@));
        }
        let (pos, found) = self.find_index(key_bytes);
        if !found {
            proof {
                self.lemma_absent(pos as int, key@, key_bytes@);
            }
            return Err(SampleError::KeyNotFoundInAccount);
        }
        proof {
            lemma_encode_utf8_injective(es[pos as int].0, key@);
            lemma_sorted_distinct(es);
            lemma_sorted_value_at(es, pos as int);
            lemma_pairs_map_split(es, pos as int);
        }
        let entry = self.btree_storage.remove(pos);
        proof {
            let es2 = self.entries_model();
            assert(es2 =~= es.remove(pos as int));
            assert(spec_entries_sorted(es2)) by {
                assert forall|i: int, j: int| 0 <= i < j < es2.len() implies lex_lt(
                    encode_utf8(#[trigger] es2[i].0),
                    encode_utf8(#[trigger] es2[j].0),
                ) by {
                    let i0 = if i < pos { i } else { i + 1 };
                    let j0 = if j < pos { j } else { j + 1 };
                    assert(es2[i] == es[i0]);
                    assert(es2[j] == es[j0]);
                }
            }
            assert(!spec_pairs_map(es2).contains_key(key@)) by {
                lemma_fold_contains(Map::empty(), es2, key@);
                if exists|i: int| 0 <= i < es2.len() && (#[trigger] es2[i]).0 == key@ {
                    let i = choose|i: int| 0 <= i < es2.len() && (#[trigger] es2[i]).0 == key@;
                    let i0 = if i < pos { i } else { i + 1 };
                    assert(es[i0].0 == key@);
                }
            }
            assert(spec_pairs_map(es2) =~= spec_pairs_map(es).remove(key@));
        }
        Ok(entry.1)
    }

    /// Inserts the pair, replacing the value when the key is present.
    pub(crate) fn upsert(&mut self, key: String, value: String)
        requires
            old(self).wf(),
        ensures
            final(self).wf(),
            final(self).initialized() == old(self).initialized(),
            final(self).as_map() == old(self).as_map().insert(key@, value@),
    {
        let ghost es = old(self).entries_model();
        let key_bytes = key.as_str().as_bytes();
        proof {
            assert(key_bytes@ == encode_utf8(key@));
        }
        let (pos, found) = self.find_index(key_bytes);
        if found {
            proof {
                lemma_encode_utf8_injective(es[pos as int].0, key@);
                lemma_sorted_distinct(es);
                lemma_pairs_map_split(es, pos as int);
            }
            self.btree_storage.remove(pos);
            self.btree_storage.insert(pos, (key, value));
            proof {
                let es2 = self.entries_model();
                assert(es2 =~= es.update(pos as int, (key@, value@)));
                assert(spec_entries_sorted(es2)) by {
                    assert forall|i: int, j: int| 0 <= i < j < es2.len() implies lex_lt(
                        encode_utf8(#[trigger] es2[i].0),
                        encode_utf8(#[trigger] es2[j].0),
                    ) by {
                        assert(encode_utf8(es2[i].0) == encode_utf8(es[i].0));
                        assert(encode_utf8(es2[j].0) == encode_utf8(es[j].0));
                    }
                }
                assert(es2.remove(pos as int) =~= es.remove(pos as int));
                lemma_sorted_distinct(es2);
                lemma_pairs_map_split(es2, pos as int);
                assert(spec_pairs_map(es2) =~= spec_pairs_map(es).insert(key@, value@));
            }
        } else {
            proof {
                self.lemma_absent(pos as int, key@, key_bytes@);
            }
            self.btree_storage.insert(pos, (key, value));
            proof {
                let es2 = self.entries_model();
                assert(es2 =~= es.insert(pos as int, (key@, value@)));
                assert(spec_entries_sorted(es2)) by {
                    assert forall|i: int, j: int| 0 <= i < j < es2.len() implies lex_lt(
                        encode_utf8(#[trigger] es2[i].0),
                        encode_utf8(#[trigger] es2[j].0),
                    ) by {
                        let kb = key_bytes@;
                        if i < pos && j == pos {
                        } else if i == pos && j > pos {
                            if pos < es.len() {
                                if j - 1 > pos {
                                    lemma_lex_lt_transitive(
                                        kb,
                                        encode_utf8(es[pos as int].0),
                                        encode_utf8(es[j - 1].0),
                                    );
                                }
                            }
                        } else if i < pos && j > pos {
                            if j - 1 > pos {
                                lemma_lex_lt_transitive(
                                    kb,
                                    encode_utf8(es[pos as int].0),
                                    encode_utf8(es[j - 1].0),
                                );
                            }
                            lemma_lex_lt_transitive(
                                encode_utf8(es[i].0),
                                kb,
                                encode_utf8(es[j - 1].0),
                            );
                        }
                    }
                }
                assert(es2.remove(pos as int) =~= es);
                lemma_sorted_distinct(es2);
                lemma_pairs_map_split(es2, pos as int);
            }
        }
    }

    /// Whether the record holds the key.
    pub fn contains_key(&self, key: &str) -> (r: bool)
        requires
            self.wf(),
        ensures
            r == self.as_map().contains_key(key@),
    {
        let key_bytes = key.as_bytes();
        proof {
            assert(key_bytes@ == encode_utf8(key@));
        }
        let (pos, found) = self.find_index(key_bytes);
        proof {
            if found {
                lemma_encode_utf8_injective(self.entries_model()[pos as int].0, key@);
                lemma_sorted_value_at(self.entries_model(), pos as int);
            } else {
                self.lemma_absent(pos as int, key@, key_bytes@);
            }
        }
        found
    }

    /// The value stored under the key, if any.
    pub fn get(&self, key: &str) -> (r: Option<&String>)
        requires
            self.wf(),
        ensures
            match r {
                Option::Some(v) => self.as_map().contains_key(key@) && v@ == self.as_map()[key@],
                Option::None => !self.as_map().contains_key(key@),
            },
    {
        let key_bytes = key.as_bytes();
        proof {
            assert(key_bytes@ == encode_utf8(key@));
        }
        let (pos, found) = self.find_index(key_bytes);
        if found {
            proof {
                lemma_encode_utf8_injective(self.entries_model()[pos as int].0, key@);
                lemma_sorted_value_at(self.entries_model(), pos as int);
            }
            Some(&self.btree_storage[pos].1)
        } else {
            proof {
                self.lemma_absent(pos as int, key@, key_bytes@);
            }
            None
        }
    }
}

// ---------------------------------------------------------------------
// The binary form of the record
// ---------------------------------------------------------------------

/// One serialized entry: the key string block, then the value string block.
pub open spec fn spec_encode_entry(e: (Seq<char>, Seq<char>)) -> Seq<u8> {
    spec_encode_string(e.0) + spec_encode_string(e.1)
}

/// The serialized entries, in storage order.
pub open spec fn spec_encode_entries(es: Seq<(Seq<char>, Seq<char>)>) -> Seq<u8>
    decreases es.len(),
{
    if es.len() == 0 {
        Seq::empty()
    } else {
        spec_encode_entry(es[0]) + spec_encode_entries(es.drop_first())
    }
}

/// The serialized map payload: the entry count, then the entries.
pub open spec fn spec_encode_payload(es: Seq<(Seq<char>, Seq<char>)>) -> Seq<u8> {
    spec_u32_to_le_bytes(es.len() as u32) + spec_encode_entries(es)
}

pub open spec fn spec_payload_len(es: Seq<(Seq<char>, Seq<char>)>) -> int {
    spec_encode_payload(es).len() as int
}

/// The bytes the codec writes for a record: flag byte, payload length,
/// payload.  The remaining bytes of the buffer are untouched padding.
pub open spec fn spec_encode_state(init: bool, es: Seq<(Seq<char>, Seq<char>)>) -> Seq<u8> {
    seq![if init { 1u8 } else { 0u8 }] + spec_u32_to_le_bytes(
        spec_payload_len(es) as u32,
    ) + spec_encode_payload(es)
}

/// Reads `n` entries off the front of `input`.
pub open spec fn spec_parse_entries(input: Seq<u8>, n: nat) -> Option<
    (Seq<(Seq<char>, Seq<char>)>, Seq<u8>),
>
    decreases n,
{
    if n == 0 {
        Option::Some((Seq::empty(), input))
    } else {
        match spec_parse_string(input) {
            Option::None => Option::None,
            Option::Some((k, r1)) => match spec_parse_string(r1) {
                Option::None => Option::None,
                Option::Some((v, r2)) => match spec_parse_entries(r2, (n - 1) as nat) {
                    Option::None => Option::None,
                    Option::Some((es, r3)) => Option::Some((seq![(k, v)] + es, r3)),
                },
            },
        }
    }
}

/// Parses a whole payload region: entry count, the entries, nothing left
/// over.
pub open spec fn spec_parse_payload(input: Seq<u8>) -> Option<Seq<(Seq<char>, Seq<char>)>> {
    if input.len() < 4 {
        Option::None
    } else {
        let n = spec_u32_from_le_bytes(input.subrange(0, 4));
        match spec_parse_entries(input.subrange(4, input.len() as int), n as nat) {
            Option::None => Option::None,
            Option::Some((es, rest)) => if rest.len() == 0 {
                Option::Some(es)
            } else {
                Option::None
            },
        }
    }
}

/// What a full record buffer decodes to: the initialization flag and the
/// map, or the failure the codec reports.
pub open spec fn spec_decode(b: Seq<u8>) -> Result<(bool, Map<Seq<char>, Seq<char>>), SampleError> {
    if b.len() != ACCOUNT_STATE_SPACE {
        Err(SampleError::DeserializationFailure)
    } else if b[0] != 0 && b[0] != 1 {
        Err(SampleError::CorruptInitFlag)
    } else {
        let l = spec_u32_from_le_bytes(b.subrange(1, 5)) as int;
        if l > BTREE_STORAGE {
            Err(SampleError::DeserializationFailure)
        } else if l == 0 {
            Ok((b[0] == 1, Map::empty()))
        } else {
            match spec_parse_payload(b.subrange(5, 5 + l)) {
                Option::None => Err(SampleError::DeserializationFailure),
                Option::Some(pairs) => Ok((b[0] == 1, spec_pairs_map(pairs))),
            }
        }
    }
}

pub proof fn lemma_encode_entries_concat(a: Seq<(Seq<char>, Seq<char>)>, b: Seq<(Seq<char>, Seq<char>)>)
    ensures
        spec_encode_entries(a + b) == spec_encode_entries(a) + spec_encode_entries(b),
    decreases a.len(),
{
    if a.len() == 0 {
        assert(a + b =~= b);
        assert(spec_encode_entries(a) + spec_encode_entries(b) =~= spec_encode_entries(b));
    } else {
        assert((a + b)[0] == a[0]);
        assert((a + b).drop_first() =~= a.drop_first() + b);
        lemma_encode_entries_concat(a.drop_first(), b);
        assert(spec_encode_entry(a[0]) + (spec_encode_entries(a.drop_first())
            + spec_encode_entries(b)) =~= (spec_encode_entry(a[0]) + spec_encode_entries(
            a.drop_first(),
        )) + spec_encode_entries(b));
    }
}

pub proof fn lemma_encode_entries_push(es: Seq<(Seq<char>, Seq<char>)>, e: (Seq<char>, Seq<char>))
    ensures
        spec_encode_entries(es.push(e)) == spec_encode_entries(es) + spec_encode_entry(e),
{
    assert(es.push(e) =~= es + seq![e]);
    lemma_encode_entries_concat(es, seq![e]);
    assert(spec_encode_entries(seq![e]) == spec_encode_entry(e)) by {
        assert(seq![e].drop_first() =~= Seq::<(Seq<char>, Seq<char>)>::empty());
        assert(spec_encode_entries(seq![e].drop_first()) =~= Seq::<u8>::empty());
        assert(spec_encode_entry(e) + Seq::<u8>::empty() =~= spec_encode_entry(e));
    }
}

/// Each entry costs at least its two length prefixes.
pub proof fn lemma_encode_entries_min_len(es: Seq<(Seq<char>, Seq<char>)>)
    ensures
        spec_encode_entries(es).len() >= 8 * es.len(),
    decreases es.len(),
{
    lemma_auto_spec_u32_to_from_le_bytes();
    if es.len() > 0 {
        lemma_encode_entries_min_len(es.drop_first());
    }
}

/// The serialized entries dominate any prefix plus the entry that follows
/// it.
pub proof fn lemma_encode_prefix_entry_bound(es: Seq<(Seq<char>, Seq<char>)>, i: int)
    requires
        0 <= i < es.len(),
    ensures
        spec_encode_entries(es).len() >= spec_encode_entries(es.take(i)).len() + 8 + encode_utf8(
            es[i].0,
        ).len() + encode_utf8(es[i].1).len(),
{
    lemma_auto_spec_u32_to_from_le_bytes();
    let head = es.take(i);
    let tail = es.skip(i);
    assert(es =~= head + tail);
    lemma_encode_entries_concat(head, tail);
    assert(tail[0] == es[i]);
    assert(spec_encode_entries(tail) == spec_encode_entry(es[i]) + spec_encode_entries(
        tail.drop_first(),
    ));
}

pub proof fn lemma_parse_encode_entries(es: Seq<(Seq<char>, Seq<char>)>, rest: Seq<u8>)
    requires
        forall|i: int|
            0 <= i < es.len() ==> encode_utf8((#[trigger] es[i]).0).len() <= u32::MAX && encode_utf8(
                es[i].1,
            ).len() <= u32::MAX,
    ensures
        spec_parse_entries(spec_encode_entries(es) + rest, es.len() as nat) == Some((es, rest)),
    decreases es.len(),
{
    if es.len() == 0 {
        assert(spec_encode_entries(es) + rest =~= rest);
    } else {
        let e = es[0];
        let input = spec_encode_entries(es) + rest;
        let rest1 = spec_encode_string(e.1) + (spec_encode_entries(es.drop_first()) + rest);
        assert(input =~= spec_encode_string(e.0) + rest1);
        lemma_parse_encode_string(e.0, rest1);
        let rest2 = spec_encode_entries(es.drop_first()) + rest;
        lemma_parse_encode_string(e.1, rest2);
        lemma_parse_encode_entries(es.drop_first(), rest);
        assert(spec_parse_entries(input, es.len() as nat) == Some(
            (seq![(e.0, e.1)] + es.drop_first(), rest),
        ));
        assert(seq![(e.0, e.1)] + es.drop_first() =~= es) by {
            assert((e.0, e.1) =~= e);
        }
    }
}

/// Round trip: a record encoded into a buffer decodes back to the same
/// initialization flag and the same map, whatever padding follows the
/// payload.  Together with `lemma_sorted_canonical` this pins the decoded
/// record down to the entries it was encoded from.
pub proof fn lemma_record_round_trip(init: bool, es: Seq<(Seq<char>, Seq<char>)>, tail: Seq<u8>)
    requires
        spec_entries_sorted(es),
        spec_payload_len(es) <= BTREE_STORAGE,
        tail.len() == ACCOUNT_STATE_SPACE - 5 - spec_payload_len(es),
    ensures
        spec_decode(spec_encode_state(init, es) + tail) == Ok::<_, SampleError>(
            (init, spec_pairs_map(es)),
        ),
{
    lemma_auto_spec_u32_to_from_le_bytes();
    lemma_encode_entries_min_len(es);
    let payload = spec_encode_payload(es);
    let l = payload.len() as int;
    let b = spec_encode_state(init, es) + tail;
    assert(b.len() == ACCOUNT_STATE_SPACE);
    assert(b[0] == if init { 1u8 } else { 0u8 });
    assert(b.subrange(1, 5) =~= spec_u32_to_le_bytes(l as u32));
    assert(spec_u32_from_le_bytes(b.subrange(1, 5)) == l as u32);
    assert(b.subrange(5, 5 + l) =~= payload);
    assert(l >= 4);
    // the payload parses back to exactly the entries it encodes
    assert(payload.subrange(0, 4) =~= spec_u32_to_le_bytes(es.len() as u32));
    assert(es.len() <= 126) by {
        assert(8 * es.len() <= 1015);
    }
    assert(spec_u32_from_le_bytes(payload.subrange(0, 4)) == es.len() as u32);
    assert(payload.subrange(4, payload.len() as int) =~= spec_encode_entries(es));
    assert(forall|i: int|
        0 <= i < es.len() ==> encode_utf8((#[trigger] es[i]).0).len() <= u32::MAX && encode_utf8(
            es[i].1,
        ).len() <= u32::MAX) by {
        assert forall|i: int| 0 <= i < es.len() implies encode_utf8(
            (#[trigger] es[i]).0,
        ).len() <= u32::MAX && encode_utf8(es[i].1).len() <= u32::MAX by {
            lemma_encode_prefix_entry_bound(es, i);
        }
    }
    assert(spec_encode_entries(es) + Seq::<u8>::empty() =~= spec_encode_entries(es));
    lemma_parse_encode_entries(es, Seq::empty());
    assert(spec_parse_payload(payload) == Some(es));
}

/// Serialization is deterministic: two records holding the same map in
/// sorted form write identical bytes, whatever order their entries were
/// put in.
pub proof fn lemma_encoding_deterministic(
    init: bool,
    a: Seq<(Seq<char>, Seq<char>)>,
    b: Seq<(Seq<char>, Seq<char>)>,
)
    requires
        spec_entries_sorted(a),
        spec_entries_sorted(b),
        spec_pairs_map(a) == spec_pairs_map(b),
    ensures
        spec_encode_state(init, a) == spec_encode_state(init, b),
{
    lemma_sorted_canonical(a, b);
}

/// Whether a map's canonical serialized payload fits the storage region.
pub open spec fn spec_map_fits(m: Map<Seq<char>, Seq<char>>) -> bool {
    exists|es: Seq<(Seq<char>, Seq<char>)>|
        spec_entries_sorted(es) && #[trigger] spec_pairs_map(es) == m && spec_payload_len(es)
            <= BTREE_STORAGE
}

/// For sorted entries, fitting is decided by those entries themselves:
/// no other sorted sequence denotes the same map.
pub proof fn lemma_map_fits_canon(es: Seq<(Seq<char>, Seq<char>)>)
    requires
        spec_entries_sorted(es),
    ensures
        spec_map_fits(spec_pairs_map(es)) <==> spec_payload_len(es) <= BTREE_STORAGE,
{
    if spec_map_fits(spec_pairs_map(es)) {
        let other = choose|other: Seq<(Seq<char>, Seq<char>)>|
            spec_entries_sorted(other) && #[trigger] spec_pairs_map(other) == spec_pairs_map(es)
                && spec_payload_len(other) <= BTREE_STORAGE;
        lemma_sorted_canonical(other, es);
    }
    if spec_payload_len(es) <= BTREE_STORAGE {
        assert(spec_entries_sorted(es) && spec_pairs_map(es) == spec_pairs_map(es)
            && spec_payload_len(es) <= BTREE_STORAGE);
    }
}

impl ProgramAccountState {
    /// Serializes the map payload.  Fails, producing nothing, when the
    /// payload would not fit the record's storage region.
    fn serialize_entries(&self) -> (r: Result<Vec<u8>, SampleError>)
        requires
            self.wf(),
        ensures
            r matches Ok(p) ==> p@ == spec_encode_payload(self.entries_model()) && p@.len()
                <= BTREE_STORAGE,
            r is Ok <==> spec_payload_len(self.entries_model()) <= BTREE_STORAGE,
            r matches Err(e) ==> e == SampleError::StateSpaceExceeded,
    {
        let ghost es = self.entries_model();
        proof {
            lemma_auto_spec_u32_to_from_le_bytes();
        }
        let n = self.btree_storage.len();
        let mut body: Vec<u8> = Vec::new();
        let mut idx: usize = 0;
        proof {
            assert(es.take(0) =~= Seq::<(Seq<char>, Seq<char>)>::empty());
        }
        while idx < n
            invariant
                idx <= n,
                n == es.len(),
                self.wf(),
                es == self.entries_model(),
                body@ == spec_encode_entries(es.take(idx as int)),
                body@.len() <= BTREE_STORAGE - 4,
            decreases n - idx,
        {
            proof {
                lemma_auto_spec_u32_to_from_le_bytes();
                lemma_encode_prefix_entry_bound(es, idx as int);
            }
            let kb = self.btree_storage[idx].0.as_str().as_bytes_vec();
            let vb = self.btree_storage[idx].1.as_str().as_bytes_vec();
            proof {
                assert(kb@ == encode_utf8(es[idx as int].0));
                assert(vb@ == encode_utf8(es[idx as int].1));
            }
            if kb.len() > BTREE_STORAGE || vb.len() > BTREE_STORAGE {
                return Err(SampleError::StateSpaceExceeded);
            }
            let entry_len = 8 + kb.len() + vb.len();
            if body.len() + entry_len > BTREE_STORAGE - 4 {
                return Err(SampleError::StateSpaceExceeded);
            }
            let mut klen = u32_to_le_bytes(kb.len() as u32);
            let mut kbm = kb;
            let mut vlen = u32_to_le_bytes(vb.len() as u32);
            let mut vbm = vb;
            body.append(&mut klen);
            body.append(&mut kbm);
            body.append(&mut vlen);
            body.append(&mut vbm);
            proof {
                lemma_encode_entries_push(es.take(idx as int), es[idx as int]);
                assert(es.take(idx as int).push(es[idx as int]) =~= es.take(idx as int + 1));
                assert(body@ =~= spec_encode_entries(es.take(idx as int + 1)));
            }
            idx = idx + 1;
        }
        proof {
            assert(es.take(n as int) =~= es);
            lemma_encode_entries_min_len(es);
            assert(n <= 126) by {
                assert(8 * es.len() <= 1015);
            }
        }
        let mut out = u32_to_le_bytes(n as u32);
        let mut bodym = body;
        out.append(&mut bodym);
        proof {
            assert(out@ =~= spec_encode_payload(es));
        }
        Ok(out)
    }

    /// Stores the record into its buffer.  All-or-nothing: when the payload
    /// does not fit, the buffer is left untouched; on success the padding
    /// past the payload keeps its old contents.
    pub fn pack_into_slice(&self, dst: &mut Vec<u8>) -> (r: Result<(), SampleError>)
        requires
            self.wf(),
            old(dst)@.len() == ACCOUNT_STATE_SPACE,
        ensures
            r is Ok <==> spec_payload_len(self.entries_model()) <= BTREE_STORAGE,
            r matches Err(e) ==> e == SampleError::StateSpaceExceeded && *final(dst) == *old(dst),
            r is Ok ==> final(dst)@ == spec_encode_state(self.initialized(), self.entries_model())
                + old(dst)@.skip(5 + spec_payload_len(self.entries_model())),
            final(dst)@.len() == ACCOUNT_STATE_SPACE,
    {
        let ghost es = self.entries_model();
        proof {
            lemma_auto_spec_u32_to_from_le_bytes();
        }
        let payload = match self.serialize_entries() {
            Ok(p) => p,
            Err(e) => {
                return Err(e);
            },
        };
        let ghost pl = payload@;
        let l = payload.len();
        let mut out: Vec<u8> = Vec::new();
        out.push(if self.is_initialized { 1u8 } else { 0u8 });
        let mut lenb = u32_to_le_bytes(l as u32);
        out.append(&mut lenb);
        let mut pm = payload;
        out.append(&mut pm);
        let start = out.len();
        proof {
            assert(out@ =~= spec_encode_state(self.initialized(), es));
            assert(out@.subrange(start as int, start as int) =~= Seq::<u8>::empty());
            assert(out@ + dst@.subrange(start as int, start as int) =~= out@);
        }
        let ghost prefix = out@;
        let mut i: usize = start;
        while i < ACCOUNT_STATE_SPACE
            invariant
                start <= i <= ACCOUNT_STATE_SPACE,
                dst@.len() == ACCOUNT_STATE_SPACE,
                out@ == prefix + dst@.subrange(start as int, i as int),
                prefix.len() == start,
            decreases ACCOUNT_STATE_SPACE - i,
        {
            let byte = *slice_index_get(dst.as_slice(), i);
            out.push(byte);
            proof {
                assert(out@ =~= prefix + dst@.subrange(start as int, i as int + 1));
            }
            i = i + 1;
        }
        proof {
            assert(dst@.subrange(start as int, ACCOUNT_STATE_SPACE as int) =~= dst@.skip(
                start as int,
            ));
        }
        *dst = out;
        Ok(())
    }

    /// Retrieves a record from its buffer.  Reports `CorruptInitFlag` for a
    /// bad flag byte and `DeserializationFailure` for anything else the
    /// layout forbids; a zero payload length is an empty map, never an
    /// error.
    #[verifier::loop_isolation(false)]
    pub fn unpack_from_slice(src: &[u8]) -> (r: Result<ProgramAccountState, SampleError>)
        ensures
            r matches Ok(st) ==> st.wf() && (spec_decode(src@) matches Ok(m) && st.initialized()
                == m.0 && st.as_map() == m.1),
            r matches Err(e) ==> spec_decode(src@) == Err::<
                (bool, Map<Seq<char>, Seq<char>>),
                SampleError,
            >(e),
            r is Ok <==> spec_decode(src@) is Ok,
    {
        proof {
            lemma_auto_spec_u32_to_from_le_bytes();
        }
        if src.len() != ACCOUNT_STATE_SPACE {
            return Err(SampleError::DeserializationFailure);
        }
        let flag = *slice_index_get(src, 0);
        if flag != 0 && flag != 1 {
            return Err(SampleError::CorruptInitFlag);
        }
        let is_init = flag == 1;
        let lb = slice_subrange(src, 1, 5);
        proof {
            assert(lb@ =~= src@.subrange(1, 5));
        }
        let l = u32_from_le_bytes(lb) as usize;
        if l > BTREE_STORAGE {
            return Err(SampleError::DeserializationFailure);
        }
        let mut st = ProgramAccountState { is_initialized: is_init, btree_storage: Vec::new() };
        proof {
            assert(st.entries_model() =~= Seq::<(Seq<char>, Seq<char>)>::empty());
        }
        if l == 0 {
            return Ok(st);
        }
        let payload = slice_subrange(src, 5, 5 + l);
        proof {
            assert(payload@ =~= src@.subrange(5, 5 + l as int));
        }
        if payload.len() < 4 {
            return Err(SampleError::DeserializationFailure);
        }
        let cb = slice_subrange(payload, 0, 4);
        proof {
            assert(cb@ =~= payload@.subrange(0, 4));
        }
        let n = u32_from_le_bytes(cb) as usize;
        let ghost full = spec_parse_entries(payload@.subrange(4, payload@.len() as int), n as nat);
        let mut pos: usize = 4;
        let mut k: usize = 0;
        let ghost mut done: Seq<(Seq<char>, Seq<char>)> = Seq::empty();
        proof {
            assert(payload@.skip(4) =~= payload@.subrange(4, payload@.len() as int));
            assert(done + Seq::<(Seq<char>, Seq<char>)>::empty() =~= done);
        }
        while k < n
            invariant
                4 <= pos <= payload@.len(),
                k <= n,
                st.wf(),
                st.initialized() == is_init,
                st.as_map() == spec_pairs_map(done),
                full == spec_parse_entries(payload@.subrange(4, payload@.len() as int), n as nat),
                match spec_parse_entries(payload@.skip(pos as int), (n - k) as nat) {
                    Option::None => full is None,
                    Option::Some(pr) => full == Some((done + pr.0, pr.1)),
                },
            decreases n - k,
        {
            let (key, pos1) = match read_string(payload, pos) {
                Option::Some(p) => p,
                Option::None => {
                    proof {
                        assert(spec_parse_entries(payload@.skip(pos as int), (n - k) as nat)
                            is None);
                    }
                    return Err(SampleError::DeserializationFailure);
                },
            };
            let (value, pos2) = match read_string(payload, pos1) {
                Option::Some(p) => p,
                Option::None => {
                    proof {
                        assert(spec_parse_entries(payload@.skip(pos as int), (n - k) as nat)
                            is None);
                    }
                    return Err(SampleError::DeserializationFailure);
                },
            };
            let ghost pair = (key@, value@);
            proof {
                lemma_fold_concat(Map::empty(), done, seq![pair]);
                assert(spec_fold_pairs(spec_pairs_map(done), seq![pair]) == spec_pairs_map(
                    done,
                ).insert(key@, value@)) by {
                    assert(seq![pair][0] == pair);
                    assert(seq![pair].drop_first() =~= Seq::<(Seq<char>, Seq<char>)>::empty());
                    assert(spec_fold_pairs(spec_pairs_map(done).insert(key@, value@), seq![
                        pair,
                    ].drop_first()) == spec_pairs_map(done).insert(key@, value@));
                }
            }
            st.upsert(key, value);
            proof {
                let prev = done;
                let stepped = spec_parse_entries(payload@.skip(pos2 as int), (n - k - 1) as nat);
                match stepped {
                    Option::None => {
                        assert(spec_parse_entries(payload@.skip(pos as int), (n - k) as nat)
                            is None);
                    },
                    Option::Some(pr) => {
                        assert(spec_parse_entries(payload@.skip(pos as int), (n - k) as nat)
                            == Some((seq![pair] + pr.0, pr.1)));
                        assert(prev.push(pair) + pr.0 =~= prev + (seq![pair] + pr.0));
                    },
                }
                done = prev.push(pair);
                assert(done =~= prev + seq![pair]);
                assert(spec_pairs_map(done) == spec_pairs_map(prev).insert(key@, value@));
            }
            pos = pos2;
            k = k + 1;
        }
        proof {
            assert(spec_parse_entries(payload@.skip(pos as int), 0) == Some(
                (Seq::<(Seq<char>, Seq<char>)>::empty(), payload@.skip(pos as int)),
            ));
            assert(done + Seq::<(Seq<char>, Seq<char>)>::empty() =~= done);
        }
        if pos != payload.len() {
            proof {
                assert(payload@.skip(pos as int).len() > 0);
            }
            return Err(SampleError::DeserializationFailure);
        }
        proof {
            assert(payload@.skip(pos as int).len() == 0);
            assert(full == Some((done, payload@.skip(pos as int))));
            assert(spec_parse_payload(payload@) == Some(done));
        }
        Ok(st)
    }
}

impl Default for ProgramAccountState {
    /// The all-empty record: uninitialized, no entries.
    fn default() -> (r: Self)
        ensures
            r.wf(),
            !r.initialized(),
            r.as_map() == Map::<Seq<char>, Seq<char>>::empty(),
    {
        ProgramAccountState::new()
    }
}

} // verus!
