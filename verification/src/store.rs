//! The in-memory store: an ordered mapping from string keys to string
//! values, kept as a vector of entries sorted in strictly increasing
//! lexicographic key order.

use vstd::prelude::*;
use vstd::utf8::*;
use crate::order::{bytes_lt, cmp_bytes, Cmp};
use crate::order::{lemma_bytes_lt_asymmetric, lemma_bytes_lt_transitive};

verus! {

/// Strict lexicographic order on keys, by their UTF-8 encodings. On UTF-8
/// encodings the byte order agrees with the scalar-value order of the
/// characters.
pub open spec fn key_lt(a: Seq<char>, b: Seq<char>) -> bool {
    bytes_lt(encode_utf8(a), encode_utf8(b))
}

/// Two character sequences with the same UTF-8 encoding are equal.
pub proof fn lemma_encode_injective(a: Seq<char>, b: Seq<char>)
    requires
        encode_utf8(a) == encode_utf8(b),
    ensures
        a == b,
{
    broadcast use encode_utf8_decode_utf8;

    assert(decode_utf8(encode_utf8(a)) == a);
    assert(decode_utf8(encode_utf8(b)) == b);
}

pub proof fn lemma_key_lt_transitive(a: Seq<char>, b: Seq<char>, c: Seq<char>)
    requires
        key_lt(a, b),
        key_lt(b, c),
    ensures
        key_lt(a, c),
{
    lemma_bytes_lt_transitive(encode_utf8(a), encode_utf8(b), encode_utf8(c));
}

pub proof fn lemma_key_lt_neq(a: Seq<char>, b: Seq<char>)
    requires
        key_lt(a, b),
    ensures
        a != b,
{
    lemma_bytes_lt_asymmetric(encode_utf8(a), encode_utf8(b));
    if a == b {
        assert(encode_utf8(a) == encode_utf8(b));
    }
}

/// The mapping described by a sequence of (key, value) pairs, later pairs
/// overriding earlier ones.
pub open spec fn map_of(s: Seq<(Seq<char>, Seq<char>)>) -> Map<Seq<char>, Seq<char>>
    decreases s.len(),
{
    if s.len() == 0 {
        Map::empty()
    } else {
        map_of(s.drop_last()).insert(s.last().0, s.last().1)
    }
}

/// Pairwise-distinct keys.
pub open spec fn distinct_keys(s: Seq<(Seq<char>, Seq<char>)>) -> bool {
    forall|i: int, j: int| 0 <= i < j < s.len() ==> s[i].0 != s[j].0
}

/// Strictly increasing key order.
pub open spec fn sorted_keys(s: Seq<(Seq<char>, Seq<char>)>) -> bool {
    forall|i: int, j: int| 0 <= i < j < s.len() ==> key_lt(s[i].0, s[j].0)
}

pub proof fn lemma_sorted_distinct(s: Seq<(Seq<char>, Seq<char>)>)
    requires
        sorted_keys(s),
    ensures
        distinct_keys(s),
{
    assert forall|i: int, j: int| 0 <= i < j < s.len() implies s[i].0 != s[j].0 by {
        lemma_key_lt_neq(s[i].0, s[j].0);
    }
}

/// What `map_of` holds of a pair sequence with distinct keys: its domain is
/// finite, has one element per pair, and each pair's key maps to its value.
pub proof fn lemma_map_of_props(s: Seq<(Seq<char>, Seq<char>)>)
    requires
        distinct_keys(s),
    ensures
        map_of(s).dom().finite(),
        map_of(s).dom().len() == s.len(),
        forall|k: Seq<char>|
            map_of(s).dom().contains(k) <==> exists|i: int| 0 <= i < s.len() && s[i].0 == k,
        forall|i: int|
            0 <= i < s.len() ==> map_of(s).dom().contains(#[trigger] s[i].0) && map_of(s)[s[i].0]
                == s[i].1,
    decreases s.len(),
{
    if s.len() == 0 {
    } else {
        let prefix = s.drop_last();
        lemma_map_of_props(prefix);
        assert(!map_of(prefix).dom().contains(s.last().0)) by {
            if map_of(prefix).dom().contains(s.last().0) {
                let i = choose|i: int| 0 <= i < prefix.len() && prefix[i].0 == s.last().0;
                assert(s[i].0 == s[s.len() - 1].0);
            }
        }
        assert forall|k: Seq<char>| map_of(s).dom().contains(k) <==> exists|i: int|
            0 <= i < s.len() && s[i].0 == k by {
            if map_of(s).dom().contains(k) {
                if k == s.last().0 {
                    assert(s[s.len() - 1].0 == k);
                } else {
                    let i = choose|i: int| 0 <= i < prefix.len() && prefix[i].0 == k;
                    assert(s[i].0 == k);
                }
            }
            if exists|i: int| 0 <= i < s.len() && s[i].0 == k {
                let i = choose|i: int| 0 <= i < s.len() && s[i].0 == k;
                if i < s.len() - 1 {
                    assert(prefix[i].0 == k);
                }
            }
        }
        assert forall|i: int| 0 <= i < s.len() implies map_of(s).dom().contains(
            #[trigger] s[i].0,
        ) && map_of(s)[s[i].0] == s[i].1 by {
            if i < s.len() - 1 {
                assert(prefix[i].0 == s[i].0 && prefix[i].1 == s[i].1);
                assert(s[i].0 != s.last().0);
            }
        }
    }
}

/// The mapping after upserting the pairs of `rs` into `m`, first pair first.
pub open spec fn apply_records(
    m: Map<Seq<char>, Seq<char>>,
    rs: Seq<(Seq<char>, Seq<char>)>,
) -> Map<Seq<char>, Seq<char>>
    decreases rs.len(),
{
    if rs.len() == 0 {
        m
    } else {
        apply_records(m.insert(rs[0].0, rs[0].1), rs.drop_first())
    }
}

pub proof fn lemma_apply_records_concat(
    m: Map<Seq<char>, Seq<char>>,
    a: Seq<(Seq<char>, Seq<char>)>,
    b: Seq<(Seq<char>, Seq<char>)>,
)
    ensures
        apply_records(m, a + b) == apply_records(apply_records(m, a), b),
    decreases a.len(),
{
    if a.len() == 0 {
        assert(a + b =~= b);
    } else {
        assert((a + b)[0] == a[0]);
        assert((a + b).drop_first() =~= a.drop_first() + b);
        lemma_apply_records_concat(m.insert(a[0].0, a[0].1), a.drop_first(), b);
    }
}

/// Upserting a pair sequence into the empty mapping yields the mapping the
/// sequence describes.
pub proof fn lemma_apply_records_empty(s: Seq<(Seq<char>, Seq<char>)>)
    ensures
        apply_records(Map::<Seq<char>, Seq<char>>::empty(), s) == map_of(s),
    decreases s.len(),
{
    if s.len() > 0 {
        let prefix = s.drop_last();
        lemma_apply_records_empty(prefix);
        assert(s =~= prefix + seq![s.last()]);
        lemma_apply_records_concat(Map::empty(), prefix, seq![s.last()]);
        let p = s.last();
        let one = seq![p];
        assert(one[0] == p);
        assert(one.drop_first() =~= Seq::<(Seq<char>, Seq<char>)>::empty());
        assert(apply_records(map_of(prefix), one) == apply_records(
            map_of(prefix).insert(p.0, p.1),
            one.drop_first(),
        ));
        assert(apply_records(map_of(prefix).insert(p.0, p.1), one.drop_first()) == map_of(
            prefix,
        ).insert(p.0, p.1));
    }
}

/// A pair sequence as (key, value) character sequences.
pub open spec fn pairs_view(s: Seq<(String, String)>) -> Seq<(Seq<char>, Seq<char>)> {
    s.map_values(|e: (String, String)| (e.0@, e.1@))
}

/// The store: entries sorted in strictly increasing key order.
pub struct Store {
    pub entries: Vec<(String, String)>,
}

impl View for Store {
    type V = Map<Seq<char>, Seq<char>>;

    open spec fn view(&self) -> Map<Seq<char>, Seq<char>> {
        map_of(self.seq_view())
    }
}

impl Store {
    /// The entries as (key, value) character sequences, in storage order.
    pub open spec fn seq_view(self) -> Seq<(Seq<char>, Seq<char>)> {
        pairs_view(self.entries@)
    }

    /// Well-formedness: keys strictly increase, so they are distinct.
    pub open spec fn wf(self) -> bool {
        sorted_keys(self.seq_view())
    }

    /// Creates an empty store.
    pub fn new() -> (s: Store)
        ensures
            s.wf(),
            s@ == Map::<Seq<char>, Seq<char>>::empty(),
            s.seq_view() == Seq::<(Seq<char>, Seq<char>)>::empty(),
    {
        let s = Store { entries: Vec::new() };
        proof {
            assert(s.seq_view() =~= Seq::<(Seq<char>, Seq<char>)>::empty());
        }
        s
    }

    /// The number of entries, which equals the number of distinct keys held.
    pub fn len(&self) -> (n: usize)
        requires
            self.wf(),
        ensures
            n == self.seq_view().len(),
            n as nat == self@.dom().len(),
    {
        proof {
            lemma_sorted_distinct(self.seq_view());
            lemma_map_of_props(self.seq_view());
        }
        self.entries.len()
    }

    /// Finds where `key` stands, or would stand, among the entries: returns
    /// the first position whose key is not below `key`, and whether the key
    /// at that position is exactly `key`.
    fn locate(&self, key: &str) -> (r: (usize, bool))
        requires
            self.wf(),
        ensures
            r.0 <= self.seq_view().len(),
            forall|j: int| 0 <= j < r.0 ==> key_lt(#[trigger] self.seq_view()[j].0, key@),
            r.1 ==> r.0 < self.seq_view().len() && self.seq_view()[r.0 as int].0 == key@,
            !r.1 ==> forall|j: int|
                0 <= j < self.seq_view().len() ==> #[trigger] self.seq_view()[j].0 != key@,
            !r.1 && r.0 < self.seq_view().len() ==> key_lt(key@, self.seq_view()[r.0 as int].0),
    {
        let n = self.entries.len();
        let mut i: usize = 0;
        let mut found = false;
        loop
            invariant_except_break
                !found,
            invariant
                self.wf(),
                0 <= i <= n,
                n == self.seq_view().len(),
                forall|j: int| 0 <= j < i ==> key_lt(#[trigger] self.seq_view()[j].0, key@),
            ensures
                0 <= i <= n,
                n == self.seq_view().len(),
                forall|j: int| 0 <= j < i ==> key_lt(#[trigger] self.seq_view()[j].0, key@),
                found ==> i < n && self.seq_view()[i as int].0 == key@,
                !found && i < n ==> key_lt(key@, self.seq_view()[i as int].0),
            decreases n - i,
        {
            if i >= n {
                break ;
            }
            let c = cmp_bytes(self.entries[i].0.as_str().as_bytes(), key.as_bytes());
            match c {
                Cmp::Lt => {
                    i = i + 1;
                },
                Cmp::Eq => {
                    proof {
                        lemma_encode_injective(self.seq_view()[i as int].0, key@);
                    }
                    found = true;
                    break ;
                },
                Cmp::Gt => {
                    break ;
                },
            }
        }
        proof {
            if !found {
                assert forall|j: int| 0 <= j < self.seq_view().len() implies #[trigger] self
                    .seq_view()[j].0 != key@ by {
                    if j < i {
                        lemma_key_lt_neq(self.seq_view()[j].0, key@);
                    } else if i < n {
                        if j > i {
                            lemma_key_lt_transitive(
                                key@,
                                self.seq_view()[i as int].0,
                                self.seq_view()[j].0,
                            );
                        }
                        lemma_key_lt_neq(key@, self.seq_view()[j].0);
                    }
                }
            }
        }
        (i, found)
    }

    /// Looks the key up; returns its value if the key is present.
    pub fn get(&self, key: &str) -> (r: Option<&String>)
        requires
            self.wf(),
        ensures
            match r {
                Some(v) => self@.dom().contains(key@) && v@ == self@[key@],
                None => !self@.dom().contains(key@),
            },
    {
        proof {
            lemma_sorted_distinct(self.seq_view());
            lemma_map_of_props(self.seq_view());
        }
        let (i, found) = self.locate(key);
        if found {
            Some(&self.entries[i].1)
        } else {
            None
        }
    }

    /// Inserts the pair, overwriting the value of an existing equal key.
    pub fn upsert(&mut self, key: String, value: String)
        requires
            old(self).wf(),
        ensures
            final(self).wf(),
            final(self)@ == old(self)@.insert(key@, value@),
    {
        proof {
            lemma_sorted_distinct(self.seq_view());
            lemma_map_of_props(self.seq_view());
        }
        let ghost s_old = self.seq_view();
        let (i, found) = self.locate(key.as_str());
        if found {
            self.entries.remove(i);
            self.entries.insert(i, (key, value));
            proof {
                let s_new = self.seq_view();
                assert(s_new =~= s_old.update(i as int, (key@, value@)));
                assert forall|p: int, q: int| 0 <= p < q < s_new.len() implies key_lt(
                    s_new[p].0,
                    s_new[q].0,
                ) by {
                    assert(s_new[p].0 == s_old[p].0);
                    assert(s_new[q].0 == s_old[q].0);
                }
                lemma_sorted_distinct(s_new);
                lemma_map_of_props(s_new);
                assert(map_of(s_new) =~= old(self)@.insert(key@, value@)) by {
                    assert forall|k: Seq<char>| #[trigger]
                        map_of(s_new).dom().contains(k) implies old(self)@.insert(
                        key@,
                        value@,
                    ).dom().contains(k) && map_of(s_new)[k] == old(self)@.insert(
                        key@,
                        value@,
                    )[k] by {
                        let j = choose|j: int| 0 <= j < s_new.len() && s_new[j].0 == k;
                        if j == i {
                            assert(map_of(s_new)[k] == value@);
                        } else {
                            assert(s_old[j] == s_new[j]);
                            assert(k != key@);
                        }
                    }
                    assert forall|k: Seq<char>| #[trigger]
                        old(self)@.insert(key@, value@).dom().contains(k) implies map_of(
                        s_new,
                    ).dom().contains(k) by {
                        if k == key@ {
                            assert(s_new[i as int].0 == k);
                        } else {
                            let j = choose|j: int| 0 <= j < s_old.len() && s_old[j].0 == k;
                            assert(s_new[j].0 == k);
                        }
                    }
                }
            }
        } else {
            self.entries.insert(i, (key, value));
            proof {
                let s_new = self.seq_view();
                assert(s_new =~= s_old.insert(i as int, (key@, value@)));
                assert forall|p: int, q: int| 0 <= p < q < s_new.len() implies key_lt(
                    s_new[p].0,
                    s_new[q].0,
                ) by {
                    let pv = if p < i { s_old[p].0 } else if p == i { key@ } else {
                        s_old[p - 1].0
                    };
                    let qv = if q < i { s_old[q].0 } else if q == i { key@ } else {
                        s_old[q - 1].0
                    };
                    assert(s_new[p].0 == pv);
                    assert(s_new[q].0 == qv);
                    if q > i {
                        // key@ is below qv: locate's bound, then transitivity
                        if q - 1 > i {
                            lemma_key_lt_transitive(key@, s_old[i as int].0, s_old[q - 1].0);
                        }
                        assert(key_lt(key@, qv));
                    }
                    if p < i && q > i {
                        lemma_key_lt_transitive(s_old[p].0, key@, qv);
                    }
                }
                lemma_sorted_distinct(s_new);
                lemma_map_of_props(s_new);
                assert(map_of(s_new) =~= old(self)@.insert(key@, value@)) by {
                    assert forall|k: Seq<char>| #[trigger]
                        map_of(s_new).dom().contains(k) implies old(self)@.insert(
                        key@,
                        value@,
                    ).dom().contains(k) && map_of(s_new)[k] == old(self)@.insert(
                        key@,
                        value@,
                    )[k] by {
                        let j = choose|j: int| 0 <= j < s_new.len() && s_new[j].0 == k;
                        if j == i {
                            assert(map_of(s_new)[k] == value@);
                        } else if j < i {
                            assert(s_old[j] == s_new[j]);
                            assert(k != key@);
                        } else {
                            assert(s_old[j - 1] == s_new[j]);
                            assert(k != key@);
                        }
                    }
                    assert forall|k: Seq<char>| #[trigger]
                        old(self)@.insert(key@, value@).dom().contains(k) implies map_of(
                        s_new,
                    ).dom().contains(k) by {
                        if k == key@ {
                            assert(s_new[i as int].0 == k);
                        } else {
                            let j = choose|j: int| 0 <= j < s_old.len() && s_old[j].0 == k;
                            if j < i {
                                assert(s_new[j].0 == k);
                            } else {
                                assert(s_new[j + 1].0 == k);
                            }
                        }
                    }
                }
            }
        }
    }

    /// Removes the key if present; removing an absent key changes nothing.
    pub fn remove(&mut self, key: &str)
        requires
            old(self).wf(),
        ensures
            final(self).wf(),
            final(self)@ == old(self)@.remove(key@),
    {
        proof {
            lemma_sorted_distinct(self.seq_view());
            lemma_map_of_props(self.seq_view());
        }
        let ghost s_old = self.seq_view();
        let (i, found) = self.locate(key);
        if found {
            self.entries.remove(i);
            proof {
                let s_new = self.seq_view();
                assert(s_new =~= s_old.remove(i as int));
                assert forall|p: int, q: int| 0 <= p < q < s_new.len() implies key_lt(
                    s_new[p].0,
                    s_new[q].0,
                ) by {
                    assert(s_new[p].0 == if p < i {
                        s_old[p].0
                    } else {
                        s_old[p + 1].0
                    });
                    assert(s_new[q].0 == if q < i {
                        s_old[q].0
                    } else {
                        s_old[q + 1].0
                    });
                }
                lemma_sorted_distinct(s_new);
                lemma_map_of_props(s_new);
                assert(map_of(s_new) =~= old(self)@.remove(key@)) by {
                    assert forall|k: Seq<char>| #[trigger]
                        map_of(s_new).dom().contains(k) implies old(self)@.remove(
                        key@,
                    ).dom().contains(k) && map_of(s_new)[k] == old(self)@.remove(key@)[k] by {
                        let j = choose|j: int| 0 <= j < s_new.len() && s_new[j].0 == k;
                        if j < i {
                            assert(s_old[j] == s_new[j]);
                            assert(k != key@);
                        } else {
                            assert(s_old[j + 1] == s_new[j]);
                            assert(k != key@);
                        }
                    }
                    assert forall|k: Seq<char>| #[trigger]
                        old(self)@.remove(key@).dom().contains(k) implies map_of(
                        s_new,
                    ).dom().contains(k) by {
                        let j = choose|j: int| 0 <= j < s_old.len() && s_old[j].0 == k;
                        if j < i {
                            assert(s_new[j].0 == k);
                        } else {
                            assert(s_new[j - 1].0 == k);
                        }
                    }
                }
            }
        } else {
            proof {
                assert(!old(self)@.dom().contains(key@));
                assert(self@ =~= old(self)@.remove(key@));
            }
        }
    }
}

} // verus!
