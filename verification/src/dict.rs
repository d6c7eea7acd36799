//! Insertion-ordered map from byte strings to byte strings with unique
//! keys: the executable stand-in for the header, query-parameter and
//! track-index mappings.

use vstd::prelude::*;

use crate::ascii::{bytes_eq, subvec};

verus! {

/// First value bound to `k`, scanning from the front.
pub open spec fn spec_lookup(pairs: Seq<(Seq<u8>, Seq<u8>)>, k: Seq<u8>) -> Option<Seq<u8>>
    decreases pairs.len(),
{
    if pairs.len() == 0 {
        None
    } else if pairs[0].0 == k {
        Some(pairs[0].1)
    } else {
        spec_lookup(pairs.drop_first(), k)
    }
}

/// Position of the first pair whose key is `k`.
pub open spec fn key_pos(pairs: Seq<(Seq<u8>, Seq<u8>)>, k: Seq<u8>) -> Option<int>
    decreases pairs.len(),
{
    if pairs.len() == 0 {
        None
    } else if pairs[0].0 == k {
        Some(0)
    } else {
        match key_pos(pairs.drop_first(), k) {
            Some(i) => Some(i + 1),
            None => None,
        }
    }
}

/// Keys are pairwise distinct.
pub open spec fn unique_keys(pairs: Seq<(Seq<u8>, Seq<u8>)>) -> bool {
    forall|i: int, j: int| 0 <= i < j < pairs.len() ==> pairs[i].0 != pairs[j].0
}

/// What one insertion does: replace the value at the first pair with the
/// same key, or append a new pair.
pub open spec fn spec_insert(pairs: Seq<(Seq<u8>, Seq<u8>)>, k: Seq<u8>, v: Seq<u8>) -> Seq<
    (Seq<u8>, Seq<u8>),
> {
    match key_pos(pairs, k) {
        Some(i) => pairs.update(i, (k, v)),
        None => pairs.push((k, v)),
    }
}

pub proof fn lemma_key_pos(pairs: Seq<(Seq<u8>, Seq<u8>)>, k: Seq<u8>)
    ensures
        match key_pos(pairs, k) {
            Some(i) => 0 <= i < pairs.len() && pairs[i].0 == k && spec_lookup(pairs, k) == Some(
                pairs[i].1,
            ) && forall|j: int| 0 <= j < i ==> pairs[j].0 != k,
            None => spec_lookup(pairs, k) is None && forall|j: int|
                0 <= j < pairs.len() ==> pairs[j].0 != k,
        },
    decreases pairs.len(),
{
    if pairs.len() > 0 && pairs[0].0 != k {
        lemma_key_pos(pairs.drop_first(), k);
        match key_pos(pairs.drop_first(), k) {
            Some(i) => {
                assert(pairs.drop_first()[i] == pairs[i + 1]);
                assert forall|j: int| 0 <= j < i + 1 implies pairs[j].0 != k by {
                    if j > 0 {
                        assert(pairs.drop_first()[j - 1] == pairs[j]);
                    }
                }
            },
            None => {
                assert forall|j: int| 0 <= j < pairs.len() implies pairs[j].0 != k by {
                    if j > 0 {
                        assert(pairs.drop_first()[j - 1] == pairs[j]);
                    }
                }
            },
        }
    }
}

/// After an insertion, looking any key up finds the new value for `k`
/// and the old binding for every other key.
pub proof fn lemma_insert_lookup(pairs: Seq<(Seq<u8>, Seq<u8>)>, k: Seq<u8>, v: Seq<u8>, q: Seq<u8>)
    requires
        unique_keys(pairs),
    ensures
        spec_lookup(spec_insert(pairs, k, v), q) == (if q == k {
            Some(v)
        } else {
            spec_lookup(pairs, q)
        }),
{
    lemma_key_pos(pairs, k);
    let r = spec_insert(pairs, k, v);
    match key_pos(pairs, k) {
        Some(i) => {
            lemma_lookup_at(r, q, i, pairs, k, v);
        },
        None => {
            lemma_lookup_push(pairs, k, v, q);
        },
    }
}

proof fn lemma_lookup_push(pairs: Seq<(Seq<u8>, Seq<u8>)>, k: Seq<u8>, v: Seq<u8>, q: Seq<u8>)
    requires
        forall|j: int| 0 <= j < pairs.len() ==> pairs[j].0 != k,
    ensures
        spec_lookup(pairs.push((k, v)), q) == (if q == k {
            Some(v)
        } else {
            spec_lookup(pairs, q)
        }),
    decreases pairs.len(),
{
    if pairs.len() == 0 {
        let r = pairs.push((k, v));
        assert(r[0] == (k, v));
        assert(r.drop_first() =~= Seq::<(Seq<u8>, Seq<u8>)>::empty());
        assert(spec_lookup(Seq::<(Seq<u8>, Seq<u8>)>::empty(), q) is None);
        if q == k {
            assert(spec_lookup(r, q) == Some(v));
        } else {
            assert(spec_lookup(r, q) == spec_lookup(r.drop_first(), q));
        }
    } else {
        assert(pairs.push((k, v))[0] == pairs[0]);
        assert(pairs.push((k, v)).drop_first() =~= pairs.drop_first().push((k, v)));
        assert forall|j: int| 0 <= j < pairs.drop_first().len() implies pairs.drop_first()[j].0
            != k by {
            assert(pairs.drop_first()[j] == pairs[j + 1]);
        }
        lemma_lookup_push(pairs.drop_first(), k, v, q);
    }
}

proof fn lemma_lookup_at(
    r: Seq<(Seq<u8>, Seq<u8>)>,
    q: Seq<u8>,
    i: int,
    pairs: Seq<(Seq<u8>, Seq<u8>)>,
    k: Seq<u8>,
    v: Seq<u8>,
)
    requires
        unique_keys(pairs),
        0 <= i < pairs.len(),
        pairs[i].0 == k,
        forall|j: int| 0 <= j < i ==> pairs[j].0 != k,
        r == pairs.update(i, (k, v)),
    ensures
        spec_lookup(r, q) == (if q == k {
            Some(v)
        } else {
            spec_lookup(pairs, q)
        }),
    decreases pairs.len(),
{
    if i == 0 {
        assert(r[0] == (k, v));
        if q != k {
            assert(r.drop_first() =~= pairs.drop_first());
            assert(pairs[0].0 == k);
        }
    } else {
        assert(r[0] == pairs[0]);
        assert(pairs[0].0 != k);
        assert(r.drop_first() =~= pairs.drop_first().update(i - 1, (k, v)));
        assert(pairs.drop_first()[i - 1].0 == k);
        assert forall|a: int, b: int|
            0 <= a < b < pairs.drop_first().len() implies pairs.drop_first()[a].0
            != pairs.drop_first()[b].0 by {
            assert(pairs.drop_first()[a] == pairs[a + 1]);
            assert(pairs.drop_first()[b] == pairs[b + 1]);
        }
        assert forall|j: int| 0 <= j < i - 1 implies pairs.drop_first()[j].0 != k by {
            assert(pairs.drop_first()[j] == pairs[j + 1]);
        }
        lemma_lookup_at(r.drop_first(), q, i - 1, pairs.drop_first(), k, v);
        if q == k {
            assert(spec_lookup(r, q) == spec_lookup(r.drop_first(), q));
        }
    }
}

/// Insertion-ordered byte-string map with unique keys.
#[derive(Debug)]
pub struct Dict {
    pairs: Vec<(Vec<u8>, Vec<u8>)>,
}

impl View for Dict {
    type V = Seq<(Seq<u8>, Seq<u8>)>;

    closed spec fn view(&self) -> Seq<(Seq<u8>, Seq<u8>)> {
        Seq::new(self.pairs@.len() as nat, |i: int| (self.pairs@[i].0@, self.pairs@[i].1@))
    }
}

impl Dict {
    /// Every key occurs once.
    pub open spec fn wf(&self) -> bool {
        unique_keys(self@)
    }

    pub fn new() -> (r: Dict)
        ensures
            r@ =~= Seq::<(Seq<u8>, Seq<u8>)>::empty(),
            r.wf(),
    {
        Dict { pairs: Vec::new() }
    }

    pub fn len(&self) -> (r: usize)
        ensures
            r == self@.len(),
    {
        self.pairs.len()
    }

    pub fn is_empty(&self) -> (r: bool)
        ensures
            r == (self@.len() == 0),
    {
        self.pairs.len() == 0
    }

    fn position(&self, k: &Vec<u8>) -> (r: Option<usize>)
        ensures
            match r {
                Some(i) => key_pos(self@, k@) == Some(i as int),
                None => key_pos(self@, k@) is None,
            },
    {
        let mut i: usize = 0;
        while i < self.pairs.len()
            invariant
                i <= self@.len(),
                self@.len() == self.pairs@.len(),
                forall|j: int| 0 <= j < i ==> self@[j].0 != k@,
            decreases self.pairs.len() - i,
        {
            if bytes_eq(&self.pairs[i].0, k) {
                proof {
                    lemma_key_pos(self@, k@);
                    assert(self@[i as int].0 == k@);
                    match key_pos(self@, k@) {
                        Some(p) => {
                            if p < i {
                                assert(self@[p].0 == k@);
                            }
                            if p > i {
                                assert(self@[i as int].0 != k@);
                            }
                        },
                        None => {
                            assert(self@[i as int].0 != k@);
                        },
                    }
                }
                return Some(i);
            }
            i = i + 1;
        }
        proof {
            lemma_key_pos(self@, k@);
            match key_pos(self@, k@) {
                Some(p) => {
                    assert(self@[p].0 == k@);
                },
                None => {},
            }
        }
        None
    }

    /// Value bound to `k`, if any.
    pub fn get(&self, k: &Vec<u8>) -> (r: Option<&Vec<u8>>)
        ensures
            match r {
                Some(v) => spec_lookup(self@, k@) == Some(v@),
                None => spec_lookup(self@, k@) is None,
            },
    {
        proof {
            lemma_key_pos(self@, k@);
        }
        match self.position(k) {
            Some(i) => {
                let p: &(Vec<u8>, Vec<u8>) = &self.pairs[i];
                proof {
                    assert(self@[i as int].1 == self.pairs@[i as int].1@);
                }
                Some(&p.1)
            },
            None => None,
        }
    }

    /// Bind `k` to `v`; a later binding of a key replaces an earlier one.
    pub fn insert(&mut self, k: Vec<u8>, v: Vec<u8>)
        requires
            old(self).wf(),
        ensures
            final(self)@ == spec_insert(old(self)@, k@, v@),
            final(self).wf(),
            final(self)@.len() == (if key_pos(old(self)@, k@) is Some {
                old(self)@.len()
            } else {
                old(self)@.len() + 1
            }),
    {
        proof {
            lemma_key_pos(self@, k@);
        }
        match self.position(&k) {
            Some(i) => {
                self.pairs.set(i, (k, v));
                proof {
                    let ghost o = old(self)@;
                    assert(self@ =~= o.update(key_pos(o, k@).unwrap(), (k@, v@)));
                    let r = self@;
                    assert forall|a: int, b: int| 0 <= a < b < r.len() implies r[a].0 != r[b].0 by {
                        let p = key_pos(o, k@).unwrap();
                        if a != p && b != p {
                            assert(r[a] == o[a] && r[b] == o[b]);
                        } else if a == p {
                            assert(r[a].0 == o[p].0 && r[b] == o[b]);
                        } else {
                            assert(r[b].0 == o[p].0 && r[a] == o[a]);
                        }
                    }
                }
            },
            None => {
                self.pairs.push((k, v));
                proof {
                    let ghost o = old(self)@;
                    assert(self@ =~= o.push((k@, v@)));
                    let r = self@;
                    assert forall|a: int, b: int| 0 <= a < b < r.len() implies r[a].0 != r[b].0 by {
                        if b < o.len() {
                            assert(r[a] == o[a] && r[b] == o[b]);
                        } else {
                            assert(r[b].0 == k@ && r[a] == o[a]);
                            assert(o[a].0 != k@);
                        }
                    }
                }
            },
        }
    }

    /// The pair at a storage position.
    pub fn pair_at(&self, i: usize) -> (r: &(Vec<u8>, Vec<u8>))
        requires
            i < self@.len(),
        ensures
            (r.0@, r.1@) == self@[i as int],
    {
        &self.pairs[i]
    }

    /// The keys, in storage order.
    pub fn keys(&self) -> (r: Vec<Vec<u8>>)
        ensures
            r.deep_view() =~= Seq::new(self@.len(), |i: int| self@[i].0),
    {
        let mut r: Vec<Vec<u8>> = Vec::new();
        let mut i: usize = 0;
        while i < self.pairs.len()
            invariant
                i <= self.pairs@.len(),
                self@.len() == self.pairs@.len(),
                r@.len() == i,
                forall|j: int| 0 <= j < i ==> #[trigger] r@[j]@ == self@[j].0,
            decreases self.pairs.len() - i,
        {
            let p: &(Vec<u8>, Vec<u8>) = &self.pairs[i];
            let key = subvec(&p.0, 0, p.0.len());
            proof {
                assert(key@ =~= self.pairs@[i as int].0@);
            }
            r.push(key);
            i = i + 1;
        }
        proof {
            let target = Seq::new(self@.len(), |i: int| self@[i].0);
            assert forall|j: int| 0 <= j < r@.len() implies #[trigger] r.deep_view()[j]
                == target[j] by {
                assert(r@[j].deep_view() =~= r@[j]@);
                assert(r@[j]@ == self@[j].0);
            }
            assert(r.deep_view() =~= target);
        }
        r
    }
}

} // verus!
