//! The inverted index: a mapping from each keyword of any product to
//! the positions of the products whose keyword set holds it, in source
//! order. The index borrows nothing: it holds positions into the
//! product collection, so the collection can gain listings while the
//! index stands.

use vstd::prelude::*;
use crate::keywords::{extract_keywords, product_kws};
use crate::records::{Product, ProductView, product_views};
use crate::text::strs_of;

verus! {

/// The positions of the products whose keyword set holds `t`.
pub open spec fn bucket_of(ps: Seq<ProductView>, t: Seq<char>) -> Set<int> {
    Set::new(|i: int| 0 <= i < ps.len() && product_kws(ps[i]).contains(t))
}

/// Whether some product's keyword set holds `t`.
pub open spec fn has_bucket(ps: Seq<ProductView>, t: Seq<char>) -> bool {
    exists|i: int| 0 <= i < ps.len() && product_kws(#[trigger] ps[i]).contains(t)
}

/// The positions of the products among the first `n` whose keyword set
/// holds `t`.
pub open spec fn bucket_upto(ps: Seq<ProductView>, n: int, t: Seq<char>) -> Set<int> {
    Set::new(|i: int| 0 <= i < n && i < ps.len() && product_kws(ps[i]).contains(t))
}

/// The set of positions a bucket holds.
pub open spec fn ids_set(b: Seq<usize>) -> Set<int> {
    b.map_values(|u: usize| u as int).to_set()
}

/// Strictly ascending positions: source order, no duplicates.
pub open spec fn ascending(b: Seq<usize>) -> bool {
    forall|j1: int, j2: int| 0 <= j1 < j2 < b.len() ==> b[j1] < b[j2]
}

pub proof fn lemma_ids_set_len(b: Seq<usize>)
    requires
        ascending(b),
    ensures
        ids_set(b).finite(),
        ids_set(b).len() == b.len(),
{
    broadcast use vstd::seq_lib::seq_to_set_is_finite;

    let m = b.map_values(|u: usize| u as int);
    assert(m.no_duplicates());
    m.unique_seq_to_set();
}

pub proof fn lemma_ids_set_contains(b: Seq<usize>, x: int)
    ensures
        ids_set(b).contains(x) <==> exists|j: int| 0 <= j < b.len() && b[j] == x,
{
    let m = b.map_values(|u: usize| u as int);
    if ids_set(b).contains(x) {
        let j = choose|j: int| 0 <= j < m.len() && m[j] == x;
        assert(b[j] == x);
    }
    if exists|j: int| 0 <= j < b.len() && b[j] == x {
        let j = choose|j: int| 0 <= j < b.len() && b[j] == x;
        assert(m[j] == x);
        assert(m.contains(x));
    }
}

pub proof fn lemma_ids_set_push(b: Seq<usize>, x: usize)
    ensures
        ids_set(b.push(x)) == ids_set(b).insert(x as int),
{
    assert forall|y: int|
        ids_set(b.push(x)).contains(y) <==> ids_set(b).insert(x as int).contains(y) by {
        lemma_ids_set_contains(b.push(x), y);
        lemma_ids_set_contains(b, y);
        if exists|j: int| 0 <= j < b.push(x).len() && b.push(x)[j] == y {
            let j = choose|j: int| 0 <= j < b.push(x).len() && b.push(x)[j] == y;
            if j < b.len() {
                assert(b[j] == y);
            }
        }
        if exists|j: int| 0 <= j < b.len() && b[j] == y {
            let j = choose|j: int| 0 <= j < b.len() && b[j] == y;
            assert(b.push(x)[j] == y);
        }
        if y == x as int {
            assert(b.push(x)[b.len() as int] == x);
        }
    }
    assert(ids_set(b.push(x)) =~= ids_set(b).insert(x as int));
}

/// An inverted index over a product collection: parallel vectors of
/// distinct keys and their buckets.
pub struct KeywordIndex {
    pub keys: Vec<String>,
    pub buckets: Vec<Vec<usize>>,
}

impl KeywordIndex {
    /// The key at position `p`.
    pub open spec fn key_at(self, p: int) -> Seq<char> {
        self.keys@[p]@
    }

    /// Whether the index has an entry for keyword `t`.
    pub open spec fn has_key(self, t: Seq<char>) -> bool {
        exists|p: int| 0 <= p < self.keys@.len() && self.key_at(p) == t
    }

    pub open spec fn wf(self) -> bool {
        &&& self.keys@.len() == self.buckets@.len()
        &&& strs_of(self.keys@).no_duplicates()
        &&& forall|p: int| 0 <= p < self.buckets@.len() ==> ascending(#[trigger] self.buckets@[p]@)
    }

    /// The index is exactly the keyword-to-products mapping of `ps`:
    /// every bucket is the bucket of its key, and every keyword of every
    /// product has an entry.
    pub open spec fn consistent_with(self, ps: Seq<ProductView>) -> bool {
        &&& self.wf()
        &&& forall|p: int|
            0 <= p < self.keys@.len() ==> ids_set(#[trigger] self.buckets@[p]@) == bucket_of(
                ps,
                self.key_at(p),
            )
        &&& forall|i: int, t: Seq<char>|
            0 <= i < ps.len() && #[trigger] product_kws(ps[i]).contains(t) ==> self.has_key(t)
    }

    /// Like `consistent_with`, but only the first `n` products have been
    /// entered.
    pub open spec fn consistent_upto(self, ps: Seq<ProductView>, n: int) -> bool {
        &&& self.wf()
        &&& forall|p: int|
            0 <= p < self.keys@.len() ==> ids_set(#[trigger] self.buckets@[p]@) == bucket_upto(
                ps,
                n,
                self.key_at(p),
            )
        &&& forall|i: int, t: Seq<char>|
            0 <= i < n && i < ps.len() && #[trigger] product_kws(ps[i]).contains(t)
                ==> self.has_key(t)
    }

    /// Finds the entry for `t`, if any product has that keyword.
    pub fn find_key(&self, t: &String) -> (r: Option<usize>)
        ensures
            match r {
                Some(p) => p < self.keys@.len() && self.key_at(p as int) == t@,
                None => !self.has_key(t@),
            },
    {
        let mut p: usize = 0;
        while p < self.keys.len()
            invariant
                p <= self.keys@.len(),
                forall|q: int| 0 <= q < p ==> self.key_at(q) != t@,
            decreases self.keys@.len() - p,
        {
            if t.eq(&self.keys[p]) {
                return Some(p);
            }
            p += 1;
        }
        None
    }
}

/// Builds the inverted index of a product collection: each product is
/// entered under each of its keywords; buckets collect colliding
/// products in source order.
pub fn build_index(products: &Vec<Product>) -> (ix: KeywordIndex)
    ensures
        ix.consistent_with(product_views(products@)),
{
    let ghost ps = product_views(products@);
    let mut ix = KeywordIndex { keys: Vec::new(), buckets: Vec::new() };
    let mut i: usize = 0;
    proof {
        assert(ps.len() == products@.len());
        assert(ix.consistent_upto(ps, 0)) by {
            assert forall|p: int| 0 <= p < ix.keys@.len() implies ids_set(#[trigger] ix.buckets@[p]@)
                == bucket_upto(ps, 0, ix.key_at(p)) by {}
        }
    }
    while i < products.len()
        invariant
            i <= products@.len(),
            ps == product_views(products@),
            ps.len() == products@.len(),
            ix.consistent_upto(ps, i as int),
        decreases products@.len() - i,
    {
        let kws = extract_keywords(&products[i]);
        proof {
            assert(products@[i as int]@ == ps[i as int]);
            assert(strs_of(kws@).to_set() == product_kws(ps[i as int]));
        }
        let mut k: usize = 0;
        while k < kws.len()
            invariant
                k <= kws@.len(),
                i < products@.len(),
                ps.len() == products@.len(),
                strs_of(kws@).to_set() == product_kws(ps[i as int]),
                strs_of(kws@).no_duplicates(),
                ix.wf(),
                forall|p: int|
                    0 <= p < ix.keys@.len() ==> ids_set(#[trigger] ix.buckets@[p]@) == (
                    if strs_of(kws@).take(k as int).contains(ix.key_at(p)) {
                        bucket_upto(ps, i as int, ix.key_at(p)).insert(i as int)
                    } else {
                        bucket_upto(ps, i as int, ix.key_at(p))
                    }),
                forall|x: int, t: Seq<char>|
                    0 <= x < i && #[trigger] product_kws(ps[x]).contains(t) ==> ix.has_key(t),
                forall|t: Seq<char>|
                    strs_of(kws@).take(k as int).contains(t) ==> ix.has_key(t),
            decreases kws@.len() - k,
        {
            let t = kws[k].clone();
            let ghost prev = ix;
            proof {
                assert(t@ == strs_of(kws@)[k as int]);
                assert(strs_of(kws@).take((k + 1) as int) =~= strs_of(kws@).take(k as int).push(
                    t@,
                ));
                assert(!strs_of(kws@).take(k as int).contains(t@)) by {
                    if strs_of(kws@).take(k as int).contains(t@) {
                        let q = choose|q: int|
                            0 <= q < k && strs_of(kws@).take(k as int)[q] == t@;
                        assert(strs_of(kws@)[q] == strs_of(kws@)[k as int]);
                    }
                }
            }
            match ix.find_key(&t) {
                Some(p) => {
                    proof {
                        assert(ids_set(ix.buckets@[p as int]@) == bucket_upto(
                            ps,
                            i as int,
                            t@,
                        ));
                        assert(!ids_set(ix.buckets@[p as int]@).contains(i as int));
                        lemma_ids_set_contains(ix.buckets@[p as int]@, i as int);
                    }
                    let ghost oldb = ix.buckets@[p as int]@;
                    ix.buckets[p].push(i);
                    proof {
                        assert(ix.buckets@[p as int]@ == oldb.push(i));
                        assert(ascending(oldb.push(i))) by {
                            assert forall|j1: int, j2: int|
                                0 <= j1 < j2 < oldb.push(i).len() implies oldb.push(i)[j1]
                                < oldb.push(i)[j2] by {
                                if j2 < oldb.len() {
                                } else {
                                    assert(oldb.push(i)[j1] == oldb[j1]);
                                    lemma_ids_set_contains(oldb, oldb[j1] as int);
                                    assert(ids_set(oldb).contains(oldb[j1] as int));
                                    assert(oldb[j1] < i);
                                }
                            }
                        }
                        assert(ids_set(oldb.push(i)) =~= ids_set(oldb).insert(i as int)) by {
                            assert forall|x: int|
                                ids_set(oldb.push(i)).contains(x) <==> ids_set(oldb).insert(
                                    i as int,
                                ).contains(x) by {
                                lemma_ids_set_contains(oldb.push(i), x);
                                lemma_ids_set_contains(oldb, x);
                                if exists|j: int| 0 <= j < oldb.push(i).len() && oldb.push(i)[j]
                                    == x {
                                    let j = choose|j: int|
                                        0 <= j < oldb.push(i).len() && oldb.push(i)[j] == x;
                                    if j < oldb.len() {
                                        assert(oldb[j] == x);
                                    }
                                }
                                if exists|j: int| 0 <= j < oldb.len() && oldb[j] == x {
                                    let j = choose|j: int| 0 <= j < oldb.len() && oldb[j] == x;
                                    assert(oldb.push(i)[j] == x);
                                }
                                if x == i as int {
                                    assert(oldb.push(i)[oldb.len() as int] == i);
                                }
                            }
                        }
                        assert forall|q: int| 0 <= q < ix.keys@.len() implies ids_set(
                            #[trigger] ix.buckets@[q]@,
                        ) == (if strs_of(kws@).take((k + 1) as int).contains(ix.key_at(q)) {
                            bucket_upto(ps, i as int, ix.key_at(q)).insert(i as int)
                        } else {
                            bucket_upto(ps, i as int, ix.key_at(q))
                        }) by {
                            crate::seqset::lemma_contains_push(
                                strs_of(kws@).take(k as int),
                                t@,
                                ix.key_at(q),
                            );
                            if q != p {
                                assert(ix.buckets@[q]@ == prev.buckets@[q]@);
                                assert(ix.key_at(q) != t@) by {
                                    assert(strs_of(prev.keys@)[q] == prev.key_at(q));
                                    assert(strs_of(prev.keys@)[p as int] == t@);
                                }
                            } else {
                                assert(strs_of(kws@).take((k + 1) as int).contains(t@)) by {
                                    assert(strs_of(kws@).take((k + 1) as int)[k as int] == t@);
                                }
                            }
                        }
                    }
                },
                None => {
                    ix.keys.push(t);
                    let mut nb: Vec<usize> = Vec::new();
                    nb.push(i);
                    ix.buckets.push(nb);
                    proof {
                        let nk = prev.keys@.len() as int;
                        assert(strs_of(ix.keys@) =~= strs_of(prev.keys@).push(t@));
                        assert(!strs_of(prev.keys@).contains(t@)) by {
                            if strs_of(prev.keys@).contains(t@) {
                                let q = choose|q: int|
                                    0 <= q < strs_of(prev.keys@).len() && strs_of(prev.keys@)[q]
                                        == t@;
                                assert(prev.key_at(q) == t@);
                            }
                        }
                        crate::seqset::lemma_no_dup_push(strs_of(prev.keys@), t@);
                        assert(forall|q: int|
                            0 <= q < nk ==> ix.buckets@[q]@ == prev.buckets@[q]@);
                        assert(forall|q: int| 0 <= q < nk ==> ix.key_at(q) == prev.key_at(q));
                        assert(ix.buckets@[nk]@ =~= Seq::<usize>::empty().push(i));
                        assert(ascending(ix.buckets@[nk]@));
                        assert(ids_set(ix.buckets@[nk]@) =~= bucket_upto(
                            ps,
                            i as int,
                            t@,
                        ).insert(i as int)) by {
                            assert forall|x: int|
                                ids_set(ix.buckets@[nk]@).contains(x) <==> bucket_upto(
                                    ps,
                                    i as int,
                                    t@,
                                ).insert(i as int).contains(x) by {
                                lemma_ids_set_contains(ix.buckets@[nk]@, x);
                                assert(!bucket_upto(ps, i as int, t@).contains(x)) by {
                                    if bucket_upto(ps, i as int, t@).contains(x) {
                                        assert(prev.has_key(t@));
                                    }
                                }
                                if x == i as int {
                                    assert(ix.buckets@[nk]@[0] == i);
                                }
                            }
                        }
                        assert forall|q: int| 0 <= q < ix.keys@.len() implies ids_set(
                            #[trigger] ix.buckets@[q]@,
                        ) == (if strs_of(kws@).take((k + 1) as int).contains(ix.key_at(q)) {
                            bucket_upto(ps, i as int, ix.key_at(q)).insert(i as int)
                        } else {
                            bucket_upto(ps, i as int, ix.key_at(q))
                        }) by {
                            crate::seqset::lemma_contains_push(
                                strs_of(kws@).take(k as int),
                                t@,
                                ix.key_at(q),
                            );
                            if q < nk {
                                assert(ix.key_at(q) != t@) by {
                                    assert(strs_of(prev.keys@)[q] == prev.key_at(q));
                                }
                            } else {
                                assert(ix.key_at(q) == t@);
                                assert(strs_of(kws@).take((k + 1) as int)[k as int] == t@);
                            }
                        }
                        assert(forall|tt: Seq<char>|
                            prev.has_key(tt) ==> ix.has_key(tt)) by {
                            assert forall|tt: Seq<char>| prev.has_key(tt) implies ix.has_key(
                                tt,
                            ) by {
                                let q = choose|q: int|
                                    0 <= q < prev.keys@.len() && prev.key_at(q) == tt;
                                assert(ix.key_at(q) == tt);
                            }
                        }
                        assert(ix.has_key(t@)) by {
                            assert(ix.key_at(nk) == t@);
                        }
                    }
                },
            }
            proof {
                assert forall|tt: Seq<char>| prev.has_key(tt) implies ix.has_key(tt) by {
                    let q = choose|q: int| 0 <= q < prev.keys@.len() && prev.key_at(q) == tt;
                    assert(ix.key_at(q) == tt);
                }
                assert forall|x: int, t2: Seq<char>|
                    0 <= x < i && #[trigger] product_kws(ps[x]).contains(t2) implies ix.has_key(
                    t2,
                ) by {
                    assert(prev.has_key(t2));
                }
                assert forall|tt: Seq<char>|
                    strs_of(kws@).take((k + 1) as int).contains(tt) implies ix.has_key(tt) by {
                    crate::seqset::lemma_contains_push(strs_of(kws@).take(k as int), t@, tt);
                    if strs_of(kws@).take(k as int).contains(tt) {
                        assert(prev.has_key(tt));
                        let q = choose|q: int|
                            0 <= q < prev.keys@.len() && prev.key_at(q) == tt;
                        assert(ix.key_at(q) == tt);
                    }
                }
            }
            k += 1;
        }
        proof {
            assert(strs_of(kws@).take(kws@.len() as int) =~= strs_of(kws@));
            assert(ix.consistent_upto(ps, (i + 1) as int)) by {
                assert forall|p: int| 0 <= p < ix.keys@.len() implies ids_set(
                    #[trigger] ix.buckets@[p]@,
                ) == bucket_upto(ps, (i + 1) as int, ix.key_at(p)) by {
                    let key = ix.key_at(p);
                    if strs_of(kws@).contains(key) {
                        assert(product_kws(ps[i as int]).contains(key));
                        assert(bucket_upto(ps, i as int, key).insert(i as int) =~= bucket_upto(
                            ps,
                            (i + 1) as int,
                            key,
                        ));
                    } else {
                        assert(!product_kws(ps[i as int]).contains(key));
                        assert(bucket_upto(ps, i as int, key) =~= bucket_upto(
                            ps,
                            (i + 1) as int,
                            key,
                        ));
                    }
                }
                assert forall|x: int, t: Seq<char>|
                    0 <= x < i + 1 && x < ps.len() && #[trigger] product_kws(
                        ps[x],
                    ).contains(t) implies ix.has_key(t) by {
                    if x == i as int {
                        assert(strs_of(kws@).contains(t));
                    }
                }
            }
        }
        i += 1;
    }
    proof {
        assert(ix.consistent_with(ps)) by {
            assert forall|p: int| 0 <= p < ix.keys@.len() implies ids_set(
                #[trigger] ix.buckets@[p]@,
            ) == bucket_of(ps, ix.key_at(p)) by {
                assert(bucket_upto(ps, products@.len() as int, ix.key_at(p)) =~= bucket_of(
                    ps,
                    ix.key_at(p),
                ));
            }
        }
    }
    ix
}

} // verus!
