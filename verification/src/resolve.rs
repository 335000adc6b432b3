//! The listing resolver: for each listing, its title is tokenized and
//! the candidate products are narrowed token by token through the
//! inverted index. A listing matches exactly when one candidate is
//! left; an empty or ambiguous candidate set is no match.

use vstd::prelude::*;
use crate::index::{
    ascending, bucket_of, build_index, has_bucket, ids_set, KeywordIndex, lemma_ids_set_contains,
    lemma_ids_set_len, lemma_ids_set_push,
};
use crate::records::{
    clone_listing, Listing, ListingView, listing_views, Product, ProductView, product_views,
};
use crate::seqset::lemma_singleton_member;
use crate::text::{lower, lower_string, sep_of, SepMode, strs_of, tokenize, tokens};

verus! {

/// The tokens of a listing title: lower-cased, split on spaces and
/// forward slashes.
pub open spec fn title_token_seq(title: Seq<char>) -> Seq<Seq<char>> {
    tokens(sep_of(SepMode::Title), lower(title))
}

/// One narrowing step. A token no product holds constrains nothing; the
/// first constraining token initializes the candidate set to its
/// bucket; each later one intersects.
pub open spec fn step(ps: Seq<ProductView>, c: Option<Set<int>>, t: Seq<char>) -> Option<
    Set<int>,
> {
    if !has_bucket(ps, t) {
        c
    } else {
        match c {
            None => Some(bucket_of(ps, t)),
            Some(s) => Some(s.intersect(bucket_of(ps, t))),
        }
    }
}

/// The candidate set after all tokens: `None` while unconstrained.
pub open spec fn run(ps: Seq<ProductView>, ts: Seq<Seq<char>>) -> Option<Set<int>>
    decreases ts.len(),
{
    if ts.len() == 0 {
        None
    } else {
        step(ps, run(ps, ts.drop_last()), ts.last())
    }
}

pub open spec fn nonempty(s: Set<int>) -> bool {
    exists|i: int| s.contains(i)
}

/// Whether processing `t` in state `c` records an elimination keyword:
/// a non-empty candidate set intersected with a non-empty bucket down
/// to nothing. Diagnostic only; no part of the match decision.
pub open spec fn elim_step(ps: Seq<ProductView>, c: Option<Set<int>>, t: Seq<char>) -> bool {
    match c {
        Some(s) => has_bucket(ps, t) && nonempty(s) && !nonempty(s.intersect(bucket_of(ps, t))),
        None => false,
    }
}

/// The elimination keywords recorded over a token sequence, in order.
pub open spec fn elims(ps: Seq<ProductView>, ts: Seq<Seq<char>>) -> Seq<Seq<char>>
    decreases ts.len(),
{
    if ts.len() == 0 {
        Seq::empty()
    } else {
        elims(ps, ts.drop_last()) + (if elim_step(ps, run(ps, ts.drop_last()), ts.last()) {
            seq![ts.last()]
        } else {
            Seq::empty()
        })
    }
}

/// The match decision for a token sequence: the one candidate left, if
/// exactly one is.
pub open spec fn decision_of_tokens(ps: Seq<ProductView>, ts: Seq<Seq<char>>) -> Option<int> {
    match run(ps, ts) {
        Some(s) => if s.finite() && s.len() == 1 {
            Some(s.choose())
        } else {
            None
        },
        None => None,
    }
}

/// The match decision for a listing title.
pub open spec fn decision(ps: Seq<ProductView>, title: Seq<char>) -> Option<int> {
    decision_of_tokens(ps, title_token_seq(title))
}

/// A constrained run's candidate set is a finite set of product
/// positions.
pub proof fn lemma_run_bounds(ps: Seq<ProductView>, ts: Seq<Seq<char>>)
    ensures
        match run(ps, ts) {
            Some(s) => s.finite() && forall|i: int| s.contains(i) ==> 0 <= i < ps.len(),
            None => true,
        },
    decreases ts.len(),
{
    vstd::set_lib::lemma_int_range(0, ps.len() as int);
    if ts.len() > 0 {
        lemma_run_bounds(ps, ts.drop_last());
        let t = ts.last();
        if has_bucket(ps, t) {
            let b = bucket_of(ps, t);
            assert(b.subset_of(vstd::set_lib::set_int_range(0, ps.len() as int)));
            vstd::set_lib::lemma_len_subset(b, vstd::set_lib::set_int_range(0, ps.len() as int));
            match run(ps, ts.drop_last()) {
                Some(s) => {
                    let r = s.intersect(b);
                    assert(r.subset_of(b));
                    vstd::set_lib::lemma_len_subset(r, b);
                },
                None => {},
            }
        }
    }
}

fn copy_ids(b: &Vec<usize>) -> (r: Vec<usize>)
    ensures
        r@ == b@,
{
    let mut r: Vec<usize> = Vec::new();
    let mut j: usize = 0;
    while j < b.len()
        invariant
            j <= b@.len(),
            r@ == b@.take(j as int),
        decreases b@.len() - j,
    {
        r.push(b[j]);
        proof {
            assert(b@.take((j + 1) as int) =~= b@.take(j as int).push(b@[j as int]));
        }
        j += 1;
    }
    proof {
        assert(b@.take(b@.len() as int) =~= b@);
    }
    r
}

fn contains_id(b: &Vec<usize>, x: usize) -> (r: bool)
    ensures
        r == ids_set(b@).contains(x as int),
{
    proof {
        lemma_ids_set_contains(b@, x as int);
    }
    let mut j: usize = 0;
    while j < b.len()
        invariant
            j <= b@.len(),
            forall|q: int| 0 <= q < j ==> b@[q] != x,
        decreases b@.len() - j,
    {
        if b[j] == x {
            proof {
                assert(b@[j as int] == x);
                assert(exists|q: int| 0 <= q < b@.len() && b@[q] == x);
                lemma_ids_set_contains(b@, x as int);
            }
            return true;
        }
        j += 1;
    }
    false
}

/// The intersection of an ascending candidate list with a bucket, in
/// candidate order.
fn intersect_ids(v: &Vec<usize>, b: &Vec<usize>) -> (r: Vec<usize>)
    requires
        ascending(v@),
    ensures
        ascending(r@),
        ids_set(r@) == ids_set(v@).intersect(ids_set(b@)),
{
    let mut r: Vec<usize> = Vec::new();
    let mut j: usize = 0;
    proof {
        assert(ids_set(v@.take(0)) =~= Set::<int>::empty()) by {
            if nonempty(ids_set(v@.take(0))) {
                let y = choose|y: int| ids_set(v@.take(0)).contains(y);
                lemma_ids_set_contains(v@.take(0), y);
            }
        }
        assert(ids_set(r@) =~= ids_set(v@.take(0)).intersect(ids_set(b@))) by {
            if nonempty(ids_set(r@)) {
                let y = choose|y: int| ids_set(r@).contains(y);
                lemma_ids_set_contains(r@, y);
            }
        }
    }
    while j < v.len()
        invariant
            j <= v@.len(),
            ascending(v@),
            ascending(r@),
            r@.len() == 0 || exists|jj: int| 0 <= jj < j && v@[jj] == r@[r@.len() - 1],
            ids_set(r@) == ids_set(v@.take(j as int)).intersect(ids_set(b@)),
        decreases v@.len() - j,
    {
        let x = v[j];
        proof {
            assert(v@.take((j + 1) as int) =~= v@.take(j as int).push(x));
            lemma_ids_set_push(v@.take(j as int), x);
        }
        let ghost prev = r@;
        if contains_id(b, x) {
            proof {
                if prev.len() > 0 {
                    let jj = choose|jj: int| 0 <= jj < j && v@[jj] == prev[prev.len() - 1];
                    assert(v@[jj] < v@[j as int]);
                }
            }
            r.push(x);
            proof {
                lemma_ids_set_push(prev, x);
                assert(ascending(r@)) by {
                    assert forall|m1: int, m2: int|
                        0 <= m1 < m2 < r@.len() implies r@[m1] < r@[m2] by {
                        if m2 < prev.len() {
                        } else {
                            assert(r@[m2] == x);
                            if m1 < prev.len() - 1 {
                                assert(prev[m1] < prev[prev.len() - 1]);
                            }
                        }
                    }
                }
                assert(ids_set(r@) =~= ids_set(v@.take((j + 1) as int)).intersect(ids_set(b@)));
                assert(r@[r@.len() - 1] == v@[j as int]);
            }
        } else {
            proof {
                assert(ids_set(r@) =~= ids_set(v@.take((j + 1) as int)).intersect(ids_set(b@)));
            }
        }
        j += 1;
    }
    proof {
        assert(v@.take(v@.len() as int) =~= v@);
    }
    r
}

/// Resolves one listing title against the index: tokenizes it, narrows
/// the candidate set token by token, and decides. Returns the matched
/// product's position when the final candidate set has exactly one
/// member, and the elimination keywords recorded along the way.
pub fn resolve_listing(products: &Vec<Product>, ix: &KeywordIndex, title: &String) -> (r: (
    Option<usize>,
    Vec<String>,
))
    requires
        ix.consistent_with(product_views(products@)),
    ensures
        ({
            let ps = product_views(products@);
            &&& match r.0 {
                Some(u) => u < products@.len() && decision(ps, title@) == Some(u as int),
                None => decision(ps, title@) is None,
            }
            &&& strs_of(r.1@) == elims(ps, title_token_seq(title@))
        }),
{
    let ghost ps = product_views(products@);
    let low = lower_string(title.as_str());
    let toks = tokenize(low.as_str(), SepMode::Title);
    let ghost ts = title_token_seq(title@);
    proof {
        assert(strs_of(toks@) == ts);
        assert(ts.take(0) =~= Seq::<Seq<char>>::empty());
    }
    let mut cand: Option<Vec<usize>> = None;
    let mut elim: Vec<String> = Vec::new();
    let mut k: usize = 0;
    while k < toks.len()
        invariant
            k <= toks@.len(),
            strs_of(toks@) == ts,
            ts.len() == toks@.len(),
            ix.consistent_with(ps),
            ps == product_views(products@),
            match cand {
                None => run(ps, ts.take(k as int)) is None,
                Some(v) => run(ps, ts.take(k as int)) == Some(ids_set(v@)) && ascending(v@),
            },
            strs_of(elim@) == elims(ps, ts.take(k as int)),
        decreases toks@.len() - k,
    {
        proof {
            assert(ts.take((k + 1) as int).drop_last() =~= ts.take(k as int));
            assert(ts.take((k + 1) as int).last() == ts[k as int]);
            assert(toks@[k as int]@ == ts[k as int]);
        }
        let ghost t = ts[k as int];
        let ghost state = run(ps, ts.take(k as int));
        let found = ix.find_key(&toks[k]);
        match found {
            None => {
                proof {
                    assert(!has_bucket(ps, t)) by {
                        if has_bucket(ps, t) {
                            let i = choose|i: int|
                                0 <= i < ps.len() && crate::keywords::product_kws(
                                    ps[i],
                                ).contains(t);
                            assert(ix.has_key(t));
                        }
                    }
                    assert(run(ps, ts.take((k + 1) as int)) == state);
                    assert(elims(ps, ts.take((k + 1) as int)) =~= elims(ps, ts.take(k as int)));
                }
            },
            Some(p) => {
                proof {
                    assert(ids_set(ix.buckets@[p as int]@) == bucket_of(ps, t));
                }
                let b = &ix.buckets[p];
                if b.len() == 0 {
                    proof {
                        assert(!has_bucket(ps, t)) by {
                            if has_bucket(ps, t) {
                                let i = choose|i: int|
                                    0 <= i < ps.len() && crate::keywords::product_kws(
                                        ps[i],
                                    ).contains(t);
                                assert(bucket_of(ps, t).contains(i));
                                lemma_ids_set_contains(b@, i);
                            }
                        }
                        assert(run(ps, ts.take((k + 1) as int)) == state);
                        assert(elims(ps, ts.take((k + 1) as int)) =~= elims(
                            ps,
                            ts.take(k as int),
                        ));
                    }
                } else {
                    proof {
                        assert(has_bucket(ps, t)) by {
                            lemma_ids_set_contains(b@, b@[0] as int);
                            assert(ids_set(b@).contains(b@[0] as int));
                            assert(bucket_of(ps, t).contains(b@[0] as int));
                        }
                    }
                    match cand {
                        None => {
                            let nb = copy_ids(b);
                            proof {
                                assert(run(ps, ts.take((k + 1) as int)) == Some(ids_set(nb@)));
                                assert(elims(ps, ts.take((k + 1) as int)) =~= elims(
                                    ps,
                                    ts.take(k as int),
                                ));
                            }
                            cand = Some(nb);
                        },
                        Some(v) => {
                            let inter = intersect_ids(&v, b);
                            let ghost vset = ids_set(v@);
                            proof {
                                assert(run(ps, ts.take((k + 1) as int)) == Some(
                                    ids_set(inter@),
                                ));
                            }
                            if v.len() > 0 && inter.len() == 0 {
                                let kw = crate::text::string_of_chars(&crate::text::chars_of_str(
                                    toks[k].as_str(),
                                ));
                                let ghost preve = elim@;
                                elim.push(kw);
                                proof {
                                    assert(nonempty(vset)) by {
                                        lemma_ids_set_contains(v@, v@[0] as int);
                                        assert(vset.contains(v@[0] as int));
                                    }
                                    assert(!nonempty(vset.intersect(bucket_of(ps, t)))) by {
                                        if nonempty(vset.intersect(bucket_of(ps, t))) {
                                            let y = choose|y: int|
                                                vset.intersect(bucket_of(ps, t)).contains(y);
                                            assert(ids_set(inter@).contains(y));
                                            lemma_ids_set_contains(inter@, y);
                                        }
                                    }
                                    assert(elim_step(ps, state, t));
                                    crate::text::lemma_strs_of_push(preve, kw);
                                    assert(strs_of(elim@) =~= elims(ps, ts.take(k as int))
                                        + seq![t]);
                                    assert(elims(ps, ts.take((k + 1) as int)) =~= elims(
                                        ps,
                                        ts.take(k as int),
                                    ) + seq![t]);
                                }
                            } else {
                                proof {
                                    assert(!elim_step(ps, state, t)) by {
                                        if v@.len() == 0 {
                                            assert(!nonempty(vset)) by {
                                                if nonempty(vset) {
                                                    let y = choose|y: int| vset.contains(y);
                                                    lemma_ids_set_contains(v@, y);
                                                }
                                            }
                                        } else {
                                            assert(inter@.len() > 0);
                                            lemma_ids_set_contains(inter@, inter@[0] as int);
                                            assert(ids_set(inter@).contains(inter@[0] as int));
                                            assert(nonempty(vset.intersect(bucket_of(ps, t))));
                                        }
                                    }
                                    assert(elims(ps, ts.take((k + 1) as int)) =~= elims(
                                        ps,
                                        ts.take(k as int),
                                    ));
                                }
                            }
                            cand = Some(inter);
                        },
                    }
                }
            },
        }
        k += 1;
    }
    proof {
        assert(ts.take(toks@.len() as int) =~= ts);
    }
    match cand {
        Some(v) => {
            proof {
                lemma_ids_set_len(v@);
                lemma_run_bounds(ps, ts);
            }
            if v.len() == 1 {
                let u = v[0];
                proof {
                    lemma_ids_set_contains(v@, u as int);
                    assert(ids_set(v@).contains(u as int));
                    lemma_singleton_member(ids_set(v@), u as int);
                    assert(decision(ps, title@) == Some(u as int));
                }
                (Some(u), elim)
            } else {
                proof {
                    assert(decision(ps, title@) is None);
                }
                (None, elim)
            }
        },
        None => (None, elim),
    }
}

/// The listings attached to the product at position `i`: those, in
/// input order, whose decision is `i`.
pub open spec fn attached_to(ps: Seq<ProductView>, lvs: Seq<ListingView>, i: int) -> Seq<
    ListingView,
>
    decreases lvs.len(),
{
    if lvs.len() == 0 {
        Seq::empty()
    } else {
        attached_to(ps, lvs.drop_last(), i) + (if decision(ps, lvs.last().title) == Some(i) {
            seq![lvs.last()]
        } else {
            Seq::empty()
        })
    }
}

/// How many listings match some product.
pub open spec fn matched_count(ps: Seq<ProductView>, lvs: Seq<ListingView>) -> int
    decreases lvs.len(),
{
    if lvs.len() == 0 {
        0int
    } else {
        matched_count(ps, lvs.drop_last()) + (if decision(ps, lvs.last().title) is Some {
            1int
        } else {
            0int
        })
    }
}

/// Identity fields agree; only the matched listings may differ.
pub open spec fn same_identity(a: ProductView, b: ProductView) -> bool {
    &&& a.product_name == b.product_name
    &&& a.manufacturer == b.manufacturer
    &&& a.model == b.model
    &&& a.family == b.family
    &&& a.announced_date == b.announced_date
}

fn clone_listings(v: &Vec<Listing>) -> (r: Vec<Listing>)
    ensures
        listing_views(r@) == listing_views(v@),
{
    let mut r: Vec<Listing> = Vec::new();
    let mut j: usize = 0;
    proof {
        assert(listing_views(r@) =~= listing_views(v@.take(0)));
    }
    while j < v.len()
        invariant
            j <= v@.len(),
            listing_views(r@) == listing_views(v@.take(j as int)),
        decreases v@.len() - j,
    {
        let ghost prev = r@;
        r.push(clone_listing(&v[j]));
        proof {
            assert(listing_views(r@) =~= listing_views(prev).push(v@[j as int]@));
            assert(listing_views(v@.take((j + 1) as int)) =~= listing_views(
                v@.take(j as int),
            ).push(v@[j as int]@));
        }
        j += 1;
    }
    proof {
        assert(v@.take(v@.len() as int) =~= v@);
    }
    r
}

/// Matches every listing against the product collection: builds the
/// inverted index, resolves each listing in input order, and appends
/// each uniquely matched listing to its product. Returns how many
/// listings matched. Identity fields are never changed; each listing is
/// attached to at most one product; an ambiguous or unmatched listing
/// is attached to none.
pub fn match_listings_to_products(products: &mut Vec<Product>, listings: Vec<Listing>) -> (count:
    u32)
    requires
        listings@.len() <= u32::MAX,
    ensures
        ({
            let ps = product_views(old(products)@);
            let lvs = listing_views(listings@);
            &&& final(products)@.len() == old(products)@.len()
            &&& forall|i: int|
                0 <= i < ps.len() ==> same_identity(#[trigger] final(products)@[i]@, ps[i])
            &&& forall|i: int|
                0 <= i < ps.len() ==> (#[trigger] final(products)@[i]@).listings == ps[i].listings
                    + attached_to(ps, lvs, i)
            &&& count as int == matched_count(ps, lvs)
        }),
{
    let ghost ps = product_views(products@);
    let ghost lvs = listing_views(listings@);
    let ix = build_index(products);
    let mut decisions: Vec<Option<usize>> = Vec::new();
    let mut count: u32 = 0;
    let mut j: usize = 0;
    proof {
        assert(lvs.take(0) =~= Seq::<ListingView>::empty());
    }
    while j < listings.len()
        invariant
            j <= listings@.len(),
            listings@.len() <= u32::MAX,
            products@ == old(products)@,
            ps == product_views(products@),
            lvs == listing_views(listings@),
            lvs.len() == listings@.len(),
            ix.consistent_with(ps),
            decisions@.len() == j,
            forall|q: int|
                0 <= q < j ==> match #[trigger] decisions@[q] {
                    Some(u) => u < products@.len() && decision(ps, lvs[q].title) == Some(
                        u as int,
                    ),
                    None => decision(ps, lvs[q].title) is None,
                },
            count as int == matched_count(ps, lvs.take(j as int)),
            count <= j,
        decreases listings@.len() - j,
    {
        let r = resolve_listing(products, &ix, &listings[j].title);
        proof {
            assert(lvs[j as int] == listings@[j as int]@);
            assert(lvs[j as int].title == listings@[j as int].title@);
            assert(lvs.take((j + 1) as int).drop_last() =~= lvs.take(j as int));
            assert(lvs.take((j + 1) as int).last() == lvs[j as int]);
        }
        let d = r.0;
        match d {
            Some(_) => {
                count += 1;
            },
            None => {},
        }
        decisions.push(d);
        j += 1;
    }
    proof {
        assert(lvs.take(listings@.len() as int) =~= lvs);
    }
    let n = products.len();
    let mut result: Vec<Product> = Vec::new();
    let mut i: usize = 0;
    while i < n
        invariant
            i <= n,
            n == products@.len(),
            products@ == old(products)@,
            ps == product_views(products@),
            ps.len() == n,
            lvs == listing_views(listings@),
            lvs.len() == listings@.len(),
            decisions@.len() == listings@.len(),
            forall|q: int|
                0 <= q < decisions@.len() ==> match #[trigger] decisions@[q] {
                    Some(u) => u < products@.len() && decision(ps, lvs[q].title) == Some(
                        u as int,
                    ),
                    None => decision(ps, lvs[q].title) is None,
                },
            result@.len() == i,
            forall|q: int| 0 <= q < i ==> same_identity(#[trigger] result@[q]@, ps[q]),
            forall|q: int|
                0 <= q < i ==> (#[trigger] result@[q]@).listings == ps[q].listings + attached_to(
                    ps,
                    lvs,
                    q,
                ),
        decreases n - i,
    {
        let p = &products[i];
        let mut nl = clone_listings(&p.listings);
        proof {
            assert(products@[i as int]@ == ps[i as int]);
            assert(listing_views(nl@) == ps[i as int].listings);
            assert(attached_to(ps, lvs.take(0), i as int) =~= Seq::<ListingView>::empty());
            assert(ps[i as int].listings + attached_to(ps, lvs.take(0), i as int) =~= ps[
                i as int
            ].listings);
        }
        let mut jj: usize = 0;
        while jj < listings.len()
            invariant
                jj <= listings@.len(),
                i < n,
                n == products@.len(),
                products@ == old(products)@,
                ps == product_views(products@),
                lvs == listing_views(listings@),
                lvs.len() == listings@.len(),
                decisions@.len() == listings@.len(),
                forall|q: int|
                    0 <= q < decisions@.len() ==> match #[trigger] decisions@[q] {
                        Some(u) => u < products@.len() && decision(ps, lvs[q].title) == Some(
                            u as int,
                        ),
                        None => decision(ps, lvs[q].title) is None,
                    },
                listing_views(nl@) == ps[i as int].listings + attached_to(
                    ps,
                    lvs.take(jj as int),
                    i as int,
                ),
            decreases listings@.len() - jj,
        {
            proof {
                assert(lvs.take((jj + 1) as int).drop_last() =~= lvs.take(jj as int));
                assert(lvs.take((jj + 1) as int).last() == lvs[jj as int]);
            }
            let djj: Option<usize> = decisions[jj];
            let use_it = match djj {
                Some(pi) => pi == i,
                None => false,
            };
            if use_it {
                let lc = clone_listing(&listings[jj]);
                let ghost prevnl = nl@;
                nl.push(lc);
                proof {
                    assert(lc@ == lvs[jj as int]);
                    assert(decision(ps, lvs[jj as int].title) == Some(i as int));
                    assert(attached_to(ps, lvs.take((jj + 1) as int), i as int) == attached_to(
                        ps,
                        lvs.take(jj as int),
                        i as int,
                    ) + seq![lvs[jj as int]]);
                    assert(listing_views(nl@) =~= listing_views(prevnl).push(lc@));
                    assert(listing_views(nl@) =~= ps[i as int].listings + attached_to(
                        ps,
                        lvs.take((jj + 1) as int),
                        i as int,
                    ));
                }
            } else {
                proof {
                    assert(decision(ps, lvs[jj as int].title) != Some(i as int)) by {
                        match decisions@[jj as int] {
                            Some(u) => {
                                assert(u != i);
                            },
                            None => {},
                        }
                    }
                    assert(attached_to(ps, lvs.take((jj + 1) as int), i as int) =~= attached_to(
                        ps,
                        lvs.take(jj as int),
                        i as int,
                    ));
                }
            }
            jj += 1;
        }
        proof {
            assert(lvs.take(listings@.len() as int) =~= lvs);
        }
        let np = Product {
            product_name: p.product_name.clone(),
            manufacturer: p.manufacturer.clone(),
            model: p.model.clone(),
            family: p.family.clone(),
            announced_date: p.announced_date.clone(),
            listings: nl,
        };
        let ghost prevres = result@;
        result.push(np);
        proof {
            assert(np@.listings == ps[i as int].listings + attached_to(ps, lvs, i as int));
            assert(same_identity(np@, ps[i as int]));
            assert(forall|q: int| 0 <= q < i ==> result@[q] == prevres[q]);
        }
        i += 1;
    }
    *products = result;
    count
}

/// Whether some token of `ts` has a bucket: at least one token
/// constrains the candidate set.
pub open spec fn constrained(ps: Seq<ProductView>, ts: Seq<Seq<char>>) -> bool {
    exists|k: int| 0 <= k < ts.len() && has_bucket(ps, #[trigger] ts[k])
}

/// Product `i` lies in the bucket of every constraining token of `ts`:
/// it stays consistent through every intersection.
pub open spec fn consistent_with_all(ps: Seq<ProductView>, ts: Seq<Seq<char>>, i: int) -> bool {
    forall|k: int|
        0 <= k < ts.len() && has_bucket(ps, #[trigger] ts[k]) ==> bucket_of(ps, ts[k]).contains(i)
}

/// The final candidate set, characterized: an unconstrained run ends
/// undecided, and a constrained run ends in exactly the products that
/// are consistent with every constraining token.
pub proof fn lemma_run_characterization(ps: Seq<ProductView>, ts: Seq<Seq<char>>)
    ensures
        !constrained(ps, ts) ==> run(ps, ts) is None,
        constrained(ps, ts) ==> run(ps, ts) == Some(
            Set::new(|i: int| 0 <= i < ps.len() && consistent_with_all(ps, ts, i)),
        ),
    decreases ts.len(),
{
    if ts.len() == 0 {
    } else {
        let pre = ts.drop_last();
        let t = ts.last();
        lemma_run_characterization(ps, pre);
        assert(forall|k: int| 0 <= k < pre.len() ==> pre[k] == ts[k]);
        if !has_bucket(ps, t) {
            assert(constrained(ps, ts) ==> constrained(ps, pre)) by {
                if constrained(ps, ts) {
                    let k = choose|k: int| 0 <= k < ts.len() && has_bucket(ps, ts[k]);
                    assert(k < pre.len() && has_bucket(ps, pre[k]));
                }
            }
            assert(constrained(ps, pre) ==> constrained(ps, ts)) by {
                if constrained(ps, pre) {
                    let k = choose|k: int| 0 <= k < pre.len() && has_bucket(ps, pre[k]);
                    assert(has_bucket(ps, ts[k]));
                }
            }
            if constrained(ps, ts) {
                assert(Set::new(|i: int| 0 <= i < ps.len() && consistent_with_all(ps, pre, i))
                    =~= Set::new(|i: int| 0 <= i < ps.len() && consistent_with_all(ps, ts, i)))
                    by {
                    assert forall|i: int|
                        consistent_with_all(ps, pre, i) <==> consistent_with_all(
                            ps,
                            ts,
                            i,
                        ) by {
                        if consistent_with_all(ps, pre, i) {
                            assert forall|k: int|
                                0 <= k < ts.len() && has_bucket(
                                    ps,
                                    #[trigger] ts[k],
                                ) implies bucket_of(ps, ts[k]).contains(i) by {
                                assert(k < pre.len());
                                assert(pre[k] == ts[k]);
                            }
                        }
                    }
                }
            }
        } else {
            assert(constrained(ps, ts)) by {
                assert(has_bucket(ps, ts[ts.len() - 1]));
            }
            match run(ps, pre) {
                None => {
                    assert(!constrained(ps, pre));
                    assert(run(ps, ts) == Some(bucket_of(ps, t)));
                    assert(bucket_of(ps, t) =~= Set::new(
                        |i: int| 0 <= i < ps.len() && consistent_with_all(ps, ts, i),
                    )) by {
                        assert forall|i: int|
                            bucket_of(ps, t).contains(i) <==> (0 <= i < ps.len()
                                && consistent_with_all(ps, ts, i)) by {
                            if bucket_of(ps, t).contains(i) {
                                assert forall|k: int|
                                    0 <= k < ts.len() && has_bucket(
                                        ps,
                                        #[trigger] ts[k],
                                    ) implies bucket_of(ps, ts[k]).contains(i) by {
                                    if k < pre.len() {
                                        assert(has_bucket(ps, pre[k]));
                                        assert(constrained(ps, pre));
                                        assert(false);
                                    } else {
                                        assert(ts[k] == t);
                                    }
                                }
                            }
                            if 0 <= i < ps.len() && consistent_with_all(ps, ts, i) {
                                assert(has_bucket(ps, ts[ts.len() - 1]));
                                assert(bucket_of(ps, ts[ts.len() - 1]).contains(i));
                            }
                        }
                    }
                },
                Some(s) => {
                    assert(constrained(ps, pre));
                    assert(run(ps, ts) == Some(s.intersect(bucket_of(ps, t))));
                    assert(s.intersect(bucket_of(ps, t)) =~= Set::new(
                        |i: int| 0 <= i < ps.len() && consistent_with_all(ps, ts, i),
                    )) by {
                        assert forall|i: int|
                            s.intersect(bucket_of(ps, t)).contains(i) <==> (0 <= i < ps.len()
                                && consistent_with_all(ps, ts, i)) by {
                            if s.intersect(bucket_of(ps, t)).contains(i) {
                                assert(consistent_with_all(ps, pre, i));
                                assert forall|k: int|
                                    0 <= k < ts.len() && has_bucket(
                                        ps,
                                        #[trigger] ts[k],
                                    ) implies bucket_of(ps, ts[k]).contains(i) by {
                                    if k < pre.len() {
                                        assert(pre[k] == ts[k]);
                                        assert(bucket_of(ps, pre[k]).contains(i));
                                    } else {
                                        assert(ts[k] == t);
                                    }
                                }
                            }
                            if 0 <= i < ps.len() && consistent_with_all(ps, ts, i) {
                                assert forall|k: int|
                                    0 <= k < pre.len() && has_bucket(
                                        ps,
                                        #[trigger] pre[k],
                                    ) implies bucket_of(ps, pre[k]).contains(i) by {
                                    assert(ts[k] == pre[k]);
                                }
                                assert(bucket_of(ps, ts[ts.len() - 1]).contains(i));
                            }
                        }
                    }
                },
            }
        }
    }
}

proof fn lemma_attached_decision(
    ps: Seq<ProductView>,
    lvs: Seq<ListingView>,
    lv: ListingView,
    i: int,
)
    requires
        attached_to(ps, lvs, i).contains(lv),
    ensures
        decision(ps, lv.title) == Some(i),
    decreases lvs.len(),
{
    if lvs.len() == 0 {
    } else {
        let pre = attached_to(ps, lvs.drop_last(), i);
        let m = choose|m: int|
            0 <= m < attached_to(ps, lvs, i).len() && attached_to(ps, lvs, i)[m] == lv;
        if m < pre.len() {
            assert(pre[m] == lv);
            lemma_attached_decision(ps, lvs.drop_last(), lv, i);
        } else {
            assert(decision(ps, lvs.last().title) == Some(i));
            assert(attached_to(ps, lvs, i)[m] == lvs.last());
        }
    }
}

/// A listing whose decision is product `i` is attached to product `i`.
pub proof fn lemma_decision_attached(ps: Seq<ProductView>, lvs: Seq<ListingView>, j: int, i: int)
    requires
        0 <= j < lvs.len(),
        decision(ps, lvs[j].title) == Some(i),
    ensures
        attached_to(ps, lvs, i).contains(lvs[j]),
    decreases lvs.len(),
{
    let pre = attached_to(ps, lvs.drop_last(), i);
    let whole = attached_to(ps, lvs, i);
    if j == lvs.len() - 1 {
        assert(lvs.last() == lvs[j]);
        assert(whole == pre + seq![lvs[j]]);
        assert(whole[pre.len() as int] == lvs[j]);
    } else {
        assert(lvs.drop_last()[j] == lvs[j]);
        lemma_decision_attached(ps, lvs.drop_last(), j, i);
        let m = choose|m: int| 0 <= m < pre.len() && pre[m] == lvs[j];
        assert(whole[m] == lvs[j]);
    }
}

/// Mutual exclusion of match assignment: a listing is attached to at
/// most one product.
pub proof fn lemma_attach_exclusive(
    ps: Seq<ProductView>,
    lvs: Seq<ListingView>,
    lv: ListingView,
    i1: int,
    i2: int,
)
    requires
        attached_to(ps, lvs, i1).contains(lv),
        attached_to(ps, lvs, i2).contains(lv),
    ensures
        i1 == i2,
{
    lemma_attached_decision(ps, lvs, lv, i1);
    lemma_attached_decision(ps, lvs, lv, i2);
}

/// A title with no token in any product's keyword set never matches.
pub proof fn lemma_no_keyword_no_match(ps: Seq<ProductView>, title: Seq<char>)
    requires
        forall|k: int|
            0 <= k < title_token_seq(title).len() ==> !has_bucket(
                ps,
                #[trigger] title_token_seq(title)[k],
            ),
    ensures
        decision(ps, title) is None,
{
    let ts = title_token_seq(title);
    lemma_run_characterization(ps, ts);
    assert(!constrained(ps, ts));
}

/// When exactly one product is consistent with every constraining token
/// of a constrained title, that product is the match.
pub proof fn lemma_unique_consistent_match(ps: Seq<ProductView>, title: Seq<char>, i: int)
    requires
        constrained(ps, title_token_seq(title)),
        0 <= i < ps.len(),
        consistent_with_all(ps, title_token_seq(title), i),
        forall|x: int|
            0 <= x < ps.len() && x != i ==> !consistent_with_all(ps, title_token_seq(title), x),
    ensures
        decision(ps, title) == Some(i),
{
    broadcast use vstd::set::group_set_axioms;

    let ts = title_token_seq(title);
    lemma_run_characterization(ps, ts);
    let s = Set::new(|x: int| 0 <= x < ps.len() && consistent_with_all(ps, ts, x));
    assert(s =~= Set::empty().insert(i));
    assert(s.finite());
    assert(s.len() == 1);
    lemma_singleton_member(s, i);
}

/// Two products with identical keyword sets that are both consistent
/// with a title leave it ambiguous: it matches neither.
pub proof fn lemma_shared_keywords_ambiguous(
    ps: Seq<ProductView>,
    title: Seq<char>,
    i1: int,
    i2: int,
)
    requires
        0 <= i1 < ps.len(),
        0 <= i2 < ps.len(),
        i1 != i2,
        crate::keywords::product_kws(ps[i1]) == crate::keywords::product_kws(ps[i2]),
        consistent_with_all(ps, title_token_seq(title), i1),
    ensures
        decision(ps, title) is None,
{
    let ts = title_token_seq(title);
    lemma_run_characterization(ps, ts);
    assert(consistent_with_all(ps, ts, i2)) by {
        assert forall|k: int|
            0 <= k < ts.len() && has_bucket(ps, #[trigger] ts[k]) implies bucket_of(
            ps,
            ts[k],
        ).contains(i2) by {
            assert(bucket_of(ps, ts[k]).contains(i1));
            assert(crate::keywords::product_kws(ps[i1]).contains(ts[k]));
        }
    }
    if constrained(ps, ts) {
        let s = Set::new(|x: int| 0 <= x < ps.len() && consistent_with_all(ps, ts, x));
        assert(s.contains(i1));
        assert(s.contains(i2));
        vstd::set_lib::lemma_int_range(0, ps.len() as int);
        assert(s.subset_of(vstd::set_lib::set_int_range(0, ps.len() as int)));
        vstd::set_lib::lemma_len_subset(s, vstd::set_lib::set_int_range(0, ps.len() as int));
        crate::seqset::lemma_two_members_len(s, i1, i2);
    }
}

} // verus!
