//! Keyword extraction: a product's keyword set is derived from its
//! manufacturer, family and model fields (in that order, space-joined),
//! lower-cased and split on whitespace; duplicate tokens collapse.
//! `product_name` and `announced_date` take no part in matching.

use vstd::prelude::*;
use crate::records::{Product, ProductView};
use crate::seqset::{lemma_contains_push, lemma_no_dup_push};
use crate::text::{
    is_upper, is_ws, lower, lower_string, sep_of, SepMode, strs_of, tokenize, tokens,
    lemma_tokens_acc_chars, lemma_tokens_acc_shape,
};

verus! {

/// The identity text a product's keywords are drawn from.
pub open spec fn identity_text(p: ProductView) -> Seq<char> {
    p.manufacturer + seq![' '] + p.family + seq![' '] + p.model
}

/// The keyword sequence of a product: tokens of the lower-cased identity
/// text, in order, duplicates still present.
pub open spec fn keyword_seq(p: ProductView) -> Seq<Seq<char>> {
    tokens(sep_of(SepMode::Whitespace), lower(identity_text(p)))
}

/// The keyword set of a product.
pub open spec fn product_kws(p: ProductView) -> Set<Seq<char>> {
    keyword_seq(p).to_set()
}

/// Whether a sequence of strings holds `x@` among its views.
fn contains_str(v: &Vec<String>, x: &String) -> (b: bool)
    ensures
        b == strs_of(v@).contains(x@),
{
    let mut j: usize = 0;
    while j < v.len()
        invariant
            j <= v.len(),
            forall|k: int| 0 <= k < j ==> strs_of(v@)[k] != x@,
        decreases v.len() - j,
    {
        if x.eq(&v[j]) {
            proof {
                assert(strs_of(v@)[j as int] == x@);
            }
            return true;
        }
        j += 1;
    }
    proof {
        assert(!strs_of(v@).contains(x@));
    }
    false
}

/// Derives the keyword set of a product: lower-cased whitespace-split
/// tokens of its identity fields, first occurrence kept, duplicates
/// dropped.
pub fn extract_keywords(p: &Product) -> (kws: Vec<String>)
    ensures
        strs_of(kws@).to_set() == product_kws(p@),
        strs_of(kws@).no_duplicates(),
{
    let mut text = p.manufacturer.clone();
    text.append(" ");
    text.append(p.family.as_str());
    text.append(" ");
    text.append(p.model.as_str());
    proof {
        reveal_strlit(" ");
        assert(" "@ =~= seq![' ']);
        assert(text@ == identity_text(p@));
    }
    let low = lower_string(text.as_str());
    let toks = tokenize(low.as_str(), SepMode::Whitespace);
    let ghost tseq = keyword_seq(p@);
    let mut kws: Vec<String> = Vec::new();
    let mut i: usize = 0;
    proof {
        assert(strs_of(toks@) == tseq);
        assert(tseq.take(0) =~= Seq::<Seq<char>>::empty());
    }
    while i < toks.len()
        invariant
            i <= toks.len(),
            strs_of(toks@) == tseq,
            toks@.len() == tseq.len(),
            strs_of(kws@).no_duplicates(),
            forall|x: Seq<char>|
                #[trigger] strs_of(kws@).contains(x) <==> tseq.take(i as int).contains(x),
        decreases toks.len() - i,
    {
        let t = toks[i].clone();
        proof {
            assert(t@ == tseq[i as int]);
            assert(tseq.take((i + 1) as int) =~= tseq.take(i as int).push(tseq[i as int]));
        }
        let ghost prev = kws@;
        if !contains_str(&kws, &t) {
            kws.push(t);
            proof {
                assert(strs_of(kws@) =~= strs_of(prev).push(t@));
                lemma_no_dup_push(strs_of(prev), t@);
                assert forall|x: Seq<char>| #[trigger]
                    strs_of(kws@).contains(x) <==> tseq.take((i + 1) as int).contains(x) by {
                    lemma_contains_push(strs_of(prev), t@, x);
                    lemma_contains_push(tseq.take(i as int), tseq[i as int], x);
                }
            }
        } else {
            proof {
                assert forall|x: Seq<char>| #[trigger]
                    strs_of(kws@).contains(x) <==> tseq.take((i + 1) as int).contains(x) by {
                    lemma_contains_push(tseq.take(i as int), tseq[i as int], x);
                }
            }
        }
        i += 1;
    }
    proof {
        assert(tseq.take(toks@.len() as int) =~= tseq);
        assert(strs_of(kws@).to_set() =~= product_kws(p@));
    }
    kws
}

/// Every keyword of every product is non-empty, free of whitespace, and
/// lower-cased: no character of it is an upper-case ASCII letter.
pub proof fn lemma_keywords_normalized(p: ProductView)
    ensures
        forall|k: Seq<char>|
            product_kws(p).contains(k) ==> k.len() > 0 && (forall|j: int|
                0 <= j < k.len() ==> !is_ws(#[trigger] k[j]) && !is_upper(k[j])),
{
    let sep = sep_of(SepMode::Whitespace);
    let low = lower(identity_text(p));
    lemma_tokens_acc_shape(sep, Seq::empty(), low);
    assert(forall|j: int| 0 <= j < low.len() ==> !is_upper(#[trigger] low[j]));
    lemma_tokens_acc_chars(sep, |c: char| !is_upper(c), Seq::empty(), low);
    assert forall|k: Seq<char>| product_kws(p).contains(k) implies k.len() > 0 && (forall|j: int|
        0 <= j < k.len() ==> !is_ws(#[trigger] k[j]) && !is_upper(k[j])) by {
        let ts = keyword_seq(p);
        let idx = choose|idx: int| 0 <= idx < ts.len() && ts[idx] == k;
        assert(ts[idx].len() > 0);
        assert forall|j: int| 0 <= j < k.len() implies !is_ws(#[trigger] k[j]) && !is_upper(k[j]) by {
            assert(!sep(ts[idx][j]));
            assert((|c: char| !is_upper(c))(ts[idx][j]));
        }
    }
}

} // verus!
