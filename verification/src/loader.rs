//! Record loading and writing: line-delimited streams of products and
//! listings. Each line is decoded independently; a malformed line is
//! dropped, and output order follows input line order.

use vstd::prelude::*;
use crate::json::{
    lemma_parse_object_round, lemma_ser_object_nl_free, nl_free, pairs_view, parse_object,
    parse_object_line, push_pair_chars, push_quoted, quoted, ser_members, ser_object, ser_pair,
};
use crate::records::{Listing, ListingView, listing_views, Product, ProductView, product_views};
use crate::text::{
    chars_of_str, lemma_skip_shift, sep_of, SepMode, strs_of, tokenize, tokens,
};

verus! {

/// The first value stored under `key`, if any.
pub open spec fn lookup(kvs: Seq<(Seq<char>, Seq<char>)>, key: Seq<char>) -> Option<Seq<char>>
    decreases kvs.len(),
{
    if kvs.len() == 0 {
        None
    } else if kvs[0].0 == key {
        Some(kvs[0].1)
    } else {
        lookup(kvs.skip(1), key)
    }
}

/// A product record from its decoded fields: all five identity fields
/// must be present; anything else is ignored. A loaded product owns no
/// listings yet.
pub open spec fn product_of_pairs(kvs: Seq<(Seq<char>, Seq<char>)>) -> Option<ProductView> {
    match lookup(kvs, "product_name"@) {
        Some(n) => match lookup(kvs, "manufacturer"@) {
            Some(m) => match lookup(kvs, "model"@) {
                Some(mo) => match lookup(kvs, "family"@) {
                    Some(f) => match lookup(kvs, "announced-date"@) {
                        Some(d) => Some(
                            ProductView {
                                product_name: n,
                                manufacturer: m,
                                model: mo,
                                family: f,
                                announced_date: d,
                                listings: Seq::empty(),
                            },
                        ),
                        None => None,
                    },
                    None => None,
                },
                None => None,
            },
            None => None,
        },
        None => None,
    }
}

/// A listing record from its decoded fields.
pub open spec fn listing_of_pairs(kvs: Seq<(Seq<char>, Seq<char>)>) -> Option<ListingView> {
    match lookup(kvs, "title"@) {
        Some(t) => match lookup(kvs, "manufacturer"@) {
            Some(m) => match lookup(kvs, "currency"@) {
                Some(c) => match lookup(kvs, "price"@) {
                    Some(p) => Some(
                        ListingView { title: t, manufacturer: m, currency: c, price: p },
                    ),
                    None => None,
                },
                None => None,
            },
            None => None,
        },
        None => None,
    }
}

/// A trailing carriage return is not part of the record.
pub open spec fn strip_cr(l: Seq<char>) -> Seq<char> {
    if l.len() > 0 && l[l.len() - 1] == '\r' {
        l.drop_last()
    } else {
        l
    }
}

pub open spec fn product_of_line(l: Seq<char>) -> Option<ProductView> {
    match parse_object(strip_cr(l)) {
        Some(kvs) => product_of_pairs(kvs),
        None => None,
    }
}

pub open spec fn listing_of_line(l: Seq<char>) -> Option<ListingView> {
    match parse_object(strip_cr(l)) {
        Some(kvs) => listing_of_pairs(kvs),
        None => None,
    }
}

/// The lines of a record stream.
pub open spec fn line_seq(text: Seq<char>) -> Seq<Seq<char>> {
    tokens(sep_of(SepMode::Line), text)
}

/// The products decoded from a stream's lines, in line order, malformed
/// lines dropped.
pub open spec fn products_of_lines(lines: Seq<Seq<char>>) -> Seq<ProductView>
    decreases lines.len(),
{
    if lines.len() == 0 {
        Seq::empty()
    } else {
        (match product_of_line(lines[0]) {
            Some(p) => seq![p],
            None => Seq::empty(),
        }) + products_of_lines(lines.skip(1))
    }
}

/// The listings decoded from a stream's lines.
pub open spec fn listings_of_lines(lines: Seq<Seq<char>>) -> Seq<ListingView>
    decreases lines.len(),
{
    if lines.len() == 0 {
        Seq::empty()
    } else {
        (match listing_of_line(lines[0]) {
            Some(l) => seq![l],
            None => Seq::empty(),
        }) + listings_of_lines(lines.skip(1))
    }
}

pub open spec fn load_products_spec(text: Seq<char>) -> Seq<ProductView> {
    products_of_lines(line_seq(text))
}

pub open spec fn load_listings_spec(text: Seq<char>) -> Seq<ListingView> {
    listings_of_lines(line_seq(text))
}

proof fn lemma_products_of_lines_snoc(lines: Seq<Seq<char>>, l: Seq<char>)
    ensures
        products_of_lines(lines.push(l)) == products_of_lines(lines) + (
        match product_of_line(l) {
            Some(p) => seq![p],
            None => Seq::<ProductView>::empty(),
        }),
    decreases lines.len(),
{
    let tailp = match product_of_line(l) {
        Some(p) => seq![p],
        None => Seq::<ProductView>::empty(),
    };
    if lines.len() == 0 {
        assert(lines.push(l)[0] == l);
        assert(lines.push(l).skip(1) =~= Seq::<Seq<char>>::empty());
        assert(products_of_lines(lines.push(l).skip(1)) == Seq::<ProductView>::empty());
        assert(products_of_lines(lines.push(l)) == tailp + Seq::<ProductView>::empty());
        assert(products_of_lines(lines) == Seq::<ProductView>::empty());
        assert(tailp + Seq::<ProductView>::empty() =~= Seq::<ProductView>::empty() + tailp);
    } else {
        assert(lines.push(l)[0] == lines[0]);
        assert(lines.push(l).skip(1) =~= lines.skip(1).push(l));
        lemma_products_of_lines_snoc(lines.skip(1), l);
        let head = match product_of_line(lines[0]) {
            Some(p) => seq![p],
            None => Seq::<ProductView>::empty(),
        };
        assert(products_of_lines(lines.push(l)) == head + (products_of_lines(lines.skip(1))
            + tailp));
        assert(head + (products_of_lines(lines.skip(1)) + tailp) =~= (head + products_of_lines(
            lines.skip(1),
        )) + tailp);
    }
}

proof fn lemma_listings_of_lines_snoc(lines: Seq<Seq<char>>, l: Seq<char>)
    ensures
        listings_of_lines(lines.push(l)) == listings_of_lines(lines) + (
        match listing_of_line(l) {
            Some(x) => seq![x],
            None => Seq::<ListingView>::empty(),
        }),
    decreases lines.len(),
{
    let tailp = match listing_of_line(l) {
        Some(x) => seq![x],
        None => Seq::<ListingView>::empty(),
    };
    if lines.len() == 0 {
        assert(lines.push(l)[0] == l);
        assert(lines.push(l).skip(1) =~= Seq::<Seq<char>>::empty());
        assert(listings_of_lines(lines.push(l).skip(1)) == Seq::<ListingView>::empty());
        assert(listings_of_lines(lines.push(l)) == tailp + Seq::<ListingView>::empty());
        assert(listings_of_lines(lines) == Seq::<ListingView>::empty());
        assert(tailp + Seq::<ListingView>::empty() =~= Seq::<ListingView>::empty() + tailp);
    } else {
        assert(lines.push(l)[0] == lines[0]);
        assert(lines.push(l).skip(1) =~= lines.skip(1).push(l));
        lemma_listings_of_lines_snoc(lines.skip(1), l);
        let head = match listing_of_line(lines[0]) {
            Some(x) => seq![x],
            None => Seq::<ListingView>::empty(),
        };
        assert(listings_of_lines(lines.push(l)) == head + (listings_of_lines(lines.skip(1))
            + tailp));
        assert(head + (listings_of_lines(lines.skip(1)) + tailp) =~= (head + listings_of_lines(
            lines.skip(1),
        )) + tailp);
    }
}

fn lookup_exec(pairs: &Vec<(String, String)>, key: &String) -> (r: Option<String>)
    ensures
        match r {
            Some(v) => lookup(pairs_view(pairs@), key@) == Some(v@),
            None => lookup(pairs_view(pairs@), key@) is None,
        },
{
    let ghost pv = pairs_view(pairs@);
    let mut m: usize = 0;
    proof {
        assert(pv.skip(0) =~= pv);
    }
    while m < pairs.len()
        invariant
            m <= pairs@.len(),
            pv == pairs_view(pairs@),
            pv.len() == pairs@.len(),
            lookup(pv, key@) == lookup(pv.skip(m as int), key@),
        decreases pairs@.len() - m,
    {
        proof {
            lemma_skip_shift(pv, m as int);
            assert(pv.skip(m as int)[0] == pv[m as int]);
            assert(pv[m as int] == (pairs@[m as int].0@, pairs@[m as int].1@));
        }
        if pairs[m].0.eq(key) {
            return Some(pairs[m].1.clone());
        }
        m += 1;
    }
    proof {
        assert(pv.skip(pairs@.len() as int) =~= Seq::<(Seq<char>, Seq<char>)>::empty());
    }
    None
}

fn strip_line(line: &str) -> (cs: Vec<char>)
    ensures
        cs@ == strip_cr(line@),
{
    let mut cs = chars_of_str(line);
    if cs.len() > 0 {
        if cs[cs.len() - 1] == '\r' {
            let _last = cs.pop();
        }
    }
    cs
}

/// Decodes one line as a product record: an object holding the five
/// identity fields as strings. A loaded product owns no listings.
pub fn parse_product_line(line: &str) -> (r: Option<Product>)
    ensures
        match r {
            Some(p) => product_of_line(line@) == Some(p@),
            None => product_of_line(line@) is None,
        },
{
    let cs = strip_line(line);
    match parse_object_line(&cs) {
        Some(pairs) => {
            let k_name = "product_name".to_owned();
            let k_manu = "manufacturer".to_owned();
            let k_model = "model".to_owned();
            let k_family = "family".to_owned();
            let k_date = "announced-date".to_owned();
            match lookup_exec(&pairs, &k_name) {
                Some(n) => match lookup_exec(&pairs, &k_manu) {
                    Some(m) => match lookup_exec(&pairs, &k_model) {
                        Some(mo) => match lookup_exec(&pairs, &k_family) {
                            Some(f) => match lookup_exec(&pairs, &k_date) {
                                Some(d) => {
                                    let p = Product {
                                        product_name: n,
                                        manufacturer: m,
                                        model: mo,
                                        family: f,
                                        announced_date: d,
                                        listings: Vec::new(),
                                    };
                                    proof {
                                        assert(p@.listings =~= Seq::<ListingView>::empty());
                                    }
                                    Some(p)
                                },
                                None => None,
                            },
                            None => None,
                        },
                        None => None,
                    },
                    None => None,
                },
                None => None,
            }
        },
        None => None,
    }
}

/// Decodes one line as a listing record.
pub fn parse_listing_line(line: &str) -> (r: Option<Listing>)
    ensures
        match r {
            Some(l) => listing_of_line(line@) == Some(l@),
            None => listing_of_line(line@) is None,
        },
{
    let cs = strip_line(line);
    match parse_object_line(&cs) {
        Some(pairs) => {
            let k_title = "title".to_owned();
            let k_manu = "manufacturer".to_owned();
            let k_curr = "currency".to_owned();
            let k_price = "price".to_owned();
            match lookup_exec(&pairs, &k_title) {
                Some(t) => match lookup_exec(&pairs, &k_manu) {
                    Some(m) => match lookup_exec(&pairs, &k_curr) {
                        Some(c) => match lookup_exec(&pairs, &k_price) {
                            Some(p) => Some(
                                Listing { title: t, manufacturer: m, currency: c, price: p },
                            ),
                            None => None,
                        },
                        None => None,
                    },
                    None => None,
                },
                None => None,
            }
        },
        None => None,
    }
}

/// Loads a product stream: each line decoded independently, malformed
/// lines dropped, order kept.
pub fn load_products(text: &str) -> (r: Vec<Product>)
    ensures
        product_views(r@) == load_products_spec(text@),
{
    let lines = tokenize(text, SepMode::Line);
    let ghost lv = strs_of(lines@);
    let mut r: Vec<Product> = Vec::new();
    let mut m: usize = 0;
    proof {
        assert(lv.take(0) =~= Seq::<Seq<char>>::empty());
        assert(product_views(r@) =~= products_of_lines(lv.take(0)));
    }
    while m < lines.len()
        invariant
            m <= lines@.len(),
            lv == strs_of(lines@),
            lv.len() == lines@.len(),
            lv == line_seq(text@),
            product_views(r@) == products_of_lines(lv.take(m as int)),
        decreases lines@.len() - m,
    {
        proof {
            assert(lv.take((m + 1) as int) =~= lv.take(m as int).push(lv[m as int]));
            assert(lines@[m as int]@ == lv[m as int]);
            lemma_products_of_lines_snoc(lv.take(m as int), lv[m as int]);
        }
        let ghost prev = r@;
        match parse_product_line(lines[m].as_str()) {
            Some(p) => {
                r.push(p);
                proof {
                    assert(product_views(r@) =~= product_views(prev).push(r@[prev.len() as int]@));
                    assert(product_views(r@) =~= products_of_lines(lv.take((m + 1) as int)));
                }
            },
            None => {
                proof {
                    assert(product_views(r@) =~= products_of_lines(lv.take((m + 1) as int)));
                }
            },
        }
        m += 1;
    }
    proof {
        assert(lv.take(lines@.len() as int) =~= lv);
    }
    r
}

/// Loads a listing stream.
pub fn load_listings(text: &str) -> (r: Vec<Listing>)
    ensures
        listing_views(r@) == load_listings_spec(text@),
{
    let lines = tokenize(text, SepMode::Line);
    let ghost lv = strs_of(lines@);
    let mut r: Vec<Listing> = Vec::new();
    let mut m: usize = 0;
    proof {
        assert(lv.take(0) =~= Seq::<Seq<char>>::empty());
        assert(listing_views(r@) =~= listings_of_lines(lv.take(0)));
    }
    while m < lines.len()
        invariant
            m <= lines@.len(),
            lv == strs_of(lines@),
            lv.len() == lines@.len(),
            lv == line_seq(text@),
            listing_views(r@) == listings_of_lines(lv.take(m as int)),
        decreases lines@.len() - m,
    {
        proof {
            assert(lv.take((m + 1) as int) =~= lv.take(m as int).push(lv[m as int]));
            assert(lines@[m as int]@ == lv[m as int]);
            lemma_listings_of_lines_snoc(lv.take(m as int), lv[m as int]);
        }
        let ghost prev = r@;
        match parse_listing_line(lines[m].as_str()) {
            Some(l) => {
                r.push(l);
                proof {
                    assert(listing_views(r@) =~= listing_views(prev).push(r@[prev.len() as int]@));
                    assert(listing_views(r@) =~= listings_of_lines(lv.take((m + 1) as int)));
                }
            },
            None => {
                proof {
                    assert(listing_views(r@) =~= listings_of_lines(lv.take((m + 1) as int)));
                }
            },
        }
        m += 1;
    }
    proof {
        assert(lv.take(lines@.len() as int) =~= lv);
    }
    r
}

/// The wire pairs of a listing record.
pub open spec fn listing_pairs(l: ListingView) -> Seq<(Seq<char>, Seq<char>)> {
    seq![
        ("title"@, l.title),
        ("manufacturer"@, l.manufacturer),
        ("currency"@, l.currency),
        ("price"@, l.price),
    ]
}

/// A listing as one output line.
pub open spec fn listing_line(l: ListingView) -> Seq<char> {
    ser_object(listing_pairs(l))
}

/// The wire pairs of a product record in the input shape: the five
/// identity fields.
pub open spec fn product_input_pairs(p: ProductView) -> Seq<(Seq<char>, Seq<char>)> {
    seq![
        ("product_name"@, p.product_name),
        ("manufacturer"@, p.manufacturer),
        ("model"@, p.model),
        ("family"@, p.family),
        ("announced-date"@, p.announced_date),
    ]
}

/// A catalog record in the input shape, as one line.
pub open spec fn product_input_line(p: ProductView) -> Seq<char> {
    ser_object(product_input_pairs(p))
}

/// The matched listings of a product, as a serialized array body.
pub open spec fn listings_array(ls: Seq<ListingView>) -> Seq<char>
    decreases ls.len(),
{
    if ls.len() == 0 {
        Seq::empty()
    } else if ls.len() == 1 {
        listing_line(ls[0])
    } else {
        listing_line(ls[0]) + seq![','] + listings_array(ls.skip(1))
    }
}

/// A product as one output line: its name and the listings matched to
/// it. The other identity fields are not written on output.
pub open spec fn product_output_line(p: ProductView) -> Seq<char> {
    seq!['{'] + ser_pair(("product_name"@, p.product_name)) + seq![','] + quoted("listings"@)
        + seq![':', '['] + listings_array(p.listings) + seq![']', '}']
}

/// A listing stream: one line per record, each ended by a line break.
pub open spec fn render_listings_spec(ls: Seq<ListingView>) -> Seq<char>
    decreases ls.len(),
{
    if ls.len() == 0 {
        Seq::empty()
    } else {
        listing_line(ls[0]) + seq!['\n'] + render_listings_spec(ls.skip(1))
    }
}

/// A catalog stream in the input shape.
pub open spec fn render_products_input_spec(ps: Seq<ProductView>) -> Seq<char>
    decreases ps.len(),
{
    if ps.len() == 0 {
        Seq::empty()
    } else {
        product_input_line(ps[0]) + seq!['\n'] + render_products_input_spec(ps.skip(1))
    }
}

/// The result stream: annotated products in the output shape.
pub open spec fn render_products_spec(ps: Seq<ProductView>) -> Seq<char>
    decreases ps.len(),
{
    if ps.len() == 0 {
        Seq::empty()
    } else {
        product_output_line(ps[0]) + seq!['\n'] + render_products_spec(ps.skip(1))
    }
}

proof fn lemma_listings_array_snoc(ls: Seq<ListingView>, x: ListingView)
    ensures
        listings_array(ls.push(x)) == (if ls.len() == 0 {
            listing_line(x)
        } else {
            listings_array(ls) + seq![','] + listings_array(seq![x])
        }),
    decreases ls.len(),
{
    assert(listings_array(seq![x]) == listing_line(x));
    if ls.len() == 0 {
        assert(ls.push(x)[0] == x);
        assert(ls.push(x).len() == 1);
    } else {
        assert(ls.push(x)[0] == ls[0]);
        assert(ls.push(x).skip(1) =~= ls.skip(1).push(x));
        lemma_listings_array_snoc(ls.skip(1), x);
        if ls.len() == 1 {
            assert(ls.skip(1).len() == 0);
            assert(listings_array(ls.push(x)) == listing_line(ls[0]) + seq![','] + listing_line(
                x,
            ));
            assert(listing_line(ls[0]) + seq![','] + listing_line(x) =~= listings_array(ls)
                + seq![','] + listings_array(seq![x]));
        } else {
            assert(listings_array(ls.push(x)) == listing_line(ls[0]) + seq![','] + (
            listings_array(ls.skip(1)) + seq![','] + listing_line(x)));
            assert(listing_line(ls[0]) + seq![','] + (listings_array(ls.skip(1)) + seq![',']
                + listing_line(x)) =~= (listing_line(ls[0]) + seq![','] + listings_array(
                ls.skip(1),
            )) + seq![','] + listing_line(x));
        }
    }
}

proof fn lemma_render_listings_snoc(ls: Seq<ListingView>, x: ListingView)
    ensures
        render_listings_spec(ls.push(x)) == render_listings_spec(ls) + listing_line(x)
            + seq!['\n'],
    decreases ls.len(),
{
    if ls.len() == 0 {
        assert(ls.push(x)[0] == x);
        assert(ls.push(x).skip(1) =~= Seq::<ListingView>::empty());
        assert(render_listings_spec(ls.push(x)) == listing_line(x) + seq!['\n']
            + render_listings_spec(Seq::<ListingView>::empty()));
        assert(listing_line(x) + seq!['\n'] + Seq::<char>::empty() =~= Seq::<char>::empty()
            + listing_line(x) + seq!['\n']);
    } else {
        assert(ls.push(x)[0] == ls[0]);
        assert(ls.push(x).skip(1) =~= ls.skip(1).push(x));
        lemma_render_listings_snoc(ls.skip(1), x);
        assert(render_listings_spec(ls.push(x)) == listing_line(ls[0]) + seq!['\n'] + (
        render_listings_spec(ls.skip(1)) + listing_line(x) + seq!['\n']));
        assert(listing_line(ls[0]) + seq!['\n'] + (render_listings_spec(ls.skip(1))
            + listing_line(x) + seq!['\n']) =~= (listing_line(ls[0]) + seq!['\n']
            + render_listings_spec(ls.skip(1))) + listing_line(x) + seq!['\n']);
    }
}

proof fn lemma_render_products_input_snoc(ps: Seq<ProductView>, x: ProductView)
    ensures
        render_products_input_spec(ps.push(x)) == render_products_input_spec(ps)
            + product_input_line(x) + seq!['\n'],
    decreases ps.len(),
{
    if ps.len() == 0 {
        assert(ps.push(x)[0] == x);
        assert(ps.push(x).skip(1) =~= Seq::<ProductView>::empty());
        assert(render_products_input_spec(ps.push(x)) == product_input_line(x) + seq!['\n']
            + render_products_input_spec(Seq::<ProductView>::empty()));
        assert(product_input_line(x) + seq!['\n'] + Seq::<char>::empty() =~= Seq::<char>::empty()
            + product_input_line(x) + seq!['\n']);
    } else {
        assert(ps.push(x)[0] == ps[0]);
        assert(ps.push(x).skip(1) =~= ps.skip(1).push(x));
        lemma_render_products_input_snoc(ps.skip(1), x);
        assert(render_products_input_spec(ps.push(x)) == product_input_line(ps[0]) + seq!['\n']
            + (render_products_input_spec(ps.skip(1)) + product_input_line(x) + seq!['\n']));
        assert(product_input_line(ps[0]) + seq!['\n'] + (render_products_input_spec(ps.skip(1))
            + product_input_line(x) + seq!['\n']) =~= (product_input_line(ps[0]) + seq!['\n']
            + render_products_input_spec(ps.skip(1))) + product_input_line(x) + seq!['\n']);
    }
}

proof fn lemma_render_products_snoc(ps: Seq<ProductView>, x: ProductView)
    ensures
        render_products_spec(ps.push(x)) == render_products_spec(ps) + product_output_line(x)
            + seq!['\n'],
    decreases ps.len(),
{
    if ps.len() == 0 {
        assert(ps.push(x)[0] == x);
        assert(ps.push(x).skip(1) =~= Seq::<ProductView>::empty());
        assert(render_products_spec(ps.push(x)) == product_output_line(x) + seq!['\n']
            + render_products_spec(Seq::<ProductView>::empty()));
        assert(product_output_line(x) + seq!['\n'] + Seq::<char>::empty() =~= Seq::<char>::empty()
            + product_output_line(x) + seq!['\n']);
    } else {
        assert(ps.push(x)[0] == ps[0]);
        assert(ps.push(x).skip(1) =~= ps.skip(1).push(x));
        lemma_render_products_snoc(ps.skip(1), x);
        assert(render_products_spec(ps.push(x)) == product_output_line(ps[0]) + seq!['\n'] + (
        render_products_spec(ps.skip(1)) + product_output_line(x) + seq!['\n']));
        assert(product_output_line(ps[0]) + seq!['\n'] + (render_products_spec(ps.skip(1))
            + product_output_line(x) + seq!['\n']) =~= (product_output_line(ps[0]) + seq!['\n']
            + render_products_spec(ps.skip(1))) + product_output_line(x) + seq!['\n']);
    }
}

fn push_listing_obj(out: &mut Vec<char>, l: &Listing) -> (u: ())
    ensures
        final(out)@ == old(out)@ + listing_line(l@),
{
    let ghost base = out@;
    let k_title = "title".to_owned();
    let k_manu = "manufacturer".to_owned();
    let k_curr = "currency".to_owned();
    let k_price = "price".to_owned();
    out.push('{');
    push_pair_chars(out, &k_title, &l.title);
    out.push(',');
    push_pair_chars(out, &k_manu, &l.manufacturer);
    out.push(',');
    push_pair_chars(out, &k_curr, &l.currency);
    out.push(',');
    push_pair_chars(out, &k_price, &l.price);
    out.push('}');
    proof {
        let kvs = listing_pairs(l@);
        let s3 = kvs.skip(1);
        let s2 = s3.skip(1);
        let s1 = s2.skip(1);
        assert(s3[0] == kvs[1] && s2[0] == kvs[2] && s1[0] == kvs[3]);
        assert(s1.len() == 1 && s2.len() == 2 && s3.len() == 3);
        assert(ser_members(s1) == ser_pair(kvs[3]));
        assert(ser_members(s2) == ser_pair(kvs[2]) + seq![','] + ser_members(s2.skip(1)));
        assert(s2.skip(1) =~= s1);
        assert(ser_members(s3) == ser_pair(kvs[1]) + seq![','] + ser_members(s3.skip(1)));
        assert(s3.skip(1) =~= s2);
        assert(ser_members(kvs) == ser_pair(kvs[0]) + seq![','] + ser_members(s3));
        assert(out@ =~= base + listing_line(l@));
    }
}

fn push_product_input_obj(out: &mut Vec<char>, p: &Product) -> (u: ())
    ensures
        final(out)@ == old(out)@ + product_input_line(p@),
{
    let ghost base = out@;
    let k_name = "product_name".to_owned();
    let k_manu = "manufacturer".to_owned();
    let k_model = "model".to_owned();
    let k_family = "family".to_owned();
    let k_date = "announced-date".to_owned();
    out.push('{');
    push_pair_chars(out, &k_name, &p.product_name);
    out.push(',');
    push_pair_chars(out, &k_manu, &p.manufacturer);
    out.push(',');
    push_pair_chars(out, &k_model, &p.model);
    out.push(',');
    push_pair_chars(out, &k_family, &p.family);
    out.push(',');
    push_pair_chars(out, &k_date, &p.announced_date);
    out.push('}');
    proof {
        let kvs = product_input_pairs(p@);
        let s4 = kvs.skip(1);
        let s3 = s4.skip(1);
        let s2 = s3.skip(1);
        let s1 = s2.skip(1);
        assert(s4[0] == kvs[1] && s3[0] == kvs[2] && s2[0] == kvs[3] && s1[0] == kvs[4]);
        assert(s1.len() == 1 && s2.len() == 2 && s3.len() == 3 && s4.len() == 4);
        assert(ser_members(s1) == ser_pair(kvs[4]));
        assert(ser_members(s2) == ser_pair(kvs[3]) + seq![','] + ser_members(s2.skip(1)));
        assert(s2.skip(1) =~= s1);
        assert(ser_members(s3) == ser_pair(kvs[2]) + seq![','] + ser_members(s3.skip(1)));
        assert(s3.skip(1) =~= s2);
        assert(ser_members(s4) == ser_pair(kvs[1]) + seq![','] + ser_members(s4.skip(1)));
        assert(s4.skip(1) =~= s3);
        assert(ser_members(kvs) == ser_pair(kvs[0]) + seq![','] + ser_members(s4));
        assert(out@ =~= base + product_input_line(p@));
    }
}

fn push_product_output_obj(out: &mut Vec<char>, p: &Product) -> (u: ())
    ensures
        final(out)@ == old(out)@ + product_output_line(p@),
{
    let ghost base = out@;
    let k_name = "product_name".to_owned();
    let k_listings = "listings".to_owned();
    out.push('{');
    push_pair_chars(out, &k_name, &p.product_name);
    out.push(',');
    push_quoted(out, &k_listings);
    out.push(':');
    out.push('[');
    let ghost lvs = p@.listings;
    let ghost mid = out@;
    let mut m: usize = 0;
    proof {
        assert(lvs.take(0) =~= Seq::<ListingView>::empty());
        assert(out@ =~= mid + listings_array(lvs.take(0)));
        assert(lvs.len() == p.listings@.len());
    }
    while m < p.listings.len()
        invariant
            m <= p.listings@.len(),
            lvs == p@.listings,
            lvs.len() == p.listings@.len(),
            out@ == mid + listings_array(lvs.take(m as int)),
        decreases p.listings@.len() - m,
    {
        if m > 0 {
            out.push(',');
        }
        push_listing_obj(out, &p.listings[m]);
        proof {
            assert(p.listings@[m as int]@ == lvs[m as int]);
            assert(lvs.take((m + 1) as int) =~= lvs.take(m as int).push(lvs[m as int]));
            lemma_listings_array_snoc(lvs.take(m as int), lvs[m as int]);
            assert(listings_array(seq![lvs[m as int]]) == listing_line(lvs[m as int]));
            assert(out@ =~= mid + listings_array(lvs.take((m + 1) as int)));
        }
        m += 1;
    }
    proof {
        assert(lvs.take(lvs.len() as int) =~= lvs);
    }
    out.push(']');
    out.push('}');
    proof {
        assert(out@ =~= base + product_output_line(p@));
    }
}

/// Writes a listing stream: one record per line, input order kept.
pub fn render_listings(listings: &Vec<Listing>) -> (r: String)
    ensures
        r@ == render_listings_spec(listing_views(listings@)),
{
    let ghost lvs = listing_views(listings@);
    let mut out: Vec<char> = Vec::new();
    let mut m: usize = 0;
    proof {
        assert(lvs.take(0) =~= Seq::<ListingView>::empty());
        assert(out@ =~= render_listings_spec(lvs.take(0)));
    }
    while m < listings.len()
        invariant
            m <= listings@.len(),
            lvs == listing_views(listings@),
            lvs.len() == listings@.len(),
            out@ == render_listings_spec(lvs.take(m as int)),
        decreases listings@.len() - m,
    {
        push_listing_obj(&mut out, &listings[m]);
        out.push('\n');
        proof {
            assert(listings@[m as int]@ == lvs[m as int]);
            assert(lvs.take((m + 1) as int) =~= lvs.take(m as int).push(lvs[m as int]));
            lemma_render_listings_snoc(lvs.take(m as int), lvs[m as int]);
            assert(out@ =~= render_listings_spec(lvs.take((m + 1) as int)));
        }
        m += 1;
    }
    proof {
        assert(lvs.take(listings@.len() as int) =~= lvs);
    }
    crate::text::string_of_chars(&out)
}

/// Writes a catalog stream in the input shape: every identity field of
/// every product, one record per line.
pub fn render_products_input(products: &Vec<Product>) -> (r: String)
    ensures
        r@ == render_products_input_spec(product_views(products@)),
{
    let ghost pvs = product_views(products@);
    let mut out: Vec<char> = Vec::new();
    let mut m: usize = 0;
    proof {
        assert(pvs.take(0) =~= Seq::<ProductView>::empty());
        assert(out@ =~= render_products_input_spec(pvs.take(0)));
    }
    while m < products.len()
        invariant
            m <= products@.len(),
            pvs == product_views(products@),
            pvs.len() == products@.len(),
            out@ == render_products_input_spec(pvs.take(m as int)),
        decreases products@.len() - m,
    {
        push_product_input_obj(&mut out, &products[m]);
        out.push('\n');
        proof {
            assert(products@[m as int]@ == pvs[m as int]);
            assert(pvs.take((m + 1) as int) =~= pvs.take(m as int).push(pvs[m as int]));
            lemma_render_products_input_snoc(pvs.take(m as int), pvs[m as int]);
            assert(out@ =~= render_products_input_spec(pvs.take((m + 1) as int)));
        }
        m += 1;
    }
    proof {
        assert(pvs.take(products@.len() as int) =~= pvs);
    }
    crate::text::string_of_chars(&out)
}

/// Writes the result stream: each product's name with its matched
/// listings, one record per line, input order kept.
pub fn render_products(products: &Vec<Product>) -> (r: String)
    ensures
        r@ == render_products_spec(product_views(products@)),
{
    let ghost pvs = product_views(products@);
    let mut out: Vec<char> = Vec::new();
    let mut m: usize = 0;
    proof {
        assert(pvs.take(0) =~= Seq::<ProductView>::empty());
        assert(out@ =~= render_products_spec(pvs.take(0)));
    }
    while m < products.len()
        invariant
            m <= products@.len(),
            pvs == product_views(products@),
            pvs.len() == products@.len(),
            out@ == render_products_spec(pvs.take(m as int)),
        decreases products@.len() - m,
    {
        push_product_output_obj(&mut out, &products[m]);
        out.push('\n');
        proof {
            assert(products@[m as int]@ == pvs[m as int]);
            assert(pvs.take((m + 1) as int) =~= pvs.take(m as int).push(pvs[m as int]));
            lemma_render_products_snoc(pvs.take(m as int), pvs[m as int]);
            assert(out@ =~= render_products_spec(pvs.take((m + 1) as int)));
        }
        m += 1;
    }
    proof {
        assert(pvs.take(products@.len() as int) =~= pvs);
    }
    crate::text::string_of_chars(&out)
}

/// The wire keys are pairwise distinct.
proof fn lemma_wire_keys()
    ensures
        "title"@ != "manufacturer"@,
        "title"@ != "currency"@,
        "title"@ != "price"@,
        "manufacturer"@ != "currency"@,
        "manufacturer"@ != "price"@,
        "currency"@ != "price"@,
        "product_name"@ != "manufacturer"@,
        "product_name"@ != "model"@,
        "product_name"@ != "family"@,
        "product_name"@ != "announced-date"@,
        "manufacturer"@ != "model"@,
        "manufacturer"@ != "family"@,
        "manufacturer"@ != "announced-date"@,
        "model"@ != "family"@,
        "model"@ != "announced-date"@,
        "family"@ != "announced-date"@,
{
    reveal_strlit("title");
    reveal_strlit("manufacturer");
    reveal_strlit("currency");
    reveal_strlit("price");
    reveal_strlit("product_name");
    reveal_strlit("model");
    reveal_strlit("family");
    reveal_strlit("announced-date");
    assert("title"@.len() == 5 && "manufacturer"@.len() == 12 && "currency"@.len() == 8
        && "price"@.len() == 5 && "product_name"@.len() == 12 && "model"@.len() == 5
        && "family"@.len() == 6 && "announced-date"@.len() == 14);
    assert("title"@[0] == 't' && "price"@[0] == 'p');
    assert("product_name"@[0] == 'p' && "manufacturer"@[0] == 'm' && "model"@[0] == 'm');
    assert("model"@[1] == 'o' && "manufacturer"@[1] == 'a');
}

/// A serialized line ends in a closing brace, so nothing is stripped
/// from it.
proof fn lemma_strip_object_line(kvs: Seq<(Seq<char>, Seq<char>)>)
    ensures
        strip_cr(ser_object(kvs)) == ser_object(kvs),
{
    let u = ser_object(kvs);
    assert(u.len() >= 2);
    assert(u[u.len() - 1] == '}') by {
        assert(u == seq!['{'] + ser_members(kvs) + seq!['}']);
        assert(u[u.len() - 1] == seq!['}'][0]);
    }
}

/// One listing survives the write-then-read round trip exactly, for
/// every listing.
pub proof fn lemma_listing_line_round(l: ListingView)
    ensures
        listing_of_line(listing_line(l)) == Some(l),
{
    let kvs = listing_pairs(l);
    lemma_strip_object_line(kvs);
    lemma_parse_object_round(kvs);
    lemma_wire_keys();
    let s3 = kvs.skip(1);
    let s2 = s3.skip(1);
    let s1 = s2.skip(1);
    assert(s3[0] == kvs[1] && s2[0] == kvs[2] && s1[0] == kvs[3]);
    assert(s1.len() == 1 && s2.len() == 2 && s3.len() == 3);
    assert(s3.skip(1) =~= s2);
    assert(s2.skip(1) =~= s1);
    assert(lookup(kvs, "title"@) == Some(l.title));
    assert(lookup(s3, "manufacturer"@) == Some(l.manufacturer));
    assert(lookup(kvs, "manufacturer"@) == Some(l.manufacturer));
    assert(lookup(s2, "currency"@) == Some(l.currency));
    assert(lookup(s3, "currency"@) == Some(l.currency));
    assert(lookup(kvs, "currency"@) == Some(l.currency));
    assert(lookup(s1, "price"@) == Some(l.price));
    assert(lookup(s2, "price"@) == Some(l.price));
    assert(lookup(s3, "price"@) == Some(l.price));
    assert(lookup(kvs, "price"@) == Some(l.price));
}

/// One catalog record in the input shape survives the round trip, for
/// every product that owns no listings yet.
pub proof fn lemma_product_line_round(p: ProductView)
    requires
        p.listings == Seq::<ListingView>::empty(),
    ensures
        product_of_line(product_input_line(p)) == Some(p),
{
    let kvs = product_input_pairs(p);
    lemma_strip_object_line(kvs);
    lemma_parse_object_round(kvs);
    lemma_wire_keys();
    let s4 = kvs.skip(1);
    let s3 = s4.skip(1);
    let s2 = s3.skip(1);
    let s1 = s2.skip(1);
    assert(s4[0] == kvs[1] && s3[0] == kvs[2] && s2[0] == kvs[3] && s1[0] == kvs[4]);
    assert(s1.len() == 1 && s2.len() == 2 && s3.len() == 3 && s4.len() == 4);
    assert(s4.skip(1) =~= s3);
    assert(s3.skip(1) =~= s2);
    assert(s2.skip(1) =~= s1);
    assert(lookup(kvs, "product_name"@) == Some(p.product_name));
    assert(lookup(s4, "manufacturer"@) == Some(p.manufacturer));
    assert(lookup(kvs, "manufacturer"@) == Some(p.manufacturer));
    assert(lookup(s3, "model"@) == Some(p.model));
    assert(lookup(s4, "model"@) == Some(p.model));
    assert(lookup(kvs, "model"@) == Some(p.model));
    assert(lookup(s2, "family"@) == Some(p.family));
    assert(lookup(s3, "family"@) == Some(p.family));
    assert(lookup(s4, "family"@) == Some(p.family));
    assert(lookup(kvs, "family"@) == Some(p.family));
    assert(lookup(s1, "announced-date"@) == Some(p.announced_date));
    assert(lookup(s2, "announced-date"@) == Some(p.announced_date));
    assert(lookup(s3, "announced-date"@) == Some(p.announced_date));
    assert(lookup(s4, "announced-date"@) == Some(p.announced_date));
    assert(lookup(kvs, "announced-date"@) == Some(p.announced_date));
}

/// Fields that can stand on one line of a record stream.
pub open spec fn listing_wire_safe(l: ListingView) -> bool {
    nl_free(l.title) && nl_free(l.manufacturer) && nl_free(l.currency) && nl_free(l.price)
}

pub open spec fn product_wire_safe(p: ProductView) -> bool {
    nl_free(p.product_name) && nl_free(p.manufacturer) && nl_free(p.model) && nl_free(p.family)
        && nl_free(p.announced_date)
}

proof fn lemma_wire_keys_nl_free()
    ensures
        nl_free("title"@),
        nl_free("manufacturer"@),
        nl_free("currency"@),
        nl_free("price"@),
        nl_free("product_name"@),
        nl_free("model"@),
        nl_free("family"@),
        nl_free("announced-date"@),
{
    reveal_strlit("title");
    reveal_strlit("manufacturer");
    reveal_strlit("currency");
    reveal_strlit("price");
    reveal_strlit("product_name");
    reveal_strlit("model");
    reveal_strlit("family");
    reveal_strlit("announced-date");
}

proof fn lemma_listing_line_nl_free(l: ListingView)
    requires
        listing_wire_safe(l),
    ensures
        nl_free(listing_line(l)),
        listing_line(l).len() > 0,
{
    lemma_wire_keys_nl_free();
    let kvs = listing_pairs(l);
    assert(forall|m: int|
        0 <= m < kvs.len() ==> nl_free((#[trigger] kvs[m]).0) && nl_free(kvs[m].1));
    lemma_ser_object_nl_free(kvs);
}

proof fn lemma_product_line_nl_free(p: ProductView)
    requires
        product_wire_safe(p),
    ensures
        nl_free(product_input_line(p)),
        product_input_line(p).len() > 0,
{
    lemma_wire_keys_nl_free();
    let kvs = product_input_pairs(p);
    assert(forall|m: int|
        0 <= m < kvs.len() ==> nl_free((#[trigger] kvs[m]).0) && nl_free(kvs[m].1));
    lemma_ser_object_nl_free(kvs);
}

/// The round trip for listing streams: writing any listings whose
/// fields carry no line break, then loading the text back, yields the
/// same records with the same field values in the same order.
pub proof fn lemma_round_trip_listings(ls: Seq<ListingView>)
    requires
        forall|i: int| 0 <= i < ls.len() ==> listing_wire_safe(#[trigger] ls[i]),
    ensures
        load_listings_spec(render_listings_spec(ls)) == ls,
    decreases ls.len(),
{
    let sep = sep_of(SepMode::Line);
    if ls.len() == 0 {
        assert(render_listings_spec(ls) == Seq::<char>::empty());
        assert(line_seq(Seq::<char>::empty()) =~= Seq::<Seq<char>>::empty());
        assert(load_listings_spec(render_listings_spec(ls)) =~= ls);
    } else {
        let l0 = ls[0];
        let u = listing_line(l0);
        let rest = render_listings_spec(ls.skip(1));
        assert(render_listings_spec(ls) == u + seq!['\n'] + rest);
        lemma_listing_line_nl_free(l0);
        assert(forall|j: int| 0 <= j < u.len() ==> !sep(u[j]));
        assert(sep('\n'));
        assert(u + seq!['\n'] + rest =~= u + seq!['\n'] + rest);
        crate::text::lemma_tokens_acc_concat(sep, Seq::empty(), u, '\n', rest);
        assert(Seq::<char>::empty() + u =~= u);
        assert(line_seq(u + seq!['\n'] + rest) == seq![u] + line_seq(rest));
        lemma_listing_line_round(l0);
        assert(forall|i: int| 0 <= i < ls.skip(1).len() ==> listing_wire_safe(
            #[trigger] ls.skip(1)[i],
        ));
        lemma_round_trip_listings(ls.skip(1));
        let lines = seq![u] + line_seq(rest);
        assert(lines[0] == u);
        assert(lines.skip(1) =~= line_seq(rest));
        assert(listings_of_lines(lines) == seq![l0] + listings_of_lines(line_seq(rest)));
        assert(seq![l0] + ls.skip(1) =~= ls);
    }
}

/// The round trip for catalog streams in the input shape: writing any
/// products whose fields carry no line break and that own no listings,
/// then loading the text back, yields the same records in the same
/// order.
pub proof fn lemma_round_trip_products(ps: Seq<ProductView>)
    requires
        forall|i: int|
            0 <= i < ps.len() ==> product_wire_safe(#[trigger] ps[i]) && ps[i].listings
                == Seq::<ListingView>::empty(),
    ensures
        load_products_spec(render_products_input_spec(ps)) == ps,
    decreases ps.len(),
{
    let sep = sep_of(SepMode::Line);
    if ps.len() == 0 {
        assert(render_products_input_spec(ps) == Seq::<char>::empty());
        assert(line_seq(Seq::<char>::empty()) =~= Seq::<Seq<char>>::empty());
        assert(load_products_spec(render_products_input_spec(ps)) =~= ps);
    } else {
        let p0 = ps[0];
        let u = product_input_line(p0);
        let rest = render_products_input_spec(ps.skip(1));
        assert(render_products_input_spec(ps) == u + seq!['\n'] + rest);
        lemma_product_line_nl_free(p0);
        assert(forall|j: int| 0 <= j < u.len() ==> !sep(u[j]));
        assert(sep('\n'));
        crate::text::lemma_tokens_acc_concat(sep, Seq::empty(), u, '\n', rest);
        assert(Seq::<char>::empty() + u =~= u);
        assert(line_seq(u + seq!['\n'] + rest) == seq![u] + line_seq(rest));
        lemma_product_line_round(p0);
        assert(forall|i: int|
            0 <= i < ps.skip(1).len() ==> product_wire_safe(#[trigger] ps.skip(1)[i]) && ps.skip(
                1,
            )[i].listings == Seq::<ListingView>::empty());
        lemma_round_trip_products(ps.skip(1));
        let lines = seq![u] + line_seq(rest);
        assert(lines[0] == u);
        assert(lines.skip(1) =~= line_seq(rest));
        assert(products_of_lines(lines) == seq![p0] + products_of_lines(line_seq(rest)));
        assert(seq![p0] + ps.skip(1) =~= ps);
    }
}

} // verus!
