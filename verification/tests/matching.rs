use sortable::index::build_index;
use sortable::keywords::extract_keywords;
use sortable::records::{Listing, Product};
use sortable::resolve::{match_listings_to_products, resolve_listing};

fn product(name: &str, manufacturer: &str, model: &str, family: &str) -> Product {
    Product {
        product_name: name.to_string(),
        manufacturer: manufacturer.to_string(),
        model: model.to_string(),
        family: family.to_string(),
        announced_date: "2010-01-06T19:00:00.000-05:00".to_string(),
        listings: Vec::new(),
    }
}

fn listing(title: &str, manufacturer: &str) -> Listing {
    Listing {
        title: title.to_string(),
        manufacturer: manufacturer.to_string(),
        currency: "USD".to_string(),
        price: "599.99".to_string(),
    }
}

#[test]
fn canon_eos_400d_is_matched() {
    let mut products = vec![product("Canon EOS 400D", "Canon", "400D", "EOS")];
    let kws = extract_keywords(&products[0]);
    assert_eq!(kws, vec!["canon".to_string(), "eos".to_string(), "400d".to_string()]);

    let ix = build_index(&products);
    for kw in ["canon", "eos", "400d"] {
        let pos = ix.find_key(&kw.to_string()).expect("keyword must be indexed");
        assert_eq!(ix.buckets[pos], vec![0usize]);
    }

    let title = "Canon EOS 400D Digital Camera".to_string();
    let (decision, elims) = resolve_listing(&products, &ix, &title);
    assert_eq!(decision, Some(0));
    assert!(elims.is_empty());

    let listings = vec![listing("Canon EOS 400D Digital Camera", "Canon")];
    let count = match_listings_to_products(&mut products, listings);
    assert_eq!(count, 1);
    assert_eq!(products[0].listings.len(), 1);
    assert_eq!(products[0].listings[0].title, "Canon EOS 400D Digital Camera");
    assert_eq!(products[0].product_name, "Canon EOS 400D");
}

#[test]
fn shared_manufacturer_stays_ambiguous() {
    let mut products = vec![
        product("Sony A100", "Sony", "A100", "Alpha"),
        product("Sony A200", "Sony", "A200", "Alpha"),
    ];
    let ix = build_index(&products);
    let title = "Sony Camera".to_string();
    let (decision, _) = resolve_listing(&products, &ix, &title);
    assert_eq!(decision, None);

    let listings = vec![listing("Sony Camera", "Sony")];
    let count = match_listings_to_products(&mut products, listings);
    assert_eq!(count, 0);
    assert!(products[0].listings.is_empty());
    assert!(products[1].listings.is_empty());
}

#[test]
fn model_token_disambiguates() {
    let mut products = vec![
        product("Sony A100", "Sony", "A100", "Alpha"),
        product("Sony A200", "Sony", "A200", "Alpha"),
    ];
    let listings = vec![
        listing("Sony Alpha A200 body", "Sony"),
        listing("Sony Camera", "Sony"),
    ];
    let count = match_listings_to_products(&mut products, listings);
    assert_eq!(count, 1);
    assert!(products[0].listings.is_empty());
    assert_eq!(products[1].listings.len(), 1);
    assert_eq!(products[1].listings[0].title, "Sony Alpha A200 body");
}

#[test]
fn no_keyword_overlap_never_matches() {
    let mut products = vec![product("Canon EOS 400D", "Canon", "400D", "EOS")];
    let listings = vec![listing("Nikon D80 body only", "Nikon")];
    let count = match_listings_to_products(&mut products, listings);
    assert_eq!(count, 0);
    assert!(products[0].listings.is_empty());
}

#[test]
fn empty_identity_fields_yield_no_keywords() {
    let products = vec![product("Nameless", "", "", "")];
    let kws = extract_keywords(&products[0]);
    assert!(kws.is_empty());

    let mut products = products;
    let listings = vec![listing("Nameless", "")];
    let count = match_listings_to_products(&mut products, listings);
    assert_eq!(count, 0);
    assert!(products[0].listings.is_empty());
}

#[test]
fn keywords_are_lowercased_and_deduplicated() {
    let p = product("Canon Canon", "CANON", "Canon", "IXUS Ixus");
    let kws = extract_keywords(&p);
    assert_eq!(kws, vec!["canon".to_string(), "ixus".to_string()]);
}

#[test]
fn title_splits_on_space_and_slash() {
    let mut products = vec![product("Sony A100", "Sony", "A100", "Alpha")];
    let ix = build_index(&products);
    let title = "SONY/A100 camera".to_string();
    let (decision, _) = resolve_listing(&products, &ix, &title);
    assert_eq!(decision, Some(0));

    let listings = vec![listing("SONY/A100 camera", "Sony")];
    let count = match_listings_to_products(&mut products, listings);
    assert_eq!(count, 1);
    assert_eq!(products[0].listings.len(), 1);
}

#[test]
fn elimination_keyword_is_recorded() {
    let products = vec![
        product("Sony A100", "Sony", "A100", "Alpha"),
        product("Nikon D80", "Nikon", "D80", ""),
    ];
    let ix = build_index(&products);
    let title = "Sony Nikon".to_string();
    let (decision, elims) = resolve_listing(&products, &ix, &title);
    assert_eq!(decision, None);
    assert_eq!(elims, vec!["nikon".to_string()]);
}

#[test]
fn each_listing_attaches_to_at_most_one_product() {
    let mut products = vec![
        product("Canon EOS 400D", "Canon", "400D", "EOS"),
        product("Canon EOS 450D", "Canon", "450D", "EOS"),
    ];
    let listings = vec![
        listing("Canon EOS 400D Digital Camera", "Canon"),
        listing("Canon EOS 450D kit", "Canon"),
        listing("Canon EOS", "Canon"),
    ];
    let count = match_listings_to_products(&mut products, listings);
    assert_eq!(count, 2);
    let total: usize = products.iter().map(|p| p.listings.len()).sum();
    assert_eq!(total, 2);
    assert_eq!(products[0].listings[0].title, "Canon EOS 400D Digital Camera");
    assert_eq!(products[1].listings[0].title, "Canon EOS 450D kit");
}

#[test]
fn identical_keyword_sets_match_neither() {
    let mut products = vec![
        product("Pentax K-x first", "Pentax", "K-x", ""),
        product("Pentax K-x second", "Pentax", "K-x", ""),
    ];
    let listings = vec![listing("Pentax K-x body", "Pentax")];
    let count = match_listings_to_products(&mut products, listings);
    assert_eq!(count, 0);
    assert!(products[0].listings.is_empty());
    assert!(products[1].listings.is_empty());
}
