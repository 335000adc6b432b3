use sortable::error::SortableError;
use sortable::loader::{
    load_listings, load_products, parse_listing_line, parse_product_line, render_listings,
    render_products, render_products_input,
};
use sortable::records::{Listing, Product};
use sortable::resolve::match_listings_to_products;
use sortable::text::string_of_chars;

#[test]
fn parses_a_product_line() {
    let line = "{\"product_name\":\"Canon_EOS_400D\",\"manufacturer\":\"Canon\",\"model\":\"400D\",\"family\":\"EOS\",\"announced-date\":\"2006-08-24T00:00:00.000-04:00\"}";
    let p = parse_product_line(line).expect("valid product line");
    assert_eq!(p.product_name, "Canon_EOS_400D");
    assert_eq!(p.manufacturer, "Canon");
    assert_eq!(p.model, "400D");
    assert_eq!(p.family, "EOS");
    assert_eq!(p.announced_date, "2006-08-24T00:00:00.000-04:00");
    assert!(p.listings.is_empty());
}

#[test]
fn parses_a_listing_line_with_escapes() {
    let line = "{\"title\":\"Canon \\\"EOS\\\" 400D \\\\ kit\",\"manufacturer\":\"Canon\",\"currency\":\"USD\",\"price\":\"599.99\"}";
    let l = parse_listing_line(line).expect("valid listing line");
    assert_eq!(l.title, "Canon \"EOS\" 400D \\ kit");
    assert_eq!(l.manufacturer, "Canon");
    assert_eq!(l.currency, "USD");
    assert_eq!(l.price, "599.99");
}

#[test]
fn a_missing_field_fails_the_line() {
    let line = "{\"title\":\"Canon EOS\",\"manufacturer\":\"Canon\",\"currency\":\"USD\"}";
    assert!(parse_listing_line(line).is_none());
    assert!(parse_product_line("not json at all").is_none());
    assert!(parse_product_line("{}").is_none());
}

#[test]
fn malformed_lines_are_dropped_and_order_kept() {
    let mut text = String::new();
    text.push_str("{\"title\":\"first\",\"manufacturer\":\"a\",\"currency\":\"USD\",\"price\":\"1\"}\n");
    text.push_str("garbage line\n");
    text.push_str("\n");
    text.push_str("{\"title\":\"second\",\"manufacturer\":\"b\",\"currency\":\"CAD\",\"price\":\"2\"}\n");
    let ls = load_listings(&text);
    assert_eq!(ls.len(), 2);
    assert_eq!(ls[0].title, "first");
    assert_eq!(ls[1].title, "second");
}

#[test]
fn crlf_line_endings_are_accepted() {
    let text = "{\"title\":\"t\",\"manufacturer\":\"m\",\"currency\":\"USD\",\"price\":\"9\"}\r\n";
    let ls = load_listings(text);
    assert_eq!(ls.len(), 1);
    assert_eq!(ls[0].title, "t");
}

#[test]
fn listings_round_trip_through_the_codec() {
    let ls = vec![
        Listing {
            title: "Canon \"EOS\" 400D".to_string(),
            manufacturer: "Canon".to_string(),
            currency: "USD".to_string(),
            price: "599.99".to_string(),
        },
        Listing {
            title: "back\\slash and {braces, commas}".to_string(),
            manufacturer: "Acme: cameras".to_string(),
            currency: "EUR".to_string(),
            price: "0.99".to_string(),
        },
    ];
    let text = render_listings(&ls);
    let back = load_listings(&text);
    assert_eq!(back.len(), 2);
    for (a, b) in ls.iter().zip(back.iter()) {
        assert_eq!(a.title, b.title);
        assert_eq!(a.manufacturer, b.manufacturer);
        assert_eq!(a.currency, b.currency);
        assert_eq!(a.price, b.price);
    }
}

#[test]
fn products_round_trip_through_the_codec() {
    let ps = vec![
        Product {
            product_name: "Canon_EOS_400D".to_string(),
            manufacturer: "Canon".to_string(),
            model: "400D".to_string(),
            family: "EOS".to_string(),
            announced_date: "2006-08-24T00:00:00.000-04:00".to_string(),
            listings: Vec::new(),
        },
        Product {
            product_name: "Sony_A100".to_string(),
            manufacturer: "Sony".to_string(),
            model: "A100".to_string(),
            family: "Alpha".to_string(),
            announced_date: "2006-06-05T00:00:00.000-04:00".to_string(),
            listings: Vec::new(),
        },
    ];
    let text = render_products_input(&ps);
    let back = load_products(&text);
    assert_eq!(back.len(), 2);
    for (a, b) in ps.iter().zip(back.iter()) {
        assert_eq!(a.product_name, b.product_name);
        assert_eq!(a.manufacturer, b.manufacturer);
        assert_eq!(a.model, b.model);
        assert_eq!(a.family, b.family);
        assert_eq!(a.announced_date, b.announced_date);
        assert!(b.listings.is_empty());
    }
}

#[test]
fn output_agrees_with_a_real_json_parser() {
    let mut products = vec![Product {
        product_name: "Canon_EOS_400D".to_string(),
        manufacturer: "Canon".to_string(),
        model: "400D".to_string(),
        family: "EOS".to_string(),
        announced_date: "2006-08-24T00:00:00.000-04:00".to_string(),
        listings: Vec::new(),
    }];
    let listings = vec![Listing {
        title: "Canon EOS 400D \"body\"".to_string(),
        manufacturer: "Canon".to_string(),
        currency: "USD".to_string(),
        price: "599.99".to_string(),
    }];
    let count = match_listings_to_products(&mut products, listings);
    assert_eq!(count, 1);

    let text = render_products(&products);
    let line = text.lines().next().expect("one output line");
    let v: serde_json::Value = serde_json::from_str(line).expect("output is valid JSON");
    assert_eq!(v["product_name"].as_str(), Some("Canon_EOS_400D"));
    let arr = v["listings"].as_array().expect("listings array");
    assert_eq!(arr.len(), 1);
    assert_eq!(arr[0]["title"].as_str(), Some("Canon EOS 400D \"body\""));
    assert_eq!(arr[0]["price"].as_str(), Some("599.99"));
    assert!(v.get("manufacturer").is_none());
    assert!(v.get("model").is_none());
}

#[test]
fn rendered_listing_agrees_with_a_real_json_parser() {
    let ls = vec![Listing {
        title: "quote \" and backslash \\ here".to_string(),
        manufacturer: "m".to_string(),
        currency: "USD".to_string(),
        price: "1.00".to_string(),
    }];
    let text = render_listings(&ls);
    let line = text.lines().next().expect("one line");
    let v: serde_json::Value = serde_json::from_str(line).expect("valid JSON");
    assert_eq!(v["title"].as_str(), Some("quote \" and backslash \\ here"));
    assert_eq!(v["currency"].as_str(), Some("USD"));
}

#[test]
fn string_of_chars_builds_the_string() {
    let v = vec!['a', 'b', 'c'];
    assert_eq!(string_of_chars(&v), "abc");
    let empty: Vec<char> = Vec::new();
    assert_eq!(string_of_chars(&empty), "");
}

#[test]
fn error_messages_name_their_kind() {
    let io = SortableError::IOError("file missing".to_string());
    assert_eq!(io.message(), "IO error: file missing");
    let de = SortableError::JsonError("bad record".to_string());
    assert_eq!(de.message(), "Deserialization error: bad record");
}
