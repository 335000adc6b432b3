//! The two record kinds: canonical products and free-text listings.
//!
//! A product owns the listings matched to it; its identity fields
//! (manufacturer, family, model) drive the matching and are never
//! mutated by it.

use vstd::prelude::*;

verus! {

/// A free-text offer for sale: immutable title, manufacturer, currency
/// and price (a decimal kept as text, never parsed numerically).
#[derive(Debug)]
pub struct Listing {
    pub title: String,
    pub manufacturer: String,
    pub currency: String,
    pub price: String,
}

/// The mathematical value of a `Listing`: its four fields as character
/// sequences.
pub struct ListingView {
    pub title: Seq<char>,
    pub manufacturer: Seq<char>,
    pub currency: Seq<char>,
    pub price: Seq<char>,
}

impl View for Listing {
    type V = ListingView;

    open spec fn view(&self) -> ListingView {
        ListingView {
            title: self.title@,
            manufacturer: self.manufacturer@,
            currency: self.currency@,
            price: self.price@,
        }
    }
}

/// A canonical product: identity fields plus the listings matched to it
/// so far. `announced_date` is an opaque string, never parsed as a date.
#[derive(Debug)]
pub struct Product {
    pub product_name: String,
    pub manufacturer: String,
    pub model: String,
    pub family: String,
    pub announced_date: String,
    pub listings: Vec<Listing>,
}

/// The mathematical value of a `Product`.
pub struct ProductView {
    pub product_name: Seq<char>,
    pub manufacturer: Seq<char>,
    pub model: Seq<char>,
    pub family: Seq<char>,
    pub announced_date: Seq<char>,
    pub listings: Seq<ListingView>,
}

impl View for Product {
    type V = ProductView;

    open spec fn view(&self) -> ProductView {
        ProductView {
            product_name: self.product_name@,
            manufacturer: self.manufacturer@,
            model: self.model@,
            family: self.family@,
            announced_date: self.announced_date@,
            listings: self.listings@.map_values(|l: Listing| l@),
        }
    }
}

/// The views of a sequence of listings.
pub open spec fn listing_views(ls: Seq<Listing>) -> Seq<ListingView> {
    ls.map_values(|l: Listing| l@)
}

/// The views of a sequence of products.
pub open spec fn product_views(ps: Seq<Product>) -> Seq<ProductView> {
    ps.map_values(|p: Product| p@)
}

pub fn clone_listing(l: &Listing) -> (r: Listing)
    ensures
        r@ == l@,
{
    Listing {
        title: l.title.clone(),
        manufacturer: l.manufacturer.clone(),
        currency: l.currency.clone(),
        price: l.price.clone(),
    }
}

} // verus!
