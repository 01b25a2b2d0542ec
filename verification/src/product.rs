//! The canonical catalog entity.

use vstd::prelude::*;
use crate::tokenizer::tokens_of;

verus! {

/// A catalog item. The id is assigned by the catalog at insertion time and is
/// unique and immutable for the item's lifetime; the description is stored but
/// not indexed.
pub struct Product {
    pub id: usize,
    pub name: String,
    pub brand: String,
    pub category: String,
    pub description: Option<String>,
}

/// The tokens of an item's indexed fields: name, brand and category, in that
/// order. The description is not indexed.
pub open spec fn product_tokens(p: Product) -> Seq<Seq<char>> {
    tokens_of(p.name@) + tokens_of(p.brand@) + tokens_of(p.category@)
}

} // verus!
