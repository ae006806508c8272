//! The registry of books, one per trading pair, kept in a concurrent map.

use vstd::prelude::*;
use dashmap::DashMap;
use crate::orderbook::{OrderBook, BookView};

verus! {

/// `dashmap::DashMap`, the concurrent hash map that holds the books.
#[verifier::external_type_specification]
#[verifier::external_body]
#[verifier::reject_recursive_types(K)]
#[verifier::reject_recursive_types(V)]
#[verifier::reject_recursive_types(S)]
pub struct ExDashMap<K, V, S>(DashMap<K, V, S>);

/// What a registry holds: the content of each book, under the characters of
/// its pair.
pub uninterp spec fn books(registry: DashMap<String, OrderBook>) -> Map<Seq<char>, BookView>;

/// `DashMap::new`: a map that holds nothing.
#[verifier::external_body]
pub(crate) fn registry_new() -> (made: DashMap<String, OrderBook>)
    ensures
        books(made) == (Map::<Seq<char>, BookView>::empty()),
{
    DashMap::new()
}

/// `DashMap::insert`: afterwards the key maps to the given value, whatever it
/// mapped to before, and every other key is as it was.
#[verifier::external_body]
pub(crate) fn registry_insert(registry: &mut DashMap<String, OrderBook>, pair: String, book: OrderBook)
    ensures
        books(*final(registry)) == books(*old(registry)).insert(pair@, book@),
{
    registry.insert(pair, book);
}

/// `DashMap::remove`: takes the book under the key out of the map and hands
/// it back, or hands back `None` and leaves the map alone where the key is
/// not in it.
#[verifier::external_body]
pub(crate) fn registry_remove(registry: &mut DashMap<String, OrderBook>, pair: &str) -> (book: Option<OrderBook>)
    ensures
        books(*final(registry)) == books(*old(registry)).remove(pair@),
        book.is_some() == books(*old(registry)).contains_key(pair@),
        book.is_some() ==> book.unwrap()@ == books(*old(registry))[pair@],
{
    registry.remove(pair).map(|entry| entry.1)
}

/// `DashMap::get`, followed by a copy of the book that the guard refers to:
/// `Some` exactly where the key is in the map, and then a book with the same
/// content as the one held.
#[verifier::external_body]
pub(crate) fn registry_get(registry: &DashMap<String, OrderBook>, pair: &str) -> (book: Option<OrderBook>)
    ensures
        book.is_some() == books(*registry).contains_key(pair@),
        book.is_some() ==> book.unwrap()@ == books(*registry)[pair@],
{
    registry.get(pair).map(|entry| entry.value().clone())
}

/// `DashMap::iter`, each entry mapped to a copy of its key: every key of the
/// map once, in an order that nothing is claimed of.
#[verifier::external_body]
pub(crate) fn registry_keys(registry: &DashMap<String, OrderBook>) -> (pairs: Vec<String>)
    ensures
        forall|k: int| 0 <= k < pairs@.len() ==> books(*registry).contains_key(#[trigger] pairs@[k]@),
        forall|p: Seq<char>|
            books(*registry).contains_key(p) ==> exists|k: int|
                0 <= k < pairs@.len() && #[trigger] pairs@[k]@ == p,
        forall|a: int, b: int|
            0 <= a < b < pairs@.len() ==> (#[trigger] pairs@[a])@ != (#[trigger] pairs@[b])@,
{
    registry.iter().map(|entry| entry.key().clone()).collect()
}

} // verus!
