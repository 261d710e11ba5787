//! Market routing: trading pairs and the matching engine.
//!
//! A `TradingPair` names one market; the `MatchingEngine` owns one
//! independent `OrderBook` per registered pair and routes limit-order
//! placements to the right book by exact match on the pair.

use vstd::prelude::*;
use vstd::string::StringExecFns;
use crate::orderbook::{side_with_order, BidorAsk, Order, OrderBook, OrderBookView};
use crate::price::Price;

verus! {

/// The identity of one market: its base and quote asset symbols. Routing
/// compares pairs by exact match on both symbols; the canonical rendering
/// is `BASE_QUOTE`.
#[derive(Debug)]
pub struct TradingPair {
    pub base: String,
    pub quote: String,
}

/// Two pairs name the same market: both symbols match exactly.
pub open spec fn same_pair(a: TradingPair, b: TradingPair) -> bool {
    a.base@ == b.base@ && a.quote@ == b.quote@
}

/// The canonical rendering of a pair: base, underscore, quote.
pub open spec fn canonical_name(base: Seq<char>, quote: Seq<char>) -> Seq<char> {
    base + seq!['_'] + quote
}

/// The market-not-found error line, carrying the pair's canonical name.
pub open spec fn market_not_found_msg(base: Seq<char>, quote: Seq<char>) -> Seq<char> {
    "error::the-orderbook-for-given-tradingpair-"@ + canonical_name(base, quote)
        + "-does-not-exist"@
}

impl TradingPair {
    pub fn new(base: String, quote: String) -> (r: TradingPair)
        ensures
            r.base == base,
            r.quote == quote,
    {
        TradingPair { base, quote }
    }

    /// The canonical `BASE_QUOTE` rendering.
    pub fn to_string(self) -> (r: String)
        ensures
            r@ == canonical_name(self.base@, self.quote@),
    {
        let ghost b0 = self.base@;
        let mut r = self.base;
        r.append("_");
        r.append(self.quote.as_str());
        proof {
            reveal_strlit("_");
            assert("_"@ =~= seq!['_']);
            assert(r@ =~= canonical_name(b0, self.quote@));
        }
        r
    }
}

impl PartialEq for TradingPair {
    fn eq(&self, other: &TradingPair) -> bool {
        self.base == other.base && self.quote == other.quote
    }
}

impl vstd::std_specs::cmp::PartialEqSpecImpl for TradingPair {
    open spec fn obeys_eq_spec() -> bool {
        true
    }

    open spec fn eq_spec(&self, other: &TradingPair) -> bool {
        same_pair(*self, *other)
    }
}

impl Clone for TradingPair {
    fn clone(&self) -> (r: TradingPair)
        ensures
            r == *self,
    {
        TradingPair { base: self.base.clone(), quote: self.quote.clone() }
    }
}

/// The engine: each registered trading pair owns one independent book.
pub struct MatchingEngine {
    pub orderbooks: Vec<(TradingPair, OrderBook)>,
}

/// Index of the first entry registered for `pair`, or -1 if none is.
pub open spec fn index_of_pair(books: Seq<(TradingPair, OrderBook)>, pair: TradingPair) -> int
    decreases books.len(),
{
    if books.len() == 0 {
        -1
    } else if same_pair(books[0].0, pair) {
        0
    } else {
        let r = index_of_pair(books.skip(1), pair);
        if r < 0 {
            -1
        } else {
            r + 1
        }
    }
}

/// `index_of_pair` finds the first match: its index is in range and names
/// a match, no earlier entry matches, and -1 means nothing matches.
pub proof fn lemma_index_of_pair_in_range(books: Seq<(TradingPair, OrderBook)>, pair: TradingPair)
    ensures
        ({
            let j = index_of_pair(books, pair);
            &&& j == -1 || 0 <= j < books.len()
            &&& j >= 0 ==> same_pair(books[j].0, pair)
            &&& forall|k: int|
                0 <= k < books.len() && (j == -1 || k < j) ==> !same_pair(
                    (#[trigger] books[k]).0,
                    pair,
                )
        }),
    decreases books.len(),
{
    if books.len() > 0 && !same_pair(books[0].0, pair) {
        lemma_index_of_pair_in_range(books.skip(1), pair);
        let j = index_of_pair(books, pair);
        let j1 = index_of_pair(books.skip(1), pair);
        assert forall|k: int|
            0 <= k < books.len() && (j == -1 || k < j) implies !same_pair(
            (#[trigger] books[k]).0,
            pair,
        ) by {
            if k > 0 {
                assert(books.skip(1)[k - 1] == books[k]);
                assert(0 <= k - 1 < books.skip(1).len() && (j1 == -1 || k - 1 < j1));
            }
        }
    }
}

/// The first match is what `index_of_pair` returns.
proof fn lemma_index_of_pair_first(books: Seq<(TradingPair, OrderBook)>, pair: TradingPair, i: int)
    requires
        0 <= i < books.len(),
        same_pair(books[i].0, pair),
        forall|k: int| 0 <= k < i ==> !same_pair((#[trigger] books[k]).0, pair),
    ensures
        index_of_pair(books, pair) == i,
    decreases books.len(),
{
    if i > 0 {
        assert(forall|k: int|
            0 <= k < i - 1 ==> (#[trigger] books.skip(1)[k]) == books[k + 1]);
        lemma_index_of_pair_first(books.skip(1), pair, i - 1);
    }
}

/// With no match at all, `index_of_pair` returns -1.
proof fn lemma_index_of_pair_none(books: Seq<(TradingPair, OrderBook)>, pair: TradingPair)
    requires
        forall|k: int| 0 <= k < books.len() ==> !same_pair((#[trigger] books[k]).0, pair),
    ensures
        index_of_pair(books, pair) == -1,
    decreases books.len(),
{
    if books.len() > 0 {
        assert(forall|k: int|
            0 <= k < books.len() - 1 ==> (#[trigger] books.skip(1)[k]) == books[k + 1]);
        lemma_index_of_pair_none(books.skip(1), pair);
    }
}

/// Position of the book registered for `pair`, if any.
#[verifier::loop_isolation(false)]
fn find_pair(books: &Vec<(TradingPair, OrderBook)>, pair: &TradingPair) -> (r: Option<usize>)
    ensures
        ({
            let j = index_of_pair(books@, *pair);
            match r {
                Some(i) => j == i as int,
                None => j == -1,
            }
        }),
{
    let n = books.len();
    let mut i: usize = 0;
    while i < n
        invariant
            i <= n,
            n == books@.len(),
            forall|k: int| 0 <= k < i ==> !same_pair((#[trigger] books@[k]).0, *pair),
        decreases n - i,
    {
        if books[i].0 == *pair {
            proof {
                lemma_index_of_pair_first(books@, *pair, i as int);
            }
            return Some(i);
        }
        i = i + 1;
    }
    proof {
        lemma_index_of_pair_none(books@, *pair);
    }
    None
}

/// A book after a resting order arrives: the order's own side gains it as
/// `side_with_order` says; the other side is untouched.
pub open spec fn book_with_order(book: OrderBookView, price: Price, order: Order) -> OrderBookView {
    if order.bid_or_ask == BidorAsk::Bid {
        OrderBookView { bids: side_with_order(book.bids, price, order, false), asks: book.asks }
    } else {
        OrderBookView { bids: book.bids, asks: side_with_order(book.asks, price, order, true) }
    }
}

impl MatchingEngine {
    /// Registered pairs are pairwise distinct and every book is
    /// well-formed.
    pub open spec fn wf(&self) -> bool {
        &&& forall|i: int, j: int|
            0 <= i < j < self.orderbooks@.len() ==> !same_pair(
                (#[trigger] self.orderbooks@[i]).0,
                (#[trigger] self.orderbooks@[j]).0,
            )
        &&& forall|i: int|
            0 <= i < self.orderbooks@.len() ==> (#[trigger] self.orderbooks@[i]).1.wf()
    }

    /// An engine with no market registered yet.
    pub fn new() -> (r: MatchingEngine)
        ensures
            r.orderbooks@.len() == 0,
            r.wf(),
    {
        MatchingEngine { orderbooks: Vec::new() }
    }

    /// Registers a fresh, empty book for `pair`. Registering a pair a
    /// second time replaces its book, dropping the old book's resting
    /// orders; other markets are untouched.
    pub fn add_new_market(&mut self, pair: TradingPair)
        requires
            old(self).wf(),
        ensures
            final(self).wf(),
            ({
                let books = old(self).orderbooks@;
                let books2 = final(self).orderbooks@;
                let j = index_of_pair(books, pair);
                if j == -1 {
                    &&& books2.len() == books.len() + 1
                    &&& forall|k: int| 0 <= k < books.len() ==> books2[k] == books[k]
                    &&& books2[books.len() as int].0 == pair
                    &&& books2[books.len() as int].1@.asks.len() == 0
                    &&& books2[books.len() as int].1@.bids.len() == 0
                } else {
                    &&& books2.len() == books.len()
                    &&& forall|k: int| 0 <= k < books.len() && k != j ==> books2[k] == books[k]
                    &&& books2[j].0 == pair
                    &&& books2[j].1@.asks.len() == 0
                    &&& books2[j].1@.bids.len() == 0
                }
            }),
    {
        proof {
            lemma_index_of_pair_in_range(self.orderbooks@, pair);
        }
        let ghost books = self.orderbooks@;
        match find_pair(&self.orderbooks, &pair) {
            Some(i) => {
                self.orderbooks.set(i, (pair, OrderBook::new()));
                proof {
                    let books2 = self.orderbooks@;
                    assert(same_pair(books[i as int].0, pair));
                    assert forall|a: int, b: int|
                        0 <= a < b < books2.len() implies !same_pair(
                        (#[trigger] books2[a]).0,
                        (#[trigger] books2[b]).0,
                    ) by {
                        if a == i as int {
                            assert(books2[b] == books[b]);
                            assert(!same_pair(books[i as int].0, books[b].0));
                        } else if b == i as int {
                            assert(books2[a] == books[a]);
                            assert(!same_pair(books[a].0, books[i as int].0));
                        } else {
                            assert(books2[a] == books[a] && books2[b] == books[b]);
                        }
                    }
                }
            },
            None => {
                self.orderbooks.push((pair, OrderBook::new()));
                proof {
                    let books2 = self.orderbooks@;
                    assert forall|a: int, b: int|
                        0 <= a < b < books2.len() implies !same_pair(
                        (#[trigger] books2[a]).0,
                        (#[trigger] books2[b]).0,
                    ) by {
                        if b == books.len() as int {
                            assert(books2[a] == books[a]);
                            assert(!same_pair(books[a].0, pair));
                        } else {
                            assert(books2[a] == books[a] && books2[b] == books[b]);
                        }
                    }
                }
            },
        }
    }

    /// Routes a limit order to the book registered for `pair` and buckets
    /// it there as `book_with_order` says. With no book registered for the
    /// pair nothing changes and the error carries the pair's canonical
    /// name.
    pub fn place_limit_order(&mut self, pair: TradingPair, price: Price, order: Order) -> (r:
        Result<(), String>)
        requires
            old(self).wf(),
        ensures
            final(self).wf(),
            ({
                let books = old(self).orderbooks@;
                let books2 = final(self).orderbooks@;
                let j = index_of_pair(books, pair);
                if j == -1 {
                    &&& *final(self) == *old(self)
                    &&& r is Err
                    &&& (r matches Err(m) ==> m@ == market_not_found_msg(pair.base@, pair.quote@))
                } else {
                    &&& r is Ok
                    &&& books2.len() == books.len()
                    &&& forall|k: int| 0 <= k < books.len() && k != j ==> books2[k] == books[k]
                    &&& books2[j].0 == books[j].0
                    &&& books2[j].1@ == book_with_order(books[j].1@, price, order)
                }
            }),
    {
        proof {
            lemma_index_of_pair_in_range(self.orderbooks@, pair);
        }
        match find_pair(&self.orderbooks, &pair) {
            Some(i) => {
                let ghost books = self.orderbooks@;
                let mut entry = self.orderbooks.remove(i);
                entry.1.add_limit_order(price, order);
                self.orderbooks.insert(i, entry);
                proof {
                    assert(forall|k: int|
                        0 <= k < books.len() && k != i ==> self.orderbooks@[k] == (
                        #[trigger] books[k]));
                    assert(self.orderbooks@[i as int] == entry);
                    assert(entry.1@ =~= book_with_order(books[i as int].1@, price, order));
                }
                Ok(())
            },
            None => {
                let mut msg = "error::the-orderbook-for-given-tradingpair-".to_owned();
                msg.append(pair.base.as_str());
                msg.append("_");
                msg.append(pair.quote.as_str());
                msg.append("-does-not-exist");
                proof {
                    reveal_strlit("_");
                    assert("_"@ =~= seq!['_']);
                    assert(msg@ =~= market_not_found_msg(pair.base@, pair.quote@));
                }
                Err(msg)
            },
        }
    }
}

} // verus!
