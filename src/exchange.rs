use vstd::prelude::*;

verus! {

/// Identifies a venue, or the consolidated view of several venues.
#[derive(Copy, Clone, Debug, PartialEq, Eq, Structural)]
pub enum ExchangeId {
    Binance,
    Bitstamp,
    Aggregate,
}

/// Display name of a single venue.
pub open spec fn venue_name(id: ExchangeId) -> Seq<char> {
    match id {
        ExchangeId::Binance => "binance"@,
        ExchangeId::Bitstamp => "bitstamp"@,
        ExchangeId::Aggregate => Seq::empty(),
    }
}

impl ExchangeId {
    /// The name under which a venue is shown to consumers; the aggregate
    /// itself has no venue name.
    pub fn name(&self) -> (r: &'static str)
        requires
            *self != ExchangeId::Aggregate,
        ensures
            r@ == venue_name(*self),
    {
        match self {
            ExchangeId::Binance => {
                proof { reveal_strlit("binance"); }
                "binance"
            },
            ExchangeId::Bitstamp => {
                proof { reveal_strlit("bitstamp"); }
                "bitstamp"
            },
            ExchangeId::Aggregate => "",
        }
    }
}

/// A trading pair, such as `ethbtc`.
#[derive(Clone, Debug)]
pub struct MarketId(pub String);

impl std::borrow::Borrow<str> for MarketId {
    fn borrow(&self) -> &str {
        self.0.as_str()
    }
}

impl MarketId {
    /// The pair's symbol.
    pub fn as_str(&self) -> (r: &str)
        ensures
            r@ == self.0@,
    {
        self.0.as_str()
    }
}

} // verus!
