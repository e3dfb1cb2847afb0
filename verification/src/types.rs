use vstd::prelude::*;

verus! {

/// Identifies a caller or owner. Accounts are produced by the host's
/// authentication layer; the registry only compares them for equality.
pub type AccountId = u64;

/// Monetary amount used for listings and settlement.
pub type Balance = u64;

/// Attribute tag assigned to a collectible at creation. The generation
/// algorithm derives the tag from the parity of the digest's first byte and
/// so only ever produces `Red` and `Yellow`; the other two variants are part
/// of the declared shape nonetheless.
#[derive(Clone, Copy, Debug, PartialEq, Eq)]
pub enum Color {
    Red,
    Yellow,
    Blue,
    Green,
}

/// A single registry entry: unique identifier, owner, optional listing price
/// (`None` means not for sale) and attribute tag.
#[derive(Clone, Copy, Debug)]
pub struct Collectible {
    pub unique_id: [u8; 16],
    pub price: Option<Balance>,
    pub color: Color,
    pub owner: AccountId,
}

/// The failures a registry operation can report. Each operation is a single
/// atomic attempt: a failure leaves the registry exactly as it was.
#[derive(Clone, Copy, Debug, PartialEq, Eq)]
pub enum Error {
    /// Each collectible must have a unique identifier.
    DuplicateCollectible,
    /// An account cannot own more than `maximum_owned` collectibles.
    MaximumCollectiblesOwned,
    /// The total supply cannot exceed the 64-bit counter.
    BoundsOverflow,
    /// The collectible does not exist.
    NoCollectible,
    /// The caller is not the owner.
    NotOwner,
    /// A collectible cannot be transferred to its current owner.
    TransferToSelf,
    /// The collectible is not listed for sale.
    CollectibleNotForSale,
    /// The offer is below the listed price.
    OfferedPriceTooLow,
}

/// Failure of the external settlement step of a purchase, reported by the
/// payment ledger the host injects.
#[derive(Clone, Copy, Debug, PartialEq, Eq)]
pub enum PaymentError {
    /// The buyer's balance does not cover the price.
    InsufficientBalance,
    /// Crediting the seller would overflow their balance.
    BalanceOverflow,
}

/// A purchase can fail either inside the registry or in settlement.
#[derive(Clone, Copy, Debug, PartialEq, Eq)]
pub enum DispatchError {
    Registry(Error),
    Payment(PaymentError),
}

/// The outcome record emitted by each successful operation; failures emit
/// nothing.
#[derive(Clone, Copy, Debug, PartialEq, Eq)]
pub enum Event {
    /// A new collectible was created.
    CollectibleCreated { collectible: [u8; 16], owner: AccountId },
    /// A collectible changed owner by plain transfer.
    TransferSucceeded { from: AccountId, to: AccountId, collectible: [u8; 16] },
    /// The owner listed the collectible at a price.
    PriceSet { collectible: [u8; 16], price: Balance },
    /// The owner withdrew the collectible from the market.
    NotLongerOnSale { collectible: [u8; 16] },
    /// A purchase settled and the collectible changed owner.
    Sold { seller: AccountId, buyer: AccountId, collectible: [u8; 16], price: Balance },
    /// A collectible was destroyed by its owner.
    CollectibleDestroyed { collectible: [u8; 16] },
}

/// Fixed configuration of a registry instance.
#[derive(Clone, Copy, Debug)]
pub struct Config {
    /// Upper bound on the number of collectibles one account may own.
    pub maximum_owned: u32,
}

} // verus!
