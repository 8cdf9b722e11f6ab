//! Card instances and the static table of card types they are spawned from.

use vstd::prelude::*;

verus! {

/// Closed set of card categories; recipes and selling decide behaviour by
/// category.
#[derive(Clone, Copy, PartialEq, Eq, Structural, Debug)]
pub enum CardCategory {
    /// Cards which are integral to the game system, such as the market to
    /// sell things. Never sellable.
    SystemCard,
    CardPack,
    Worker,
    Nature,
    Resource,
    Valuable,
    Food,
    Gem,
}

/// Identifies which static card-type definition a card was spawned from.
#[derive(Clone, Copy, PartialEq, Eq, Structural, Debug)]
pub enum CardTypeId {
    Market,
    Tree,
    ClayPatch,
    Clay,
    Log,
    Plank,
    Villager,
    Coin,
    Apple,
    BuyForestPack,
    ForestPack,
}

/// A static card-type definition. Immutable configuration: cards copy these
/// fields when they are spawned.
#[derive(Clone, Copy, PartialEq, Eq, Structural, Debug)]
pub struct CardType {
    pub id: CardTypeId,
    pub category: CardCategory,
    /// Base sale price; `None` means the card cannot be sold. On a card that
    /// buys something it is the cost instead.
    pub value: Option<u64>,
    /// How many times recipes can consume this card before it is deleted;
    /// `None` means the card is not depletable.
    pub uses: Option<u32>,
    /// Cards of this type cannot be stacked on top of other cards.
    pub exclusive_bottom: bool,
    /// How many cards come out of this card when it is opened as a pack.
    pub pack_cards: Option<u32>,
}

/// The static card-type table.
pub open spec fn spec_card_type(id: CardTypeId) -> CardType {
    match id {
        CardTypeId::Market => CardType {
            id: CardTypeId::Market,
            category: CardCategory::SystemCard,
            value: None,
            uses: None,
            exclusive_bottom: true,
            pack_cards: None,
        },
        CardTypeId::Tree => CardType {
            id: CardTypeId::Tree,
            category: CardCategory::Nature,
            value: Some(0),
            uses: Some(3),
            exclusive_bottom: false,
            pack_cards: None,
        },
        CardTypeId::ClayPatch => CardType {
            id: CardTypeId::ClayPatch,
            category: CardCategory::Nature,
            value: Some(0),
            uses: Some(3),
            exclusive_bottom: false,
            pack_cards: None,
        },
        CardTypeId::Clay => CardType {
            id: CardTypeId::Clay,
            category: CardCategory::Resource,
            value: Some(1),
            uses: None,
            exclusive_bottom: false,
            pack_cards: None,
        },
        CardTypeId::Log => CardType {
            id: CardTypeId::Log,
            category: CardCategory::Resource,
            value: Some(1),
            uses: None,
            exclusive_bottom: false,
            pack_cards: None,
        },
        CardTypeId::Plank => CardType {
            id: CardTypeId::Plank,
            category: CardCategory::Resource,
            value: Some(2),
            uses: None,
            exclusive_bottom: false,
            pack_cards: None,
        },
        CardTypeId::Villager => CardType {
            id: CardTypeId::Villager,
            category: CardCategory::Worker,
            value: None,
            uses: None,
            exclusive_bottom: false,
            pack_cards: None,
        },
        CardTypeId::Coin => CardType {
            id: CardTypeId::Coin,
            category: CardCategory::Valuable,
            value: None,
            uses: None,
            exclusive_bottom: false,
            pack_cards: None,
        },
        CardTypeId::Apple => CardType {
            id: CardTypeId::Apple,
            category: CardCategory::Food,
            value: Some(1),
            uses: None,
            exclusive_bottom: false,
            pack_cards: None,
        },
        CardTypeId::BuyForestPack => CardType {
            id: CardTypeId::BuyForestPack,
            category: CardCategory::SystemCard,
            value: Some(3),
            uses: None,
            exclusive_bottom: true,
            pack_cards: None,
        },
        CardTypeId::ForestPack => CardType {
            id: CardTypeId::ForestPack,
            category: CardCategory::CardPack,
            value: None,
            uses: None,
            exclusive_bottom: false,
            pack_cards: Some(3),
        },
    }
}

/// Looks a card type up in the static table.
pub fn card_type(id: CardTypeId) -> (r: CardType)
    ensures
        r == spec_card_type(id),
{
    match id {
        CardTypeId::Market => CardType {
            id: CardTypeId::Market,
            category: CardCategory::SystemCard,
            value: None,
            uses: None,
            exclusive_bottom: true,
            pack_cards: None,
        },
        CardTypeId::Tree => CardType {
            id: CardTypeId::Tree,
            category: CardCategory::Nature,
            value: Some(0),
            uses: Some(3),
            exclusive_bottom: false,
            pack_cards: None,
        },
        CardTypeId::ClayPatch => CardType {
            id: CardTypeId::ClayPatch,
            category: CardCategory::Nature,
            value: Some(0),
            uses: Some(3),
            exclusive_bottom: false,
            pack_cards: None,
        },
        CardTypeId::Clay => CardType {
            id: CardTypeId::Clay,
            category: CardCategory::Resource,
            value: Some(1),
            uses: None,
            exclusive_bottom: false,
            pack_cards: None,
        },
        CardTypeId::Log => CardType {
            id: CardTypeId::Log,
            category: CardCategory::Resource,
            value: Some(1),
            uses: None,
            exclusive_bottom: false,
            pack_cards: None,
        },
        CardTypeId::Plank => CardType {
            id: CardTypeId::Plank,
            category: CardCategory::Resource,
            value: Some(2),
            uses: None,
            exclusive_bottom: false,
            pack_cards: None,
        },
        CardTypeId::Villager => CardType {
            id: CardTypeId::Villager,
            category: CardCategory::Worker,
            value: None,
            uses: None,
            exclusive_bottom: false,
            pack_cards: None,
        },
        CardTypeId::Coin => CardType {
            id: CardTypeId::Coin,
            category: CardCategory::Valuable,
            value: None,
            uses: None,
            exclusive_bottom: false,
            pack_cards: None,
        },
        CardTypeId::Apple => CardType {
            id: CardTypeId::Apple,
            category: CardCategory::Food,
            value: Some(1),
            uses: None,
            exclusive_bottom: false,
            pack_cards: None,
        },
        CardTypeId::BuyForestPack => CardType {
            id: CardTypeId::BuyForestPack,
            category: CardCategory::SystemCard,
            value: Some(3),
            uses: None,
            exclusive_bottom: true,
            pack_cards: None,
        },
        CardTypeId::ForestPack => CardType {
            id: CardTypeId::ForestPack,
            category: CardCategory::CardPack,
            value: None,
            uses: None,
            exclusive_bottom: false,
            pack_cards: Some(3),
        },
    }
}

/// An instance of a card type. Owned by exactly one stack at a time.
#[derive(Clone, Copy, PartialEq, Eq, Debug)]
pub struct Card {
    pub type_id: CardTypeId,
    pub category: CardCategory,
    /// Sale price of this card; `None` means not sellable. On a
    /// [`CardCategory::SystemCard`] it is the cost to buy something.
    pub value: Option<u64>,
    /// Remaining uses on a depletable card; `None` on other cards.
    pub uses: Option<u32>,
    /// Cards left inside this card pack; `None` on cards that are not packs.
    pub pack_cards: Option<u32>,
}

impl Card {
    /// Whether this card was spawned from the given card type.
    pub open spec fn spec_is_type(self, card_type: CardType) -> bool {
        self.type_id == card_type.id && self.category == card_type.category
    }

    pub fn is_type(&self, card_type: &CardType) -> (r: bool)
        ensures
            r == self.spec_is_type(*card_type),
    {
        self.type_id == card_type.id && self.category == card_type.category
    }

    /// Whether this card can be sold: it has a value, and it is not a system
    /// card.
    pub open spec fn spec_sellable(self) -> bool {
        self.value is Some && self.category != CardCategory::SystemCard
    }

    pub fn sellable(&self) -> (r: bool)
        ensures
            r == self.spec_sellable(),
    {
        self.value.is_some() && self.category != CardCategory::SystemCard
    }

    /// The card a spawn request for the given type creates.
    pub open spec fn spec_of_type(card_type: CardType) -> Card {
        Card {
            type_id: card_type.id,
            category: card_type.category,
            value: card_type.value,
            uses: card_type.uses,
            pack_cards: card_type.pack_cards,
        }
    }

    pub fn of_type(card_type: &CardType) -> (r: Card)
        ensures
            r == Card::spec_of_type(*card_type),
    {
        Card {
            type_id: card_type.id,
            category: card_type.category,
            value: card_type.value,
            uses: card_type.uses,
            pack_cards: card_type.pack_cards,
        }
    }

    /// Field-by-field equality; usable from verified code, unlike the
    /// derived operator.
    pub fn same_card(&self, other: &Card) -> (r: bool)
        ensures
            r == (*self == *other),
    {
        let value_eq = match (self.value, other.value) {
            (None, None) => true,
            (Some(a), Some(b)) => a == b,
            _ => false,
        };
        let uses_eq = match (self.uses, other.uses) {
            (None, None) => true,
            (Some(a), Some(b)) => a == b,
            _ => false,
        };
        let pack_eq = match (self.pack_cards, other.pack_cards) {
            (None, None) => true,
            (Some(a), Some(b)) => a == b,
            _ => false,
        };
        self.type_id == other.type_id && self.category == other.category && value_eq && uses_eq
            && pack_eq
    }
}

} // verus!
