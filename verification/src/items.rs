use vstd::prelude::*;

use crate::grid::{in_grid, Coord};
use crate::rng::rand_below;

verus! {

/// The 24 collectibles, each permanently bound to one cell of the board.
#[derive(Clone, Copy, PartialEq, Eq, Structural, Debug)]
pub enum Item {
    Bracelet,
    YinYang,
    Lightning,
    Moon,
    ShootingStar,
    Fire,
    Bird,
    Dagger,
    Crown,
    Mushroom,
    Ring,
    Mouse,
    Sun,
    Snake,
    Flower,
    Candle,
    Feather,
    Cat,
    SpiderWeb,
    Bat,
    Owl,
    Eye,
    PartyHat,
    MagicWand,
}

/// The fixed cell of each item.
pub open spec fn spec_item_coords(item: Item) -> Coord {
    match item {
        Item::Bracelet => Coord { x: 2, y: 0 },
        Item::YinYang => Coord { x: 3, y: 0 },
        Item::Lightning => Coord { x: 1, y: 1 },
        Item::Moon => Coord { x: 2, y: 1 },
        Item::ShootingStar => Coord { x: 3, y: 1 },
        Item::Fire => Coord { x: 4, y: 1 },
        Item::Bird => Coord { x: 0, y: 2 },
        Item::Dagger => Coord { x: 1, y: 2 },
        Item::Crown => Coord { x: 2, y: 2 },
        Item::Mushroom => Coord { x: 3, y: 2 },
        Item::Ring => Coord { x: 4, y: 2 },
        Item::Mouse => Coord { x: 5, y: 2 },
        Item::Sun => Coord { x: 0, y: 3 },
        Item::Snake => Coord { x: 1, y: 3 },
        Item::Flower => Coord { x: 2, y: 3 },
        Item::Candle => Coord { x: 3, y: 3 },
        Item::Feather => Coord { x: 4, y: 3 },
        Item::Cat => Coord { x: 5, y: 3 },
        Item::SpiderWeb => Coord { x: 1, y: 4 },
        Item::Bat => Coord { x: 2, y: 4 },
        Item::Owl => Coord { x: 3, y: 4 },
        Item::Eye => Coord { x: 4, y: 4 },
        Item::PartyHat => Coord { x: 2, y: 5 },
        Item::MagicWand => Coord { x: 3, y: 5 },
    }
}

/// Every item of the catalog, in its fixed order.
pub open spec fn all_items() -> Seq<Item> {
    seq![
        Item::Bracelet,
        Item::YinYang,
        Item::Lightning,
        Item::Moon,
        Item::ShootingStar,
        Item::Fire,
        Item::Bird,
        Item::Dagger,
        Item::Crown,
        Item::Mushroom,
        Item::Ring,
        Item::Mouse,
        Item::Sun,
        Item::Snake,
        Item::Flower,
        Item::Candle,
        Item::Feather,
        Item::Cat,
        Item::SpiderWeb,
        Item::Bat,
        Item::Owl,
        Item::Eye,
        Item::PartyHat,
        Item::MagicWand,
    ]
}

impl Item {
    /// The fixed cell this item is bound to.
    pub fn coords(&self) -> (c: Coord)
        ensures
            c == spec_item_coords(*self),
            in_grid(c),
    {
        match self {
            Item::Bracelet => Coord { x: 2, y: 0 },
            Item::YinYang => Coord { x: 3, y: 0 },
            Item::Lightning => Coord { x: 1, y: 1 },
            Item::Moon => Coord { x: 2, y: 1 },
            Item::ShootingStar => Coord { x: 3, y: 1 },
            Item::Fire => Coord { x: 4, y: 1 },
            Item::Bird => Coord { x: 0, y: 2 },
            Item::Dagger => Coord { x: 1, y: 2 },
            Item::Crown => Coord { x: 2, y: 2 },
            Item::Mushroom => Coord { x: 3, y: 2 },
            Item::Ring => Coord { x: 4, y: 2 },
            Item::Mouse => Coord { x: 5, y: 2 },
            Item::Sun => Coord { x: 0, y: 3 },
            Item::Snake => Coord { x: 1, y: 3 },
            Item::Flower => Coord { x: 2, y: 3 },
            Item::Candle => Coord { x: 3, y: 3 },
            Item::Feather => Coord { x: 4, y: 3 },
            Item::Cat => Coord { x: 5, y: 3 },
            Item::SpiderWeb => Coord { x: 1, y: 4 },
            Item::Bat => Coord { x: 2, y: 4 },
            Item::Owl => Coord { x: 3, y: 4 },
            Item::Eye => Coord { x: 4, y: 4 },
            Item::PartyHat => Coord { x: 2, y: 5 },
            Item::MagicWand => Coord { x: 3, y: 5 },
        }
    }
}

/// No two items of the catalog share a cell.
pub proof fn lemma_item_cells_distinct(a: Item, b: Item)
    requires
        a != b,
    ensures
        spec_item_coords(a) != spec_item_coords(b),
{
}

/// The shrinking pool of items not yet assigned as anyone's target.
pub struct AvailableItems {
    pub items: Vec<Item>,
}

impl AvailableItems {
    /// A full pool, holding the whole catalog.
    pub fn new() -> (pool: AvailableItems)
        ensures
            pool.items@ == all_items(),
            pool.items@.len() == 24,
    {
        let mut items: Vec<Item> = Vec::new();
        items.push(Item::Bracelet);
        items.push(Item::YinYang);
        items.push(Item::Lightning);
        items.push(Item::Moon);
        items.push(Item::ShootingStar);
        items.push(Item::Fire);
        items.push(Item::Bird);
        items.push(Item::Dagger);
        items.push(Item::Crown);
        items.push(Item::Mushroom);
        items.push(Item::Ring);
        items.push(Item::Mouse);
        items.push(Item::Sun);
        items.push(Item::Snake);
        items.push(Item::Flower);
        items.push(Item::Candle);
        items.push(Item::Feather);
        items.push(Item::Cat);
        items.push(Item::SpiderWeb);
        items.push(Item::Bat);
        items.push(Item::Owl);
        items.push(Item::Eye);
        items.push(Item::PartyHat);
        items.push(Item::MagicWand);
        proof {
            assert(items@ =~= all_items());
        }
        AvailableItems { items }
    }

    /// Remove and return one uniformly random item, or report an empty pool.
    pub fn take_random(&mut self) -> (r: Option<Item>)
        ensures
            r is Some <==> old(self).items@.len() > 0,
            r is None ==> final(self).items@ == old(self).items@,
            r matches Some(item) ==> exists|j: int|
                0 <= j < old(self).items@.len() && item == old(self).items@[j]
                    && final(self).items@ == old(self).items@.remove(j),
    {
        if self.items.len() == 0 {
            None
        } else {
            let j = rand_below(self.items.len());
            Some(self.items.remove(j))
        }
    }
}

} // verus!
