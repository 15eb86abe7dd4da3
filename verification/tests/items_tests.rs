use labyrinth::items::{AvailableItems, Item};

#[test]
fn item_cells_are_fixed() {
    assert_eq!(Item::Bracelet.coords().x, 2);
    assert_eq!(Item::Bracelet.coords().y, 0);
    assert_eq!(Item::Mouse.coords().x, 5);
    assert_eq!(Item::Mouse.coords().y, 2);
    assert_eq!(Item::SpiderWeb.coords().x, 1);
    assert_eq!(Item::SpiderWeb.coords().y, 4);
    assert_eq!(Item::MagicWand.coords().x, 3);
    assert_eq!(Item::MagicWand.coords().y, 5);
}

#[test]
fn no_two_items_share_a_cell() {
    let mut pool = AvailableItems::new();
    let mut cells: Vec<(i32, i32)> = Vec::new();
    while let Some(item) = pool.take_random() {
        let c = item.coords();
        assert!(!cells.contains(&(c.x, c.y)));
        cells.push((c.x, c.y));
    }
    assert_eq!(cells.len(), 24);
}

#[test]
fn pool_drains_without_repeats_and_then_runs_dry() {
    let mut pool = AvailableItems::new();
    let mut taken: Vec<Item> = Vec::new();
    for _ in 0..24 {
        let item = pool.take_random().expect("the pool still has items");
        assert!(!taken.contains(&item));
        taken.push(item);
    }
    assert!(pool.take_random().is_none());
    assert!(pool.take_random().is_none());
}
