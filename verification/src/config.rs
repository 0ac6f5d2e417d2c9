use vstd::prelude::*;
use std::collections::HashMap;
use crate::geometry::AreaDescription;

verus! {

broadcast use vstd::std_specs::hash::group_hash_axioms;

/// A status a review can have, and the key that adds a review with it.
pub struct Status {
    pub name: String,
    pub key: char,
}

/// A free-text field shown under the reviews.
pub struct Field {
    pub name: String,
}

/// The configuration: the statuses and the fields.
pub struct Config {
    pub status: Vec<Status>,
    pub field: Vec<Field>,
}

/// The most fields the layout has room for.
pub const MAX_FIELDS: usize = 8;

/// Which status each key adds a review with, by the key's code point; where
/// two statuses share a key, the later one wins.
pub open spec fn spec_keybinds(statuses: Seq<Status>) -> Map<u32, String>
    decreases statuses.len(),
{
    if statuses.len() == 0 {
        Map::empty()
    } else {
        let last = statuses.last();
        spec_keybinds(statuses.drop_last()).insert(last.key as u32, last.name)
    }
}

/// The key bindings of the statuses.
pub fn keybinds(statuses: &Vec<Status>) -> (r: HashMap<u32, String>)
    ensures
        r@ == spec_keybinds(statuses@),
{
    let mut map: HashMap<u32, String> = HashMap::new();
    let mut i: usize = 0;
    while i < statuses.len()
        invariant
            i <= statuses.len(),
            map@ == spec_keybinds(statuses@.take(i as int)),
        decreases statuses.len() - i,
    {
        let status = &statuses[i];
        map.insert(status.key as u32, status.name.clone());
        assert(statuses@.take(i + 1).drop_last() =~= statuses@.take(i as int));
        i = i + 1;
    }
    assert(statuses@.take(statuses@.len() as int) =~= statuses@);
    map
}

/// Where the reviews grid goes: the whole width, the top 80 percent.
pub fn reviews_area() -> (r: AreaDescription)
    ensures
        r == (AreaDescription { x: 0, y: 0, w: 100, h: 80 }),
{
    AreaDescription::new(0, 0, 100, 80)
}

/// Where field `i` goes: four fields to a row, each a quarter of the width
/// and a tenth of the height, in the rows under the reviews.
pub fn field_area(i: usize) -> (r: AreaDescription)
    requires
        i < MAX_FIELDS,
    ensures
        r == (AreaDescription { x: ((i % 4) * 25) as u8, y: (80 + 10 * (i / 4)) as u8, w: 25, h: 10 }),
{
    let x = (i as u8) % 4;
    let y = (i as u8) / 4;
    AreaDescription::new(x * 25, 80 + 10 * y, 25, 10)
}

} // verus!
