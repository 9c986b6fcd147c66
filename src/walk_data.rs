use vstd::prelude::*;
use crate::passability::{bit_set, mask_from_flags};

verus! {

/// What a stored walk-data text holds under one key: `None` when the text is
/// not a JSON object or has no such key, else the value as a boolean, if it is one.
pub uninterp spec fn walk_entry_of(text: Seq<char>, key: Seq<char>) -> Option<Option<bool>>;

/// Relies on serde_json::from_str (the text read as a JSON value),
/// serde_json::Map::get and Value::as_bool: the entry is a function of the
/// text and the key alone.
#[verifier::external_body]
fn walk_entry(text: &str, key: &str) -> (r: Option<Option<bool>>)
    ensures
        r == walk_entry_of(text@, key@),
{
    match serde_json::from_str::<serde_json::Value>(text) {
        Ok(serde_json::Value::Object(map)) => match map.get(key) {
            Some(v) => Some(v.as_bool()),
            None => None,
        },
        _ => None,
    }
}

/// The flag of one direction: absent when the key is, `false` for a value
/// that is not a boolean.
pub open spec fn walk_flag_of(text: Seq<char>, key: Seq<char>) -> Option<bool> {
    match walk_entry_of(text, key) {
        Some(Some(b)) => Some(b),
        Some(None) => Some(false),
        None => None,
    }
}

fn walk_flag(text: &str, key: &str) -> (r: Option<bool>)
    ensures
        r == walk_flag_of(text@, key@),
{
    match walk_entry(text, key) {
        Some(Some(b)) => Some(b),
        Some(None) => Some(false),
        None => None,
    }
}

/// The walk-data key of each mask slot, in canonical slot order.
pub open spec fn slot_key(j: int) -> Seq<char> {
    if j == 0 {
        "left"@
    } else if j == 1 {
        "bottom"@
    } else if j == 2 {
        "right"@
    } else if j == 3 {
        "top"@
    } else if j == 4 {
        "topleft"@
    } else if j == 5 {
        "bottomleft"@
    } else if j == 6 {
        "bottomright"@
    } else {
        "topright"@
    }
}

fn slot_key_str(j: usize) -> (r: &'static str)
    requires
        j < 8,
    ensures
        r@ == slot_key(j as int),
{
    if j == 0 {
        "left"
    } else if j == 1 {
        "bottom"
    } else if j == 2 {
        "right"
    } else if j == 3 {
        "top"
    } else if j == 4 {
        "topleft"
    } else if j == 5 {
        "bottomleft"
    } else if j == 6 {
        "bottomright"
    } else {
        "topright"
    }
}

/// The per-slot flags of a walk-data text, in slot order.
pub fn walk_flags(text: &str) -> (r: Vec<Option<bool>>)
    ensures
        r@.len() == 8,
        forall|j: int| 0 <= j < 8 ==> #[trigger] r@[j] == walk_flag_of(text@, slot_key(j)),
{
    let mut r: Vec<Option<bool>> = Vec::new();
    let mut j: usize = 0;
    while j < 8
        invariant
            0 <= j <= 8,
            r@.len() == j,
            forall|k: int| 0 <= k < j ==> #[trigger] r@[k] == walk_flag_of(text@, slot_key(k)),
        decreases 8 - j,
    {
        r.push(walk_flag(text, slot_key_str(j)));
        j = j + 1;
    }
    r
}

pub open spec fn stored_flag(walk_data: Option<&str>, j: int) -> Option<bool> {
    match walk_data {
        Some(t) => walk_flag_of(t@, slot_key(j)),
        None => None,
    }
}

/// The walk mask of a stored tile: a slot is set when the tile is walkable
/// and its walk data does not forbid that direction.
pub fn tile_mask(walkable: bool, walk_data: Option<&str>) -> (r: u8)
    ensures
        forall|j: u8| j < 8 ==> (bit_set(r, j) <==> walkable && #[trigger] stored_flag(walk_data, j as int) != Some(false)),
{
    let flags = match walk_data {
        Some(t) => walk_flags(t),
        None => vec![None, None, None, None, None, None, None, None],
    };
    proof {
        assert forall|j: int| 0 <= j < 8 implies #[trigger] flags@[j] == stored_flag(walk_data, j) by {}
    }
    let r = mask_from_flags(walkable, &flags);
    proof {
        assert forall|j: u8| j < 8 implies (bit_set(r, j) <==> walkable && #[trigger] stored_flag(walk_data, j as int) != Some(false)) by {
            assert(flags@[j as int] == stored_flag(walk_data, j as int));
        }
    }
    r
}

} // verus!
