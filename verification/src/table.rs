//! The identifier table: which province each colour stands for.

use std::collections::HashMap;
use vstd::prelude::*;
use vstd::std_specs::hash::*;
use vstd::string::*;
use crate::color::Color;
use crate::key::{key_bytes, parse_key_to_color, pieces, valid_key, KeyError};

verus! {

/// The number under which a colour is kept: its three bytes in a row.
pub open spec fn code(c: Color) -> u32 {
    (c.r * 0x1_0000 + c.g * 0x100 + c.b) as u32
}

/// The number under which a colour is kept.
fn code_of(c: Color) -> (n: u32)
    ensures
        n == code(c),
{
    (c.r as u32) * 0x1_0000 + (c.g as u32) * 0x100 + (c.b as u32)
}

/// Two colours kept under one number are the same colour.
proof fn lemma_code_tells_colors_apart(a: Color, b: Color)
    ensures
        code(a) == code(b) ==> a == b,
{
}

/// A table from colours to province identifiers. A colour has at most one
/// identifier.
pub struct IdentifierTable {
    tags: HashMap<u32, String>,
}

impl View for IdentifierTable {
    type V = Map<Color, Seq<char>>;

    /// The identifier of each colour that has one.
    closed spec fn view(&self) -> Map<Color, Seq<char>> {
        Map::new(|c: Color| self.tags@.contains_key(code(c)), |c: Color| self.tags@[code(c)]@)
    }
}

impl IdentifierTable {
    /// A table without entries.
    pub fn new() -> (table: IdentifierTable)
        ensures
            table@ == Map::<Color, Seq<char>>::empty(),
    {
        let table = IdentifierTable { tags: HashMap::new() };
        proof {
            assert(table@ =~= Map::<Color, Seq<char>>::empty());
        }
        table
    }

    /// Gives `color` the identifier `tag`, in place of the one it had.
    pub fn insert(&mut self, color: Color, tag: String)
        ensures
            final(self)@ == old(self)@.insert(color, tag@),
    {
        broadcast use group_hash_axioms;

        self.tags.insert(code_of(color), tag);
        proof {
            assert forall|c: Color| c != color implies code(c) != code(color) by {
                lemma_code_tells_colors_apart(c, color);
            }
            assert(self@ =~= old(self)@.insert(color, tag@));
        }
    }

    /// The identifier of `color`, if it has one.
    pub fn get(&self, color: Color) -> (tag: Option<&String>)
        ensures
            match tag {
                Some(text) => self@.contains_key(color) && self@[color] == text@,
                None => !self@.contains_key(color),
            },
    {
        broadcast use group_hash_axioms;

        let key: u32 = code_of(color);
        self.tags.get(&key)
    }
}

/// The colour that the colour key `text` writes.
pub open spec fn key_color(text: Seq<char>) -> Color {
    Color { r: key_bytes(text)[0], g: key_bytes(text)[1], b: key_bytes(text)[2] }
}

/// The entries of a configuration as texts: each a colour key and an
/// identifier.
pub open spec fn entry_texts(raw: Seq<(String, String)>) -> Seq<(Seq<char>, Seq<char>)> {
    Seq::new(raw.len(), |i: int| (raw[i].0@, raw[i].1@))
}

/// The table that `entries` make, each a colour key and an identifier. Of two
/// entries for one colour the later one counts.
pub open spec fn table_of(entries: Seq<(Seq<char>, Seq<char>)>) -> Map<Color, Seq<char>>
    decreases entries.len(),
{
    if entries.len() == 0 {
        Map::empty()
    } else {
        table_of(entries.drop_last()).insert(key_color(entries.last().0), entries.last().1)
    }
}

/// Whether entry `i` is the first of `entries` whose key is not a colour key.
pub open spec fn first_bad_key(entries: Seq<(Seq<char>, Seq<char>)>, i: int) -> bool {
    &&& 0 <= i < entries.len()
    &&& !valid_key(entries[i].0)
    &&& forall|k: int| 0 <= k < i ==> valid_key(#[trigger] entries[k].0)
}

/// Whether the key of every entry is a colour key.
pub open spec fn all_keys_valid(entries: Seq<(Seq<char>, Seq<char>)>) -> bool {
    forall|k: int| 0 <= k < entries.len() ==> valid_key(#[trigger] entries[k].0)
}

/// Whether `error` is the refusal of the colour key `key`.
pub open spec fn refuses(error: KeyError, key: Seq<char>) -> bool {
    match error {
        KeyError::Shape(text) => text@ == key && pieces(key).len() != 3,
        KeyError::Component(text) => text@ == key && pieces(key).len() == 3 && !valid_key(key),
    }
}

/// Builds the identifier table from the entries of a configuration, each a
/// colour key such as `255,0,0` and an identifier. The first key that is not
/// a colour key is refused and no table is built.
pub fn deserialize_colors_to_tags(raw: &Vec<(String, String)>) -> (made: Result<
    IdentifierTable,
    KeyError,
>)
    ensures
        match made {
            Ok(table) => all_keys_valid(entry_texts(raw@)) && table@ == table_of(
                entry_texts(raw@),
            ),
            Err(error) => exists|i: int|
                first_bad_key(entry_texts(raw@), i) && refuses(
                    error,
                    #[trigger] entry_texts(raw@)[i].0,
                ),
        },
{
    let mut result = IdentifierTable::new();
    let ghost entries = entry_texts(raw@);
    let mut i: usize = 0;
    while i < raw.len()
        invariant
            0 <= i <= raw@.len(),
            entries == entry_texts(raw@),
            forall|k: int| 0 <= k < i ==> valid_key(#[trigger] entries[k].0),
            result@ == table_of(entries.take(i as int)),
        decreases raw@.len() - i,
    {
        proof {
            assert(entries[i as int] == (raw@[i as int].0@, raw@[i as int].1@));
            assert(entries.take(i + 1).drop_last() =~= entries.take(i as int));
        }
        match parse_key_to_color(raw[i].0.as_str()) {
            Ok(arr) => {
                let color = Color { r: arr[0], g: arr[1], b: arr[2] };
                result.insert(color, raw[i].1.clone());
            },
            Err(error) => {
                proof {
                    assert(first_bad_key(entries, i as int));
                    assert(refuses(error, entries[i as int].0));
                }
                return Err(error);
            },
        }
        i += 1;
    }
    proof {
        assert(entries.take(i as int) =~= entries);
    }
    Ok(result)
}

} // verus!
