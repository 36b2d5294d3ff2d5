//! The palette table: an exact-colour lookup from (red, green, blue) to the
//! position of the colour in the palette list.

use crate::error::Error;
use crate::error::PaletteFault;
use crate::host::HostValue;
use std::collections::HashMap;
use vstd::prelude::*;

verus! {

/// The key under which a colour is stored: its three channels side by side.
pub open spec fn pack(color: (u8, u8, u8)) -> u32 {
    (color.0 * 65536 + color.1 * 256 + color.2) as u32
}

/// Distinct colours have distinct keys.
pub proof fn lemma_pack_injective(a: (u8, u8, u8), b: (u8, u8, u8))
    requires
        pack(a) == pack(b),
    ensures
        a == b,
{
}

/// The index that the entry at `position` of a palette list stands for: the
/// position, cut down to eight bits.
pub open spec fn index_at(position: int) -> u8 {
    (position % 256) as u8
}

/// A colour table built entry by entry.
///
/// Its view maps each colour to the index of the last entry that held it. Every
/// index in the table is below the number of entries pushed.
pub struct Palette {
    table: HashMap<u32, u8>,
    entries: usize,
}

impl View for Palette {
    type V = Map<(u8, u8, u8), u8>;

    closed spec fn view(&self) -> Map<(u8, u8, u8), u8> {
        Map::new(
            |color: (u8, u8, u8)| self.table@.contains_key(pack(color)),
            |color: (u8, u8, u8)| self.table@[pack(color)],
        )
    }
}

impl Palette {
    #[verifier::type_invariant]
    spec fn indices_bounded(&self) -> bool {
        forall|key: u32|
            self.table@.contains_key(key) ==> (#[trigger] self.table@[key]) < self.entries
    }

    /// How many entries were pushed, duplicates included.
    pub closed spec fn spec_entries(&self) -> nat {
        self.entries as nat
    }

    /// The empty palette.
    pub fn new() -> (palette: Palette)
        ensures
            palette@ == Map::<(u8, u8, u8), u8>::empty(),
            palette.spec_entries() == 0,
    {
        let palette = Palette { table: HashMap::new(), entries: 0 };
        assert(palette@ =~= Map::<(u8, u8, u8), u8>::empty());
        palette
    }

    /// How many entries were pushed, duplicates included.
    pub fn entries(&self) -> (count: usize)
        ensures
            count == self.spec_entries(),
    {
        self.entries
    }

    /// Appends a colour as the next entry of the list. A colour that the table
    /// already holds takes the new index.
    pub fn push(&mut self, red: u8, green: u8, blue: u8)
        requires
            old(self).spec_entries() < usize::MAX,
        ensures
            final(self)@ == old(self)@.insert(
                (red, green, blue),
                index_at(old(self).spec_entries() as int),
            ),
            final(self).spec_entries() == old(self).spec_entries() + 1,
    {
        proof {
            use_type_invariant(&*self);
        }
        let index: u8 = (self.entries % 256) as u8;
        let key: u32 = (red as u32) * 65536 + (green as u32) * 256 + (blue as u32);
        let mut table: HashMap<u32, u8> = HashMap::new();
        std::mem::swap(&mut self.table, &mut table);
        table.insert(key, index);
        self.entries = self.entries + 1;
        std::mem::swap(&mut self.table, &mut table);
        proof {
            assert(key == pack((red, green, blue)));
            assert forall|color: (u8, u8, u8)| pack(color) == key implies color == (
                red,
                green,
                blue,
            ) by {
                lemma_pack_injective(color, (red, green, blue));
            }
            assert(self@ =~= old(self)@.insert(
                (red, green, blue),
                index_at(old(self).spec_entries() as int),
            ));
        }
    }

    /// The index of a colour, if the table holds it.
    pub fn lookup(&self, red: u8, green: u8, blue: u8) -> (found: Option<u8>)
        ensures
            found == (if self@.contains_key((red, green, blue)) {
                Some(self@[(red, green, blue)])
            } else {
                None
            }),
            found matches Some(index) ==> index < self.spec_entries(),
    {
        proof {
            use_type_invariant(self);
        }
        let key: u32 = (red as u32) * 65536 + (green as u32) * 256 + (blue as u32);
        assert(key == pack((red, green, blue)));
        match self.table.get(&key) {
            Some(index) => Some(*index),
            None => None,
        }
    }
}

/// A colour component: the low eight bits of a number.
pub open spec fn component_of(value: HostValue) -> Option<u8> {
    match value {
        HostValue::Number(number) => Some((number % 256) as u8),
        _ => None,
    }
}

/// The colour that a palette entry describes: the first three of the numbers
/// that its `values` property lists.
pub open spec fn entry_color(entry: HostValue) -> Result<(u8, u8, u8), PaletteFault> {
    match entry.spec_property("values"@) {
        Some(HostValue::List(values)) => {
            if values@.len() >= 3 && component_of(values@[0]) is Some && component_of(
                values@[1],
            ) is Some && component_of(values@[2]) is Some {
                Ok(
                    (
                        component_of(values@[0]).unwrap(),
                        component_of(values@[1]).unwrap(),
                        component_of(values@[2]).unwrap(),
                    ),
                )
            } else {
                Err(PaletteFault::ComponentsMissing)
            }
        },
        _ => Err(PaletteFault::ValuesNotAList),
    }
}

/// What is wrong with the first entry that describes no colour, if there is
/// such an entry.
pub open spec fn first_fault(entries: Seq<HostValue>) -> Option<PaletteFault>
    decreases entries.len(),
{
    if entries.len() == 0 {
        None
    } else {
        match first_fault(entries.drop_last()) {
            Some(fault) => Some(fault),
            None => match entry_color(entries.last()) {
                Ok(_) => None,
                Err(fault) => Some(fault),
            },
        }
    }
}

/// The table of a list of entries: each colour with the index of the last
/// entry that describes it.
pub open spec fn table_of(entries: Seq<HostValue>) -> Map<(u8, u8, u8), u8>
    decreases entries.len(),
{
    if entries.len() == 0 {
        Map::empty()
    } else {
        match entry_color(entries.last()) {
            Ok(color) => table_of(entries.drop_last()).insert(color, index_at(entries.len() - 1)),
            Err(_) => table_of(entries.drop_last()),
        }
    }
}

/// The table that a palette value stands for, or what is wrong with the value.
pub open spec fn parsed_palette(value: HostValue) -> Result<Map<(u8, u8, u8), u8>, Error> {
    match value {
        HostValue::List(entries) => match first_fault(entries@) {
            Some(fault) => Err(Error::MalformedPalette(fault)),
            None => Ok(table_of(entries@)),
        },
        _ => Err(Error::MalformedPalette(PaletteFault::NotAList)),
    }
}

/// A list has no fault exactly when each of its entries describes a colour.
pub proof fn lemma_faultless(entries: Seq<HostValue>)
    ensures
        first_fault(entries) is None <==> forall|i: int|
            0 <= i < entries.len() ==> entry_color(#[trigger] entries[i]) is Ok,
    decreases entries.len(),
{
    if entries.len() > 0 {
        lemma_faultless(entries.drop_last());
        if first_fault(entries) is None {
            assert forall|i: int| 0 <= i < entries.len() implies entry_color(
                #[trigger] entries[i],
            ) is Ok by {
                if i < entries.len() - 1 {
                    assert(entries.drop_last()[i] == entries[i]);
                }
            }
        } else if first_fault(entries.drop_last()) is Some {
            let i = choose|i: int|
                0 <= i < entries.drop_last().len() && !(entry_color(
                    #[trigger] entries.drop_last()[i],
                ) is Ok);
            assert(entries[i] == entries.drop_last()[i]);
        } else {
            assert(entries[entries.len() - 1] == entries.last());
        }
    }
}

/// The fault of a list is that of its first entry which describes no colour.
pub proof fn lemma_fault_is_first(entries: Seq<HostValue>, position: int)
    requires
        0 <= position < entries.len(),
        entry_color(entries[position]) is Err,
        forall|i: int| 0 <= i < position ==> entry_color(#[trigger] entries[i]) is Ok,
    ensures
        first_fault(entries) == Some(entry_color(entries[position])->Err_0),
    decreases entries.len(),
{
    if position == entries.len() - 1 {
        lemma_faultless(entries.drop_last());
        assert forall|i: int| 0 <= i < entries.drop_last().len() implies entry_color(
            #[trigger] entries.drop_last()[i],
        ) is Ok by {
            assert(entries.drop_last()[i] == entries[i]);
        }
    } else {
        assert(entries.drop_last()[position] == entries[position]);
        assert forall|i: int| 0 <= i < position implies entry_color(
            #[trigger] entries.drop_last()[i],
        ) is Ok by {
            assert(entries.drop_last()[i] == entries[i]);
        }
        lemma_fault_is_first(entries.drop_last(), position);
    }
}

/// The entry at `position` describes `color`.
pub open spec fn describes(entries: Seq<HostValue>, position: int, color: (u8, u8, u8)) -> bool {
    0 <= position < entries.len() && entry_color(entries[position]) == Ok::<
        (u8, u8, u8),
        PaletteFault,
    >(color)
}

/// The table holds exactly the colours that the entries describe.
pub proof fn lemma_table_colors(entries: Seq<HostValue>, color: (u8, u8, u8))
    ensures
        table_of(entries).contains_key(color) <==> exists|i: int|
            #[trigger] describes(entries, i, color),
    decreases entries.len(),
{
    if entries.len() > 0 {
        let front = entries.drop_last();
        let last = entries.len() - 1;
        lemma_table_colors(front, color);
        if table_of(entries).contains_key(color) {
            if entry_color(entries.last()) == Ok::<(u8, u8, u8), PaletteFault>(color) {
                assert(describes(entries, last, color));
            } else {
                let i = choose|i: int| #[trigger] describes(front, i, color);
                assert(describes(entries, i, color));
            }
        }
        if exists|i: int| #[trigger] describes(entries, i, color) {
            let i = choose|i: int| #[trigger] describes(entries, i, color);
            if i < last {
                assert(describes(front, i, color));
            }
        }
    }
}

/// Where a colour occurs more than once, the last occurrence decides: the
/// colour maps to the index of the last entry that describes it.
pub proof fn lemma_last_write_wins(entries: Seq<HostValue>, position: int, color: (u8, u8, u8))
    requires
        describes(entries, position, color),
        forall|later: int| position < later ==> !#[trigger] describes(entries, later, color),
    ensures
        table_of(entries).contains_key(color),
        table_of(entries)[color] == index_at(position),
    decreases entries.len(),
{
    let front = entries.drop_last();
    let last = entries.len() - 1;
    if position < last {
        assert(!describes(entries, last, color));
        assert(describes(front, position, color));
        assert forall|later: int| position < later implies !#[trigger] describes(
            front,
            later,
            color,
        ) by {
            assert(!describes(entries, later, color));
        }
        lemma_last_write_wins(front, position, color);
    }
}

/// Reads one colour component.
fn read_component(value: &HostValue) -> (component: Option<u8>)
    ensures
        component == component_of(*value),
{
    match value {
        HostValue::Number(number) => Some((*number % 256) as u8),
        _ => None,
    }
}

/// Reads the colour of one palette entry; `key` names the property that lists
/// the components.
fn read_color(entry: &HostValue, key: &String) -> (color: Result<(u8, u8, u8), PaletteFault>)
    requires
        key@ == "values"@,
    ensures
        color == entry_color(*entry),
{
    match entry.property(key) {
        Some(HostValue::List(values)) => {
            if values.len() < 3 {
                return Err(PaletteFault::ComponentsMissing);
            }
            match (
                read_component(&values[0]),
                read_component(&values[1]),
                read_component(&values[2]),
            ) {
                (Some(red), Some(green), Some(blue)) => Ok((red, green, blue)),
                _ => Err(PaletteFault::ComponentsMissing),
            }
        },
        _ => Err(PaletteFault::ValuesNotAList),
    }
}

/// Builds the colour table from the palette value that the caller passed.
///
/// The value must be a list. Each entry must be an object whose `values`
/// property is a list that starts with three numbers: red, green, blue, each
/// taken by its low eight bits. The entry at position `i` gets the index
/// `i % 256`. The first entry that is not of this shape decides the error.
pub fn into_palette(value: &HostValue) -> (result: Result<Palette, Error>)
    ensures
        match parsed_palette(*value) {
            Ok(table) => result matches Ok(palette) && palette@ == table,
            Err(error) => result matches Err(e) && e == error,
        },
        result matches Ok(palette) ==> value matches HostValue::List(entries)
            && palette.spec_entries() == entries@.len(),
{
    match value {
        HostValue::List(entries) => {
            let key: String = "values".to_owned();
            let mut palette = Palette::new();
            let mut i: usize = 0;
            while i < entries.len()
                invariant
                    i <= entries@.len(),
                    *value == HostValue::List(*entries),
                    key@ == "values"@,
                    palette.spec_entries() == i,
                    palette@ == table_of(entries@.take(i as int)),
                    first_fault(entries@.take(i as int)) is None,
                decreases entries@.len() - i,
            {
                let ghost next = entries@.take(i + 1);
                proof {
                    assert(next.drop_last() == entries@.take(i as int));
                    assert(next.last() == entries@[i as int]);
                }
                match read_color(&entries[i], &key) {
                    Ok((red, green, blue)) => {
                        palette.push(red, green, blue);
                    },
                    Err(fault) => {
                        proof {
                            lemma_faultless(entries@.take(i as int));
                            assert forall|j: int| 0 <= j < i implies entry_color(
                                #[trigger] entries@[j],
                            ) is Ok by {
                                assert(entries@.take(i as int)[j] == entries@[j]);
                            }
                            lemma_fault_is_first(entries@, i as int);
                        }
                        return Err(Error::MalformedPalette(fault));
                    },
                }
                i += 1;
            }
            proof {
                assert(entries@.take(i as int) == entries@);
            }
            Ok(palette)
        },
        _ => Err(Error::MalformedPalette(PaletteFault::NotAList)),
    }
}

} // verus!
