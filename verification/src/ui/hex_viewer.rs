//! Colouring and labelling of the raw-record hex view.

use vstd::prelude::*;

use crate::sd_log::record::{
    sd_record_field, sd_record_field_spec, SD_RECORD_FIELD_COUNT, SD_RECORD_SIZE,
};
use crate::ui::theme::{rgb, Rgb};

verus! {

/// A colour at 60% brightness, for the light theme.
pub open spec fn darken_spec(c: Rgb) -> Rgb {
    rgb((c.r * 6 / 10) as u8, (c.g * 6 / 10) as u8, (c.b * 6 / 10) as u8)
}

/// Dims a field colour for the light theme: each channel times 6/10,
/// rounded down.
pub fn darken(c: Rgb) -> (d: Rgb)
    ensures
        d == darken_spec(c),
{
    Rgb {
        r: (c.r as u16 * 6 / 10) as u8,
        g: (c.g as u16 * 6 / 10) as u8,
        b: (c.b as u16 * 6 / 10) as u8,
    }
}

/// The first entry, from `i` on, of the SD record layout that covers byte
/// `offset`.
pub open spec fn field_at_from(offset: int, i: int) -> Option<int>
    decreases SD_RECORD_FIELD_COUNT - i,
{
    if i < 0 || i >= SD_RECORD_FIELD_COUNT {
        None
    } else {
        let e = sd_record_field_spec(i);
        if e.1 <= offset < e.1 + e.2 {
            Some(i)
        } else {
            field_at_from(offset, i + 1)
        }
    }
}

/// The layout entry that covers byte `offset`, if any.
pub open spec fn field_at(offset: int) -> Option<int> {
    field_at_from(offset, 0)
}

/// The index of the layout entry that covers byte `offset`.
fn field_index_at(offset: usize) -> (r: Option<usize>)
    ensures
        match r {
            Some(i) => field_at(offset as int) == Some(i as int) && i < SD_RECORD_FIELD_COUNT,
            None => field_at(offset as int) is None,
        },
{
    let mut i: usize = 0;
    while i < SD_RECORD_FIELD_COUNT
        invariant
            i <= SD_RECORD_FIELD_COUNT,
            field_at(offset as int) == field_at_from(offset as int, i as int),
        decreases SD_RECORD_FIELD_COUNT - i,
    {
        let field = sd_record_field(i);
        if offset >= field.offset && offset - field.offset < field.length {
            return Some(i);
        }
        i = i + 1;
    }
    None
}

/// The name of the record field that byte `offset` belongs to, or "?" past
/// the end of the record.
pub fn byte_field(offset: usize) -> (name: &'static str)
    ensures
        name@ == match field_at(offset as int) {
            Some(i) => sd_record_field_spec(i).0,
            None => "?"@,
        },
{
    match field_index_at(offset) {
        Some(i) => sd_record_field(i).name,
        None => "?",
    }
}

/// The colour of byte `offset` in the hex view: its field's colour (dimmed
/// for the light theme), or grey past the end of the record.
pub fn field_color(offset: usize, dark_mode: bool) -> (c: Rgb)
    ensures
        c == match field_at(offset as int) {
            Some(i) => if dark_mode {
                sd_record_field_spec(i).3
            } else {
                darken_spec(sd_record_field_spec(i).3)
            },
            None => rgb(160, 160, 160),
        },
{
    match field_index_at(offset) {
        Some(i) => {
            let field = sd_record_field(i);
            if dark_mode {
                field.color
            } else {
                darken(field.color)
            }
        },
        None => Rgb { r: 160, g: 160, b: 160 },
    }
}

/// Whether layout entry `i` covers byte `offset`.
pub open spec fn covers(i: int, offset: int) -> bool {
    0 <= i < SD_RECORD_FIELD_COUNT && sd_record_field_spec(i).1 <= offset < sd_record_field_spec(
        i,
    ).1 + sd_record_field_spec(i).2
}

/// Every byte of a record belongs to exactly one field of the layout, which
/// is the one the hex view names; no byte past the record belongs to any.
pub proof fn lemma_every_record_byte_has_one_field(offset: int)
    ensures
        0 <= offset < SD_RECORD_SIZE ==> field_at(offset) is Some && covers(
            field_at(offset).unwrap(),
            offset,
        ) && forall|k: int| #[trigger] covers(k, offset) ==> k == field_at(offset).unwrap(),
        (offset < 0 || offset >= SD_RECORD_SIZE) ==> field_at(offset) is None,
{
    reveal_with_fuel(field_at_from, 26);
}

} // verus!
