//! Relations between the columns of a row: a field that copies another one, or
//! stands at a constant offset from it.

use vstd::prelude::*;
use crate::numeric::{NumState, MAX_HITS};

verus! {

/// Values of the present row that are remembered.
pub const MAX_ROW: usize = 32;

/// A value of the present row, and the value that its field had before.
#[derive(Clone, Copy)]
pub struct RowValue {
    pub field: u32,
    pub value: i64,
    pub before: Option<i64>,
}

impl RowValue {
    /// A field that went from `last` to `actual` kept its offset from this one.
    pub open spec fn steady(self, last: i64, actual: i64) -> bool {
        match self.before {
            Some(b) => actual.wrapping_sub(self.value) == last.wrapping_sub(b),
            None => false,
        }
    }

    fn is_steady(&self, last: i64, actual: i64) -> (r: bool)
        ensures
            r == self.steady(last, actual),
    {
        match self.before {
            Some(b) => actual.wrapping_sub(self.value) == last.wrapping_sub(b),
            None => false,
        }
    }
}

/// Where `field` stands in the row; behind its end for a field that does not.
pub open spec fn place(row: Seq<RowValue>, field: u32) -> int
    decreases row.len(),
{
    if row.len() == 0 || row[0].field == field { 0 } else { 1 + place(row.skip(1), field) }
}

/// The value of `field` in the row.
pub open spec fn value_in(row: Seq<RowValue>, field: u32) -> Option<i64> {
    if place(row, field) < row.len() { Some(row[place(row, field)].value) } else { None }
}

/// The row with one more value. A field has one value in it, the latest, and the
/// oldest value makes room where there is none.
pub open spec fn noted(row: Seq<RowValue>, e: RowValue) -> Seq<RowValue> {
    let i = place(row, e.field);
    let rest = if i < row.len() {
        row.remove(i)
    } else if row.len() >= MAX_ROW {
        row.remove(0)
    } else {
        row
    };
    rest.push(e)
}

/// The latest value of another field.
pub open spec fn nearest(row: Seq<RowValue>, field: u32) -> Option<RowValue>
    decreases row.len(),
{
    if row.len() == 0 {
        None
    } else if row.last().field != field {
        Some(row.last())
    } else {
        nearest(row.drop_last(), field)
    }
}

/// The latest value of another field from which `field`, on its way from `last` to
/// `actual`, kept its offset.
pub open spec fn nearest_steady(
    row: Seq<RowValue>,
    field: u32,
    last: i64,
    actual: i64,
) -> Option<RowValue>
    decreases row.len(),
{
    if row.len() == 0 {
        None
    } else if row.last().field != field && row.last().steady(last, actual) {
        Some(row.last())
    } else {
        nearest_steady(row.drop_last(), field, last, actual)
    }
}

fn find_place(row: &Vec<RowValue>, field: u32) -> (i: usize)
    ensures
        i == place(row@, field),
        i <= row@.len(),
{
    let mut i: usize = 0;
    assert(row@.skip(0) =~= row@);
    while i < row.len() && row[i].field != field
        invariant
            i <= row@.len(),
            place(row@, field) == i + place(row@.skip(i as int), field),
        decreases row@.len() - i,
    {
        assert(row@.skip(i as int).skip(1) =~= row@.skip(i + 1));
        i = i + 1;
    }
    i
}

/// The value of `field` in the row.
pub fn lookup(row: &Vec<RowValue>, field: u32) -> (v: Option<i64>)
    ensures
        v == value_in(row@, field),
{
    let i: usize = find_place(row, field);
    if i < row.len() {
        Some(row[i].value)
    } else {
        None
    }
}

/// Note one more value of the row.
pub fn note(row: &mut Vec<RowValue>, e: RowValue)
    ensures
        final(row)@ == noted(old(row)@, e),
        old(row)@.len() <= MAX_ROW ==> final(row)@.len() <= MAX_ROW,
{
    let i: usize = find_place(row, e.field);
    if i < row.len() {
        let _ = row.remove(i);
    } else if row.len() >= MAX_ROW {
        let _ = row.remove(0);
    }
    row.push(e);
}

fn find_nearest(row: &Vec<RowValue>, field: u32) -> (r: Option<RowValue>)
    ensures
        r == nearest(row@, field),
{
    let mut i: usize = row.len();
    assert(row@.take(i as int) =~= row@);
    while i > 0
        invariant
            i <= row@.len(),
            nearest(row@, field) == nearest(row@.take(i as int), field),
        decreases i,
    {
        assert(row@.take(i as int).drop_last() =~= row@.take(i - 1));
        i = i - 1;
        if row[i].field != field {
            return Some(row[i]);
        }
    }
    None
}

fn find_steady(row: &Vec<RowValue>, field: u32, last: i64, actual: i64) -> (r: Option<RowValue>)
    ensures
        r == nearest_steady(row@, field, last, actual),
{
    let mut i: usize = row.len();
    assert(row@.take(i as int) =~= row@);
    while i > 0
        invariant
            i <= row@.len(),
            nearest_steady(row@, field, last, actual) == nearest_steady(
                row@.take(i as int),
                field,
                last,
                actual,
            ),
        decreases i,
    {
        assert(row@.take(i as int).drop_last() =~= row@.take(i - 1));
        i = i - 1;
        if row[i].field != field && row[i].is_steady(last, actual) {
            return Some(row[i]);
        }
    }
    None
}

/// What a field is expected to have to do with the others of its row: the field it
/// follows, the offset from it, and how often that has been right of late.
#[derive(Clone, Copy)]
pub struct CrossState {
    pub source: u32,
    pub offset: i64,
    pub hits: u32,
    pub seen: bool,
}

impl CrossState {
    /// Nothing is known.
    pub open spec fn fresh() -> CrossState {
        CrossState { source: 0, offset: 0, hits: 0, seen: false }
    }

    /// The value that the relation and the row lead to.
    pub open spec fn forecast(self, row: Seq<RowValue>) -> Option<i64> {
        match value_in(row, self.source) {
            Some(v) if self.seen => Some(v.wrapping_add(self.offset)),
            _ => None,
        }
    }

    /// The relation to `e` of a field that had the value `actual`.
    pub open spec fn to(e: RowValue, actual: i64, hits: int) -> CrossState {
        CrossState {
            source: e.field,
            offset: actual.wrapping_sub(e.value),
            hits: hits as u32,
            seen: true,
        }
    }

    /// The knowledge after `field`, of which `slot` was known, had the value
    /// `actual` in a row that began with `row`. A relation that did not hold gives
    /// way to one that did, in this row and in the one before: that counts as a
    /// hit. The first relation is to the latest value.
    pub open spec fn learned(
        self,
        field: u32,
        slot: NumState,
        row: Seq<RowValue>,
        actual: i64,
    ) -> CrossState {
        if self.forecast(row) == Some(actual) {
            CrossState {
                hits: if self.hits < MAX_HITS { (self.hits + 1) as u32 } else { MAX_HITS },
                ..self
            }
        } else {
            let kept = if self.seen { self.hits / 2 } else { 0 };
            let steady = nearest_steady(row, field, slot.last, actual);
            if slot.seen && steady is Some {
                CrossState::to(steady->0, actual, kept + 1)
            } else if self.seen {
                CrossState { hits: kept, ..self }
            } else {
                match nearest(row, field) {
                    Some(e) => CrossState::to(e, actual, 0),
                    None => self,
                }
            }
        }
    }

    /// The value that the relation and the row lead to.
    pub fn foresee(&self, row: &Vec<RowValue>) -> (v: Option<i64>)
        ensures
            v == self.forecast(row@),
    {
        if !self.seen {
            return None;
        }
        match lookup(row, self.source) {
            Some(v) => Some(v.wrapping_add(self.offset)),
            None => None,
        }
    }

    /// Learn that `field` had the value `actual` behind the values of `row`.
    pub fn learn(self, field: u32, slot: NumState, row: &Vec<RowValue>, actual: i64) -> (next:
        CrossState)
        ensures
            next == self.learned(field, slot, row@, actual),
            self.hits <= MAX_HITS ==> next.hits <= MAX_HITS,
    {
        let held: bool = match self.foresee(row) {
            Some(v) => v == actual,
            None => false,
        };
        if held {
            let hits: u32 = if self.hits < MAX_HITS { self.hits + 1 } else { MAX_HITS };
            return CrossState { source: self.source, offset: self.offset, hits, seen: self.seen };
        }
        let kept: u32 = if self.seen { self.hits / 2 } else { 0 };
        if slot.seen {
            if let Some(e) = find_steady(row, field, slot.last, actual) {
                return CrossState {
                    source: e.field,
                    offset: actual.wrapping_sub(e.value),
                    hits: kept + 1,
                    seen: true,
                };
            }
        }
        if self.seen {
            return CrossState { source: self.source, offset: self.offset, hits: kept, seen: true };
        }
        match find_nearest(row, field) {
            Some(e) => CrossState {
                source: e.field,
                offset: actual.wrapping_sub(e.value),
                hits: 0,
                seen: true,
            },
            None => self,
        }
    }
}

} // verus!
