//! The contents of a GAEB exchange file: headings and items in file order.

use crate::decimal::{dec, Dec, Decimal};
use vstd::prelude::*;

verus! {

/// Why a file cannot be read or written, in the words shown to the user.
#[derive(Debug, PartialEq)]
pub struct Error {
    pub message: String,
}

impl View for Error {
    type V = Seq<char>;

    open spec fn view(&self) -> Seq<char> {
        self.message@
    }
}

/// An error with a fixed message.
pub fn failure(message: &str) -> (r: Error)
    ensures
        r@ == message@,
{
    Error { message: message.to_owned() }
}

#[derive(Debug, PartialEq)]
pub struct GaebDocument {
    pub source: String,
    pub project: String,
    pub boq: String,
    pub exchange_phase: String,
    pub currency: String,
    pub rows: Vec<GaebRow>,
}

#[derive(Debug, PartialEq)]
pub enum GaebRow {
    Category { oz: String, title: String, level: usize },
    Item(GaebItem),
}

#[derive(Debug, PartialEq)]
pub struct GaebItem {
    pub oz: String,
    pub short_text: String,
    pub long_text: String,
    pub quantity: Option<Decimal>,
    pub unit: String,
    pub unit_price: Option<Decimal>,
    pub total_price: Option<Decimal>,
}

/// What a document is.
#[verifier::ext_equal]
pub struct DocumentView {
    pub source: Seq<char>,
    pub project: Seq<char>,
    pub boq: Seq<char>,
    pub exchange_phase: Seq<char>,
    pub currency: Seq<char>,
    pub rows: Seq<RowView>,
}

/// What a row is.
#[verifier::ext_equal]
pub enum RowView {
    Category { oz: Seq<char>, title: Seq<char>, level: nat },
    Item(ItemView),
}

/// What an item is.
#[verifier::ext_equal]
pub struct ItemView {
    pub oz: Seq<char>,
    pub short_text: Seq<char>,
    pub long_text: Seq<char>,
    pub quantity: Option<Dec>,
    pub unit: Seq<char>,
    pub unit_price: Option<Dec>,
    pub total_price: Option<Dec>,
}

impl View for GaebItem {
    type V = ItemView;

    open spec fn view(&self) -> ItemView {
        ItemView {
            oz: self.oz@,
            short_text: self.short_text@,
            long_text: self.long_text@,
            quantity: dec(self.quantity),
            unit: self.unit@,
            unit_price: dec(self.unit_price),
            total_price: dec(self.total_price),
        }
    }
}

impl View for GaebRow {
    type V = RowView;

    open spec fn view(&self) -> RowView {
        match self {
            GaebRow::Category { oz, title, level } => RowView::Category {
                oz: oz@,
                title: title@,
                level: *level as nat,
            },
            GaebRow::Item(item) => RowView::Item(item@),
        }
    }
}

pub open spec fn row_views(v: Seq<GaebRow>) -> Seq<RowView> {
    Seq::new(v.len(), |i: int| v[i]@)
}

pub broadcast proof fn lemma_row_views_push(v: Seq<GaebRow>, r: GaebRow)
    ensures
        #[trigger] row_views(v.push(r)) == row_views(v).push(r@),
{
    assert(row_views(v.push(r)) =~= row_views(v).push(r@));
}

impl View for GaebDocument {
    type V = DocumentView;

    open spec fn view(&self) -> DocumentView {
        DocumentView {
            source: self.source@,
            project: self.project@,
            boq: self.boq@,
            exchange_phase: self.exchange_phase@,
            currency: self.currency@,
            rows: row_views(self.rows@),
        }
    }
}

/// An item of which nothing is known.
pub open spec fn empty_item() -> ItemView {
    ItemView {
        oz: seq![],
        short_text: seq![],
        long_text: seq![],
        quantity: None,
        unit: seq![],
        unit_price: None,
        total_price: None,
    }
}

impl Default for GaebItem {
    fn default() -> (r: GaebItem)
        ensures
            r@ == empty_item(),
    {
        GaebItem {
            oz: String::new(),
            short_text: String::new(),
            long_text: String::new(),
            quantity: None,
            unit: String::new(),
            unit_price: None,
            total_price: None,
        }
    }
}

impl Clone for GaebItem {
    fn clone(&self) -> (r: GaebItem)
        ensures
            r@ == self@,
    {
        GaebItem {
            oz: self.oz.clone(),
            short_text: self.short_text.clone(),
            long_text: self.long_text.clone(),
            quantity: self.quantity,
            unit: self.unit.clone(),
            unit_price: self.unit_price,
            total_price: self.total_price,
        }
    }
}

/// A document without rows, in euro.
pub open spec fn empty_document(source: Seq<char>, phase: Seq<char>) -> DocumentView {
    DocumentView {
        source,
        project: seq![],
        boq: seq![],
        exchange_phase: phase,
        currency: "EUR"@,
        rows: seq![],
    }
}

impl GaebDocument {
    pub fn new(source: &str, phase: &str) -> (r: GaebDocument)
        ensures
            r@ == empty_document(source@, phase@),
    {
        let r = GaebDocument {
            source: source.to_owned(),
            project: String::new(),
            boq: String::new(),
            exchange_phase: phase.to_owned(),
            currency: "EUR".to_owned(),
            rows: Vec::new(),
        };
        assert(r@ =~= empty_document(source@, phase@));
        r
    }
}

/// Whether some row is an item.
pub open spec fn has_item(rows: Seq<RowView>) -> bool {
    exists|i: int| 0 <= i < rows.len() && #[trigger] rows[i] is Item
}

pub fn any_item(rows: &Vec<GaebRow>) -> (r: bool)
    ensures
        r == has_item(row_views(rows@)),
{
    let mut i: usize = 0;
    while i < rows.len()
        invariant
            i <= rows@.len(),
            forall|j: int| 0 <= j < i ==> !(row_views(rows@)[j] is Item),
        decreases rows@.len() - i,
    {
        if let GaebRow::Item(_) = &rows[i] {
            assert(row_views(rows@)[i as int] is Item);
            return true;
        }
        i = i + 1;
    }
    false
}

/// Rows with the title of the heading at `index` replaced.
pub open spec fn retitled(rows: Seq<RowView>, index: int, title: Seq<char>) -> Seq<RowView> {
    match rows[index] {
        RowView::Category { oz, title: _, level } => rows.update(
            index,
            RowView::Category { oz, title, level },
        ),
        RowView::Item(_) => rows,
    }
}

/// The title of the heading that a row index points to, if it points to one.
pub open spec fn title_at(rows: Seq<RowView>, index: Option<nat>) -> Option<Seq<char>> {
    match index {
        Some(i) => if i < rows.len() {
            match rows[i as int] {
                RowView::Category { oz: _, title, level: _ } => Some(title),
                RowView::Item(_) => None,
            }
        } else {
            None
        },
        None => None,
    }
}

pub open spec fn index_view(v: Option<usize>) -> Option<nat> {
    match v {
        Some(i) => Some(i as nat),
        None => None,
    }
}

pub fn heading_title(rows: &Vec<GaebRow>, index: Option<usize>) -> (r: Option<String>)
    ensures
        crate::model::opt_text(r) == title_at(row_views(rows@), index_view(index)),
{
    match index {
        Some(i) => {
            if i < rows.len() {
                match &rows[i] {
                    GaebRow::Category { oz: _, title, level: _ } => Some(title.clone()),
                    GaebRow::Item(_) => None,
                }
            } else {
                None
            }
        },
        None => None,
    }
}

pub fn set_heading_title(rows: &mut Vec<GaebRow>, index: usize, title: String)
    requires
        index < old(rows)@.len(),
    ensures
        row_views(final(rows)@) == retitled(row_views(old(rows)@), index as int, title@),
{
    let row = match &rows[index] {
        GaebRow::Category { oz, title: _, level } => Some((oz.clone(), *level)),
        GaebRow::Item(_) => None,
    };
    if let Some((oz, level)) = row {
        let ghost before = row_views(rows@);
        rows.set(index, GaebRow::Category { oz, title, level });
        assert(row_views(rows@) =~= retitled(before, index as int, title@));
    }
}

} // verus!
