//! What the records of a GAEB 90 file become.

use crate::decimal::Dec;
use crate::document::{retitled, title_at, ItemView, RowView};
use crate::gaeb2000_laws::{law_trim_once, lemma_trimmed_ends};
use crate::gaeb90::{
    closed_rows, columns, gaeb_90, masked_oz, read_until, records_of, with_line, ReadingView,
};
use crate::text::{all_digits, digits_value, is_space, join, split, trim, trim_end, trim_start};
use vstd::prelude::*;

verus! {

/// The kind of a record, its first two columns.
pub open spec fn kind_of(record: Seq<char>) -> Seq<char> {
    columns(record, 0, 2)
}

/// Whether a record ends the item and the heading in front of it.
pub open spec fn ends_item(record: Seq<char>, phase: Seq<char>) -> bool {
    let kind = kind_of(record);
    ||| kind == "11"@
    ||| kind == "21"@
    ||| kind == "31"@
    ||| kind == "99"@
    ||| kind == "23"@ && phase == "84"@
}

/// The texts of the records of one kind among those from `from` up to before `to`, each
/// from this column on and without white space at its ends.
pub open spec fn texts_of_kind(
    records: Seq<Seq<char>>,
    from: int,
    to: int,
    kind: Seq<char>,
    column: int,
) -> Seq<Seq<char>>
    decreases to - from,
{
    if to <= from {
        seq![]
    } else {
        let before = texts_of_kind(records, from, to - 1, kind, column);
        if kind_of(records[to - 1]) == kind {
            before.push(trim(columns(records[to - 1], column, 72)))
        } else {
            before
        }
    }
}

/// Whether a record is a line of the short or the long text with something in it.
pub open spec fn text_line(record: Seq<char>) -> bool {
    ||| kind_of(record) == "25"@ && trim(columns(record, 2, 72)).len() > 0
    ||| kind_of(record) == "26"@ && trim(columns(record, 5, 72)).len() > 0
}

/// Whether a text has something in it and no white space at its ends.
spec fn tidy(s: Seq<char>) -> bool {
    s.len() > 0 && !is_space(s[0]) && !is_space(s.last())
}

proof fn lemma_kinds()
    ensures
        "01"@[0] == '0' && "01"@[1] == '1',
        "02"@[0] == '0' && "02"@[1] == '2',
        "08"@[0] == '0' && "08"@[1] == '8',
        "11"@[0] == '1' && "11"@[1] == '1',
        "12"@[0] == '1' && "12"@[1] == '2',
        "21"@[0] == '2' && "21"@[1] == '1',
        "23"@[0] == '2' && "23"@[1] == '3',
        "25"@[0] == '2' && "25"@[1] == '5',
        "26"@[0] == '2' && "26"@[1] == '6',
        "31"@[0] == '3' && "31"@[1] == '1',
        "99"@[0] == '9' && "99"@[1] == '9',
{
    reveal_strlit("01");
    reveal_strlit("02");
    reveal_strlit("08");
    reveal_strlit("11");
    reveal_strlit("12");
    reveal_strlit("21");
    reveal_strlit("23");
    reveal_strlit("25");
    reveal_strlit("26");
    reveal_strlit("31");
    reveal_strlit("99");
}

proof fn lemma_line_tidy(record: Seq<char>, column: int)
    requires
        trim(columns(record, column, 72)).len() > 0,
    ensures
        tidy(trim(columns(record, column, 72))),
{
    law_trim_once(columns(record, column, 72));
    lemma_trimmed_ends(trim(columns(record, column, 72)));
}

/// Texts with something in them, one on each line.
spec fn all_tidy(p: Seq<Seq<char>>) -> bool {
    forall|i: int| 0 <= i < p.len() ==> tidy(#[trigger] p[i])
}

proof fn lemma_join_tidy(p: Seq<Seq<char>>)
    requires
        p.len() > 0,
        all_tidy(p),
    ensures
        tidy(join(p, "\n"@)),
    decreases p.len(),
{
    assert(tidy(p[0]));
    if p.len() > 1 {
        assert(all_tidy(p.drop_last())) by {
            assert forall|i: int| 0 <= i < p.len() - 1 implies tidy(#[trigger] p.drop_last()[i]) by {
                assert(p.drop_last()[i] == p[i]);
            }
        }
        lemma_join_tidy(p.drop_last());
        assert(tidy(p[p.len() - 1]));
        let front = join(p.drop_last(), "\n"@);
        let all = join(p, "\n"@);
        assert(all == front + "\n"@ + p.last());
        assert(all[0] == front[0]);
        assert(all.last() == p.last().last());
    }
}

proof fn lemma_with_line(p: Seq<Seq<char>>, value: Seq<char>)
    requires
        all_tidy(p),
        value.len() > 0,
    ensures
        with_line(join(p, "\n"@), value) == join(p.push(value), "\n"@),
{
    reveal_strlit("\n");
    assert("\n"@ =~= seq!['\n']);
    assert(p.push(value).drop_last() =~= p);
    if p.len() > 0 {
        lemma_join_tidy(p);
        assert(join(p, "\n"@).push('\n') =~= join(p, "\n"@) + "\n"@);
    } else {
        assert(join(p, "\n"@) + value =~= value);
    }
}

proof fn lemma_tidy_stays(p: Seq<Seq<char>>)
    requires
        all_tidy(p),
    ensures
        trim(join(p, "\n"@)) == join(p, "\n"@),
{
    if p.len() > 0 {
        lemma_join_tidy(p);
    }
}

/// The item that a record opens, with the lines of its texts up to before record `to`.
spec fn item_with_lines(
    records: Seq<Seq<char>>,
    item: ItemView,
    from: int,
    to: int,
) -> ItemView {
    ItemView {
        short_text: join(texts_of_kind(records, from, to, "25"@, 2), "\n"@),
        long_text: join(texts_of_kind(records, from, to, "26"@, 5), "\n"@),
        ..item
    }
}

proof fn lemma_lines_tidy(records: Seq<Seq<char>>, from: int, to: int)
    requires
        0 <= from <= to <= records.len(),
        forall|m: int| from <= m < to ==> text_line(#[trigger] records[m]),
    ensures
        all_tidy(texts_of_kind(records, from, to, "25"@, 2)),
        all_tidy(texts_of_kind(records, from, to, "26"@, 5)),
    decreases to - from,
{
    lemma_kinds();
    if from < to {
        lemma_lines_tidy(records, from, to - 1);
        let last = records[to - 1];
        assert(text_line(last));
        if kind_of(last) == "25"@ {
            lemma_line_tidy(last, 2);
        } else {
            lemma_line_tidy(last, 5);
        }
    }
}

/// The state after a record that opens an item, and the lines of its texts behind it.
proof fn lemma_lines_read(
    records: Seq<Seq<char>>,
    source: Seq<char>,
    phase: Seq<char>,
    mask: Seq<char>,
    i: int,
    to: int,
    item: ItemView,
)
    requires
        1 <= i < to <= records.len(),
        read_until(records, (i + 1) as nat, source, phase, mask).item == Some(item),
        item.short_text.len() == 0,
        item.long_text.len() == 0,
        forall|m: int| i < m < to ==> text_line(#[trigger] records[m]),
    ensures
        ({
            let before = read_until(records, (i + 1) as nat, source, phase, mask);
            let after = read_until(records, to as nat, source, phase, mask);
            &&& after.item == Some(item_with_lines(records, item, i + 1, to))
            &&& after.document == before.document
            &&& after.category == before.category
        }),
    decreases to - i,
{
    lemma_kinds();
    let before = read_until(records, (i + 1) as nat, source, phase, mask);
    let after = read_until(records, to as nat, source, phase, mask);
    if to == i + 1 {
        assert(item_with_lines(records, item, i + 1, to) =~= item);
    } else {
        lemma_lines_read(records, source, phase, mask, i, to - 1, item);
        lemma_lines_tidy(records, i + 1, to - 1);
        let last = records[to - 1];
        assert(text_line(last));
        let mid = read_until(records, (to - 1) as nat, source, phase, mask);
        reveal(ReadingView::record);
        if kind_of(last) == "25"@ {
            lemma_with_line(
                texts_of_kind(records, i + 1, to - 1, "25"@, 2),
                trim(columns(last, 2, 72)),
            );
        } else {
            lemma_with_line(
                texts_of_kind(records, i + 1, to - 1, "26"@, 5),
                trim(columns(last, 5, 72)),
            );
        }
        assert(after.item->0 =~= item_with_lines(records, item, i + 1, to));
    }
}

/// Rows that have been read stay as they are, but for the title of the heading that is
/// still open.
spec fn kept(before: ReadingView, after: ReadingView) -> bool {
    &&& before.document.rows.len() <= after.document.rows.len()
    &&& forall|j: int|
        0 <= j < before.document.rows.len() && before.category != Some(j as nat)
            ==> #[trigger] after.document.rows[j] == before.document.rows[j]
    &&& after.category is Some && after.category->0 < before.document.rows.len()
        ==> after.category == before.category
}

/// The heading that is open has been read.
spec fn sound(state: ReadingView) -> bool {
    state.category is Some ==> state.category->0 < state.document.rows.len()
}

proof fn lemma_record_keeps(
    state: ReadingView,
    record: Seq<char>,
    phase: Seq<char>,
    mask: Seq<char>,
)
    requires
        sound(state),
    ensures
        kept(state, state.record(record, phase, mask)),
        sound(state.record(record, phase, mask)),
{
    reveal(ReadingView::record);
}

proof fn lemma_reading_keeps(
    records: Seq<Seq<char>>,
    source: Seq<char>,
    phase: Seq<char>,
    mask: Seq<char>,
    from: nat,
    to: nat,
)
    requires
        1 <= from <= to <= records.len(),
    ensures
        kept(
            read_until(records, from, source, phase, mask),
            read_until(records, to, source, phase, mask),
        ),
        sound(read_until(records, to, source, phase, mask)),
    decreases to,
{
    if from < to {
        lemma_reading_keeps(records, source, phase, mask, from, (to - 1) as nat);
        lemma_record_keeps(
            read_until(records, (to - 1) as nat, source, phase, mask),
            records[to - 1],
            phase,
            mask,
        );
        let a = read_until(records, from, source, phase, mask);
        let b = read_until(records, (to - 1) as nat, source, phase, mask);
        let c = read_until(records, to, source, phase, mask);
        assert forall|j: int|
            0 <= j < a.document.rows.len() && a.category != Some(
                j as nat,
            ) implies #[trigger] c.document.rows[j] == a.document.rows[j] by {
            assert(b.document.rows[j] == a.document.rows[j]);
        }
    } else if to > 1 {
        lemma_reading_keeps(records, source, phase, mask, 1, (to - 1) as nat);
        lemma_record_keeps(
            read_until(records, (to - 1) as nat, source, phase, mask),
            records[to - 1],
            phase,
            mask,
        );
    }
}

/// An item that is closed stands in the rows of the whole file.
proof fn lemma_closed_item(
    records: Seq<Seq<char>>,
    source: Seq<char>,
    phase: Seq<char>,
    mask: Seq<char>,
    to: nat,
) -> (j: int)
    requires
        1 <= to <= records.len(),
        read_until(records, to, source, phase, mask).item is Some,
        to == records.len() || ends_item(records[to as int], phase),
    ensures
        ({
            let state = read_until(records, to, source, phase, mask);
            let rows = read_until(
                records,
                records.len(),
                source,
                phase,
                mask,
            ).closed().document.rows;
            &&& 0 <= j < rows.len()
            &&& rows[j] == RowView::Item(
                ItemView {
                    short_text: trim(state.item->0.short_text),
                    long_text: trim(state.item->0.long_text),
                    ..state.item->0
                },
            )
        }),
{
    lemma_kinds();
    let state = read_until(records, to, source, phase, mask);
    let whole = read_until(records, records.len(), source, phase, mask);
    let j = state.document.rows.len() as int;
    lemma_reading_keeps(records, source, phase, mask, 1, to);
    if to < records.len() {
        let next = read_until(records, to + 1, source, phase, mask);
        assert(next == state.record(records[to as int], phase, mask));
        reveal(ReadingView::record);
        assert(next.document.rows.len() > j);
        assert(next.document.rows[j] == closed_rows(state.document.rows, state.item)[j]);
        assert(next.category != Some(j as nat));
        lemma_reading_keeps(records, source, phase, mask, to + 1, records.len());
        assert(whole.document.rows[j] == next.document.rows[j]);
    }
    j
}

/// An item that opens with record `i` and is described by the records behind it, up to
/// before `to`, is read with its number, quantity and unit, and with every line of its
/// descriptions, in order: those of the records 25 make the short text, those of the
/// records 26 the long text, one line each.
pub proof fn law_item_lines_read(source: Seq<char>, text: Seq<char>, i: int, to: int)
    requires
        gaeb_90(source, text) is Ok,
        1 <= i < to <= records_of(text).len(),
        kind_of(records_of(text)[i]) == "21"@,
        forall|m: int| i < m < to ==> text_line(#[trigger] records_of(text)[m]),
        to == records_of(text).len() || ends_item(
            records_of(text)[to],
            trim(columns(records_of(text)[0], 10, 12)),
        ),
    ensures
        exists|j: int| #![trigger gaeb_90(source, text)->Ok_0.rows[j]]
            {
                let rows = gaeb_90(source, text)->Ok_0.rows;
                let records = records_of(text);
                let item = rows[j]->Item_0;
                let quantity = trim(columns(records[i], 23, 34));
                &&& 0 <= j < rows.len() && rows[j] is Item
                &&& item.oz == masked_oz(columns(records[i], 2, 11), columns(records[0], 62, 71))
                &&& item.short_text == join(texts_of_kind(records, i + 1, to, "25"@, 2), "\n"@)
                &&& item.long_text == join(texts_of_kind(records, i + 1, to, "26"@, 5), "\n"@)
                &&& item.unit == trim(columns(records[i], 34, 38))
                &&& quantity.len() > 0 && all_digits(quantity) && digits_value(quantity) <= i64::MAX
                    ==> item.quantity == Some(
                    Dec { mantissa: digits_value(quantity) as int, scale: 3 },
                )
                &&& !(quantity.len() > 0 && all_digits(quantity) && digits_value(quantity)
                    <= i64::MAX) ==> item.quantity is None
                &&& item.unit_price is None && item.total_price is None
            },
{
    lemma_kinds();
    let records = records_of(text);
    let phase = trim(columns(records[0], 10, 12));
    let mask = columns(records[0], 62, 71);
    let rows = gaeb_90(source, text)->Ok_0.rows;
    let state = read_until(records, (i + 1) as nat, source, phase, mask);
    assert(state == read_until(records, i as nat, source, phase, mask).record(
        records[i],
        phase,
        mask,
    ));
    assert(state.item is Some && state.item->0.short_text.len() == 0
        && state.item->0.long_text.len() == 0) by {
        reveal(ReadingView::record);
    }
    let item = state.item->0;
    lemma_lines_read(records, source, phase, mask, i, to, item);
    lemma_lines_tidy(records, i + 1, to);
    lemma_tidy_stays(texts_of_kind(records, i + 1, to, "25"@, 2));
    lemma_tidy_stays(texts_of_kind(records, i + 1, to, "26"@, 5));
    let j = lemma_closed_item(records, source, phase, mask, to as nat);
    reveal(ReadingView::record);
    assert(rows[j] == RowView::Item(item_with_lines(records, item, i + 1, to)));
}

/// A heading that opens with record `i`, with the lines of its title behind it up to
/// before `to`, is read with its number, its level and every line of its title, in order.
pub proof fn law_title_lines_read(source: Seq<char>, text: Seq<char>, i: int, to: int)
    requires
        gaeb_90(source, text) is Ok,
        1 <= i < to <= records_of(text).len(),
        kind_of(records_of(text)[i]) == "11"@,
        masked_oz(
            columns(records_of(text)[i], 2, 11),
            columns(records_of(text)[0], 62, 71),
        ).len() > 0,
        forall|m: int|
            i < m < to ==> kind_of(#[trigger] records_of(text)[m]) == "12"@ && trim(
                columns(records_of(text)[m], 2, 72),
            ).len() > 0,
        to == records_of(text).len() || ends_item(
            records_of(text)[to],
            trim(columns(records_of(text)[0], 10, 12)),
        ),
    ensures
        exists|j: int| #![trigger gaeb_90(source, text)->Ok_0.rows[j]]
            {
                let rows = gaeb_90(source, text)->Ok_0.rows;
                let records = records_of(text);
                let oz = masked_oz(columns(records[i], 2, 11), columns(records[0], 62, 71));
                &&& 0 <= j < rows.len()
                &&& rows[j] == (RowView::Category {
                    oz,
                    title: join(texts_of_kind(records, i + 1, to, "12"@, 2), "\n"@),
                    level: split(oz, '.').len(),
                })
            },
{
    lemma_kinds();
    let records = records_of(text);
    let phase = trim(columns(records[0], 10, 12));
    let mask = columns(records[0], 62, 71);
    let rows = gaeb_90(source, text)->Ok_0.rows;
    let whole = read_until(records, records.len(), source, phase, mask);
    lemma_title_read(records, source, phase, mask, i, to);
    let state = read_until(records, to as nat, source, phase, mask);
    let j = state.category->0 as int;
    lemma_reading_keeps(records, source, phase, mask, 1, to as nat);
    if to < records.len() {
        let next = read_until(records, (to + 1) as nat, source, phase, mask);
        assert(next == state.record(records[to], phase, mask));
        assert(next.document.rows.len() > j && next.document.rows[j] == state.document.rows[j]
            && next.category != Some(j as nat)) by {
            reveal(ReadingView::record);
        }
        lemma_reading_keeps(records, source, phase, mask, (to + 1) as nat, records.len());
        assert(whole.document.rows[j] == next.document.rows[j]);
    }
    assert(rows[j] == state.document.rows[j]);
}

proof fn lemma_title_read(
    records: Seq<Seq<char>>,
    source: Seq<char>,
    phase: Seq<char>,
    mask: Seq<char>,
    i: int,
    to: int,
)
    requires
        1 <= i < to <= records.len(),
        kind_of(records[i]) == "11"@,
        masked_oz(columns(records[i], 2, 11), mask).len() > 0,
        forall|m: int|
            i < m < to ==> kind_of(#[trigger] records[m]) == "12"@ && trim(
                columns(records[m], 2, 72),
            ).len() > 0,
    ensures
        ({
            let after = read_until(records, to as nat, source, phase, mask);
            let oz = masked_oz(columns(records[i], 2, 11), mask);
            &&& after.item is None
            &&& after.category is Some
            &&& after.category->0 < after.document.rows.len()
            &&& after.document.rows[after.category->0 as int] == (RowView::Category {
                oz,
                title: join(texts_of_kind(records, i + 1, to, "12"@, 2), "\n"@),
                level: split(oz, '.').len(),
            })
            &&& all_tidy(texts_of_kind(records, i + 1, to, "12"@, 2))
        }),
    decreases to - i,
{
    lemma_kinds();
    let after = read_until(records, to as nat, source, phase, mask);
    reveal(ReadingView::record);
    if to > i + 1 {
        lemma_title_read(records, source, phase, mask, i, to - 1);
        let last = records[to - 1];
        assert(kind_of(last) == "12"@ && trim(columns(last, 2, 72)).len() > 0);
        lemma_line_tidy(last, 2);
        lemma_with_line(
            texts_of_kind(records, i + 1, to - 1, "12"@, 2),
            trim(columns(last, 2, 72)),
        );
    } else {
        assert(after == read_until(records, i as nat, source, phase, mask).record(
            records[i],
            phase,
            mask,
        ));
        assert(texts_of_kind(records, i + 1, to, "12"@, 2) =~= seq![]);
        assert(join(Seq::<Seq<char>>::empty(), "\n"@) =~= Seq::<char>::empty());
    }
}

/// How many of rows are items.
pub open spec fn item_count(rows: Seq<RowView>) -> nat
    decreases rows.len(),
{
    if rows.len() == 0 {
        0
    } else {
        item_count(rows.drop_last()) + (if rows.last() is Item {
            1nat
        } else {
            0nat
        })
    }
}

/// How many of the records behind the header, up to before `n`, open an item.
pub open spec fn openings(records: Seq<Seq<char>>, n: int, phase: Seq<char>) -> nat
    decreases n,
{
    if n <= 1 {
        0
    } else {
        openings(records, n - 1, phase) + (if kind_of(records[n - 1]) == "21"@ || (kind_of(
            records[n - 1],
        ) == "23"@ && phase == "84"@) {
            1nat
        } else {
            0nat
        })
    }
}

proof fn lemma_count_push(rows: Seq<RowView>, row: RowView)
    ensures
        item_count(rows.push(row)) == item_count(rows) + (if row is Item {
            1nat
        } else {
            0nat
        }),
{
    assert(rows.push(row).drop_last() =~= rows);
}

proof fn lemma_count_retitled(rows: Seq<RowView>, index: int, row: RowView)
    requires
        0 <= index < rows.len(),
        !(rows[index] is Item),
        !(row is Item),
    ensures
        item_count(rows.update(index, row)) == item_count(rows),
    decreases rows.len(),
{
    let changed = rows.update(index, row);
    if index == rows.len() - 1 {
        assert(changed.drop_last() =~= rows.drop_last());
    } else {
        assert(changed.drop_last() =~= rows.drop_last().update(index, row));
        lemma_count_retitled(rows.drop_last(), index, row);
    }
}

proof fn lemma_items_counted(
    records: Seq<Seq<char>>,
    n: nat,
    source: Seq<char>,
    phase: Seq<char>,
    mask: Seq<char>,
)
    requires
        1 <= n <= records.len(),
    ensures
        item_count(read_until(records, n, source, phase, mask).closed().document.rows) == openings(
            records,
            n as int,
            phase,
        ),
    decreases n,
{
    lemma_kinds();
    if n > 1 {
        lemma_items_counted(records, (n - 1) as nat, source, phase, mask);
        let before = read_until(records, (n - 1) as nat, source, phase, mask);
        let after = read_until(records, n, source, phase, mask);
        let rows = before.closed().document.rows;
        let record = records[n - 1];
        let kind = kind_of(record);
        lemma_reading_keeps(records, source, phase, mask, 1, (n - 1) as nat);
        reveal(ReadingView::record);
        if kind == "11"@ {
            let oz = masked_oz(columns(record, 2, 11), mask);
            lemma_count_push(
                rows,
                RowView::Category { oz, title: seq![], level: split(oz, '.').len() },
            );
        } else if kind == "12"@ {
            if let Some(title) = title_at(before.document.rows, before.category) {
                let index = before.category->0 as int;
                let line = with_line(title, trim(columns(record, 2, 72)));
                let row = retitled(before.document.rows, index, line)[index];
                lemma_count_retitled(before.document.rows, index, row);
                if before.item is Some {
                    lemma_count_push(before.document.rows, rows.last());
                    lemma_count_push(after.document.rows, rows.last());
                }
            }
        } else if kind == "21"@ || (kind == "23"@ && phase == "84"@) {
            lemma_count_push(rows, after.closed().document.rows.last());
        } else if kind == "25"@ || kind == "26"@ {
            if before.item is Some {
                lemma_count_push(before.document.rows, rows.last());
                lemma_count_push(before.document.rows, after.closed().document.rows.last());
            }
        }
    } else {
        assert(item_count(seq![]) == 0);
    }
}

/// Every record that opens an item gives one item, and nothing else does.
pub proof fn law_each_item_once(source: Seq<char>, text: Seq<char>)
    requires
        gaeb_90(source, text) is Ok,
    ensures
        item_count(gaeb_90(source, text)->Ok_0.rows) == openings(
            records_of(text),
            records_of(text).len() as int,
            trim(columns(records_of(text)[0], 10, 12)),
        ),
{
    let records = records_of(text);
    lemma_items_counted(
        records,
        records.len(),
        source,
        trim(columns(records[0], 10, 12)),
        columns(records[0], 62, 71),
    );
}

proof fn lemma_head_records(
    records: Seq<Seq<char>>,
    n: nat,
    source: Seq<char>,
    phase: Seq<char>,
    mask: Seq<char>,
    i: int,
)
    requires
        1 <= i < n <= records.len(),
        forall|m: int| i < m < n ==> kind_of(#[trigger] records[m]) != kind_of(records[i]),
    ensures
        ({
            let read = read_until(records, n, source, phase, mask).document;
            &&& kind_of(records[i]) == "01"@ ==> read.project == trim(columns(records[i], 2, 42))
            &&& kind_of(records[i]) == "02"@ ==> read.boq == trim(columns(records[i], 2, 72))
            &&& kind_of(records[i]) == "08"@ && trim(columns(records[i], 2, 5)).len() > 0
                ==> read.currency == trim(columns(records[i], 2, 5))
        }),
    decreases n,
{
    lemma_kinds();
    reveal(ReadingView::record);
    if i < n - 1 {
        lemma_head_records(records, (n - 1) as nat, source, phase, mask, i);
        assert(kind_of(records[n - 1]) != kind_of(records[i]));
    } else {
        assert(read_until(records, n, source, phase, mask) == read_until(
            records,
            (n - 1) as nat,
            source,
            phase,
            mask,
        ).record(records[i], phase, mask));
    }
}

/// The project, the bill and the currency are those that the last record of their kind
/// states.
pub proof fn law_head_records_read(source: Seq<char>, text: Seq<char>, i: int)
    requires
        gaeb_90(source, text) is Ok,
        1 <= i < records_of(text).len(),
        forall|m: int|
            i < m < records_of(text).len() ==> kind_of(#[trigger] records_of(text)[m]) != kind_of(
                records_of(text)[i],
            ),
    ensures
        ({
            let read = gaeb_90(source, text)->Ok_0;
            let record = records_of(text)[i];
            &&& kind_of(record) == "01"@ ==> read.project == trim(columns(record, 2, 42))
            &&& kind_of(record) == "02"@ ==> read.boq == trim(columns(record, 2, 72))
            &&& kind_of(record) == "08"@ && trim(columns(record, 2, 5)).len() > 0
                ==> read.currency == trim(columns(record, 2, 5))
        }),
{
    let records = records_of(text);
    lemma_head_records(
        records,
        records.len(),
        source,
        trim(columns(records[0], 10, 12)),
        columns(records[0], 62, 71),
        i,
    );
}

} // verus!
