//! What holds of the files that are read, and of the pages of bills with numbers of four
//! parts.

use crate::document::{DocumentView, RowView};
use crate::four_part_parser::ReadView;
use crate::gaeb2000::{gaeb_2000, lines_read};
use crate::gaeb90::{columns, gaeb_90, read_until, records_of};
use crate::outline::boq_of;
use crate::patterns::{
    first_match, is_matched, FOOTER, OZ_AND_REST, SUBTITLE_SUM, TWO_DIGIT_HEADING,
};
use crate::text::{lines, trim};
use vstd::prelude::*;

verus! {

/// Whether an exchange phase is known: a bill to be filled in, with a request or an offer.
pub open spec fn known_phase(phase: Seq<char>) -> bool {
    phase == seq!['8', '1'] || phase == seq!['8', '3'] || phase == seq!['8', '4']
}

/// Whether rows hold an item.
pub open spec fn some_item(rows: Seq<RowView>) -> bool {
    exists|i: int| 0 <= i < rows.len() && #[trigger] rows[i] is Item
}

/// A GAEB 90 file is read if and only if its first record is a header of 73 characters at
/// least, with a known phase and a mask for the numbers, and an item follows. The phase is
/// that of the header, and the source is that of the file.
pub proof fn law_gaeb_90_taken(source: Seq<char>, text: Seq<char>)
    requires
        lines(text).len() > 0,
    ensures
        ({
            let records = records_of(text);
            let header = records[0];
            let phase = trim(columns(header, 10, 12));
            let mask = columns(header, 62, 71);
            let read = read_until(
                records,
                records.len(),
                source,
                phase,
                mask,
            ).closed().document;
            &&& gaeb_90(source, text) is Ok <==> {
                &&& header.len() >= 73
                &&& header[0] == '0' && header[1] == '0'
                &&& known_phase(trim(header.subrange(10, 12)))
                &&& trim(header.subrange(62, 71)).len() > 0
                &&& some_item(read.rows)
            }
            &&& gaeb_90(source, text) is Ok ==> gaeb_90(source, text)->Ok_0 == read
        }),
{
    let header = records_of(text)[0];
    reveal_strlit("00");
    reveal_strlit("81");
    reveal_strlit("83");
    reveal_strlit("84");
    assert("81"@ =~= seq!['8', '1']);
    assert("83"@ =~= seq!['8', '3']);
    assert("84"@ =~= seq!['8', '4']);
    if header.len() >= 73 {
        assert(columns(header, 10, 12) =~= header.subrange(10, 12));
        assert(columns(header, 62, 71) =~= header.subrange(62, 71));
        assert(columns(header, 0, 2) =~= header.subrange(0, 2));
        assert(header.subrange(0, 2)[0] == header[0] && header.subrange(0, 2)[1] == header[1]);
        if header[0] == '0' && header[1] == '0' {
            assert(header.subrange(0, 2) =~= "00"@);
        }
        if header.subrange(0, 2) == "00"@ {
            assert(header.subrange(0, 2)[0] == '0' && header.subrange(0, 2)[1] == '0');
        }
    }
}

/// A GAEB 90 file without any line is refused.
pub proof fn law_empty_gaeb_90_refused(source: Seq<char>, text: Seq<char>)
    requires
        lines(text).len() == 0,
    ensures
        gaeb_90(source, text) is Err,
{
}

/// A GAEB 2000 file is read if and only if a line of it opens the file, its phase is known,
/// and it holds an item; only a bill that is to be filled in needs none.
pub proof fn law_gaeb_2000_taken(source: Seq<char>, text: Seq<char>)
    ensures
        ({
            let all = lines(text);
            let read = lines_read(all, all.len(), source).closed().document;
            &&& gaeb_2000(source, text) is Ok <==> {
                &&& exists|i: int| 0 <= i < all.len() && trim(#[trigger] all[i]) == "#begin[GAEB]"@
                &&& known_phase(read.exchange_phase)
                &&& read.exchange_phase == seq!['8', '1'] || some_item(read.rows)
            }
            &&& gaeb_2000(source, text) is Ok ==> gaeb_2000(source, text)->Ok_0 == read
        }),
{
    reveal_strlit("81");
    reveal_strlit("83");
    reveal_strlit("84");
    assert("81"@ =~= seq!['8', '1']);
    assert("83"@ =~= seq!['8', '3']);
    assert("84"@ =~= seq!['8', '4']);
}

/// The bill that a file holds has its project and its currency, and names the file it came
/// from; what only a printed bill tells is left open, and there is nothing to warn of.
pub proof fn law_bill_head(document: DocumentView)
    ensures
        boq_of(document).project == document.project,
        boq_of(document).currency == document.currency,
        boq_of(document).source == document.source,
        boq_of(document).client.len() == 0,
        boq_of(document).bidder.len() == 0,
        boq_of(document).preamble.len() == 0,
        boq_of(document).warnings.len() == 0,
{
}

proof fn lemma_prefix(a: Seq<char>, rest: Seq<char>)
    ensures
        a.is_prefix_of(a + rest),
{
    assert((a + rest).subrange(0, a.len() as int) =~= a);
}

/// Where numbers have four parts too, the lines at the head and the foot of a page, and
/// those that name its columns, change nothing of what has been read.
pub proof fn law_four_part_page_lines(state: ReadView, line: Seq<char>, rest: Seq<char>, page: usize)
    requires
        ({
            ||| line.len() == 0
            ||| is_matched(FOOTER@, line)
            ||| line == "Angebot"@ + rest
            ||| line == "Auftraggeber "@ + rest
            ||| line == "Bieter "@ + rest
            ||| line == "Projekt "@ + rest
            ||| line == "LV "@ + rest
            ||| line == "OZ Menge / Einheit EP GB"@ + rest
        }),
    ensures
        state.line(line, page) == state,
{
    lemma_prefix("Angebot"@, rest);
    lemma_prefix("Auftraggeber "@, rest);
    lemma_prefix("Bieter "@, rest);
    lemma_prefix("Projekt "@, rest);
    lemma_prefix("LV "@, rest);
    lemma_prefix("OZ Menge / Einheit EP GB"@, rest);
}

/// Where numbers have four parts, the sum of a subtitle ends the position in front of it,
/// and its line is text of none.
pub proof fn law_four_part_sums(state: ReadView, line: Seq<char>, page: usize)
    requires
        is_matched(SUBTITLE_SUM@, line),
        first_match(OZ_AND_REST@, line) is None,
        first_match(TWO_DIGIT_HEADING@, line) is None,
        state.line(line, page) != state,
    ensures
        state.line(line, page).current is None,
        state.line(line, page).lines.len() == 0,
        state.line(line, page).preamble == state.preamble,
        state.line(line, page).headings == state.headings,
{
}

} // verus!
