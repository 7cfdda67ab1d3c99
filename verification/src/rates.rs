//! The file of burn rates, one for each window.

use crate::binary64::Binary64;
use crate::decimal::{
    decimal, integer, law_decimal_round_trip, lemma_decimal_is_word, parse_integer, push_decimal,
};
use crate::table::{is_closed, is_word, joined, law_lines_concat, law_table_round_trip, table};
use crate::text::{bounded, chars_of, line_bounds, lines, string_of, word_bounds, words};
use vstd::prelude::*;

verus! {

/// A rate as it stands in the file, still in writing, and the time of its window's
/// reset.
#[derive(Debug)]
pub struct RateRow {
    pub reset: i64,
    pub rate: String,
}

/// The view of a `RateRow`.
#[verifier::ext_equal]
pub struct RateText {
    pub reset: i64,
    pub rate: Seq<char>,
}

impl View for RateRow {
    type V = RateText;

    open spec fn view(&self) -> RateText {
        RateText { reset: self.reset, rate: self.rate@ }
    }
}

/// The views of rows.
pub open spec fn rate_views(rows: Seq<RateRow>) -> Seq<RateText> {
    rows.map_values(|r: RateRow| r@)
}

/// The rate that a line of two words stands for, where the first is an integer.
pub open spec fn rate_of_words(w: Seq<Seq<char>>) -> Option<RateText> {
    if w.len() == 2 && integer(w[0]) is Some {
        Some(RateText { reset: integer(w[0])->0, rate: w[1] })
    } else {
        None
    }
}

/// The rates among the lines, the other lines left out.
pub open spec fn rates_of_lines(ls: Seq<Seq<char>>) -> Seq<RateText>
    decreases ls.len(),
{
    if ls.len() == 0 {
        Seq::empty()
    } else {
        let head = rates_of_lines(ls.drop_last());
        match rate_of_words(words(ls.last())) {
            Some(row) => head.push(row),
            None => head,
        }
    }
}

/// The words of a rate's line.
pub open spec fn rate_words(row: RateText) -> Seq<Seq<char>> {
    seq![decimal(row.reset as int), row.rate]
}

/// The file of the given rates.
pub open spec fn rates_file(rows: Seq<RateText>) -> Seq<char> {
    table(rows.map_values(|r: RateText| rate_words(r)))
}

/// The rates that are numbers, the others left out.
pub open spec fn valued(rows: Seq<RateText>, values: Seq<Option<Binary64>>) -> Seq<(i64, Binary64)>
    decreases rows.len(),
{
    if rows.len() == 0 {
        Seq::empty()
    } else {
        let head = valued(rows.drop_last(), values.drop_last());
        match values.last() {
            Some(rate) => head.push((rows.last().reset, rate)),
            None => head,
        }
    }
}

/// Reads the lines of a rate file. A line that does not have two words, or whose time
/// is not an integer, is skipped. Without a file there are no rates.
pub fn load_rates(file: Option<&str>) -> (r: Vec<RateRow>)
    ensures
        match file {
            Some(data) => rate_views(r@) == rates_of_lines(lines(data@)),
            None => r@.len() == 0,
        },
{
    let data: &str = match file {
        Some(data) => data,
        None => return Vec::new(),
    };
    let v: Vec<char> = chars_of(data);
    let ls: Vec<(usize, usize)> = line_bounds(&v);
    let mut r: Vec<RateRow> = Vec::new();
    let ghost all = lines(data@);
    let mut i: usize = 0;
    while i < ls.len()
        invariant
            i <= ls@.len(),
            all == bounded(v@, ls@),
            forall|k: int| 0 <= k < ls@.len() ==> (#[trigger] ls@[k]).0 <= ls@[k].1 <= v@.len(),
            rate_views(r@) == rates_of_lines(all.take(i as int)),
        decreases ls@.len() - i,
    {
        let from: usize = ls[i].0;
        let to: usize = ls[i].1;
        let w: Vec<(usize, usize)> = word_bounds(&v, from, to);
        let ghost ws = bounded(v@, w@);
        let ghost before = r@;
        proof {
            let t = all.take(i + 1);
            assert(t.drop_last() == all.take(i as int));
            assert(t.last() == v@.subrange(from as int, to as int));
        }
        if w.len() == 2 {
            assert(forall|k: int|
                0 <= k < 2 ==> #[trigger] ws[k] == v@.subrange(w@[k].0 as int, w@[k].1 as int));
            if let Some(reset) = parse_integer(&v, w[0].0, w[0].1) {
                let rate: String = string_of(&v, w[1].0, w[1].1);
                let row: RateRow = RateRow { reset, rate };
                assert(Some(row@) == rate_of_words(ws));
                r.push(row);
                assert(rate_views(r@) == rate_views(before).push(row@));
            }
        }
        i = i + 1;
    }
    assert(all.take(all.len() as int) == all);
    r
}

/// Joins the rows of a rate file with their rates, as far as these are numbers.
pub fn value_rates(rows: &Vec<RateRow>, values: &Vec<Option<Binary64>>) -> (r: Vec<(i64, Binary64)>)
    requires
        rows@.len() == values@.len(),
    ensures
        r@ == valued(rate_views(rows@), values@),
{
    let mut r: Vec<(i64, Binary64)> = Vec::new();
    let mut i: usize = 0;
    let ghost texts = rate_views(rows@);
    while i < rows.len()
        invariant
            i <= rows@.len() == values@.len(),
            texts == rate_views(rows@),
            r@ == valued(texts.take(i as int), values@.take(i as int)),
        decreases rows@.len() - i,
    {
        proof {
            assert(texts.take(i + 1).drop_last() == texts.take(i as int));
            assert(values@.take(i + 1).drop_last() == values@.take(i as int));
            assert(texts.take(i + 1).last() == rows@[i as int]@);
        }
        if let Some(rate) = values[i] {
            r.push((rows[i].reset, rate));
        }
        i = i + 1;
    }
    assert(texts.take(texts.len() as int) == texts);
    assert(values@.take(values@.len() as int) == values@);
    r
}

/// Writes the line of one rate.
fn push_row(out: &mut String, row: &RateRow)
    ensures
        final(out)@ == old(out)@ + joined(rate_words(row@)) + seq!['\n'],
{
    let ghost ws = rate_words(row@);
    push_decimal(out, row.reset);
    out.push(' ');
    out.append(row.rate.as_str());
    proof {
        reveal_with_fuel(joined, 2);
        assert(joined(ws.skip(1)) == ws[1]);
        assert(out@ == old(out)@ + joined(ws));
    }
    out.push('\n');
}

/// Writes a rate file.
pub fn render_rates(rows: &Vec<RateRow>) -> (r: String)
    ensures
        r@ == rates_file(rate_views(rows@)),
{
    let mut out: String = String::new();
    let ghost records = rate_views(rows@).map_values(|r: RateText| rate_words(r));
    let mut i: usize = 0;
    while i < rows.len()
        invariant
            i <= rows@.len(),
            records == rate_views(rows@).map_values(|r: RateText| rate_words(r)),
            out@ == table(records.take(i as int)),
        decreases rows@.len() - i,
    {
        let ghost before = out@;
        push_row(&mut out, &rows[i]);
        proof {
            let t = records.take(i + 1);
            assert(t.drop_last() == records.take(i as int));
            assert(t.last() == rate_words(rows@[i as int]@));
            assert(table(t) == before + joined(t.last()) + seq!['\n']);
        }
        i = i + 1;
    }
    assert(records.take(records.len() as int) == records);
    out
}

proof fn lemma_rate_words(row: RateText)
    requires
        is_word(row.rate),
    ensures
        rate_of_words(rate_words(row)) == Some(row),
        forall|j: int| 0 <= j < 2 ==> is_word(#[trigger] rate_words(row)[j]),
{
    law_decimal_round_trip(row.reset);
    lemma_decimal_is_word(row.reset as int);
}

proof fn lemma_rates_of_lines(ls: Seq<Seq<char>>, rows: Seq<RateText>)
    requires
        ls.len() == rows.len(),
        forall|i: int|
            0 <= i < rows.len() ==> rate_of_words(words(#[trigger] ls[i])) == Some(rows[i]),
    ensures
        rates_of_lines(ls) == rows,
    decreases ls.len(),
{
    if ls.len() > 0 {
        let head = ls.drop_last();
        let rest = rows.drop_last();
        assert forall|i: int| 0 <= i < rest.len() implies rate_of_words(words(#[trigger] head[i]))
            == Some(rest[i]) by {
            assert(head[i] == ls[i]);
        }
        lemma_rates_of_lines(head, rest);
        assert(ls[ls.len() - 1] == ls.last());
        assert(rest.push(rows.last()) == rows);
    } else {
        assert(rows == Seq::<RateText>::empty());
    }
}

/// A rate file is read back as the rows that were written.
pub proof fn law_rates_round_trip(rows: Seq<RateText>)
    requires
        forall|i: int| 0 <= i < rows.len() ==> is_word((#[trigger] rows[i]).rate),
    ensures
        rates_of_lines(lines(rates_file(rows))) == rows,
{
    let records = rows.map_values(|r: RateText| rate_words(r));
    assert forall|i: int, j: int|
        0 <= i < records.len() && 0 <= j < records[i].len() implies is_word(
        #[trigger] records[i][j],
    ) by {
        assert(records[i] == rate_words(rows[i]));
        lemma_rate_words(rows[i]);
    }
    law_table_round_trip(records);
    let ls = lines(rates_file(rows));
    let read = ls.map_values(|l: Seq<char>| words(l));
    assert forall|i: int| 0 <= i < rows.len() implies rate_of_words(words(#[trigger] ls[i]))
        == Some(rows[i]) by {
        assert(read[i] == records[i]);
        lemma_rate_words(rows[i]);
    }
    lemma_rates_of_lines(ls, rows);
}

proof fn lemma_rates_add(a: Seq<Seq<char>>, b: Seq<Seq<char>>)
    ensures
        rates_of_lines(a + b) == rates_of_lines(a) + rates_of_lines(b),
    decreases b.len(),
{
    if b.len() == 0 {
        assert(a + b == a);
        assert(rates_of_lines(a) + rates_of_lines(b) == rates_of_lines(a));
    } else {
        let s = a + b;
        assert(s.drop_last() == a + b.drop_last());
        assert(s.last() == b.last());
        lemma_rates_add(a, b.drop_last());
        assert(rates_of_lines(s) == rates_of_lines(a) + rates_of_lines(b));
    }
}

/// What a line of a rate file holds does not bear on how the others are read: the
/// rates of two files in a row, the first ended by a line feed, are those of the one
/// and then those of the other.
pub proof fn law_rates_line_by_line(a: Seq<char>, b: Seq<char>)
    requires
        is_closed(a),
    ensures
        rates_of_lines(lines(a + b)) == rates_of_lines(lines(a)) + rates_of_lines(lines(b)),
{
    law_lines_concat(a, b);
    lemma_rates_add(lines(a), lines(b));
}

/// Whether a row is how a rate is written, and the rate is read back as it is.
pub open spec fn is_written(
    entry: (i64, Binary64),
    row: RateText,
    value: Option<Binary64>,
) -> bool {
    &&& is_word(row.rate)
    &&& row.reset == entry.0
    &&& value == Some(entry.1)
}

proof fn lemma_valued(
    rows: Seq<RateText>,
    values: Seq<Option<Binary64>>,
    rates: Seq<(i64, Binary64)>,
)
    requires
        rows.len() == rates.len(),
        values.len() == rates.len(),
        forall|i: int| 0 <= i < rates.len() ==> is_written(#[trigger] rates[i], rows[i], values[i]),
    ensures
        valued(rows, values) == rates,
    decreases rows.len(),
{
    if rows.len() > 0 {
        let h = rates.drop_last();
        let r = rows.drop_last();
        let v = values.drop_last();
        assert forall|i: int| 0 <= i < h.len() implies is_written(
            #[trigger] h[i],
            r[i],
            v[i],
        ) by {
            assert(is_written(rates[i], rows[i], values[i]));
        }
        lemma_valued(r, v, h);
        let k = rates.len() - 1;
        assert(is_written(rates[k], rows[k], values[k]));
        assert(h.push(rates.last()) == rates);
    } else {
        assert(rates == Seq::<(i64, Binary64)>::empty());
    }
}

/// The rates are restored from their file, provided that a rate is read back as it was.
pub proof fn law_rates_restored(
    rates: Seq<(i64, Binary64)>,
    rows: Seq<RateText>,
    values: Seq<Option<Binary64>>,
)
    requires
        rows.len() == rates.len(),
        values.len() == rates.len(),
        forall|i: int| 0 <= i < rates.len() ==> is_written(#[trigger] rates[i], rows[i], values[i]),
    ensures
        valued(rates_of_lines(lines(rates_file(rows))), values) == rates,
{
    assert forall|i: int| 0 <= i < rows.len() implies is_word((#[trigger] rows[i]).rate) by {
        assert(is_written(rates[i], rows[i], values[i]));
    }
    law_rates_round_trip(rows);
    lemma_valued(rows, values, rates);
}

/// A line of a rate file is read as a rate exactly if it is made up of two words of
/// which the first is an integer, the time of the reset; the second is the rate. No
/// other line bears on the rates.
pub proof fn law_rate_line(ls: Seq<Seq<char>>, l: Seq<char>)
    ensures
        rates_of_lines(Seq::empty()).len() == 0,
        ({
            let w = words(l);
            let there = rates_of_lines(ls);
            let after = rates_of_lines(ls.push(l));
            if w.len() == 2 && integer(w[0]) is Some {
                &&& after.len() == there.len() + 1
                &&& forall|i: int| 0 <= i < there.len() ==> #[trigger] after[i] == there[i]
                &&& Some(after.last().reset) == integer(w[0])
                &&& after.last().rate == w[1]
            } else {
                after == there
            }
        }),
{
    assert(ls.push(l).drop_last() == ls);
}

/// A rate adds one line to its file: the time of the reset, a space, and the rate.
pub proof fn law_rate_written(rows: Seq<RateText>, row: RateText)
    ensures
        rates_file(Seq::empty()).len() == 0,
        rates_file(rows.push(row)) == rates_file(rows) + (decimal(row.reset as int) + " "@
            + row.rate) + "\n"@,
{
    reveal_strlit(" ");
    reveal_strlit("\n");
    assert(" "@ =~= seq![' ']);
    assert("\n"@ =~= seq!['\n']);
    let f = |r: RateText| rate_words(r);
    let all = rows.push(row).map_values(f);
    let ws = rate_words(row);
    assert(all.drop_last() == rows.map_values(f));
    assert(all.last() == ws);
    reveal_with_fuel(joined, 2);
    assert(joined(ws.skip(1)) == ws[1]);
    assert(Seq::<RateText>::empty().map_values(f).len() == 0);
}

/// A row whose rate is a number holds that rate for the reset of the row; another one is
/// left out.
pub proof fn law_row_valued(
    rows: Seq<RateText>,
    values: Seq<Option<Binary64>>,
    row: RateText,
    value: Option<Binary64>,
)
    requires
        rows.len() == values.len(),
    ensures
        valued(Seq::empty(), Seq::empty()).len() == 0,
        ({
            let there = valued(rows, values);
            let after = valued(rows.push(row), values.push(value));
            match value {
                Some(rate) => after == there.push((row.reset, rate)),
                None => after == there,
            }
        }),
{
    assert(rows.push(row).drop_last() == rows);
    assert(values.push(value).drop_last() == values);
}

/// The view of rows has one entry for each, with all that the row holds.
pub proof fn law_rate_views(rows: Seq<RateRow>, i: int)
    requires
        0 <= i < rows.len(),
    ensures
        rate_views(rows).len() == rows.len(),
        rate_views(rows)[i].reset == rows[i].reset,
        rate_views(rows)[i].rate == rows[i].rate@,
{
}

} // verus!
