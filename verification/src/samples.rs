//! The log of usage samples: its file, and how it grows.

use crate::binary64::Binary64;
use crate::decimal::{
    decimal, integer, law_decimal_round_trip, lemma_decimal_is_word, parse_integer, push_decimal,
};
use crate::table::{is_closed, is_word, joined, law_lines_concat, law_table_round_trip, table};
use crate::text::{bounded, chars_of, line_bounds, lines, string_of, word_bounds, words};
use vstd::prelude::*;

verus! {

/// The least number of seconds between two samples.
pub const SAMPLE_GAP: i64 = 10;

/// The number of seconds for which a sample is kept.
pub const KEEP: i64 = 43200;

/// The usage at one time: for each of the two limits, the percentage used and the
/// time at which the limit's window resets.
#[derive(Clone, Copy, Debug, PartialEq, Eq, Structural)]
pub struct Sample {
    pub ts: i64,
    pub five: Binary64,
    pub five_reset: i64,
    pub seven: Binary64,
    pub seven_reset: i64,
}

/// A sample as it stands in the file, the percentages still in writing.
#[derive(Debug)]
pub struct SampleRow {
    pub ts: i64,
    pub five: String,
    pub five_reset: i64,
    pub seven: String,
    pub seven_reset: i64,
}

/// The view of a `SampleRow`.
#[verifier::ext_equal]
pub struct SampleText {
    pub ts: i64,
    pub five: Seq<char>,
    pub five_reset: i64,
    pub seven: Seq<char>,
    pub seven_reset: i64,
}

impl View for SampleRow {
    type V = SampleText;

    open spec fn view(&self) -> SampleText {
        SampleText {
            ts: self.ts,
            five: self.five@,
            five_reset: self.five_reset,
            seven: self.seven@,
            seven_reset: self.seven_reset,
        }
    }
}

/// The views of rows.
pub open spec fn row_views(rows: Seq<SampleRow>) -> Seq<SampleText> {
    rows.map_values(|r: SampleRow| r@)
}

/// The sample that a line of five words stands for, where the three words for times
/// are integers.
pub open spec fn sample_of_words(w: Seq<Seq<char>>) -> Option<SampleText> {
    if w.len() == 5 && integer(w[0]) is Some && integer(w[2]) is Some && integer(w[4]) is Some {
        Some(
            SampleText {
                ts: integer(w[0])->0,
                five: w[1],
                five_reset: integer(w[2])->0,
                seven: w[3],
                seven_reset: integer(w[4])->0,
            },
        )
    } else {
        None
    }
}

/// The samples among the lines, the other lines left out.
pub open spec fn samples_of_lines(ls: Seq<Seq<char>>) -> Seq<SampleText>
    decreases ls.len(),
{
    if ls.len() == 0 {
        Seq::empty()
    } else {
        let head = samples_of_lines(ls.drop_last());
        match sample_of_words(words(ls.last())) {
            Some(row) => head.push(row),
            None => head,
        }
    }
}

/// The words of a sample's line.
pub open spec fn sample_words(row: SampleText) -> Seq<Seq<char>> {
    seq![
        decimal(row.ts as int),
        row.five,
        decimal(row.five_reset as int),
        row.seven,
        decimal(row.seven_reset as int),
    ]
}

/// The file of the given samples.
pub open spec fn samples_file(rows: Seq<SampleText>) -> Seq<char> {
    table(rows.map_values(|r: SampleText| sample_words(r)))
}

/// The samples whose two percentages are numbers, the others left out.
pub open spec fn valued(
    rows: Seq<SampleText>,
    values: Seq<Option<(Binary64, Binary64)>>,
) -> Seq<Sample>
    decreases rows.len(),
{
    if rows.len() == 0 {
        Seq::empty()
    } else {
        let head = valued(rows.drop_last(), values.drop_last());
        let row = rows.last();
        match values.last() {
            Some((five, seven)) => head.push(
                Sample {
                    ts: row.ts,
                    five,
                    five_reset: row.five_reset,
                    seven,
                    seven_reset: row.seven_reset,
                },
            ),
            None => head,
        }
    }
}

/// Whether the next sample is due: none is there yet, or the last one is old enough.
pub open spec fn is_due(samples: Seq<Sample>, now: i64) -> bool {
    samples.len() == 0 || now - samples.last().ts >= SAMPLE_GAP
}

/// Whether a sample is still to be kept.
pub open spec fn is_kept(now: i64) -> spec_fn(Sample) -> bool {
    |s: Sample| s.ts >= now - KEEP
}

/// The sample taken at `now`; a limit without a reading is marked by a negative
/// percentage, minus one.
pub open spec fn sample_at(
    now: i64,
    five: (Binary64, i64),
    seven: Option<(Binary64, i64)>,
) -> Sample {
    Sample {
        ts: now,
        five: five.0,
        five_reset: five.1,
        seven: match seven {
            Some(s) => s.0,
            None => Binary64 { bits: MINUS_ONE },
        },
        seven_reset: match seven {
            Some(s) => s.1,
            None => 0,
        },
    }
}

/// The bits of the number minus one.
pub const MINUS_ONE: u64 = 0xbff0_0000_0000_0000;

/// The log after a sample was offered at `now`.
pub open spec fn grown(
    samples: Seq<Sample>,
    now: i64,
    five: (Binary64, i64),
    seven: Option<(Binary64, i64)>,
) -> Seq<Sample> {
    if is_due(samples, now) {
        samples.push(sample_at(now, five, seven)).filter(is_kept(now))
    } else {
        samples
    }
}

/// Reads the lines of a sample file. A line that does not have five words, or whose
/// times are not integers, is skipped. Without a file there are no samples.
pub fn load_samples(file: Option<&str>) -> (r: Vec<SampleRow>)
    ensures
        match file {
            Some(data) => row_views(r@) == samples_of_lines(lines(data@)),
            None => r@.len() == 0,
        },
{
    let data: &str = match file {
        Some(data) => data,
        None => return Vec::new(),
    };
    let v: Vec<char> = chars_of(data);
    let ls: Vec<(usize, usize)> = line_bounds(&v);
    let mut r: Vec<SampleRow> = Vec::new();
    let ghost all = lines(data@);
    let mut i: usize = 0;
    while i < ls.len()
        invariant
            i <= ls@.len(),
            all == bounded(v@, ls@),
            forall|k: int| 0 <= k < ls@.len() ==> (#[trigger] ls@[k]).0 <= ls@[k].1 <= v@.len(),
            row_views(r@) == samples_of_lines(all.take(i as int)),
        decreases ls@.len() - i,
    {
        let from: usize = ls[i].0;
        let to: usize = ls[i].1;
        let w: Vec<(usize, usize)> = word_bounds(&v, from, to);
        let ghost ws = bounded(v@, w@);
        let ghost before = r@;
        proof {
            let t = all.take(i + 1);
            assert(t.drop_last() == all.take(i as int));
            assert(t.last() == v@.subrange(from as int, to as int));
        }
        if w.len() == 5 {
            let ts: Option<i64> = parse_integer(&v, w[0].0, w[0].1);
            let five_reset: Option<i64> = parse_integer(&v, w[2].0, w[2].1);
            let seven_reset: Option<i64> = parse_integer(&v, w[4].0, w[4].1);
            assert(forall|k: int|
                0 <= k < 5 ==> #[trigger] ws[k] == v@.subrange(w@[k].0 as int, w@[k].1 as int));
            assert(ts == integer(ws[0]));
            assert(five_reset == integer(ws[2]));
            assert(seven_reset == integer(ws[4]));
            if let (Some(ts), Some(five_reset), Some(seven_reset)) = (ts, five_reset, seven_reset) {
                let five: String = string_of(&v, w[1].0, w[1].1);
                let seven: String = string_of(&v, w[3].0, w[3].1);
                let row: SampleRow = SampleRow { ts, five, five_reset, seven, seven_reset };
                assert(Some(row@) == sample_of_words(ws));
                r.push(row);
                assert(row_views(r@) == row_views(before).push(row@));
            }
        }
        i = i + 1;
    }
    assert(all.take(all.len() as int) == all);
    r
}

/// Joins the rows of a sample file with their percentages, as far as these are
/// numbers.
pub fn value_samples(rows: &Vec<SampleRow>, values: &Vec<Option<(Binary64, Binary64)>>) -> (r: Vec<
    Sample,
>)
    requires
        rows@.len() == values@.len(),
    ensures
        r@ == valued(row_views(rows@), values@),
{
    let mut r: Vec<Sample> = Vec::new();
    let mut i: usize = 0;
    let ghost texts = row_views(rows@);
    while i < rows.len()
        invariant
            i <= rows@.len() == values@.len(),
            texts == row_views(rows@),
            r@ == valued(texts.take(i as int), values@.take(i as int)),
        decreases rows@.len() - i,
    {
        proof {
            assert(texts.take(i + 1).drop_last() == texts.take(i as int));
            assert(values@.take(i + 1).drop_last() == values@.take(i as int));
            assert(texts.take(i + 1).last() == rows@[i as int]@);
        }
        if let Some((five, seven)) = values[i] {
            r.push(
                Sample {
                    ts: rows[i].ts,
                    five,
                    five_reset: rows[i].five_reset,
                    seven,
                    seven_reset: rows[i].seven_reset,
                },
            );
        }
        i = i + 1;
    }
    assert(texts.take(texts.len() as int) == texts);
    assert(values@.take(values@.len() as int) == values@);
    r
}

/// Writes the line of one sample.
fn push_row(out: &mut String, row: &SampleRow)
    ensures
        final(out)@ == old(out)@ + joined(sample_words(row@)) + seq!['\n'],
{
    let ghost ws = sample_words(row@);
    push_decimal(out, row.ts);
    out.push(' ');
    out.append(row.five.as_str());
    out.push(' ');
    let ghost two = ws[0] + seq![' '] + ws[1] + seq![' '];
    assert(out@ == old(out)@ + two);
    push_decimal(out, row.five_reset);
    out.push(' ');
    out.append(row.seven.as_str());
    out.push(' ');
    let ghost four = two + ws[2] + seq![' '] + ws[3] + seq![' '];
    assert(out@ == old(out)@ + four);
    push_decimal(out, row.seven_reset);
    proof {
        lemma_joined_five(ws);
        assert(four + ws[4] == joined(ws));
        assert(out@ == old(out)@ + joined(ws));
    }
    out.push('\n');
}

/// Writes a sample file.
pub fn render_samples(rows: &Vec<SampleRow>) -> (r: String)
    ensures
        r@ == samples_file(row_views(rows@)),
{
    let mut out: String = String::new();
    let ghost records = row_views(rows@).map_values(|r: SampleText| sample_words(r));
    let mut i: usize = 0;
    while i < rows.len()
        invariant
            i <= rows@.len(),
            records == row_views(rows@).map_values(|r: SampleText| sample_words(r)),
            out@ == table(records.take(i as int)),
        decreases rows@.len() - i,
    {
        let ghost before = out@;
        push_row(&mut out, &rows[i]);
        proof {
            let t = records.take(i + 1);
            assert(t.drop_last() == records.take(i as int));
            assert(t.last() == sample_words(rows@[i as int]@));
            assert(table(t) == before + joined(t.last()) + seq!['\n']);
        }
        i = i + 1;
    }
    assert(records.take(records.len() as int) == records);
    out
}

proof fn lemma_joined_five(ws: Seq<Seq<char>>)
    requires
        ws.len() == 5,
    ensures
        joined(ws) == ws[0] + seq![' '] + ws[1] + seq![' '] + ws[2] + seq![' '] + ws[3] + seq![' ']
            + ws[4],
{
    reveal_with_fuel(joined, 5);
    assert(ws.skip(1).skip(1) == ws.skip(2));
    assert(ws.skip(2).skip(1) == ws.skip(3));
    assert(ws.skip(3).skip(1) == ws.skip(4));
    assert(joined(ws.skip(4)) == ws[4]);
    assert(joined(ws.skip(3)) == ws[3] + seq![' '] + ws[4]);
    assert(joined(ws.skip(2)) == ws[2] + seq![' '] + joined(ws.skip(3)));
    assert(joined(ws.skip(1)) == ws[1] + seq![' '] + joined(ws.skip(2)));
    assert(joined(ws) == ws[0] + seq![' '] + joined(ws.skip(1)));
    assert(joined(ws) =~= ws[0] + seq![' '] + ws[1] + seq![' '] + ws[2] + seq![' '] + ws[3] + seq![
        ' ',
    ] + ws[4]);
}

/// Takes a sample, unless the last one is too young, and drops the samples that are
/// too old. Returns whether it took one.
pub fn record_sample(
    samples: &mut Vec<Sample>,
    now: i64,
    five: (Binary64, i64),
    seven: Option<(Binary64, i64)>,
) -> (r: bool)
    ensures
        r == is_due(old(samples)@, now),
        final(samples)@ == grown(old(samples)@, now, five, seven),
{
    let n: usize = samples.len();
    if n > 0 && now as i128 - (samples[n - 1].ts as i128) < SAMPLE_GAP as i128 {
        return false;
    }
    let (seven_pct, seven_reset): (Binary64, i64) = match seven {
        Some((p, r)) => (p, r),
        None => (Binary64 { bits: MINUS_ONE }, 0),
    };
    samples.push(
        Sample { ts: now, five: five.0, five_reset: five.1, seven: seven_pct, seven_reset },
    );
    let ghost all = samples@;
    assert(all == old(samples)@.push(sample_at(now, five, seven)));
    let mut kept: Vec<Sample> = Vec::new();
    let mut i: usize = 0;
    proof {
        reveal(Seq::filter);
    }
    while i < samples.len()
        invariant
            i <= samples@.len(),
            samples@ == all,
            kept@ == all.take(i as int).filter(is_kept(now)),
        decreases samples@.len() - i,
    {
        proof {
            reveal(Seq::filter);
            assert(all.take(i + 1).drop_last() == all.take(i as int));
        }
        if samples[i].ts as i128 >= now as i128 - KEEP as i128 {
            kept.push(samples[i]);
        }
        i = i + 1;
    }
    assert(all.take(all.len() as int) == all);
    *samples = kept;
    true
}

/// Samples at least `SAMPLE_GAP` apart, in the order in which they were taken.
pub open spec fn is_spaced(samples: Seq<Sample>) -> bool {
    forall|i: int, j: int|
        0 <= i < j < samples.len() ==> (#[trigger] samples[j]).ts - (#[trigger] samples[i]).ts
            >= SAMPLE_GAP
}

/// A row whose percentages stand as words in a line.
pub open spec fn is_writable(row: SampleText) -> bool {
    is_word(row.five) && is_word(row.seven)
}

proof fn lemma_sample_words(row: SampleText)
    requires
        is_writable(row),
    ensures
        sample_of_words(sample_words(row)) == Some(row),
        forall|j: int| 0 <= j < 5 ==> is_word(#[trigger] sample_words(row)[j]),
{
    law_decimal_round_trip(row.ts);
    law_decimal_round_trip(row.five_reset);
    law_decimal_round_trip(row.seven_reset);
    lemma_decimal_is_word(row.ts as int);
    lemma_decimal_is_word(row.five_reset as int);
    lemma_decimal_is_word(row.seven_reset as int);
}

proof fn lemma_samples_of_lines(ls: Seq<Seq<char>>, rows: Seq<SampleText>)
    requires
        ls.len() == rows.len(),
        forall|i: int|
            0 <= i < rows.len() ==> sample_of_words(words(#[trigger] ls[i])) == Some(rows[i]),
    ensures
        samples_of_lines(ls) == rows,
    decreases ls.len(),
{
    if ls.len() > 0 {
        let head = ls.drop_last();
        let rest = rows.drop_last();
        assert forall|i: int| 0 <= i < rest.len() implies sample_of_words(words(#[trigger] head[i]))
            == Some(rest[i]) by {
            assert(head[i] == ls[i]);
        }
        lemma_samples_of_lines(head, rest);
        assert(ls[ls.len() - 1] == ls.last());
        assert(rest.push(rows.last()) == rows);
    } else {
        assert(rows == Seq::<SampleText>::empty());
    }
}

/// A sample file is read back as the rows that were written.
pub proof fn law_samples_round_trip(rows: Seq<SampleText>)
    requires
        forall|i: int| 0 <= i < rows.len() ==> is_writable(#[trigger] rows[i]),
    ensures
        samples_of_lines(lines(samples_file(rows))) == rows,
{
    let records = rows.map_values(|r: SampleText| sample_words(r));
    assert forall|i: int, j: int|
        0 <= i < records.len() && 0 <= j < records[i].len() implies is_word(
        #[trigger] records[i][j],
    ) by {
        assert(records[i] == sample_words(rows[i]));
        lemma_sample_words(rows[i]);
    }
    law_table_round_trip(records);
    let ls = lines(samples_file(rows));
    let read = ls.map_values(|l: Seq<char>| words(l));
    assert forall|i: int| 0 <= i < rows.len() implies sample_of_words(words(#[trigger] ls[i]))
        == Some(rows[i]) by {
        assert(read[i] == records[i]);
        lemma_sample_words(rows[i]);
    }
    lemma_samples_of_lines(ls, rows);
}

proof fn lemma_samples_add(a: Seq<Seq<char>>, b: Seq<Seq<char>>)
    ensures
        samples_of_lines(a + b) == samples_of_lines(a) + samples_of_lines(b),
    decreases b.len(),
{
    if b.len() == 0 {
        assert(a + b == a);
        assert(samples_of_lines(a) + samples_of_lines(b) == samples_of_lines(a));
    } else {
        let s = a + b;
        assert(s.drop_last() == a + b.drop_last());
        assert(s.last() == b.last());
        lemma_samples_add(a, b.drop_last());
        assert(samples_of_lines(s) == samples_of_lines(a) + samples_of_lines(b));
    }
}

/// What a line of a sample file holds does not bear on how the others are read: the
/// samples of two files in a row, the first ended by a line feed, are those of the
/// one and then those of the other.
pub proof fn law_samples_line_by_line(a: Seq<char>, b: Seq<char>)
    requires
        is_closed(a),
    ensures
        samples_of_lines(lines(a + b)) == samples_of_lines(lines(a)) + samples_of_lines(lines(b)),
{
    law_lines_concat(a, b);
    lemma_samples_add(lines(a), lines(b));
}

proof fn lemma_filter_spaced(samples: Seq<Sample>, p: spec_fn(Sample) -> bool)
    requires
        is_spaced(samples),
    ensures
        is_spaced(samples.filter(p)),
        forall|j: int|
            0 <= j < samples.filter(p).len() ==> p(#[trigger] samples.filter(p)[j])
                && samples.contains(samples.filter(p)[j]),
    decreases samples.len(),
{
    reveal(Seq::filter);
    if samples.len() > 0 {
        let head = samples.drop_last();
        assert forall|i: int, j: int| 0 <= i < j < head.len() implies (#[trigger] head[j]).ts - (
        #[trigger] head[i]).ts >= SAMPLE_GAP by {
            assert(samples[j].ts - samples[i].ts >= SAMPLE_GAP);
        }
        lemma_filter_spaced(head, p);
        let f = head.filter(p);
        assert forall|j: int| 0 <= j < f.len() implies p(#[trigger] f[j]) && samples.contains(f[j])
            && samples.last().ts - f[j].ts >= SAMPLE_GAP by {
            assert(head.contains(f[j]));
            let k = choose|k: int| 0 <= k < head.len() && head[k] == f[j];
            assert(samples[k] == f[j]);
            assert(samples[samples.len() - 1].ts - samples[k].ts >= SAMPLE_GAP);
        }
        assert(samples.contains(samples.last()));
    }
}

/// The log holds at most one sample in any `SAMPLE_GAP` seconds, if it did before.
pub proof fn law_samples_spaced(
    samples: Seq<Sample>,
    now: i64,
    five: (Binary64, i64),
    seven: Option<(Binary64, i64)>,
)
    requires
        is_spaced(samples),
    ensures
        is_spaced(grown(samples, now, five, seven)),
{
    if is_due(samples, now) {
        let s = samples.push(sample_at(now, five, seven));
        assert forall|i: int, j: int| 0 <= i < j < s.len() implies (#[trigger] s[j]).ts - (
        #[trigger] s[i]).ts >= SAMPLE_GAP by {
            if j < samples.len() {
                assert(samples[j].ts - samples[i].ts >= SAMPLE_GAP);
            } else if i < samples.len() - 1 {
                assert(samples[samples.len() - 1].ts - samples[i].ts >= SAMPLE_GAP);
            }
        }
        lemma_filter_spaced(s, is_kept(now));
    }
}

/// Once a sample is taken, it is the last of the log, no sample older than `KEEP` is
/// left, and every younger one still is.
pub proof fn law_samples_kept(
    samples: Seq<Sample>,
    now: i64,
    five: (Binary64, i64),
    seven: Option<(Binary64, i64)>,
)
    requires
        is_due(samples, now),
    ensures
        grown(samples, now, five, seven).len() > 0,
        grown(samples, now, five, seven).last() == sample_at(now, five, seven),
        forall|s: Sample| #[trigger]
            grown(samples, now, five, seven).contains(s) ==> s.ts >= now - KEEP,
        forall|s: Sample|
            samples.contains(s) && s.ts >= now - KEEP ==> #[trigger] grown(
                samples,
                now,
                five,
                seven,
            ).contains(s),
{
    let all = samples.push(sample_at(now, five, seven));
    let g = grown(samples, now, five, seven);
    assert(g.len() > 0 && g.last() == sample_at(now, five, seven)) by {
        reveal(Seq::filter);
        assert(all.drop_last() == samples);
    }
    assert forall|s: Sample| #[trigger] g.contains(s) implies s.ts >= now - KEEP by {
        let i = choose|i: int| 0 <= i < g.len() && g[i] == s;
        all.lemma_filter_pred(is_kept(now), i);
    }
    assert forall|s: Sample| samples.contains(s) && s.ts >= now - KEEP implies
        #[trigger] g.contains(s) by {
        let i = choose|i: int| 0 <= i < samples.len() && samples[i] == s;
        assert(all[i] == s);
        all.lemma_filter_contains(is_kept(now), i);
    }
}

proof fn lemma_valued(
    rows: Seq<SampleText>,
    values: Seq<Option<(Binary64, Binary64)>>,
    samples: Seq<Sample>,
)
    requires
        rows.len() == samples.len(),
        values.len() == samples.len(),
        forall|i: int|
            0 <= i < samples.len() ==> is_written(#[trigger] samples[i], rows[i], values[i]),
    ensures
        valued(rows, values) == samples,
    decreases rows.len(),
{
    if rows.len() > 0 {
        let s = samples.drop_last();
        let r = rows.drop_last();
        let v = values.drop_last();
        assert forall|i: int| 0 <= i < s.len() implies is_written(
            #[trigger] s[i],
            r[i],
            v[i],
        ) by {
            assert(is_written(samples[i], rows[i], values[i]));
        }
        lemma_valued(r, v, s);
        let k = samples.len() - 1;
        assert(is_written(samples[k], rows[k], values[k]));
        assert(s.push(samples.last()) == samples);
    } else {
        assert(samples == Seq::<Sample>::empty());
    }
}

/// Whether a row is how a sample is written, and its percentages are read back as they
/// are.
pub open spec fn is_written(
    s: Sample,
    row: SampleText,
    value: Option<(Binary64, Binary64)>,
) -> bool {
    &&& is_writable(row)
    &&& row.ts == s.ts
    &&& row.five_reset == s.five_reset
    &&& row.seven_reset == s.seven_reset
    &&& value == Some((s.five, s.seven))
}

/// The log is restored from its file, provided that a percentage is read back as it
/// was.
pub proof fn law_log_restored(
    samples: Seq<Sample>,
    rows: Seq<SampleText>,
    values: Seq<Option<(Binary64, Binary64)>>,
)
    requires
        rows.len() == samples.len(),
        values.len() == samples.len(),
        forall|i: int|
            0 <= i < samples.len() ==> is_written(#[trigger] samples[i], rows[i], values[i]),
    ensures
        valued(samples_of_lines(lines(samples_file(rows))), values) == samples,
{
    assert forall|i: int| 0 <= i < rows.len() implies is_writable(#[trigger] rows[i]) by {
        assert(is_written(samples[i], rows[i], values[i]));
    }
    law_samples_round_trip(rows);
    lemma_valued(rows, values, samples);
}

proof fn lemma_filter_places(s: Seq<Sample>, now: i64) -> (at: Seq<int>)
    ensures
        at.len() == s.filter(is_kept(now)).len(),
        forall|i: int|
            0 <= i < at.len() ==> 0 <= #[trigger] at[i] < s.len() && s[at[i]].ts >= now - 43200
                && s.filter(is_kept(now))[i] == s[at[i]],
        forall|i: int, j: int| 0 <= i < j < at.len() ==> #[trigger] at[i] < #[trigger] at[j],
        forall|k: int|
            0 <= k < s.len() && (#[trigger] s[k]).ts >= now - 43200 ==> at.contains(k),
    decreases s.len(),
{
    reveal(Seq::filter);
    if s.len() == 0 {
        Seq::empty()
    } else {
        let t = s.drop_last();
        let n = t.len() as int;
        let head = lemma_filter_places(t, now);
        assert(forall|k: int| 0 <= k < n ==> t[k] == #[trigger] s[k]);
        let at = if s.last().ts >= now - 43200 {
            head.push(n)
        } else {
            head
        };
        assert forall|k: int|
            0 <= k < s.len() && (#[trigger] s[k]).ts >= now - 43200 implies at.contains(k) by {
            if k < n {
                assert(t[k].ts >= now - 43200);
                assert(head.contains(k));
                let i = choose|i: int| 0 <= i < head.len() && head[i] == k;
                assert(at[i] == k);
            } else {
                assert(at[head.len() as int] == n);
            }
        }
        at
    }
}

/// A sample is taken if there is none yet or the last one is at least ten seconds old,
/// and else the log stays as it is. The sample taken is the last of the log and holds
/// the reading of the five-hour limit, and that of the seven-day limit, if there is one.
/// Before it stand, each once and in their order, the samples of the last twelve hours:
/// `at` gives where they stood before.
pub proof fn law_sample_taken(
    samples: Seq<Sample>,
    now: i64,
    five: (Binary64, i64),
    seven: Option<(Binary64, i64)>,
) -> (at: Seq<int>)
    ensures
        ({
            let g = grown(samples, now, five, seven);
            if samples.len() > 0 && now - samples.last().ts < 10 {
                !is_due(samples, now) && g == samples
            } else {
                &&& is_due(samples, now)
                &&& g.len() == at.len() + 1
                &&& g.last().ts == now
                &&& g.last().five == five.0
                &&& g.last().five_reset == five.1
                &&& seven matches Some(s) ==> g.last().seven == s.0 && g.last().seven_reset == s.1
                &&& seven is None ==> g.last().seven.bits == 0xbff0_0000_0000_0000
                    && g.last().seven_reset == 0
                &&& forall|i: int|
                    0 <= i < at.len() ==> 0 <= #[trigger] at[i] < samples.len() && g[i]
                        == samples[at[i]]
                &&& forall|i: int, j: int|
                    0 <= i < j < at.len() ==> #[trigger] at[i] < #[trigger] at[j]
                &&& forall|k: int|
                    0 <= k < samples.len() ==> (#[trigger] samples[k].ts >= now - 43200)
                        == at.contains(k)
            }
        }),
{
    if samples.len() > 0 && now - samples.last().ts < 10 {
        Seq::empty()
    } else {
        let all = samples.push(sample_at(now, five, seven));
        let at = lemma_filter_places(samples, now);
        let g = grown(samples, now, five, seven);
        assert(g == samples.filter(is_kept(now)).push(sample_at(now, five, seven))) by {
            reveal(Seq::filter);
            assert(all.drop_last() == samples);
        }
        assert forall|k: int| 0 <= k < samples.len() implies (#[trigger] samples[k].ts >= now
            - 43200) == at.contains(k) by {
            if at.contains(k) {
                let i = choose|i: int| 0 <= i < at.len() && at[i] == k;
                assert(samples[at[i]].ts >= now - 43200);
            }
        }
        at
    }
}

/// A line of a sample file is read as a sample exactly if it is made up of five words of
/// which the first, the third and the fifth are integers: these are its times, and the
/// other two its percentages. No other line bears on the samples.
pub proof fn law_sample_line(ls: Seq<Seq<char>>, l: Seq<char>)
    ensures
        samples_of_lines(Seq::empty()).len() == 0,
        ({
            let w = words(l);
            let there = samples_of_lines(ls);
            let after = samples_of_lines(ls.push(l));
            if w.len() == 5 && integer(w[0]) is Some && integer(w[2]) is Some && integer(
                w[4],
            ) is Some {
                &&& after.len() == there.len() + 1
                &&& forall|i: int| 0 <= i < there.len() ==> #[trigger] after[i] == there[i]
                &&& Some(after.last().ts) == integer(w[0])
                &&& after.last().five == w[1]
                &&& Some(after.last().five_reset) == integer(w[2])
                &&& after.last().seven == w[3]
                &&& Some(after.last().seven_reset) == integer(w[4])
            } else {
                after == there
            }
        }),
{
    assert(ls.push(l).drop_last() == ls);
}

/// A sample adds one line to its file: its time, then for each of the two limits the
/// percentage and the reset, with a space between each two.
pub proof fn law_sample_written(rows: Seq<SampleText>, row: SampleText)
    ensures
        samples_file(Seq::empty()).len() == 0,
        samples_file(rows.push(row)) == samples_file(rows) + (decimal(row.ts as int) + " "@
            + row.five + " "@ + decimal(row.five_reset as int) + " "@ + row.seven + " "@ + decimal(
            row.seven_reset as int,
        )) + "\n"@,
{
    reveal_strlit(" ");
    reveal_strlit("\n");
    assert(" "@ =~= seq![' ']);
    assert("\n"@ =~= seq!['\n']);
    let f = |r: SampleText| sample_words(r);
    let records = rows.map_values(f);
    let all = rows.push(row).map_values(f);
    assert(all.drop_last() == records);
    assert(all.last() == sample_words(row));
    lemma_joined_five(sample_words(row));
    assert(Seq::<SampleText>::empty().map_values(f).len() == 0);
}

/// A row whose two percentages are numbers is a sample with the times of the row and
/// those percentages; another one is left out.
pub proof fn law_row_valued(
    rows: Seq<SampleText>,
    values: Seq<Option<(Binary64, Binary64)>>,
    row: SampleText,
    value: Option<(Binary64, Binary64)>,
)
    requires
        rows.len() == values.len(),
    ensures
        valued(Seq::empty(), Seq::empty()).len() == 0,
        ({
            let there = valued(rows, values);
            let after = valued(rows.push(row), values.push(value));
            match value {
                Some((five, seven)) => {
                    &&& after.len() == there.len() + 1
                    &&& forall|i: int| 0 <= i < there.len() ==> #[trigger] after[i] == there[i]
                    &&& after.last().ts == row.ts
                    &&& after.last().five == five
                    &&& after.last().five_reset == row.five_reset
                    &&& after.last().seven == seven
                    &&& after.last().seven_reset == row.seven_reset
                },
                None => after == there,
            }
        }),
{
    assert(rows.push(row).drop_last() == rows);
    assert(values.push(value).drop_last() == values);
}

/// The view of rows has one entry for each, with all that the row holds.
pub proof fn law_row_views(rows: Seq<SampleRow>, i: int)
    requires
        0 <= i < rows.len(),
    ensures
        ({
            let row = row_views(rows)[i];
            &&& row_views(rows).len() == rows.len()
            &&& row.ts == rows[i].ts
            &&& row.five == rows[i].five@
            &&& row.five_reset == rows[i].five_reset
            &&& row.seven == rows[i].seven@
            &&& row.seven_reset == rows[i].seven_reset
        }),
{
}

} // verus!
