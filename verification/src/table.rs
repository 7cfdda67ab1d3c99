//! Text files of records: one line each, made of words with a space between them.

use crate::text::{
    is_space, lemma_line_len, lemma_line_len_is, lemma_word_len_is, line_len, lines, strip_return,
    words,
};
use vstd::prelude::*;

verus! {

/// A text that stands as one word in a line.
pub open spec fn is_word(w: Seq<char>) -> bool {
    w.len() > 0 && forall|i: int| 0 <= i < w.len() ==> !is_space(#[trigger] w[i])
}

/// Words with one space between two of them.
pub open spec fn joined(ws: Seq<Seq<char>>) -> Seq<char>
    decreases ws.len(),
{
    if ws.len() == 0 {
        Seq::empty()
    } else if ws.len() == 1 {
        ws[0]
    } else {
        ws[0] + seq![' '] + joined(ws.skip(1))
    }
}

/// A file: the words of each record on a line of their own, ended by a line feed.
pub open spec fn table(records: Seq<Seq<Seq<char>>>) -> Seq<char>
    decreases records.len(),
{
    if records.len() == 0 {
        Seq::empty()
    } else {
        table(records.drop_last()) + joined(records.last()) + seq!['\n']
    }
}

/// A text that is empty or ends with a line feed.
pub open spec fn is_closed(s: Seq<char>) -> bool {
    s.len() == 0 || s.last() == '\n'
}

/// Where one text ends with a line feed, the lines of two texts in a row are those of
/// the one and then those of the other.
pub proof fn law_lines_concat(a: Seq<char>, b: Seq<char>)
    requires
        is_closed(a),
    ensures
        lines(a + b) == lines(a) + lines(b),
    decreases a.len(),
{
    if a.len() == 0 {
        assert(a + b == b);
        assert(lines(a) + lines(b) == lines(b));
    } else {
        lemma_line_len(a);
        let n = line_len(a) as int;
        if n == a.len() {
            assert(a[a.len() - 1] != '\n');
        }
        let s = a + b;
        assert forall|i: int| 0 <= i < n implies #[trigger] s[i] != '\n' by {
            assert(s[i] == a[i]);
        }
        assert(s[n] == a[n]);
        lemma_line_len_is(s, n);
        assert(s.take(n) == a.take(n));
        let rest = a.skip(n + 1);
        assert(s.skip(n + 1) == rest + b);
        if rest.len() > 0 {
            assert(rest.last() == a.last());
        }
        law_lines_concat(rest, b);
        let first = seq![strip_return(a.take(n))];
        assert(first + (lines(rest) + lines(b)) == first + lines(rest) + lines(b));
    }
}

proof fn lemma_words_joined(ws: Seq<Seq<char>>)
    requires
        forall|i: int| 0 <= i < ws.len() ==> is_word(#[trigger] ws[i]),
    ensures
        words(joined(ws)) == ws,
        ws.len() > 0 ==> joined(ws).len() > 0 && !is_space(joined(ws).last()),
        forall|i: int|
            0 <= i < joined(ws).len() && is_space(#[trigger] joined(ws)[i]) ==> joined(ws)[i]
                == ' ',
    decreases ws.len(),
{
    let s = joined(ws);
    if ws.len() == 0 {
        assert(words(s) == ws);
    } else {
        let w = ws[0];
        assert(is_word(w));
        assert(!is_space(w[0]));
        if ws.len() == 1 {
            lemma_word_len_is(s, w.len() as int);
            assert(s.take(w.len() as int) == w);
            assert(s.skip(w.len() as int).len() == 0);
            assert(words(s.skip(w.len() as int)) == Seq::<Seq<char>>::empty());
            assert(words(s) == ws);
            assert(!is_space(w[w.len() - 1]));
        } else {
            let rest = ws.skip(1);
            assert forall|i: int| 0 <= i < rest.len() implies is_word(#[trigger] rest[i]) by {
                assert(rest[i] == ws[i + 1]);
            }
            lemma_words_joined(rest);
            let t = joined(rest);
            let n = w.len() as int;
            assert forall|i: int| 0 <= i < n implies !is_space(#[trigger] s[i]) by {
                assert(s[i] == w[i]);
            }
            assert(s[n] == ' ');
            lemma_word_len_is(s, n);
            assert(s.take(n) == w);
            let u = s.skip(n);
            assert(u[0] == ' ');
            assert(u.skip(1) == t);
            assert(words(u) == words(t));
            assert(words(s) == seq![w] + rest);
            assert(seq![w] + rest == ws);
            assert(s.last() == t.last());
            assert forall|i: int| 0 <= i < s.len() && is_space(#[trigger] s[i]) implies s[i]
                == ' ' by {
                if i < n {
                    assert(s[i] == w[i]);
                } else if i > n {
                    assert(s[i] == t[i - n - 1]);
                }
            }
        }
    }
}

/// A line of words is read back as those words.
pub proof fn law_words_round_trip(ws: Seq<Seq<char>>)
    requires
        forall|i: int| 0 <= i < ws.len() ==> is_word(#[trigger] ws[i]),
    ensures
        words(joined(ws)) == ws,
{
    lemma_words_joined(ws);
}

/// A file of records is read back, line by line, as the words of those records.
pub proof fn law_table_round_trip(records: Seq<Seq<Seq<char>>>)
    requires
        forall|i: int, j: int|
            0 <= i < records.len() && 0 <= j < records[i].len() ==> is_word(
                #[trigger] records[i][j],
            ),
    ensures
        is_closed(table(records)),
        lines(table(records)).map_values(|l: Seq<char>| words(l)) == records,
    decreases records.len(),
{
    let f = |l: Seq<char>| words(l);
    if records.len() == 0 {
        assert(lines(table(records)).map_values(f) == records);
    } else {
        let head = records.drop_last();
        let ws = records.last();
        assert forall|i: int, j: int|
            0 <= i < head.len() && 0 <= j < head[i].len() implies is_word(
            #[trigger] head[i][j],
        ) by {
            assert(head[i] == records[i]);
        }
        law_table_round_trip(head);
        assert forall|j: int| 0 <= j < ws.len() implies is_word(#[trigger] ws[j]) by {
            assert(records[records.len() - 1][j] == ws[j]);
        }
        lemma_words_joined(ws);
        let l = joined(ws);
        let tail = l + seq!['\n'];
        law_lines_concat(table(head), tail);
        assert(table(records) == table(head) + tail);
        assert forall|i: int| 0 <= i < l.len() implies #[trigger] tail[i] != '\n' by {
            assert(tail[i] == l[i]);
        }
        lemma_line_len_is(tail, l.len() as int);
        assert(tail.take(l.len() as int) == l);
        if ws.len() > 0 {
            assert(strip_return(l) == l);
        }
        assert(tail.skip(l.len() as int + 1).len() == 0);
        assert(lines(tail.skip(l.len() as int + 1)) == Seq::<Seq<char>>::empty());
        assert(lines(tail) == seq![l]);
        assert(lines(table(records)) == lines(table(head)) + seq![l]);
        assert(lines(table(records)).map_values(f) == lines(table(head)).map_values(f).push(ws));
    }
}

/// Words are joined with one space between them.
pub proof fn law_joined(ws: Seq<Seq<char>>, w: Seq<char>)
    requires
        ws.len() > 0,
    ensures
        joined(seq![w]) == w,
        joined(ws.push(w)) == joined(ws) + " "@ + w,
    decreases ws.len(),
{
    reveal_strlit(" ");
    assert(" "@ =~= seq![' ']);
    let all = ws.push(w);
    let rest = ws.skip(1);
    assert(all.skip(1) == rest.push(w));
    if ws.len() == 1 {
        assert(rest.push(w) == seq![w]);
        assert(joined(rest.push(w)) == w);
        assert(joined(all) == ws[0] + seq![' '] + w);
    } else {
        law_joined(rest, w);
        assert(joined(all) == ws[0] + seq![' '] + joined(rest.push(w)));
        assert(joined(all) =~= ws[0] + seq![' '] + joined(rest) + seq![' '] + w);
    }
}

/// A record adds a line at the end of the file.
pub proof fn law_table_line(records: Seq<Seq<Seq<char>>>, words: Seq<Seq<char>>)
    ensures
        table(Seq::empty()).len() == 0,
        table(records.push(words)) == table(records) + joined(words) + "\n"@,
{
    reveal_strlit("\n");
    assert("\n"@ =~= seq!['\n']);
    assert(records.push(words).drop_last() == records);
}

} // verus!
