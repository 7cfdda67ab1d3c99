//! Characters, words and lines, and the search for a text within another.
//!
//! Text is modelled as `Seq<char>`, the view of `str` and `String`.

use vstd::prelude::*;

verus! {

/// `String::push` appends one character at the end.
pub assume_specification[ String::push ](s: &mut String, c: char)
    ensures
        final(s)@ == old(s)@.push(c),
;

/// The view of an optional string.
pub open spec fn text_view(text: Option<String>) -> Option<Seq<char>> {
    match text {
        Some(t) => Some(t@),
        None => None,
    }
}

/// The view of an optional string slice.
pub open spec fn str_view(text: Option<&str>) -> Option<Seq<char>> {
    match text {
        Some(t) => Some(t@),
        None => None,
    }
}

/// The characters with the Unicode property White_Space.
pub open spec fn is_space(c: char) -> bool {
    let u = c as u32;
    ||| 0x09 <= u <= 0x0d
    ||| u == 0x20
    ||| u == 0x85
    ||| u == 0xa0
    ||| u == 0x1680
    ||| 0x2000 <= u <= 0x200a
    ||| u == 0x2028
    ||| u == 0x2029
    ||| u == 0x202f
    ||| u == 0x205f
    ||| u == 0x3000
}

/// The number of characters before the first white space, or all of them.
pub open spec fn word_len(s: Seq<char>) -> nat
    decreases s.len(),
{
    if s.len() == 0 || is_space(s[0]) {
        0
    } else {
        1 + word_len(s.skip(1))
    }
}

/// The maximal runs of characters that are not white space, in order.
pub open spec fn words(s: Seq<char>) -> Seq<Seq<char>>
    decreases s.len(),
{
    proof {
        lemma_word_len(s);
    }
    if s.len() == 0 {
        Seq::empty()
    } else if is_space(s[0]) {
        words(s.skip(1))
    } else {
        seq![s.take(word_len(s) as int)] + words(s.skip(word_len(s) as int))
    }
}

/// What is left of `s` without its leading white space.
pub open spec fn trim_start(s: Seq<char>) -> Seq<char>
    decreases s.len(),
{
    if s.len() > 0 && is_space(s[0]) {
        trim_start(s.skip(1))
    } else {
        s
    }
}

/// The number of characters before the first line feed, or all of them.
pub open spec fn line_len(s: Seq<char>) -> nat
    decreases s.len(),
{
    if s.len() == 0 || s[0] == '\n' {
        0
    } else {
        1 + line_len(s.skip(1))
    }
}

/// A line without the carriage return that may stand before its line feed.
pub open spec fn strip_return(s: Seq<char>) -> Seq<char> {
    if s.len() > 0 && s.last() == '\r' {
        s.drop_last()
    } else {
        s
    }
}

/// The lines of `s`. Each ends at a line feed, before which one carriage return is
/// dropped; the last may end with the text instead.
pub open spec fn lines(s: Seq<char>) -> Seq<Seq<char>>
    decreases s.len(),
{
    proof {
        lemma_line_len(s);
    }
    let n = line_len(s) as int;
    if s.len() == 0 {
        Seq::empty()
    } else if n == s.len() {
        seq![s]
    } else {
        seq![strip_return(s.take(n))] + lines(s.skip(n + 1))
    }
}

pub proof fn lemma_word_len(s: Seq<char>)
    ensures
        word_len(s) <= s.len(),
        forall|i: int| 0 <= i < word_len(s) ==> !is_space(#[trigger] s[i]),
        word_len(s) < s.len() ==> is_space(s[word_len(s) as int]),
    decreases s.len(),
{
    if s.len() > 0 && !is_space(s[0]) {
        let t = s.skip(1);
        lemma_word_len(t);
        assert forall|i: int| 0 <= i < word_len(s) implies !is_space(#[trigger] s[i]) by {
            if i > 0 {
                assert(s[i] == t[i - 1]);
            }
        }
    }
}

pub proof fn lemma_line_len(s: Seq<char>)
    ensures
        line_len(s) <= s.len(),
        forall|i: int| 0 <= i < line_len(s) ==> #[trigger] s[i] != '\n',
        line_len(s) < s.len() ==> s[line_len(s) as int] == '\n',
    decreases s.len(),
{
    if s.len() > 0 && s[0] != '\n' {
        let t = s.skip(1);
        lemma_line_len(t);
        assert forall|i: int| 0 <= i < line_len(s) implies #[trigger] s[i] != '\n' by {
            if i > 0 {
                assert(s[i] == t[i - 1]);
            }
        }
    }
}

/// `word_len` is the only number with the properties of `lemma_word_len`.
pub proof fn lemma_word_len_is(s: Seq<char>, n: int)
    requires
        0 <= n <= s.len(),
        forall|i: int| 0 <= i < n ==> !is_space(#[trigger] s[i]),
        n < s.len() ==> is_space(s[n]),
    ensures
        word_len(s) == n,
{
    lemma_word_len(s);
    let w = word_len(s) as int;
    if w < n {
        assert(!is_space(s[w]));
    } else if n < w {
        assert(is_space(s[n]));
    }
}

/// `line_len` is the only number with the properties of `lemma_line_len`.
pub proof fn lemma_line_len_is(s: Seq<char>, n: int)
    requires
        0 <= n <= s.len(),
        forall|i: int| 0 <= i < n ==> #[trigger] s[i] != '\n',
        n < s.len() ==> s[n] == '\n',
    ensures
        line_len(s) == n,
{
    lemma_line_len(s);
    let w = line_len(s) as int;
    if w < n {
        assert(s[w] != '\n');
    } else if n < w {
        assert(s[n] == '\n');
    }
}

/// Whether `c` is white space.
pub fn space(c: char) -> (r: bool)
    ensures
        r == is_space(c),
{
    let u: u32 = c as u32;
    (0x09 <= u && u <= 0x0d) || u == 0x20 || u == 0x85 || u == 0xa0 || u == 0x1680 || (0x2000 <= u
        && u <= 0x200a) || u == 0x2028 || u == 0x2029 || u == 0x202f || u == 0x205f || u == 0x3000
}

/// The characters of `s`.
pub fn chars_of(s: &str) -> (r: Vec<char>)
    ensures
        r@ == s@,
{
    let mut r: Vec<char> = Vec::new();
    for c in it: s.chars()
        invariant
            it.seq() == s@,
            r@ == it.seq().take(it.index()),
    {
        r.push(c);
        assert(r@ == it.seq().take(it.index() + 1));
    }
    assert(s@.take(s@.len() as int) == s@);
    r
}

/// The characters of `v` from `from` on and before `to`, as a string.
pub fn string_of(v: &Vec<char>, from: usize, to: usize) -> (r: String)
    requires
        from <= to <= v@.len(),
    ensures
        r@ == v@.subrange(from as int, to as int),
{
    let mut r: String = String::new();
    let mut i: usize = from;
    while i < to
        invariant
            from <= i <= to <= v@.len(),
            r@ == v@.subrange(from as int, i as int),
        decreases to - i,
    {
        r.push(v[i]);
        i = i + 1;
        assert(r@ == v@.subrange(from as int, i as int));
    }
    r
}

/// The first position from `from` on, and before `to`, that is white space (where
/// `stop` holds) or is not (where it does not), or else `to`.
fn scan(v: &Vec<char>, from: usize, to: usize, stop: bool) -> (r: usize)
    requires
        from <= to <= v@.len(),
    ensures
        from <= r <= to,
        forall|i: int| from <= i < r ==> is_space(#[trigger] v@[i]) != stop,
        r < to ==> is_space(v@[r as int]) == stop,
{
    let mut i: usize = from;
    while i < to && space(v[i]) != stop
        invariant
            from <= i <= to <= v@.len(),
            forall|j: int| from <= j < i ==> is_space(#[trigger] v@[j]) != stop,
        decreases to - i,
    {
        i = i + 1;
    }
    i
}

proof fn lemma_trim_spaces(s: Seq<char>, n: int)
    requires
        0 <= n <= s.len(),
        forall|i: int| 0 <= i < n ==> is_space(#[trigger] s[i]),
    ensures
        trim_start(s) == trim_start(s.skip(n)),
        words(s) == words(s.skip(n)),
    decreases n,
{
    if n == 0 {
        assert(s.skip(0) == s);
    } else {
        assert(is_space(s[0]));
        let t = s.skip(1);
        assert forall|i: int| 0 <= i < n - 1 implies is_space(#[trigger] t[i]) by {
            assert(t[i] == s[i + 1]);
        }
        lemma_trim_spaces(t, n - 1);
        assert(t.skip(n - 1) == s.skip(n));
    }
}

/// The position after the white space at `from`, in the stretch of `v` before `to`.
pub fn skip_space(v: &Vec<char>, from: usize, to: usize) -> (r: usize)
    requires
        from <= to <= v@.len(),
    ensures
        from <= r <= to,
        v@.subrange(r as int, to as int) == trim_start(v@.subrange(from as int, to as int)),
{
    let r: usize = scan(v, from, to, false);
    proof {
        let s = v@.subrange(from as int, to as int);
        assert forall|i: int| 0 <= i < r - from implies is_space(#[trigger] s[i]) by {
            assert(s[i] == v@[from + i]);
        }
        lemma_trim_spaces(s, r - from);
        let t = v@.subrange(r as int, to as int);
        assert(s.skip(r - from) == t);
        if t.len() > 0 {
            assert(t[0] == v@[r as int]);
        }
    }
    r
}

/// The words of a stretch of `v`, each as the positions where it begins and ends.
pub fn word_bounds(v: &Vec<char>, from: usize, to: usize) -> (r: Vec<(usize, usize)>)
    requires
        from <= to <= v@.len(),
    ensures
        forall|k: int| 0 <= k < r@.len() ==> from <= (#[trigger] r@[k]).0 <= r@[k].1 <= to,
        bounded(v@, r@) == words(v@.subrange(from as int, to as int)),
{
    let mut r: Vec<(usize, usize)> = Vec::new();
    let mut i: usize = from;
    let ghost all = words(v@.subrange(from as int, to as int));
    while i < to
        invariant
            from <= i <= to <= v@.len(),
            forall|k: int| 0 <= k < r@.len() ==> from <= (#[trigger] r@[k]).0 <= r@[k].1 <= to,
            bounded(v@, r@) + words(v@.subrange(i as int, to as int)) == all,
        decreases to - i,
    {
        let ghost s = v@.subrange(i as int, to as int);
        let a: usize = scan(v, i, to, false);
        proof {
            assert forall|k: int| 0 <= k < a - i implies is_space(#[trigger] s[k]) by {
                assert(s[k] == v@[i + k]);
            }
            lemma_trim_spaces(s, a - i);
        }
        let ghost t = v@.subrange(a as int, to as int);
        assert(s.skip(a - i) == t);
        if a == to {
            assert(t.len() == 0);
            assert(bounded(v@, r@) + words(v@.subrange(to as int, to as int)) == all);
            i = to;
        } else {
            let b: usize = scan(v, a, to, true);
            proof {
                assert(t[0] == v@[a as int]);
                assert forall|k: int| 0 <= k < b - a implies !is_space(#[trigger] t[k]) by {
                    assert(t[k] == v@[a + k]);
                }
                lemma_word_len_is(t, b - a);
                assert(t.take(b - a) == v@.subrange(a as int, b as int));
                assert(t.skip(b - a) == v@.subrange(b as int, to as int));
                assert(words(t) == seq![v@.subrange(a as int, b as int)] + words(
                    v@.subrange(b as int, to as int),
                ));
                assert(bounded(v@, r@.push((a, b))) == bounded(v@, r@).push(
                    v@.subrange(a as int, b as int),
                ));
                assert(bounded(v@, r@.push((a, b))) + words(v@.subrange(b as int, to as int))
                    == bounded(v@, r@) + words(t));
            }
            r.push((a, b));
            i = b;
        }
    }
    assert(v@.subrange(to as int, to as int).len() == 0);
    assert(bounded(v@, r@) + Seq::<Seq<char>>::empty() == bounded(v@, r@));
    r
}

/// The stretches of `s` between the given positions.
pub open spec fn bounded(s: Seq<char>, bounds: Seq<(usize, usize)>) -> Seq<Seq<char>> {
    bounds.map_values(|b: (usize, usize)| s.subrange(b.0 as int, b.1 as int))
}

/// The lines of `v`, each as the positions where it begins and ends.
pub fn line_bounds(v: &Vec<char>) -> (r: Vec<(usize, usize)>)
    ensures
        forall|k: int| 0 <= k < r@.len() ==> (#[trigger] r@[k]).0 <= r@[k].1 <= v@.len(),
        bounded(v@, r@) == lines(v@),
{
    let mut r: Vec<(usize, usize)> = Vec::new();
    let mut i: usize = 0;
    let n: usize = v.len();
    assert(v@.skip(0) == v@);
    while i < n
        invariant
            i <= n == v@.len(),
            forall|k: int| 0 <= k < r@.len() ==> (#[trigger] r@[k]).0 <= r@[k].1 <= v@.len(),
            bounded(v@, r@) + lines(v@.skip(i as int)) == lines(v@),
        decreases n - i,
    {
        let ghost s = v@.skip(i as int);
        let mut j: usize = i;
        while j < n && v[j] != '\n'
            invariant
                i <= j <= n == v@.len(),
                forall|k: int| i <= k < j ==> #[trigger] v@[k] != '\n',
            decreases n - j,
        {
            j = j + 1;
        }
        proof {
            assert forall|k: int| 0 <= k < j - i implies #[trigger] s[k] != '\n' by {
                assert(s[k] == v@[i + k]);
            }
            lemma_line_len_is(s, j - i);
        }
        let ghost before = bounded(v@, r@);
        if j == n {
            r.push((i, n));
            proof {
                assert(s == v@.subrange(i as int, n as int));
                assert(bounded(v@, r@) == before + lines(s));
                assert(v@.skip(n as int).len() == 0);
                assert(bounded(v@, r@) + lines(v@.skip(n as int)) == before + lines(s));
            }
            i = n;
        } else {
            let end: usize = if j > i && v[j - 1] == '\r' {
                j - 1
            } else {
                j
            };
            r.push((i, end));
            proof {
                assert(strip_return(s.take(j - i)) == v@.subrange(i as int, end as int));
                assert(s.skip(j - i + 1) == v@.skip(j + 1));
                assert(bounded(v@, r@) + lines(v@.skip(j + 1)) == before + lines(s));
            }
            i = j + 1;
        }
    }
    assert(v@.skip(n as int).len() == 0);
    assert(bounded(v@, r@) + Seq::<Seq<char>>::empty() == bounded(v@, r@));
    r
}

/// Whether `pattern` stands in `s` at position `i`.
pub open spec fn stands_at(s: Seq<char>, pattern: Seq<char>, i: int) -> bool {
    &&& 0 <= i
    &&& i + pattern.len() <= s.len()
    &&& s.subrange(i, i + pattern.len()) == pattern
}

/// Whether `i` is the first position of `pattern` in `s`.
pub open spec fn first_at(s: Seq<char>, pattern: Seq<char>, i: int) -> bool {
    &&& stands_at(s, pattern, i)
    &&& forall|j: int| 0 <= j < i ==> !#[trigger] stands_at(s, pattern, j)
}

/// The first position of `pattern` in `s`, if it stands there at all.
pub open spec fn find(s: Seq<char>, pattern: Seq<char>) -> Option<int> {
    if exists|i: int| first_at(s, pattern, i) {
        Some(choose|i: int| first_at(s, pattern, i))
    } else {
        None
    }
}

pub proof fn lemma_find(s: Seq<char>, pattern: Seq<char>, i: int)
    requires
        first_at(s, pattern, i),
    ensures
        find(s, pattern) == Some(i),
{
    let j = choose|j: int| first_at(s, pattern, j);
    assert(first_at(s, pattern, j));
    if i < j {
        assert(!stands_at(s, pattern, i));
    } else if j < i {
        assert(!stands_at(s, pattern, j));
    }
}

pub proof fn lemma_find_none(s: Seq<char>, pattern: Seq<char>)
    requires
        forall|j: int| 0 <= j <= s.len() ==> !#[trigger] stands_at(s, pattern, j),
    ensures
        find(s, pattern) is None,
{
    if exists|i: int| first_at(s, pattern, i) {
        let i = choose|i: int| first_at(s, pattern, i);
        assert(stands_at(s, pattern, i));
    }
}

pub proof fn lemma_find_some(s: Seq<char>, pattern: Seq<char>, i: int)
    requires
        stands_at(s, pattern, i),
    ensures
        find(s, pattern) is Some,
    decreases i,
{
    if exists|j: int| 0 <= j < i && stands_at(s, pattern, j) {
        let j = choose|j: int| 0 <= j < i && stands_at(s, pattern, j);
        lemma_find_some(s, pattern, j);
    } else {
        assert(first_at(s, pattern, i));
    }
}

/// The first position of `pattern` in the stretch of `v` from `from` on and before `to`.
pub fn find_in(v: &Vec<char>, from: usize, to: usize, pattern: &Vec<char>) -> (r: Option<usize>)
    requires
        from <= to <= v@.len(),
    ensures
        match r {
            Some(i) => from <= i && i + pattern@.len() <= to && find(
                v@.subrange(from as int, to as int),
                pattern@,
            ) == Some(i - from),
            None => find(v@.subrange(from as int, to as int), pattern@) is None,
        },
{
    let m: usize = pattern.len();
    let ghost s = v@.subrange(from as int, to as int);
    let mut i: usize = from;
    while i <= to && m <= to - i
        invariant
            from <= i <= to + 1,
            to <= v@.len(),
            m == pattern@.len(),
            s == v@.subrange(from as int, to as int),
            forall|j: int| 0 <= j < i - from ==> !#[trigger] stands_at(s, pattern@, j),
        decreases to + 1 - i,
    {
        let mut k: usize = 0;
        while k < m && v[i + k] == pattern[k]
            invariant
                k <= m == pattern@.len(),
                i + m <= to <= v@.len(),
                forall|j: int| 0 <= j < k ==> v@[i + j] == #[trigger] pattern@[j],
            decreases m - k,
        {
            k = k + 1;
        }
        let ghost at = i - from;
        if k == m {
            proof {
                assert(s.subrange(at, at + m) == pattern@);
                lemma_find(s, pattern@, at);
            }
            return Some(i);
        }
        proof {
            if stands_at(s, pattern@, at) {
                assert(s.subrange(at, at + m)[k as int] == v@[i + k]);
            }
        }
        i = i + 1;
    }
    proof {
        lemma_find_none(s, pattern@);
    }
    None
}

/// A text is found at the first position where its characters stand, wherever that is.
pub proof fn law_found(s: Seq<char>, pattern: Seq<char>, i: int)
    requires
        0 <= i,
        i + pattern.len() <= s.len(),
        forall|k: int| 0 <= k < pattern.len() ==> s[i + k] == #[trigger] pattern[k],
        forall|j: int|
            0 <= j < i ==> #[trigger] s.subrange(j, j + pattern.len()) != pattern,
    ensures
        find(s, pattern) == Some(i),
{
    assert(s.subrange(i, i + pattern.len()) == pattern);
    assert forall|j: int| 0 <= j < i implies !#[trigger] stands_at(s, pattern, j) by {
        assert(s.subrange(j, j + pattern.len()) != pattern);
    }
    lemma_find(s, pattern, i);
}

/// A text is not found if its characters stand nowhere.
pub proof fn law_not_found(s: Seq<char>, pattern: Seq<char>)
    requires
        forall|j: int|
            0 <= j && j + pattern.len() <= s.len() ==> #[trigger] s.subrange(
                j,
                j + pattern.len(),
            ) != pattern,
    ensures
        find(s, pattern) is None,
{
    assert forall|j: int| 0 <= j <= s.len() implies !#[trigger] stands_at(s, pattern, j) by {
        if j + pattern.len() <= s.len() {
            assert(s.subrange(j, j + pattern.len()) != pattern);
        }
    }
    lemma_find_none(s, pattern);
}

/// What is left without leading white space begins with the first other character.
pub proof fn law_trimmed(blank: Seq<char>, s: Seq<char>)
    requires
        forall|i: int| 0 <= i < blank.len() ==> is_space(#[trigger] blank[i]),
        s.len() == 0 || !is_space(s[0]),
    ensures
        trim_start(blank + s) == s,
{
    let n = blank.len() as int;
    let t = blank + s;
    assert forall|i: int| 0 <= i < n implies is_space(#[trigger] t[i]) by {
        assert(t[i] == blank[i]);
    }
    lemma_trim_spaces(t, n);
    assert(t.skip(n) == s);
}

/// A text without white space is one word, and an empty one is none.
pub proof fn law_one_word(w: Seq<char>)
    requires
        forall|i: int| 0 <= i < w.len() ==> !is_space(#[trigger] w[i]),
    ensures
        words(w) == if w.len() == 0 {
            Seq::<Seq<char>>::empty()
        } else {
            seq![w]
        },
{
    if w.len() > 0 {
        let n = w.len() as int;
        lemma_word_len_is(w, n);
        assert(w.take(n) == w);
        assert(!is_space(w[0]));
        assert(w.skip(n).len() == 0);
        assert(words(w.skip(n)) == Seq::<Seq<char>>::empty());
        assert(words(w) == seq![w]);
    }
}

/// White space parts words: the words of a text are those before it and then those
/// behind it.
pub proof fn law_words_parted(a: Seq<char>, c: char, b: Seq<char>)
    requires
        is_space(c),
    ensures
        words(a + seq![c] + b) == words(a) + words(b),
    decreases a.len(),
{
    let s = a + seq![c] + b;
    if a.len() == 0 {
        assert(s[0] == c);
        assert(s.skip(1) == b);
        assert(words(a) + words(b) == words(b));
    } else {
        assert(s[0] == a[0]);
        if is_space(a[0]) {
            assert(s.skip(1) == a.skip(1) + seq![c] + b);
            law_words_parted(a.skip(1), c, b);
        } else {
            lemma_word_len(a);
            let n = word_len(a) as int;
            assert forall|i: int| 0 <= i < n implies !is_space(#[trigger] s[i]) by {
                assert(s[i] == a[i]);
            }
            assert(n < a.len() ==> s[n] == a[n]);
            assert(n == a.len() ==> s[n] == c);
            lemma_word_len_is(s, n);
            let rest = a.skip(n);
            assert(s.take(n) == a.take(n));
            assert(s.skip(n) == rest + seq![c] + b);
            assert(n > 0);
            law_words_parted(rest, c, b);
            let first = seq![a.take(n)];
            assert(words(s) == first + (words(rest) + words(b)));
            assert(words(a) == first + words(rest));
            assert(first + (words(rest) + words(b)) == first + words(rest) + words(b));
        }
    }
}

/// A text without a line feed is one line, carriage returns included, and an empty one
/// is none; a line feed ends the line, and so does one with a carriage return before it.
pub proof fn law_one_line(l: Seq<char>)
    requires
        forall|i: int| 0 <= i < l.len() ==> #[trigger] l[i] != '\n',
    ensures
        lines(l) == if l.len() == 0 {
            Seq::<Seq<char>>::empty()
        } else {
            seq![l]
        },
        l.len() == 0 || l.last() != '\r' ==> lines(l.push('\n')) == seq![l],
        lines(l.push('\r').push('\n')) == seq![l],
{
    let n = l.len() as int;
    lemma_line_len_is(l, n);
    lemma_line_ended(l);
    lemma_line_ended(l.push('\r'));
    assert(l.push('\r').drop_last() == l);
}

proof fn lemma_line_ended(l: Seq<char>)
    requires
        forall|i: int| 0 <= i < l.len() ==> #[trigger] l[i] != '\n',
    ensures
        lines(l.push('\n')) == seq![strip_return(l)],
{
    let n = l.len() as int;
    let s = l.push('\n');
    assert forall|i: int| 0 <= i < n implies #[trigger] s[i] != '\n' by {
        assert(s[i] == l[i]);
    }
    lemma_line_len_is(s, n);
    assert(s.take(n) == l);
    assert(s.skip(n + 1).len() == 0);
    assert(lines(s.skip(n + 1)) == Seq::<Seq<char>>::empty());
    assert(lines(s) == seq![strip_return(l)]);
}

/// Each pair of positions gives the stretch of text between them.
pub proof fn law_bounded(s: Seq<char>, bounds: Seq<(usize, usize)>, i: int, k: int)
    requires
        0 <= i < bounds.len(),
        bounds[i].0 <= bounds[i].1 <= s.len(),
        bounds[i].0 <= k < bounds[i].1,
    ensures
        bounded(s, bounds).len() == bounds.len(),
        bounded(s, bounds)[i].len() == bounds[i].1 - bounds[i].0,
        bounded(s, bounds)[i][k - bounds[i].0] == s[k],
{
}

} // verus!
