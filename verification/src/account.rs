//! The signed-in account, found in the text of the settings file.

use crate::text::{
    chars_of, find, find_in, first_at, is_space, lemma_find, lemma_find_none, lemma_find_some,
    skip_space, stands_at, trim_start,
};
use vstd::prelude::*;

verus! {

/// The key of the account object.
pub open spec fn account_key() -> Seq<char> {
    "\"oauthAccount\""@
}

/// The key of the address within it.
pub open spec fn email_key() -> Seq<char> {
    "\"emailAddress\""@
}

/// The text after its first character, where that is `c`.
pub open spec fn after_char(s: Seq<char>, c: char) -> Option<Seq<char>> {
    if s.len() > 0 && s[0] == c {
        Some(s.skip(1))
    } else {
        None
    }
}

/// The text behind the first character of a value, where that is `c`, given the text
/// behind the key: a colon stands before the value, and white space may stand before
/// each of the two.
pub open spec fn value_behind(s: Seq<char>, c: char) -> Option<Seq<char>> {
    match after_char(trim_start(s), ':') {
        None => None,
        Some(colon) => after_char(trim_start(colon), c),
    }
}

/// The number of characters before the brace that closes an object, or all of them
/// where it is not closed. `depth` objects within it are open, and `quoted` says
/// whether a string is. Braces in a string do not count, and a backslash there hides
/// the character behind it.
pub open spec fn object_len(s: Seq<char>, depth: nat, quoted: bool) -> nat
    decreases s.len(),
{
    if s.len() == 0 {
        0
    } else if quoted {
        if s[0] == '\\' {
            if s.len() == 1 {
                1
            } else {
                2 + object_len(s.skip(2), depth, true)
            }
        } else {
            1 + object_len(s.skip(1), depth, s[0] != '"')
        }
    } else if s[0] == '}' {
        if depth == 0 {
            0
        } else {
            1 + object_len(s.skip(1), (depth - 1) as nat, false)
        }
    } else if s[0] == '{' {
        1 + object_len(s.skip(1), depth + 1, false)
    } else {
        1 + object_len(s.skip(1), depth, s[0] == '"')
    }
}

/// Whether the account key stands at position `i` with an object as its value.
pub open spec fn opens_account(s: Seq<char>, i: int) -> bool {
    stands_at(s, account_key(), i) && value_behind(s.skip(i + account_key().len()), '{') is Some
}

/// Whether that is so at `i` and nowhere before.
pub open spec fn account_at(s: Seq<char>, i: int) -> bool {
    opens_account(s, i) && forall|j: int| 0 <= j < i ==> !#[trigger] opens_account(s, j)
}

/// The text behind the brace that opens the account object: the value of the first
/// account key that has an object as its value.
pub open spec fn account_object(s: Seq<char>) -> Option<Seq<char>> {
    if exists|i: int| account_at(s, i) {
        let i = choose|i: int| account_at(s, i);
        value_behind(s.skip(i + account_key().len()), '{')
    } else {
        None
    }
}

/// What stands in an object, given the text behind the brace that opens it.
pub open spec fn object_body(s: Seq<char>) -> Seq<char> {
    s.take(object_len(s, 0, false) as int)
}

/// The string that is the value of a key, given the text behind the key: what stands
/// between its quotation mark and the next one.
pub open spec fn string_value(s: Seq<char>) -> Option<Seq<char>> {
    match value_behind(s, '"') {
        None => None,
        Some(quote) => match find(quote, seq!['"']) {
            None => None,
            Some(n) => Some(quote.take(n)),
        },
    }
}

/// The address in an object: the string value of the first address key in its body.
pub open spec fn email_in(body: Seq<char>) -> Option<Seq<char>> {
    match find(body, email_key()) {
        None => None,
        Some(j) => string_value(body.skip(j + email_key().len())),
    }
}

/// The address of the account: the one in the account object, if there is such an
/// object and an address in it.
pub open spec fn email(s: Seq<char>) -> Option<Seq<char>> {
    match account_object(s) {
        None => None,
        Some(object) => email_in(object_body(object)),
    }
}

/// The position of the brace that closes the object opened before `from`, or the end.
fn object_end(v: &Vec<char>, from: usize) -> (r: usize)
    requires
        from <= v@.len(),
    ensures
        from <= r <= v@.len(),
        v@.subrange(from as int, r as int) == object_body(v@.skip(from as int)),
{
    let n: usize = v.len();
    let mut i: usize = from;
    let mut depth: usize = 0;
    let mut quoted: bool = false;
    let ghost s = v@.skip(from as int);
    let ghost len = object_len(s, 0, false);
    while i < n && (quoted || depth > 0 || v[i] != '}')
        invariant
            from <= i <= n == v@.len(),
            depth <= i - from,
            len == i - from + object_len(v@.skip(i as int), depth as nat, quoted),
        decreases n - i,
    {
        let c: char = v[i];
        let ghost t = v@.skip(i as int);
        assert(t[0] == c);
        assert(t.skip(1) == v@.skip(i + 1));
        if quoted && c == '\\' {
            if i + 1 < n {
                assert(t.skip(2) == v@.skip(i + 2));
                i = i + 2;
            } else {
                assert(v@.skip(n as int).len() == 0);
                i = n;
            }
        } else {
            if c == '"' {
                quoted = !quoted;
            } else if !quoted && c == '{' {
                depth = depth + 1;
            } else if !quoted && c == '}' {
                depth = depth - 1;
            }
            i = i + 1;
        }
    }
    proof {
        let t = v@.skip(i as int);
        if i < n {
            assert(t[0] == v@[i as int]);
        }
        assert(object_len(t, depth as nat, quoted) == 0);
        assert(v@.subrange(from as int, i as int) == s.take(i - from));
    }
    i
}

/// The position behind the first character of a value, where that is `c`, in the
/// stretch of `v` from `from`, which is behind the key, and before `to`.
fn value_start(v: &Vec<char>, from: usize, to: usize, c: char) -> (r: Option<usize>)
    requires
        from <= to <= v@.len(),
    ensures
        match r {
            Some(i) => from <= i <= to && value_behind(v@.subrange(from as int, to as int), c)
                == Some(v@.subrange(i as int, to as int)),
            None => value_behind(v@.subrange(from as int, to as int), c) is None,
        },
{
    let a: usize = skip_space(v, from, to);
    if a == to || v[a] != ':' {
        return None;
    }
    assert(v@.subrange(a as int, to as int).skip(1) == v@.subrange(a + 1, to as int));
    let b: usize = skip_space(v, a + 1, to);
    if b == to || v[b] != c {
        return None;
    }
    assert(v@.subrange(b as int, to as int).skip(1) == v@.subrange(b + 1, to as int));
    Some(b + 1)
}

proof fn lemma_account_at(s: Seq<char>, i: int)
    requires
        account_at(s, i),
    ensures
        account_object(s) == value_behind(s.skip(i + account_key().len()), '{'),
{
    let j = choose|j: int| account_at(s, j);
    assert(account_at(s, j));
    if i < j {
        assert(!opens_account(s, i));
    } else if j < i {
        assert(!opens_account(s, j));
    }
}

/// The position behind the brace that opens the account object.
fn account_start(v: &Vec<char>) -> (r: Option<usize>)
    ensures
        match r {
            Some(i) => i <= v@.len() && account_object(v@) == Some(v@.skip(i as int)),
            None => account_object(v@) is None,
        },
{
    let n: usize = v.len();
    let key: Vec<char> = chars_of("\"oauthAccount\"");
    proof {
        reveal_strlit("\"oauthAccount\"");
    }
    let mut from: usize = 0;
    loop
        invariant
            from <= n == v@.len(),
            key@ == account_key(),
            key@.len() == 14,
            forall|j: int| 0 <= j < from ==> !#[trigger] opens_account(v@, j),
        decreases n - from,
    {
        let ghost rest = v@.subrange(from as int, n as int);
        proof {
            assert forall|j: int| from <= j && #[trigger] stands_at(
                v@,
                key@,
                j,
            ) implies stands_at(rest, key@, j - from) by {
                assert(rest.subrange(j - from, j - from + 14) == v@.subrange(j, j + 14));
            }
        }
        let i: usize = match find_in(v, from, n, &key) {
            Some(i) => i,
            None => {
                proof {
                    assert forall|j: int| !#[trigger] opens_account(v@, j) by {
                        if from <= j && stands_at(v@, key@, j) {
                            lemma_find_some(rest, key@, j - from);
                        }
                    }
                }
                return None;
            },
        };
        proof {
            assert(first_at(rest, key@, i - from));
            assert(rest.subrange(i - from, i - from + 14) == v@.subrange(i as int, i + 14));
            assert forall|j: int| 0 <= j < i implies !#[trigger] opens_account(v@, j) by {
                if from <= j && stands_at(v@, key@, j) {
                    assert(stands_at(rest, key@, j - from));
                }
            }
            assert(v@.skip(i + 14) == v@.subrange(i + 14, n as int));
        }
        if let Some(start) = value_start(v, i + key.len(), n, '{') {
            proof {
                assert(account_at(v@, i as int));
                lemma_account_at(v@, i as int);
                assert(v@.skip(start as int) == v@.subrange(start as int, n as int));
            }
            return Some(start);
        }
        from = i + 1;
    }
}

/// Finds the address of the signed-in account in the text of the settings file: the
/// first one inside the account object. The text is searched, not parsed.
pub fn parse_email(data: &str) -> (r: Option<&str>)
    ensures
        match r {
            Some(address) => email(data@) == Some(address@),
            None => email(data@) is None,
        },
{
    let v: Vec<char> = chars_of(data);
    let start: usize = match account_start(&v) {
        Some(start) => start,
        None => return None,
    };
    let end: usize = object_end(&v, start);
    let ghost body = v@.subrange(start as int, end as int);
    let key: Vec<char> = chars_of("\"emailAddress\"");
    let j: usize = match find_in(&v, start, end, &key) {
        Some(j) => j,
        None => return None,
    };
    let behind: usize = j + key.len();
    assert(body.skip(j - start + key@.len()) == v@.subrange(behind as int, end as int));
    let open: usize = match value_start(&v, behind, end, '"') {
        Some(open) => open,
        None => return None,
    };
    let quote: Vec<char> = vec!['"'];
    assert(quote@ == seq!['"']);
    let close: usize = match find_in(&v, open, end, &quote) {
        Some(close) => close,
        None => return None,
    };
    assert(v@.subrange(open as int, end as int).take(close - open) == v@.subrange(
        open as int,
        close as int,
    ));
    Some(data.substring_char(open, close))
}

proof fn lemma_account_behind(before: Seq<char>, s: Seq<char>, i: int)
    ensures
        0 <= i ==> opens_account(before + s, before.len() + i) == opens_account(s, i),
{
    if 0 <= i && i + account_key().len() <= s.len() {
        let t = before + s;
        let n = before.len();
        let k = account_key().len();
        assert(t.subrange(n + i, n + i + k) == s.subrange(i, i + k));
        assert(t.skip(n + i + k) == s.skip(i + k));
    }
}

/// What stands before the first account key, an address key too, does not bear on the
/// address.
pub proof fn law_email_behind_account_key(before: Seq<char>, s: Seq<char>)
    requires
        find(before, account_key()) is None,
        stands_at(s, account_key(), 0),
    ensures
        email(before + s) == email(s),
{
    reveal_strlit("\"oauthAccount\"");
    let key = account_key();
    let t = before + s;
    let n = before.len() as int;
    assert forall|j: int| 0 <= j < n implies !#[trigger] opens_account(t, j) by {
        if stands_at(t, key, j) {
            let here = t.subrange(j, j + 14);
            let there = s.subrange(0, 14);
            if j + 14 <= n {
                assert(before.subrange(j, j + 14) == here);
                lemma_find_some(before, key, j);
            } else {
                // The key has quotation marks at its two ends only.
                assert(there[0] == '"' && there[1] == 'o');
                assert(here[n - j] == there[0]);
                assert(n == j + 13);
                assert(t.skip(j + 14)[0] == there[1]);
            }
        }
    }
    if exists|i: int| account_at(s, i) {
        let i = choose|i: int| account_at(s, i);
        lemma_account_behind(before, s, i);
        assert forall|j: int| 0 <= j < n + i implies !#[trigger] opens_account(t, j) by {
            if n <= j {
                lemma_account_behind(before, s, j - n);
                assert(!opens_account(s, j - n));
            }
        }
        assert(account_at(t, n + i));
        lemma_account_at(s, i);
        lemma_account_at(t, n + i);
        assert(t.skip(n + i + 14) == s.skip(i + 14));
    } else if exists|i: int| account_at(t, i) {
        let i = choose|i: int| account_at(t, i);
        assert(opens_account(t, i));
        lemma_account_behind(before, s, i - n);
        assert forall|j: int| 0 <= j < i - n implies !#[trigger] opens_account(s, j) by {
            lemma_account_behind(before, s, j);
            assert(!opens_account(t, n + j));
        }
        assert(account_at(s, i - n));
    }
}

proof fn lemma_trim_extended(s: Seq<char>, more: Seq<char>)
    requires
        trim_start(s).len() > 0,
    ensures
        trim_start(s + more) == trim_start(s) + more,
    decreases s.len(),
{
    if s.len() > 0 {
        assert((s + more)[0] == s[0]);
        assert((s + more).skip(1) == s.skip(1) + more);
        if is_space(s[0]) {
            lemma_trim_extended(s.skip(1), more);
        }
    }
}

proof fn lemma_value_extended(s: Seq<char>, more: Seq<char>, c: char)
    requires
        value_behind(s, c) is Some,
    ensures
        value_behind(s + more, c) == Some(value_behind(s, c)->0 + more),
{
    let t = trim_start(s);
    lemma_trim_extended(s, more);
    assert((t + more)[0] == t[0]);
    assert((t + more).skip(1) == t.skip(1) + more);
    let u = trim_start(t.skip(1));
    lemma_trim_extended(t.skip(1), more);
    assert((u + more)[0] == u[0]);
    assert((u + more).skip(1) == u.skip(1) + more);
}

proof fn lemma_trim_keeps(s: Seq<char>, p: int)
    requires
        0 <= p < s.len(),
        !is_space(s[p]),
    ensures
        trim_start(s).contains(s[p]),
    decreases s.len(),
{
    if is_space(s[0]) {
        assert(s.skip(1)[p - 1] == s[p]);
        lemma_trim_keeps(s.skip(1), p - 1);
    } else {
        assert(trim_start(s)[p] == s[p]);
    }
}

proof fn lemma_no_value_extended(s: Seq<char>, more: Seq<char>, c: char, p: int)
    requires
        value_behind(s, c) is None,
        0 <= p < s.len(),
        !is_space(s[p]) && s[p] != ':',
    ensures
        value_behind(s + more, c) is None,
{
    let t = trim_start(s);
    lemma_trim_keeps(s, p);
    let q = choose|q: int| 0 <= q < t.len() && t[q] == s[p];
    lemma_trim_extended(s, more);
    assert((t + more)[0] == t[0]);
    if t[0] == ':' {
        assert((t + more).skip(1) == t.skip(1) + more);
        let u = trim_start(t.skip(1));
        assert(t.skip(1)[q - 1] == s[p]);
        lemma_trim_keeps(t.skip(1), q - 1);
        lemma_trim_extended(t.skip(1), more);
        assert((u + more)[0] == u[0]);
    }
}

proof fn lemma_object_extended(s: Seq<char>, more: Seq<char>, depth: nat, quoted: bool)
    requires
        object_len(s, depth, quoted) < s.len(),
    ensures
        object_len(s + more, depth, quoted) == object_len(s, depth, quoted),
    decreases s.len(),
{
    let t = s + more;
    assert(t[0] == s[0]);
    assert(t.skip(1) == s.skip(1) + more);
    if quoted {
        if s[0] == '\\' {
            assert(t.skip(2) == s.skip(2) + more);
            lemma_object_extended(s.skip(2), more, depth, true);
        } else {
            lemma_object_extended(s.skip(1), more, depth, s[0] != '"');
        }
    } else if s[0] == '}' {
        if depth > 0 {
            lemma_object_extended(s.skip(1), more, (depth - 1) as nat, false);
        }
    } else if s[0] == '{' {
        lemma_object_extended(s.skip(1), more, depth + 1, false);
    } else {
        lemma_object_extended(s.skip(1), more, depth, s[0] == '"');
    }
}

/// Whether the account object is there and is closed.
pub open spec fn is_account_closed(s: Seq<char>) -> bool {
    match account_object(s) {
        None => false,
        Some(object) => object_len(object, 0, false) < object.len(),
    }
}

/// What stands behind the account object, an address key too, does not bear on the
/// address.
pub proof fn law_email_inside_account_object(s: Seq<char>, behind: Seq<char>)
    requires
        is_account_closed(s),
    ensures
        email(s + behind) == email(s),
{
    reveal_strlit("\"oauthAccount\"");
    let t = s + behind;
    let key = account_key();
    let i = choose|i: int| account_at(s, i);
    assert(account_at(s, i));
    assert(s.subrange(i, i + 14)[13] == '"');
    assert forall|j: int| 0 <= j < i implies !#[trigger] opens_account(t, j) by {
        assert(t.subrange(j, j + 14) == s.subrange(j, j + 14));
        if stands_at(s, key, j) {
            assert(!opens_account(s, j));
            assert(t.skip(j + 14) == s.skip(j + 14) + behind);
            assert(s.skip(j + 14)[i - j - 1] == '"');
            lemma_no_value_extended(s.skip(j + 14), behind, '{', i - j - 1);
        }
    }
    assert(t.subrange(i, i + 14) == s.subrange(i, i + 14));
    assert(t.skip(i + 14) == s.skip(i + 14) + behind);
    lemma_value_extended(s.skip(i + 14), behind, '{');
    assert(account_at(t, i));
    lemma_account_at(t, i);
    let object = account_object(s)->0;
    lemma_object_extended(object, behind, 0, false);
    assert(object_body(object + behind) == object_body(object));
}

proof fn lemma_object_len(s: Seq<char>, depth: nat, quoted: bool)
    ensures
        object_len(s, depth, quoted) <= s.len(),
    decreases s.len(),
{
    if s.len() == 0 {
    } else if quoted {
        if s[0] == '\\' {
            if s.len() > 1 {
                lemma_object_len(s.skip(2), depth, true);
            }
        } else {
            lemma_object_len(s.skip(1), depth, s[0] != '"');
        }
    } else if s[0] == '}' {
        if depth > 0 {
            lemma_object_len(s.skip(1), (depth - 1) as nat, false);
        }
    } else if s[0] == '{' {
        lemma_object_len(s.skip(1), depth + 1, false);
    } else {
        lemma_object_len(s.skip(1), depth, s[0] == '"');
    }
}

proof fn lemma_quoted_plain(a: Seq<char>, t: Seq<char>, depth: nat)
    requires
        forall|i: int| 0 <= i < a.len() ==> a[i] != '"' && a[i] != '\\',
    ensures
        object_len(a + t, depth, true) == a.len() + object_len(t, depth, true),
    decreases a.len(),
{
    if a.len() == 0 {
        assert(a + t == t);
    } else {
        assert((a + t)[0] == a[0]);
        assert((a + t).skip(1) == a.skip(1) + t);
        lemma_quoted_plain(a.skip(1), t, depth);
    }
}

proof fn lemma_quoted_len(a: Seq<char>, t: Seq<char>, depth: nat)
    requires
        !a.contains('"'),
        t.len() > 0,
        t[0] == '"',
    ensures
        object_len(a + t, depth, true) > a.len(),
    decreases a.len(),
{
    if a.len() == 0 {
        assert(a + t == t);
    } else {
        assert((a + t)[0] == a[0]);
        assert forall|i: int| 0 <= i < a.len() implies a[i] != '"' by {}
        if a[0] == '\\' {
            if a.len() > 1 {
                assert((a + t).skip(2) == a.skip(2) + t);
                lemma_quoted_len(a.skip(2), t, depth);
            }
        } else {
            assert((a + t).skip(1) == a.skip(1) + t);
            lemma_quoted_len(a.skip(1), t, depth);
        }
    }
}

/// An account object that holds an address, as it is written without white space.
pub open spec fn written_account(address: Seq<char>) -> Seq<char> {
    account_key() + ":{"@ + email_key() + ":\""@ + address + "\"}"@
}

proof fn lemma_written_len(address: Seq<char>, object: Seq<char>, tail: Seq<char>)
    requires
        !address.contains('"'),
        tail.len() > 0,
        tail[0] == '"',
        object == email_key() + ":\""@ + address + tail,
    ensures
        object_len(object, 0, false) > 16 + address.len(),
{
    let word = email_key().subrange(1, 13);
    let behind = object.skip(13);
    let colon = object.skip(14);
    let value = object.skip(15);
    let end = object.skip(16);
    assert(object.len() > 16 && object[0] == '"' && object[13] == '"' && object[14] == ':'
        && object[15] == '"' && object.skip(1) == word + behind && end == address + tail) by {
        reveal_strlit("\"emailAddress\"");
        reveal_strlit(":\"");
    }
    assert(forall|i: int| 0 <= i < word.len() ==> word[i] != '"' && word[i] != '\\') by {
        reveal_strlit("\"emailAddress\"");
    }
    assert(word.len() == 12) by {
        reveal_strlit("\"emailAddress\"");
    }
    lemma_quoted_len(address, tail, 0);
    lemma_quoted_plain(word, behind, 0);
    assert(value.skip(1) == end);
    assert(object_len(value, 0, false) == 1 + object_len(end, 0, true));
    assert(colon.skip(1) == value);
    assert(object_len(colon, 0, false) == 1 + object_len(value, 0, false));
    assert(behind.skip(1) == colon);
    assert(object_len(behind, 0, true) == 1 + object_len(colon, 0, false));
    assert(object_len(object, 0, false) == 1 + object_len(object.skip(1), 0, true));
}

proof fn lemma_written_body(address: Seq<char>, body: Seq<char>)
    requires
        !address.contains('"'),
        body.len() > 16 + address.len(),
        body.take(17 + address.len() as int) == email_key() + ":\""@ + address + seq!['"'],
    ensures
        email_in(body) == Some(address),
{
    let n = address.len() as int;
    let written = body.take(17 + n);
    let value = body.skip(14);
    let quote = body.skip(16);
    let mark = seq!['"'];
    assert(email_key().len() == 14 && ":\""@.len() == 2 && written[14] == ':' && written[15]
        == '"') by {
        reveal_strlit("\"emailAddress\"");
        reveal_strlit(":\"");
    }
    assert(body.subrange(0, 14) == written.take(14));
    assert(written.take(14) == email_key());
    assert(first_at(body, email_key(), 0));
    lemma_find(body, email_key(), 0);
    assert(value[0] == written[14] && value.skip(1)[0] == written[15]);
    assert(value.skip(1).skip(1) == quote);
    assert(quote.take(n) == written.subrange(16, 16 + n));
    assert(quote.take(n) == address);
    assert(quote.subrange(n, n + 1)[0] == written[16 + n]);
    assert(quote.subrange(n, n + 1) == mark);
    assert forall|j: int| 0 <= j < n implies !#[trigger] stands_at(quote, mark, j) by {
        assert(quote.subrange(j, j + 1)[0] == quote.take(n)[j]);
        assert(address.contains(address[j]));
    }
    lemma_find(quote, mark, n);
}

/// The address of a written account is read back, whatever stands before it without the
/// account key, and whatever stands behind it.
pub proof fn law_email_read_back(before: Seq<char>, address: Seq<char>, behind: Seq<char>)
    requires
        find(before, account_key()) is None,
        !address.contains('"'),
    ensures
        email(before + written_account(address) + behind) == Some(address),
{
    reveal_strlit("\"oauthAccount\"");
    reveal_strlit(":{");
    let s = written_account(address) + behind;
    assert(before + written_account(address) + behind == before + s);
    assert(s.subrange(0, 14) == account_key());
    law_email_behind_account_key(before, s);
    let value = s.skip(14);
    assert(value[0] == ':' && value.skip(1)[0] == '{');
    let object = s.skip(16);
    assert(value.skip(1).skip(1) == object);
    assert(account_at(s, 0));
    lemma_account_at(s, 0);
    let tail = "\"}"@ + behind;
    assert(object == email_key() + ":\""@ + address + tail);
    reveal_strlit("\"}");
    lemma_written_len(address, object, tail);
    lemma_object_len(object, 0, false);
    let n = 17 + address.len() as int;
    let body = object_body(object);
    assert(body.take(n) == object.take(n));
    assert(email_key().len() == 14 && ":\""@.len() == 2) by {
        reveal_strlit("\"emailAddress\"");
        reveal_strlit(":\"");
    }
    assert(object.take(n) == email_key() + ":\""@ + address + seq!['"']);
    lemma_written_body(address, body);
}

/// Without an account object there is no address.
pub proof fn law_email_needs_account(s: Seq<char>)
    requires
        account_object(s) is None,
    ensures
        email(s) is None,
{
}

/// An address holds no quotation mark.
pub proof fn law_email_unquoted(s: Seq<char>)
    requires
        email(s) is Some,
    ensures
        !email(s)->0.contains('"'),
{
    let body = object_body(account_object(s)->0);
    let quote = value_behind(body.skip(find(body, email_key())->0 + email_key().len()), '"')->0;
    let mark = seq!['"'];
    let n = find(quote, mark)->0;
    assert(first_at(quote, mark, n));
    assert(email(s) == Some(quote.take(n)));
    if quote.take(n).contains('"') {
        let i = choose|i: int| 0 <= i < n && quote.take(n)[i] == '"';
        assert(quote.subrange(i, i + 1) == mark);
        assert(stands_at(quote, mark, i));
    }
}

/// What stands between the quotation marks of a string: no quotation mark but behind a
/// backslash, and something behind each backslash.
pub open spec fn is_quotable(s: Seq<char>) -> bool
    decreases s.len(),
{
    ||| s.len() == 0
    ||| s[0] != '"' && s[0] != '\\' && is_quotable(s.skip(1))
    ||| s.len() > 1 && s[0] == '\\' && is_quotable(s.skip(2))
}

/// A part of a text in which strings are closed and braces match: a character that is no
/// quotation mark and no brace, a string, or an object made up of such parts.
pub enum Piece {
    Plain(char),
    Quoted(Seq<char>),
    Braced(Seq<Piece>),
}

/// The text of a part.
pub open spec fn piece_text(p: Piece) -> Seq<char>
    decreases p,
{
    match p {
        Piece::Plain(c) => seq![c],
        Piece::Quoted(s) => seq!['"'] + s + seq!['"'],
        Piece::Braced(ps) => seq!['{'] + pieces_text(ps) + seq!['}'],
    }
}

/// The text of parts one behind the other.
pub open spec fn pieces_text(ps: Seq<Piece>) -> Seq<char>
    decreases ps,
{
    if ps.len() == 0 {
        Seq::empty()
    } else {
        pieces_text(ps.drop_last()) + piece_text(ps.last())
    }
}

/// Whether a part is well-formed.
pub open spec fn is_piece(p: Piece) -> bool
    decreases p,
{
    match p {
        Piece::Plain(c) => c != '"' && c != '{' && c != '}',
        Piece::Quoted(s) => is_quotable(s),
        Piece::Braced(ps) => are_pieces(ps),
    }
}

/// Whether parts are well-formed.
pub open spec fn are_pieces(ps: Seq<Piece>) -> bool
    decreases ps,
{
    ps.len() == 0 || (are_pieces(ps.drop_last()) && is_piece(ps.last()))
}

/// A text of white space.
pub open spec fn is_blank(s: Seq<char>) -> bool {
    forall|i: int| 0 <= i < s.len() ==> is_space(#[trigger] s[i])
}

proof fn lemma_quotable(a: Seq<char>, t: Seq<char>, depth: nat)
    requires
        is_quotable(a),
        t.len() > 0,
        t[0] == '"',
    ensures
        object_len(a + t, depth, true) == a.len() + 1 + object_len(t.skip(1), depth, false),
    decreases a.len(),
{
    let s = a + t;
    if a.len() == 0 {
        assert(s == t);
    } else {
        assert(s[0] == a[0]);
        if a[0] == '\\' {
            assert(s.skip(2) == a.skip(2) + t);
            lemma_quotable(a.skip(2), t, depth);
        } else {
            assert(s.skip(1) == a.skip(1) + t);
            lemma_quotable(a.skip(1), t, depth);
        }
    }
}

proof fn lemma_piece(p: Piece, t: Seq<char>, depth: nat)
    requires
        is_piece(p),
    ensures
        object_len(piece_text(p) + t, depth, false) == piece_text(p).len() + object_len(
            t,
            depth,
            false,
        ),
    decreases p,
{
    let a = piece_text(p);
    let s = a + t;
    assert(s[0] == a[0]);
    match p {
        Piece::Plain(c) => {
            assert(s.skip(1) == t);
        },
        Piece::Quoted(inner) => {
            let end = seq!['"'] + t;
            assert(s.skip(1) == inner + end);
            assert(end.skip(1) == t);
            lemma_quotable(inner, end, depth);
        },
        Piece::Braced(ps) => {
            let end = seq!['}'] + t;
            assert(s.skip(1) == pieces_text(ps) + end);
            assert(end.skip(1) == t);
            lemma_pieces(ps, end, depth + 1);
        },
    }
}

proof fn lemma_pieces(ps: Seq<Piece>, t: Seq<char>, depth: nat)
    requires
        are_pieces(ps),
    ensures
        object_len(pieces_text(ps) + t, depth, false) == pieces_text(ps).len() + object_len(
            t,
            depth,
            false,
        ),
    decreases ps,
{
    if ps.len() == 0 {
        assert(pieces_text(ps) + t == t);
    } else {
        let head = pieces_text(ps.drop_last());
        let last = piece_text(ps.last());
        assert(pieces_text(ps) + t == head + (last + t));
        lemma_pieces(ps.drop_last(), last + t, depth);
        lemma_piece(ps.last(), t, depth);
    }
}

proof fn lemma_blank(w: Seq<char>, t: Seq<char>)
    requires
        is_blank(w),
        t.len() > 0,
        !is_space(t[0]),
    ensures
        trim_start(w + t) == t,
    decreases w.len(),
{
    if w.len() == 0 {
        assert(w + t == t);
    } else {
        assert((w + t)[0] == w[0]);
        assert((w + t).skip(1) == w.skip(1) + t);
        lemma_blank(w.skip(1), t);
    }
}

proof fn lemma_value_found(a: Seq<char>, b: Seq<char>, c: char, t: Seq<char>)
    requires
        is_blank(a),
        is_blank(b),
        !is_space(c),
    ensures
        value_behind(a + seq![':'] + b + seq![c] + t, c) == Some(t),
{
    let rest = seq![':'] + b + seq![c] + t;
    let value = seq![c] + t;
    assert(a + seq![':'] + b + seq![c] + t == a + rest);
    lemma_blank(a, rest);
    assert(rest.skip(1) == b + value);
    lemma_blank(b, value);
    assert(value.skip(1) == t);
}

/// An account as far as its address: the account key and the brace behind it, members,
/// and the address key with its value. White space stands around the colons as `blank`
/// has it.
pub open spec fn written_object(
    members: Seq<char>,
    blank: Seq<Seq<char>>,
    address: Seq<char>,
) -> Seq<char> {
    account_key() + blank[0] + ":"@ + blank[1] + "{"@ + members + email_key() + blank[2] + ":"@
        + blank[3] + "\""@ + address + "\""@
}

proof fn lemma_found_in(
    members: Seq<char>,
    blank: Seq<Seq<char>>,
    address: Seq<char>,
    body: Seq<char>,
    rest: Seq<char>,
)
    requires
        blank.len() == 4,
        is_blank(blank[2]),
        is_blank(blank[3]),
        find(members + email_key(), email_key()) == Some(members.len() as int),
        !address.contains('"'),
        body == members + email_key() + blank[2] + seq![':'] + blank[3] + seq!['"'] + address
            + seq!['"'] + rest,
    ensures
        email_in(body) == Some(address),
{
    let key = email_key();
    let k = key.len() as int;
    let n = members.len() as int;
    let start = members + key;
    assert(first_at(start, key, n));
    assert(body.subrange(n, n + k) == start.subrange(n, n + k));
    assert forall|j: int| 0 <= j < n implies !#[trigger] stands_at(body, key, j) by {
        assert(!stands_at(start, key, j));
        assert(body.subrange(j, j + k) == start.subrange(j, j + k));
    }
    lemma_find(body, key, n);
    let quote = address + seq!['"'] + rest;
    let value = blank[2] + seq![':'] + blank[3] + seq!['"'] + quote;
    assert(body.skip(n + k) == value);
    lemma_value_found(blank[2], blank[3], '"', quote);
    let m = address.len() as int;
    let mark = seq!['"'];
    assert(quote.subrange(m, m + 1) == mark);
    assert forall|j: int| 0 <= j < m implies !#[trigger] stands_at(quote, mark, j) by {
        assert(quote.subrange(j, j + 1)[0] == address[j]);
        assert(address.contains(address[j]));
    }
    lemma_find(quote, mark, m);
    assert(quote.take(m) == address);
}

proof fn lemma_email_key_len(behind: Seq<char>)
    ensures
        object_len(email_key() + behind, 0, false) == email_key().len() + object_len(
            behind,
            0,
            false,
        ),
{
    let word = email_key().subrange(1, 13);
    assert(email_key() == piece_text(Piece::Quoted(word)) && is_quotable(word)) by {
        reveal_strlit("\"emailAddress\"");
        lemma_plain_quotable(word);
    }
    lemma_piece(Piece::Quoted(word), behind, 0);
}

proof fn lemma_plain_quotable(s: Seq<char>)
    requires
        forall|i: int| 0 <= i < s.len() ==> s[i] != '"' && s[i] != '\\',
    ensures
        is_quotable(s),
    decreases s.len(),
{
    if s.len() > 0 {
        lemma_plain_quotable(s.skip(1));
    }
}

proof fn lemma_blank_len(w: Seq<char>, t: Seq<char>, depth: nat)
    requires
        is_blank(w),
    ensures
        object_len(w + t, depth, false) == w.len() + object_len(t, depth, false),
    decreases w.len(),
{
    if w.len() == 0 {
        assert(w + t == t);
    } else {
        assert((w + t)[0] == w[0]);
        assert(is_space(w[0]));
        assert((w + t).skip(1) == w.skip(1) + t);
        lemma_blank_len(w.skip(1), t, depth);
    }
}

/// The address of an account is found wherever it stands in the object: behind any text
/// of members with closed strings and matching braces that does not hold the address
/// key, however long. Neither white space around the colons, nor what stands before the
/// account without its key, nor what follows the address bears on it.
pub proof fn law_email_found(
    before: Seq<char>,
    members: Seq<Piece>,
    blank: Seq<Seq<char>>,
    address: Seq<char>,
    rest: Seq<char>,
)
    requires
        find(before, account_key()) is None,
        are_pieces(members),
        find(pieces_text(members) + email_key(), email_key()) == Some(
            pieces_text(members).len() as int,
        ),
        blank.len() == 4,
        forall|i: int| 0 <= i < 4 ==> is_blank(#[trigger] blank[i]),
        !address.contains('"'),
    ensures
        email(before + written_object(pieces_text(members), blank, address) + rest) == Some(
            address,
        ),
{
    reveal_strlit("\"oauthAccount\"");
    reveal_strlit(":");
    reveal_strlit("{");
    reveal_strlit("\"");
    assert(":"@ =~= seq![':'] && "{"@ =~= seq!['{'] && "\""@ =~= seq!['"']);
    let text = pieces_text(members);
    let s = written_object(text, blank, address) + rest;
    assert(before + written_object(text, blank, address) + rest == before + s);
    assert(s.subrange(0, 14) == account_key());
    law_email_behind_account_key(before, s);
    let tail = seq!['"'] + rest;
    let value = blank[3] + seq!['"'] + (address + tail);
    let behind = blank[2] + seq![':'] + value;
    let object = text + (email_key() + behind);
    assert(s.skip(14) == blank[0] + seq![':'] + blank[1] + seq!['{'] + object);
    lemma_value_found(blank[0], blank[1], '{', object);
    assert(account_at(s, 0));
    lemma_account_at(s, 0);
    lemma_pieces(members, email_key() + behind, 0);
    lemma_email_key_len(behind);
    let colon = seq![':'] + value;
    assert(behind == blank[2] + colon);
    lemma_blank_len(blank[2], colon, 0);
    assert(colon.skip(1) == value);
    let quote = seq!['"'] + (address + tail);
    assert(value == blank[3] + quote);
    lemma_blank_len(blank[3], quote, 0);
    assert(quote.skip(1) == address + tail);
    lemma_quoted_len(address, tail, 0);
    lemma_object_len(object, 0, false);
    let body = object_body(object);
    let written = text + email_key() + blank[2] + seq![':'] + blank[3] + seq!['"'] + address
        + seq!['"'];
    assert(object == written + rest);
    assert(body.len() >= written.len());
    let more = body.skip(written.len() as int);
    assert(body == written + more);
    lemma_found_in(text, blank, address, body, more);
}

/// An account object that is closed before any address key holds no address, whatever
/// stands behind it.
pub proof fn law_email_not_found(
    before: Seq<char>,
    members: Seq<Piece>,
    blank: Seq<Seq<char>>,
    rest: Seq<char>,
)
    requires
        find(before, account_key()) is None,
        are_pieces(members),
        find(pieces_text(members), email_key()) is None,
        blank.len() == 2,
        forall|i: int| 0 <= i < 2 ==> is_blank(#[trigger] blank[i]),
    ensures
        email(
            before + (account_key() + blank[0] + ":"@ + blank[1] + "{"@ + pieces_text(members)
                + "}"@) + rest,
        ) is None,
{
    reveal_strlit("\"oauthAccount\"");
    reveal_strlit(":");
    reveal_strlit("{");
    reveal_strlit("}");
    assert(":"@ =~= seq![':'] && "{"@ =~= seq!['{'] && "}"@ =~= seq!['}']);
    let text = pieces_text(members);
    let account = account_key() + blank[0] + ":"@ + blank[1] + "{"@ + text + "}"@;
    let s = account + rest;
    assert(before + account + rest == before + s);
    assert(s.subrange(0, 14) == account_key());
    law_email_behind_account_key(before, s);
    let end = seq!['}'] + rest;
    let object = text + end;
    assert(s.skip(14) == blank[0] + seq![':'] + blank[1] + seq!['{'] + object);
    lemma_value_found(blank[0], blank[1], '{', object);
    assert(account_at(s, 0));
    lemma_account_at(s, 0);
    lemma_pieces(members, end, 0);
    assert(object_body(object) == text);
}

/// Without the account key there is no address.
pub proof fn law_email_needs_key(s: Seq<char>)
    requires
        find(s, account_key()) is None,
    ensures
        email(s) is None,
{
    if exists|i: int| account_at(s, i) {
        let i = choose|i: int| account_at(s, i);
        assert(opens_account(s, i));
        lemma_find_some(s, account_key(), i);
    }
}

proof fn lemma_shifted(s: Seq<char>)
    requires
        s.len() > 0,
        !opens_account(s, 0),
    ensures
        email(s) == email(s.skip(1)),
{
    let t = s.skip(1);
    let first = s.take(1);
    assert(first + t == s);
    if exists|i: int| account_at(s, i) {
        let i = choose|i: int| account_at(s, i);
        assert(opens_account(s, i));
        lemma_account_behind(first, t, i - 1);
        assert forall|j: int| 0 <= j < i - 1 implies !#[trigger] opens_account(t, j) by {
            lemma_account_behind(first, t, j);
            assert(!opens_account(s, j + 1));
        }
        assert(account_at(t, i - 1));
        lemma_account_at(s, i);
        lemma_account_at(t, i - 1);
        assert(s.skip(i + account_key().len()) == t.skip(i - 1 + account_key().len()));
    } else if exists|i: int| account_at(t, i) {
        let i = choose|i: int| account_at(t, i);
        lemma_account_behind(first, t, i);
        assert forall|j: int| 0 <= j < i + 1 implies !#[trigger] opens_account(s, j) by {
            if j > 0 {
                lemma_account_behind(first, t, j - 1);
                assert(!opens_account(t, j - 1));
            }
        }
        assert(account_at(s, i + 1));
    }
}

/// The search goes on behind an account key that is not followed by a colon, or whose
/// value is no object, `c` being what stands there instead: the address is that of the
/// text without the key's first character.
pub proof fn law_email_searched_on(blank: Seq<Seq<char>>, c: char, rest: Seq<char>)
    requires
        blank.len() == 2,
        is_blank(blank[0]),
        is_blank(blank[1]),
        !is_space(c),
    ensures
        c != ':' ==> ({
            let s = account_key() + blank[0] + seq![c] + rest;
            email(s) == email(s.skip(1))
        }),
        c != '{' ==> ({
            let s = account_key() + blank[0] + ":"@ + blank[1] + seq![c] + rest;
            email(s) == email(s.skip(1))
        }),
{
    reveal_strlit("\"oauthAccount\"");
    reveal_strlit(":");
    assert(":"@ =~= seq![':']);
    if c != ':' {
        let s = account_key() + blank[0] + seq![c] + rest;
        let t = seq![c] + rest;
        assert(s.skip(14) == blank[0] + t);
        lemma_blank(blank[0], t);
        lemma_shifted(s);
    }
    if c != '{' {
        let s = account_key() + blank[0] + ":"@ + blank[1] + seq![c] + rest;
        let value = seq![c] + rest;
        let t = seq![':'] + blank[1] + value;
        assert(s.skip(14) == blank[0] + t);
        lemma_blank(blank[0], t);
        assert(t.skip(1) == blank[1] + value);
        lemma_blank(blank[1], value);
        lemma_shifted(s);
    }
}

/// The same goes for a text that does not begin with the account key.
pub proof fn law_email_anywhere(s: Seq<char>)
    requires
        s.len() > 0,
        s.len() < 14 || s.take(14) != account_key(),
    ensures
        email(s) == email(s.skip(1)),
{
    reveal_strlit("\"oauthAccount\"");
    if opens_account(s, 0) {
        assert(s.subrange(0, 14) == s.take(14));
    }
    lemma_shifted(s);
}

proof fn lemma_email_body(
    before: Seq<char>,
    members: Seq<Piece>,
    blank: Seq<Seq<char>>,
    tail: Seq<char>,
)
    requires
        find(before, account_key()) is None,
        are_pieces(members),
        is_blank(blank[0]),
        is_blank(blank[1]),
    ensures
        email(
            before + (account_key() + blank[0] + seq![':'] + blank[1] + seq!['{'] + pieces_text(
                members,
            )) + tail,
        ) == email_in(pieces_text(members) + tail.take(object_len(tail, 0, false) as int)),
{
    reveal_strlit("\"oauthAccount\"");
    let text = pieces_text(members);
    let account = account_key() + blank[0] + seq![':'] + blank[1] + seq!['{'] + text;
    let s = account + tail;
    assert(before + account + tail == before + s);
    assert(s.subrange(0, 14) == account_key());
    law_email_behind_account_key(before, s);
    let object = text + tail;
    assert(s.skip(14) == blank[0] + seq![':'] + blank[1] + seq!['{'] + object);
    lemma_value_found(blank[0], blank[1], '{', object);
    assert(account_at(s, 0));
    lemma_account_at(s, 0);
    lemma_pieces(members, tail, 0);
    lemma_object_len(tail, 0, false);
    assert(object_body(object) == text + tail.take(object_len(tail, 0, false) as int));
}

proof fn lemma_key_found(text: Seq<char>, behind: Seq<char>)
    requires
        find(text + email_key(), email_key()) == Some(text.len() as int),
    ensures
        email_in(text + (email_key() + behind)) == string_value(behind),
{
    let key = email_key();
    let k = key.len() as int;
    let n = text.len() as int;
    let start = text + key;
    let body = text + (key + behind);
    assert(first_at(start, key, n));
    assert(body.subrange(n, n + k) == start.subrange(n, n + k));
    assert forall|j: int| 0 <= j < n implies !#[trigger] stands_at(body, key, j) by {
        assert(!stands_at(start, key, j));
        assert(body.subrange(j, j + k) == start.subrange(j, j + k));
    }
    lemma_find(body, key, n);
    assert(body.skip(n + k) == behind);
}

proof fn lemma_blank_only(w: Seq<char>)
    requires
        is_blank(w),
    ensures
        trim_start(w).len() == 0,
    decreases w.len(),
{
    if w.len() > 0 {
        assert(is_space(w[0]));
        lemma_blank_only(w.skip(1));
    }
}

proof fn lemma_trim_cut(w: Seq<char>, t: Seq<char>, n: int)
    requires
        is_blank(w),
        t.len() > 0,
        !is_space(t[0]),
        0 <= n <= w.len() + t.len(),
    ensures
        n <= w.len() ==> trim_start((w + t).take(n)).len() == 0,
        n > w.len() ==> trim_start((w + t).take(n)) == t.take(n - w.len()),
{
    if n <= w.len() {
        assert((w + t).take(n) == w.take(n));
        lemma_blank_only(w.take(n));
    } else {
        assert((w + t).take(n) == w + t.take(n - w.len()));
        lemma_blank(w, t.take(n - w.len()));
    }
}

/// Where the first address key of the account is not followed by a colon and a string
/// that is closed, there is no address. `c` is what stands in place of the colon or of
/// the quotation mark, and `open` is a string that runs to the end of the text.
pub proof fn law_email_no_string(
    before: Seq<char>,
    members: Seq<Piece>,
    blank: Seq<Seq<char>>,
    c: char,
    rest: Seq<char>,
    open: Seq<char>,
)
    requires
        find(before, account_key()) is None,
        are_pieces(members),
        find(pieces_text(members) + email_key(), email_key()) == Some(
            pieces_text(members).len() as int,
        ),
        blank.len() == 4,
        forall|i: int| 0 <= i < 4 ==> is_blank(#[trigger] blank[i]),
        !is_space(c),
        !open.contains('"'),
    ensures
        ({
            let account = account_key() + blank[0] + seq![':'] + blank[1] + seq!['{']
                + pieces_text(members);
            let colon = blank[2] + seq![':'] + blank[3];
            &&& c != ':' ==> email(
                before + account + (email_key() + (blank[2] + (seq![c] + rest))),
            ) is None
            &&& c != '"' ==> email(
                before + account + (email_key() + (colon + (seq![c] + rest))),
            ) is None
            &&& email(before + account + (email_key() + (colon + (seq!['"'] + open)))) is None
        }),
{
    if c != ':' {
        let behind = blank[2] + (seq![c] + rest);
        let n = lemma_key_kept(before, members, blank, behind);
        lemma_trim_cut(blank[2], seq![c] + rest, n);
    }
    let colon = blank[2] + seq![':'] + blank[3];
    if c != '"' {
        let value = seq![c] + rest;
        let t = seq![':'] + (blank[3] + value);
        let behind = colon + value;
        assert(behind == blank[2] + t);
        let n = lemma_key_kept(before, members, blank, behind);
        lemma_trim_cut(blank[2], t, n);
        let m = n - blank[2].len();
        if m > 0 {
            assert(t.take(m).skip(1) == (blank[3] + value).take(m - 1));
            lemma_trim_cut(blank[3], value, m - 1);
        }
    }
    let value = seq!['"'] + open;
    let t = seq![':'] + (blank[3] + value);
    let behind = colon + value;
    assert(behind == blank[2] + t);
    let n = lemma_key_kept(before, members, blank, behind);
    lemma_trim_cut(blank[2], t, n);
    let m = n - blank[2].len();
    if m > 0 {
        assert(t.take(m).skip(1) == (blank[3] + value).take(m - 1));
        lemma_trim_cut(blank[3], value, m - 1);
        let q = m - 1 - blank[3].len();
        if q > 0 {
            let quote = value.take(q).skip(1);
            assert forall|j: int| 0 <= j <= quote.len() implies !#[trigger] stands_at(
                quote,
                seq!['"'],
                j,
            ) by {
                if stands_at(quote, seq!['"'], j) {
                    assert(quote.subrange(j, j + 1)[0] == open[j]);
                    assert(open.contains(open[j]));
                }
            }
            lemma_find_none(quote, seq!['"']);
        }
    }
}

proof fn lemma_key_kept(
    before: Seq<char>,
    members: Seq<Piece>,
    blank: Seq<Seq<char>>,
    behind: Seq<char>,
) -> (n: int)
    requires
        find(before, account_key()) is None,
        are_pieces(members),
        find(pieces_text(members) + email_key(), email_key()) == Some(
            pieces_text(members).len() as int,
        ),
        blank.len() == 4,
        forall|i: int| 0 <= i < 4 ==> is_blank(#[trigger] blank[i]),
    ensures
        0 <= n <= behind.len(),
        email(
            before + (account_key() + blank[0] + seq![':'] + blank[1] + seq!['{'] + pieces_text(
                members,
            )) + (email_key() + behind),
        ) == string_value(behind.take(n)),
{
    let tail = email_key() + behind;
    lemma_email_body(before, members, blank, tail);
    lemma_email_key_len(behind);
    lemma_object_len(behind, 0, false);
    let n = object_len(behind, 0, false) as int;
    assert(tail.take(email_key().len() + n) == email_key() + behind.take(n));
    lemma_key_found(pieces_text(members), behind.take(n));
    n
}

} // verus!
