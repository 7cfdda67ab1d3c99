//! The JSON payload that describes the session.

use crate::binary64::Binary64;
use crate::text::{str_view, text_view};
use serde_json::Value;
use vstd::prelude::*;

verus! {

/// A JSON value of `serde_json`.
#[verifier::external_type_specification]
#[verifier::external_body]
pub struct ExValue(serde_json::Value);

/// What a JSON value is read as: a string, an integer that an `i64` holds, a number.
#[verifier::ext_equal]
pub struct Node {
    pub text: Option<Seq<char>>,
    pub int: Option<i64>,
    pub float: Option<Binary64>,
}

/// The values within a JSON value, each under the keys that lead to it from object to
/// object, and the value itself under no key.
pub uninterp spec fn nodes(v: serde_json::Value) -> Map<Seq<Seq<char>>, Node>;

/// The values within the JSON document that a text is, if it is one.
pub uninterp spec fn document(text: Seq<char>) -> Option<Map<Seq<Seq<char>>, Node>>;

/// The values whose keys begin with `path`, under the keys that follow.
pub open spec fn subtree(m: Map<Seq<Seq<char>>, Node>, path: Seq<Seq<char>>) -> Map<
    Seq<Seq<char>>,
    Node,
> {
    Map::new(|p: Seq<Seq<char>>| m.contains_key(path + p), |p: Seq<Seq<char>>| m[path + p])
}

/// `serde_json::from_str`: the text is a JSON document or not, and which values it
/// holds is up to the text alone.
#[verifier::external_body]
fn parse_json(text: &str) -> (r: Option<Value>)
    ensures
        match r {
            Some(v) => document(text@) == Some(nodes(v)),
            None => document(text@) is None,
        },
{
    serde_json::from_str(text).ok()
}

/// `Value::get` with a string: the member of an object that has this key, and nothing
/// where there is none or the value is no object.
#[verifier::external_body]
fn member<'a>(v: &'a Value, key: &str) -> (r: Option<&'a Value>)
    ensures
        match r {
            Some(c) => nodes(*v).contains_key(seq![key@]) && nodes(*c) == subtree(
                nodes(*v),
                seq![key@],
            ),
            None => !nodes(*v).contains_key(seq![key@]),
        },
{
    v.get(key)
}

/// `Value::as_str`: the text, where the value is a string.
#[verifier::external_body]
fn text_of(v: &Value) -> (r: Option<&str>)
    ensures
        str_view(r) == nodes(*v)[Seq::empty()].text,
{
    v.as_str()
}

/// `Value::as_i64`: the integer, where the value is a number that is one and an `i64`
/// holds it.
#[verifier::external_body]
fn int_of(v: &Value) -> (r: Option<i64>)
    ensures
        r == nodes(*v)[Seq::empty()].int,
{
    v.as_i64()
}

/// `Value::as_f64`: the number, where the value is one.
#[verifier::external_body]
fn float_of(v: &Value) -> (r: Option<Binary64>)
    ensures
        r == nodes(*v)[Seq::empty()].float,
{
    match v.as_f64() {
        Some(x) => Some(Binary64 { bits: x.to_bits() }),
        None => None,
    }
}

/// The keys of a path.
pub open spec fn keys(path: Seq<&str>) -> Seq<Seq<char>> {
    path.map_values(|k: &str| k@)
}

/// The value to which a path leads, key by key.
pub open spec fn lookup(m: Map<Seq<Seq<char>>, Node>, path: Seq<Seq<char>>) -> Option<Node> {
    if forall|i: int| 0 < i <= path.len() ==> m.contains_key(#[trigger] path.take(i)) {
        Some(m[path])
    } else {
        None
    }
}

/// Follows a path, key by key.
fn follow<'a>(v: &'a Value, path: &[&str]) -> (r: Option<&'a Value>)
    ensures
        match r {
            Some(c) => lookup(nodes(*v), keys(path@)) == Some(nodes(*c)[Seq::empty()]),
            None => lookup(nodes(*v), keys(path@)) is None,
        },
{
    let mut cur: &'a Value = v;
    let mut i: usize = 0;
    let ghost m = nodes(*v);
    let ghost ks = keys(path@);
    assert(subtree(m, ks.take(0)) == m) by {
        assert forall|p: Seq<Seq<char>>| #[trigger] (ks.take(0) + p) == p by {}
        assert(subtree(m, ks.take(0)) =~= m);
    }
    while i < path.len()
        invariant
            i <= path@.len(),
            ks == keys(path@),
            m == nodes(*v),
            nodes(*cur) == subtree(m, ks.take(i as int)),
            forall|k: int| 0 < k <= i ==> m.contains_key(#[trigger] ks.take(k)),
        decreases path@.len() - i,
    {
        let ghost a = ks.take(i as int);
        let ghost b = seq![ks[i as int]];
        assert(a + b == ks.take(i + 1));
        match member(cur, path[i]) {
            Some(next) => {
                proof {
                    assert forall|p: Seq<Seq<char>>| #[trigger] (a + (b + p)) == ks.take(i + 1)
                        + p by {
                        assert(a + (b + p) =~= a + b + p);
                    }
                    assert(subtree(subtree(m, a), b) =~= subtree(m, ks.take(i + 1)));
                }
                cur = next;
            },
            None => {
                assert(!m.contains_key(ks.take(i + 1)));
                return None;
            },
        }
        i = i + 1;
    }
    assert(ks.take(ks.len() as int) == ks);
    assert(ks + Seq::<Seq<char>>::empty() == ks);
    Some(cur)
}

/// The string at a path.
pub open spec fn text_at(m: Map<Seq<Seq<char>>, Node>, path: Seq<Seq<char>>) -> Option<Seq<char>> {
    match lookup(m, path) {
        Some(n) => n.text,
        None => None,
    }
}

/// The integer at a path.
pub open spec fn int_at(m: Map<Seq<Seq<char>>, Node>, path: Seq<Seq<char>>) -> Option<i64> {
    match lookup(m, path) {
        Some(n) => n.int,
        None => None,
    }
}

/// The number at a path.
pub open spec fn float_at(m: Map<Seq<Seq<char>>, Node>, path: Seq<Seq<char>>) -> Option<Binary64> {
    match lookup(m, path) {
        Some(n) => n.float,
        None => None,
    }
}

/// The number at a path, rounded to an integer.
pub open spec fn rounded_at(m: Map<Seq<Seq<char>>, Node>, path: Seq<Seq<char>>) -> Option<i64> {
    match float_at(m, path) {
        Some(x) => Some(x.rounded()),
        None => None,
    }
}

/// The string at a path.
pub fn str_at<'a>(v: &'a Value, path: &[&str]) -> (r: Option<&'a str>)
    ensures
        str_view(r) == text_at(nodes(*v), keys(path@)),
{
    match follow(v, path) {
        Some(c) => text_of(c),
        None => None,
    }
}

/// The integer at a path.
pub fn ival(v: &Value, path: &[&str]) -> (r: Option<i64>)
    ensures
        r == int_at(nodes(*v), keys(path@)),
{
    match follow(v, path) {
        Some(c) => int_of(c),
        None => None,
    }
}

/// The number at a path.
pub fn fval(v: &Value, path: &[&str]) -> (r: Option<Binary64>)
    ensures
        r == float_at(nodes(*v), keys(path@)),
{
    match follow(v, path) {
        Some(c) => float_of(c),
        None => None,
    }
}

/// The number at a path, rounded to the nearest integer.
pub fn pct(v: &Value, path: &[&str]) -> (r: Option<i64>)
    ensures
        r == rounded_at(nodes(*v), keys(path@)),
{
    match fval(v, path) {
        Some(x) => Some(x.round()),
        None => None,
    }
}

/// What the status line reads from the payload. A limit is the percentage used and the
/// time of the reset.
#[derive(Debug)]
pub struct Payload {
    pub model: String,
    pub effort: Option<String>,
    pub context: Option<i64>,
    pub five: Option<(Binary64, i64)>,
    pub seven: Option<(Binary64, i64)>,
    pub cwd: Option<String>,
}

/// The view of a `Payload`.
#[verifier::ext_equal]
pub struct PayloadView {
    pub model: Seq<char>,
    pub effort: Option<Seq<char>>,
    pub context: Option<i64>,
    pub five: Option<(Binary64, i64)>,
    pub seven: Option<(Binary64, i64)>,
    pub cwd: Option<Seq<char>>,
}

impl View for Payload {
    type V = PayloadView;

    open spec fn view(&self) -> PayloadView {
        PayloadView {
            model: self.model@,
            effort: text_view(self.effort),
            context: self.context,
            five: self.five,
            seven: self.seven,
            cwd: text_view(self.cwd),
        }
    }
}

/// A limit, which is there if both of its values are.
pub open spec fn limit_at(m: Map<Seq<Seq<char>>, Node>, limit: Seq<char>) -> Option<
    (Binary64, i64),
> {
    let used = float_at(m, seq!["rate_limits"@, limit, "used_percentage"@]);
    let reset = int_at(m, seq!["rate_limits"@, limit, "resets_at"@]);
    if used is Some && reset is Some {
        Some((used->0, reset->0))
    } else {
        None
    }
}

/// The payload that a document holds. Every value may be missing; a text that is no
/// document holds none.
pub open spec fn payload_of(doc: Option<Map<Seq<Seq<char>>, Node>>) -> PayloadView {
    match doc {
        None => PayloadView {
            model: Seq::empty(),
            effort: None,
            context: None,
            five: None,
            seven: None,
            cwd: None,
        },
        Some(m) => PayloadView {
            model: match text_at(m, seq!["model"@, "display_name"@]) {
                Some(t) => t,
                None => Seq::empty(),
            },
            effort: text_at(m, seq!["effort"@, "level"@]),
            context: rounded_at(m, seq!["context_window"@, "used_percentage"@]),
            five: limit_at(m, "five_hour"@),
            seven: limit_at(m, "seven_day"@),
            cwd: text_at(m, seq!["cwd"@]),
        },
    }
}

fn owned(text: Option<&str>) -> (r: Option<String>)
    ensures
        text_view(r) == str_view(text),
{
    match text {
        Some(t) => Some(t.to_owned()),
        None => None,
    }
}

fn limit(v: &Value, name: &str) -> (r: Option<(Binary64, i64)>)
    ensures
        r == limit_at(nodes(*v), name@),
{
    let used_path: [&str; 3] = ["rate_limits", name, "used_percentage"];
    let reset_path: [&str; 3] = ["rate_limits", name, "resets_at"];
    assert(keys(used_path@) == seq!["rate_limits"@, name@, "used_percentage"@]);
    assert(keys(reset_path@) == seq!["rate_limits"@, name@, "resets_at"@]);
    match (fval(v, &used_path), ival(v, &reset_path)) {
        (Some(used), Some(reset)) => Some((used, reset)),
        _ => None,
    }
}

/// The payload in a JSON value.
pub fn payload_from(v: &Value) -> (r: Payload)
    ensures
        r@ == payload_of(Some(nodes(*v))),
{
    let model_path: [&str; 2] = ["model", "display_name"];
    let effort_path: [&str; 2] = ["effort", "level"];
    let context_path: [&str; 2] = ["context_window", "used_percentage"];
    let cwd_path: [&str; 1] = ["cwd"];
    proof {
        assert(keys(model_path@) == seq!["model"@, "display_name"@]);
        assert(keys(effort_path@) == seq!["effort"@, "level"@]);
        assert(keys(context_path@) == seq!["context_window"@, "used_percentage"@]);
        assert(keys(cwd_path@) == seq!["cwd"@]);
    }
    Payload {
        model: match str_at(v, &model_path) {
            Some(t) => t.to_owned(),
            None => String::new(),
        },
        effort: owned(str_at(v, &effort_path)),
        context: pct(v, &context_path),
        five: limit(v, "five_hour"),
        seven: limit(v, "seven_day"),
        cwd: owned(str_at(v, &cwd_path)),
    }
}

/// Reads the payload; without a JSON document nothing is known.
pub fn read_payload(text: &str) -> (r: Payload)
    ensures
        r@ == payload_of(document(text@)),
{
    match parse_json(text) {
        None => Payload {
            model: String::new(),
            effort: None,
            context: None,
            five: None,
            seven: None,
            cwd: None,
        },
        Some(v) => payload_from(&v),
    }
}

/// A path leads to a value if a value stands at each key on the way; then it is the one
/// at the last.
pub proof fn law_lookup(m: Map<Seq<Seq<char>>, Node>, path: Seq<Seq<char>>, key: Seq<char>)
    ensures
        lookup(m, Seq::empty()) == Some(m[Seq::empty()]),
        lookup(m, path.push(key)) == if lookup(m, path) is Some && m.contains_key(path.push(key)) {
            Some(m[path.push(key)])
        } else {
            None
        },
{
    let longer = path.push(key);
    let n = longer.len() as int;
    assert(longer.take(n) == longer);
    assert forall|i: int| 0 < i <= path.len() implies #[trigger] path.take(i) == longer.take(
        i,
    ) by {}
    if lookup(m, path) is Some && m.contains_key(longer) {
        assert forall|i: int| 0 < i <= n implies m.contains_key(#[trigger] longer.take(i)) by {
            if i < n {
                assert(path.take(i) == longer.take(i));
            }
        }
    } else if lookup(m, path) is None {
        let i = choose|i: int| 0 < i <= path.len() && !m.contains_key(#[trigger] path.take(i));
        assert(path.take(i) == longer.take(i));
    } else {
        assert(!m.contains_key(longer.take(n)));
    }
}

/// Each field of the payload is the value at its path in the document, if it is there
/// and of the right kind; a limit takes both of its values. The name of the model is
/// empty where there is none. Without a document nothing is known.
pub proof fn law_payload(m: Map<Seq<Seq<char>>, Node>)
    ensures
        ({
            let p = payload_of(Some(m));
            let none = payload_of(None);
            let model = lookup(m, seq!["model"@, "display_name"@]);
            let effort = lookup(m, seq!["effort"@, "level"@]);
            let context = lookup(m, seq!["context_window"@, "used_percentage"@]);
            let cwd = lookup(m, seq!["cwd"@]);
            let five = seq!["rate_limits"@, "five_hour"@];
            let seven = seq!["rate_limits"@, "seven_day"@];
            let used = "used_percentage"@;
            let reset = "resets_at"@;
            &&& p.model == if model is Some && (model->0).text is Some {
                (model->0).text->0
            } else {
                Seq::empty()
            }
            &&& p.effort == if effort is Some {
                (effort->0).text
            } else {
                None
            }
            &&& p.context == if context is Some && (context->0).float is Some {
                Some(((context->0).float->0).rounded())
            } else {
                None
            }
            &&& p.cwd == if cwd is Some {
                (cwd->0).text
            } else {
                None
            }
            &&& is_limit(p.five, lookup(m, five.push(used)), lookup(m, five.push(reset)))
            &&& is_limit(p.seven, lookup(m, seven.push(used)), lookup(m, seven.push(reset)))
            &&& none.model.len() == 0
            &&& none.effort is None && none.context is None && none.cwd is None
            &&& none.five is None && none.seven is None
        }),
{
    let five = seq!["rate_limits"@, "five_hour"@];
    let seven = seq!["rate_limits"@, "seven_day"@];
    let used = "used_percentage"@;
    let reset = "resets_at"@;
    assert(five.push(used) == seq!["rate_limits"@, "five_hour"@, used]);
    assert(five.push(reset) == seq!["rate_limits"@, "five_hour"@, reset]);
    assert(seven.push(used) == seq!["rate_limits"@, "seven_day"@, used]);
    assert(seven.push(reset) == seq!["rate_limits"@, "seven_day"@, reset]);
}

/// Whether a limit is made up of the number and the integer at two places, or missing
/// where one of them is.
pub open spec fn is_limit(
    limit: Option<(Binary64, i64)>,
    used: Option<Node>,
    reset: Option<Node>,
) -> bool {
    match limit {
        Some((u, r)) => used matches Some(a) && reset matches Some(b) && a.float == Some(u)
            && b.int == Some(r),
        None => used is None || reset is None || (used->0).float is None || (
        reset->0).int is None,
    }
}

/// The keys of a path are its words, all of them and in order.
pub proof fn law_keys(path: Seq<&str>, i: int)
    requires
        0 <= i < path.len(),
    ensures
        keys(path).len() == path.len(),
        keys(path)[i] == path[i]@,
{
}

/// What is read at a path is the value there, as far as it is of the kind asked for.
pub proof fn law_read_at(m: Map<Seq<Seq<char>>, Node>, path: Seq<Seq<char>>)
    ensures
        match lookup(m, path) {
            Some(n) => text_at(m, path) == n.text && int_at(m, path) == n.int && float_at(m, path)
                == n.float && (n.float matches Some(x) ==> rounded_at(m, path) == Some(
                x.rounded(),
            )) && (n.float is None ==> rounded_at(m, path) is None),
            None => text_at(m, path) is None && int_at(m, path) is None && float_at(
                m,
                path,
            ) is None && rounded_at(m, path) is None,
        },
{
}

/// The view of a payload holds all that the payload does.
pub proof fn law_payload_view(p: Payload)
    ensures
        p@.model == p.model@,
        p.effort matches Some(e) ==> p@.effort == Some(e@),
        p.effort is None ==> p@.effort is None,
        p@.context == p.context,
        p@.five == p.five,
        p@.seven == p.seven,
        p.cwd matches Some(c) ==> p@.cwd == Some(c@),
        p.cwd is None ==> p@.cwd is None,
{
}

} // verus!
