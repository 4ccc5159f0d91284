//! The JSON that the bridge reads and writes, by way of `serde_json`.
use crate::decimal::{all_digits, decimal, decimal_value, hex_digit};
use crate::text::{join, opt_str};
use vstd::prelude::*;
use vstd::utf8::encode_utf8;

verus! {

/// What a lookup in a JSON document finds.
pub enum Json {
    /// The document is not JSON.
    Malformed,
    /// There is nothing at the place that was asked for.
    Missing,
    /// A string.
    Text(String),
    /// A number that is an unsigned 64-bit integer.
    Unsigned(u64),
    /// Any other value.
    Other,
}

/// The model of [`Json`].
pub enum JsonView {
    Malformed,
    Missing,
    Text(Seq<char>),
    Unsigned(u64),
    Other,
}

impl View for Json {
    type V = JsonView;

    open spec fn view(&self) -> JsonView {
        match *self {
            Json::Malformed => JsonView::Malformed,
            Json::Missing => JsonView::Missing,
            Json::Text(s) => JsonView::Text(s@),
            Json::Unsigned(n) => JsonView::Unsigned(n),
            Json::Other => JsonView::Other,
        }
    }
}

/// What stands under `outer`, and under `inner` within it if that is given, in the JSON
/// document `bytes`.
pub uninterp spec fn json_at(
    bytes: Seq<u8>,
    outer: Seq<char>,
    inner: Option<Seq<char>>,
) -> JsonView;

/// One character inside a JSON string literal.
pub open spec fn escaped(c: char) -> Seq<char> {
    if c == '"' {
        seq!['\\', '"']
    } else if c == '\\' {
        seq!['\\', '\\']
    } else if c == '\u{8}' {
        seq!['\\', 'b']
    } else if c == '\u{c}' {
        seq!['\\', 'f']
    } else if c == '\n' {
        seq!['\\', 'n']
    } else if c == '\r' {
        seq!['\\', 'r']
    } else if c == '\t' {
        seq!['\\', 't']
    } else if (c as nat) < 32 {
        seq!['\\', 'u', '0', '0', hex_digit(c as nat / 16), hex_digit(c as nat % 16)]
    } else {
        seq![c]
    }
}

/// The inside of the JSON string literal of `s`.
pub open spec fn escaped_all(s: Seq<char>) -> Seq<char>
    decreases s.len(),
{
    if s.len() == 0 {
        seq![]
    } else {
        escaped_all(s.drop_last()) + escaped(s.last())
    }
}

/// The JSON string literal of `s`.
pub open spec fn json_literal(s: Seq<char>) -> Seq<char> {
    seq!['"'] + escaped_all(s) + seq!['"']
}

/// Writes a string as a JSON literal with the `Display` of `serde_json::Value`: between
/// quotes, with quotes, backslashes and control characters escaped.
#[verifier::external_body]
pub(crate) fn quoted(s: &str) -> (r: String)
    ensures
        r@ == json_literal(s@),
{
    serde_json::Value::String(s.to_owned()).to_string()
}

/// Whether a value is a text or a number, which have a short form of their own.
pub open spec fn is_scalar(value: JsonView) -> bool {
    value is Text || value is Unsigned
}

/// A text or a number as it is written.
pub open spec fn scalar_text(value: JsonView) -> Seq<char> {
    match value {
        JsonView::Text(s) => json_literal(s),
        JsonView::Unsigned(n) => decimal(n as nat),
        _ => ""@,
    }
}

/// A member of an object as it is written.
pub open spec fn member_text(member: (Seq<char>, JsonView)) -> Seq<char> {
    json_literal(member.0) + ":"@ + scalar_text(member.1)
}

/// An object of texts and numbers as it is written, without spaces.
pub open spec fn object_text(members: Seq<(Seq<char>, JsonView)>) -> Seq<char> {
    "{"@ + join(Seq::new(members.len(), |i: int| member_text(members[i])), ","@) + "}"@
}

/// Whether the members of an object are texts and numbers, under keys that do not begin with a
/// dollar sign.
pub open spec fn are_plain(members: Seq<(Seq<char>, JsonView)>) -> bool {
    forall|i: int|
        0 <= i < members.len() ==> is_scalar((#[trigger] members[i]).1) && (members[i].0.len() == 0
            || members[i].0[0] != '$')
}

/// The value of a key in an object: that of the last member with it.
pub open spec fn member_at(members: Seq<(Seq<char>, JsonView)>, key: Seq<char>) -> JsonView
    decreases members.len(),
{
    if members.len() == 0 {
        JsonView::Missing
    } else if members.last().0 == key {
        members.last().1
    } else {
        member_at(members.drop_last(), key)
    }
}

// ---------------------------------------------------------------------------
// Any document
// ---------------------------------------------------------------------------

/// A character in a JSON string, and how it is written there.
pub struct Letter {
    pub value: char,
    pub form: Seq<char>,
}

/// A number as it is written, in its parts.
pub struct NumberText {
    /// A minus sign, or nothing.
    pub sign: Seq<char>,
    /// The digits before the point.
    pub whole: Seq<char>,
    /// The point and the digits behind it, or nothing.
    pub fraction: Seq<char>,
    /// The letter `e`, maybe a sign, and the digits behind it, or nothing.
    pub exponent: Seq<char>,
}

/// A member of an object as it is written, with the white space before its key and behind it.
pub struct Member {
    pub before: Seq<char>,
    pub key: Seq<Letter>,
    pub after: Seq<char>,
    pub value: Doc,
}

/// A JSON document as it is written.
pub enum Doc {
    /// `null`, `true` or `false`.
    Word(Seq<char>),
    Number(NumberText),
    Text(Seq<Letter>),
    Array(Seq<Doc>),
    Object(Seq<Member>),
    /// A document with white space before and behind it.
    Spaced(Seq<char>, Box<Doc>, Seq<char>),
}

/// Whether a text is white space, as JSON has it.
pub open spec fn is_gap(s: Seq<char>) -> bool {
    forall|i: int|
        0 <= i < s.len() ==> #[trigger] s[i] == ' ' || s[i] == '\t' || s[i] == '\n' || s[i] == '\r'
}

/// Whether a character is a hexadecimal digit of the given value.
pub open spec fn is_hex_of(c: char, n: nat) -> bool {
    ||| '0' <= c <= '9' && n == c as nat - 48
    ||| 'a' <= c <= 'f' && n == c as nat - 87
    ||| 'A' <= c <= 'F' && n == c as nat - 55
}

/// Whether a text is an escape of four hexadecimal digits for the given number.
pub open spec fn is_unit(s: Seq<char>, n: nat) -> bool {
    &&& s.len() == 6 && s[0] == '\\' && s[1] == 'u'
    &&& is_hex_of(s[2], n / 4096) && is_hex_of(s[3], (n / 256) % 16)
    &&& is_hex_of(s[4], (n / 16) % 16) && is_hex_of(s[5], n % 16)
}

/// Whether a character can be written so in a JSON string: as it is, with a short escape, or
/// with one or two numeric ones.
pub open spec fn is_letter(l: Letter) -> bool {
    let n = l.value as nat;
    ||| l.form == escaped(l.value)
    ||| l.value == '/' && l.form == seq!['\\', '/']
    ||| n < 0x1_0000 && is_unit(l.form, n)
    ||| n >= 0x1_0000 && l.form.len() == 12 && is_unit(
        l.form.take(6),
        (0xd800 + (n - 0x1_0000) / 1024) as nat,
    ) && is_unit(l.form.skip(6), (0xdc00 + (n - 0x1_0000) % 1024) as nat)
}

/// Whether all characters of a JSON string can be written as they are.
pub open spec fn are_letters(s: Seq<Letter>) -> bool {
    forall|i: int| 0 <= i < s.len() ==> is_letter(#[trigger] s[i])
}

/// The text in a JSON string.
pub open spec fn letters_value(s: Seq<Letter>) -> Seq<char> {
    Seq::new(s.len(), |i: int| s[i].value)
}

/// The inside of a JSON string.
pub open spec fn letters_text(s: Seq<Letter>) -> Seq<char>
    decreases s.len(),
{
    if s.len() == 0 {
        seq![]
    } else {
        letters_text(s.drop_last()) + s.last().form
    }
}

/// Whether a number is one of JSON, and neither long nor of a large power.
pub open spec fn is_number(n: NumberText) -> bool {
    let e: int = if n.exponent.len() > 1 && (n.exponent[1] == '+' || n.exponent[1] == '-') {
        2
    } else {
        1
    };
    &&& n.sign.len() == 0 || n.sign == seq!['-']
    &&& all_digits(n.whole) && (n.whole.len() == 1 || n.whole[0] != '0')
    &&& n.fraction.len() == 0 || (n.fraction[0] == '.' && all_digits(n.fraction.skip(1)))
    &&& n.exponent.len() == 0 || {
        &&& n.exponent[0] == 'e' || n.exponent[0] == 'E'
        &&& all_digits(n.exponent.skip(e))
        &&& n.exponent.len() <= e + 2
    }
    &&& n.whole.len() + n.fraction.len() <= 100
}

/// A document as text.
pub open spec fn doc_text(d: Doc) -> Seq<char>
    decreases d,
{
    match d {
        Doc::Word(w) => w,
        Doc::Number(n) => n.sign + n.whole + n.fraction + n.exponent,
        Doc::Text(s) => seq!['"'] + letters_text(s) + seq!['"'],
        Doc::Array(items) => seq!['['] + items_text(items) + seq![']'],
        Doc::Object(members) => seq!['{'] + members_text(members) + seq!['}'],
        Doc::Spaced(before, inner, after) => before + doc_text(*inner) + after,
    }
}

/// The items of an array as text.
pub open spec fn items_text(items: Seq<Doc>) -> Seq<char>
    decreases items,
{
    if items.len() == 0 {
        seq![]
    } else if items.len() == 1 {
        doc_text(items[0])
    } else {
        let n = items.len() - 1;
        items_text(items.subrange(0, n)) + seq![','] + doc_text(items[n])
    }
}

/// The members of an object as text.
pub open spec fn members_text(members: Seq<Member>) -> Seq<char>
    decreases members,
{
    if members.len() == 0 {
        seq![]
    } else {
        let n = members.len() - 1;
        let m = members[n];
        let text = m.before + seq!['"'] + letters_text(m.key) + seq!['"'] + m.after + seq![':']
            + doc_text(m.value);
        if n == 0 {
            text
        } else {
            members_text(members.subrange(0, n)) + seq![','] + text
        }
    }
}

/// Whether a document is JSON, with arrays and objects not more than `depth` deep, and without
/// keys that begin with a dollar sign.
pub open spec fn is_doc(d: Doc, depth: nat) -> bool
    decreases d,
{
    match d {
        Doc::Word(w) => w == "null"@ || w == "true"@ || w == "false"@,
        Doc::Number(n) => is_number(n),
        Doc::Text(s) => are_letters(s),
        Doc::Array(items) => depth > 0 && are_docs(items, (depth - 1) as nat),
        Doc::Object(members) => depth > 0 && are_members(members, (depth - 1) as nat),
        Doc::Spaced(before, inner, after) => is_gap(before) && is_gap(after) && is_doc(
            *inner,
            depth,
        ),
    }
}

/// Whether the items of an array are JSON.
pub open spec fn are_docs(items: Seq<Doc>, depth: nat) -> bool
    decreases items,
{
    items.len() == 0 || {
        let n = items.len() - 1;
        is_doc(items[n], depth) && are_docs(items.subrange(0, n), depth)
    }
}

/// Whether the members of an object are JSON.
pub open spec fn are_members(members: Seq<Member>, depth: nat) -> bool
    decreases members,
{
    members.len() == 0 || {
        let n = members.len() - 1;
        let m = members[n];
        &&& is_gap(m.before) && is_gap(m.after)
        &&& are_letters(m.key)
        &&& m.key.len() == 0 || m.key[0].value != '$'
        &&& is_doc(m.value, depth)
        &&& are_members(members.subrange(0, n), depth)
    }
}

/// What a document is, as a lookup tells it.
pub open spec fn doc_value(d: Doc) -> JsonView
    decreases d,
{
    match d {
        Doc::Text(s) => JsonView::Text(letters_value(s)),
        Doc::Number(n) => if n.sign.len() == 0 && n.fraction.len() == 0 && n.exponent.len() == 0
            && decimal_value(n.whole) <= u64::MAX {
            JsonView::Unsigned(decimal_value(n.whole) as u64)
        } else {
            JsonView::Other
        },
        Doc::Spaced(_, inner, _) => doc_value(*inner),
        _ => JsonView::Other,
    }
}

/// What stands under a key: the value of the last member with it.
pub open spec fn doc_member(d: Doc, key: Seq<char>) -> Option<Doc>
    decreases d,
{
    match d {
        Doc::Object(members) => last_member(members, key),
        Doc::Spaced(_, inner, _) => doc_member(*inner, key),
        _ => None,
    }
}

/// The value of the last member with a key.
pub open spec fn last_member(members: Seq<Member>, key: Seq<char>) -> Option<Doc>
    decreases members.len(),
{
    if members.len() == 0 {
        None
    } else if letters_value(members.last().key) == key {
        Some(members.last().value)
    } else {
        last_member(members.drop_last(), key)
    }
}

/// What stands in a document under `outer`, and under `inner` within it if that is given.
pub open spec fn doc_at(d: Doc, outer: Seq<char>, inner: Option<Seq<char>>) -> JsonView {
    match doc_member(d, outer) {
        None => JsonView::Missing,
        Some(value) => match inner {
            None => doc_value(value),
            Some(key) => match doc_member(value, key) {
                None => JsonView::Missing,
                Some(found) => doc_value(found),
            },
        },
    }
}

/// A lookup in a document does not find that it is none.
pub proof fn lemma_document_is_not_malformed(d: Doc, outer: Seq<char>, inner: Option<Seq<char>>)
    ensures
        !(doc_at(d, outer, inner) is Malformed),
{
    if let Some(value) = doc_member(d, outer) {
        lemma_value_is_not_malformed(value);
        if let Some(key) = inner {
            if let Some(found) = doc_member(value, key) {
                lemma_value_is_not_malformed(found);
            }
        }
    }
}

proof fn lemma_value_is_not_malformed(d: Doc)
    ensures
        !(doc_value(d) is Malformed),
    decreases d,
{
    if let Doc::Spaced(_, inner, _) = d {
        lemma_value_is_not_malformed(*inner);
    }
}

/// Whether bytes are a JSON document that is read as it was written. `serde_json` reads arrays
/// and objects that are up to 127 deep.
pub open spec fn is_document(bytes: Seq<u8>, d: Doc) -> bool {
    bytes == encode_utf8(doc_text(d)) && is_doc(d, 127)
}

/// Parses `bytes` with `serde_json::from_slice` and looks a member up with `Value::get`. The
/// result is a function of the arguments. A JSON document is read as it was written, unless it is
/// nested too deeply, a number in it is long or has a large power, or a key begins with a dollar
/// sign: `serde_json` keeps such keys for itself. How it reads other documents is not said.
#[verifier::external_body]
pub(crate) fn lookup(bytes: &[u8], outer: &str, inner: Option<&str>) -> (r: Json)
    ensures
        r@ == json_at(bytes@, outer@, opt_str(inner)),
        forall|members: Seq<(Seq<char>, JsonView)>|
            bytes@ == #[trigger] encode_utf8(object_text(members)) && are_plain(members)
                && inner is None ==> r@ == member_at(members, outer@),
        forall|d: Doc| #[trigger]
            is_document(bytes@, d) ==> r@ == doc_at(d, outer@, opt_str(inner)),
{
    let Ok(document) = serde_json::from_slice::<serde_json::Value>(bytes) else {
        return Json::Malformed;
    };
    let found = match inner {
        None => document.get(outer),
        Some(key) => document.get(outer).and_then(|value| value.get(key)),
    };
    match found {
        None => Json::Missing,
        Some(serde_json::Value::String(s)) => Json::Text(s.clone()),
        Some(value) => value.as_u64().map_or(Json::Other, Json::Unsigned),
    }
}

/// Writes a member of an object, given the text of its value.
pub(crate) fn member_of(key: &str, value: &str) -> (r: String)
    ensures
        r@ == json_literal(key@) + ":"@ + value@,
{
    let mut out = quoted(key);
    out.append(":");
    out.append(value);
    out
}

/// A JSON string literal holds no control characters.
pub proof fn lemma_literal_is_printable(s: Seq<char>)
    ensures
        forall|i: int| 0 <= i < json_literal(s).len() ==> json_literal(s)[i] >= ' ',
{
    lemma_escaped_is_printable(s);
}

proof fn lemma_escape_is_printable(c: char)
    ensures
        forall|i: int| 0 <= i < escaped(c).len() ==> escaped(c)[i] >= ' ',
{
    let e = escaped(c);
    assert(hex_digit(c as nat / 16) >= ' ' || c as nat >= 32);
    assert(hex_digit(c as nat % 16) >= ' ');
    assert forall|i: int| 0 <= i < e.len() implies e[i] >= ' ' by {
        if e.len() > 1 {
            assert(i == 0 || i == 1 || i == 2 || i == 3 || i == 4 || i == 5);
        }
    }
}

proof fn lemma_escaped_is_printable(s: Seq<char>)
    ensures
        forall|i: int| 0 <= i < escaped_all(s).len() ==> escaped_all(s)[i] >= ' ',
    decreases s.len(),
{
    if s.len() > 0 {
        lemma_escaped_is_printable(s.drop_last());
        lemma_escape_is_printable(s.last());
        let before = escaped_all(s.drop_last());
        let e = escaped(s.last());
        assert forall|i: int| 0 <= i < escaped_all(s).len() implies escaped_all(s)[i] >= ' ' by {
            if i < before.len() {
                assert(escaped_all(s)[i] == before[i]);
            } else {
                assert(escaped_all(s)[i] == e[i - before.len()]);
            }
        }
    }
}

} // verus!
