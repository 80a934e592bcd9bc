//! The JSON texts that go into a prompt, as `serde_json` writes them.

use vstd::prelude::*;
use vstd::string::*;

use crate::text::texts;

verus! {

/// The object type of `serde_json`.
#[verifier::external_type_specification]
#[verifier::external_body]
#[verifier::reject_recursive_types(K)]
#[verifier::reject_recursive_types(V)]
pub struct ExObject<K, V>(serde_json::Map<K, V>);

/// The value type of `serde_json`.
#[verifier::external_type_specification]
#[verifier::external_body]
pub struct ExValue(serde_json::Value);

/// A lower-case hexadecimal digit.
pub open spec fn hex_digit(n: int) -> char
    recommends
        0 <= n < 16,
{
    seq!['0', '1', '2', '3', '4', '5', '6', '7', '8', '9', 'a', 'b', 'c', 'd', 'e', 'f'][n]
}

/// How one character stands inside a JSON string.
pub open spec fn escape(c: char) -> Seq<char> {
    let code = c as int;
    if c == '"' || c == '\\' {
        seq!['\\', c]
    } else if code == 0x08 {
        seq!['\\', 'b']
    } else if code == 0x09 {
        seq!['\\', 't']
    } else if code == 0x0A {
        seq!['\\', 'n']
    } else if code == 0x0C {
        seq!['\\', 'f']
    } else if code == 0x0D {
        seq!['\\', 'r']
    } else if code < 0x20 {
        seq!['\\', 'u', '0', '0', hex_digit(code / 16), hex_digit(code % 16)]
    } else {
        seq![c]
    }
}

/// The characters of a text, each escaped.
pub open spec fn escaped(text: Seq<char>) -> Seq<char>
    decreases text.len(),
{
    if text.len() == 0 {
        seq![]
    } else {
        escaped(text.drop_last()) + escape(text.last())
    }
}

/// A text as a JSON string.
pub open spec fn string_form(text: Seq<char>) -> Seq<char> {
    seq!['"'] + escaped(text) + seq!['"']
}

/// The pieces with a comma between each two.
pub open spec fn comma_separated(pieces: Seq<Seq<char>>) -> Seq<char>
    decreases pieces.len(),
{
    if pieces.len() == 0 {
        seq![]
    } else if pieces.len() == 1 {
        pieces[0]
    } else {
        comma_separated(pieces.drop_last()) + seq![','] + pieces.last()
    }
}

/// A list of texts as a JSON array of strings.
pub open spec fn list_form(list: Seq<Seq<char>>) -> Seq<char> {
    seq!['['] + comma_separated(list.map_values(|text: Seq<char>| string_form(text))) + seq![']']
}

/// The order of texts by their characters.
pub open spec fn text_before(a: Seq<char>, b: Seq<char>) -> bool
    decreases a.len(),
{
    if b.len() == 0 {
        false
    } else if a.len() == 0 {
        true
    } else {
        a[0] < b[0] || (a[0] == b[0] && text_before(a.skip(1), b.skip(1)))
    }
}

/// The keys stand in strictly ascending order.
pub open spec fn ascending(keys: Seq<Seq<char>>) -> bool {
    forall|i: int, j: int| 0 <= i < j < keys.len() ==> text_before(#[trigger] keys[i], #[trigger] keys[j])
}

/// A JSON object whose members stand in the order of `keys`; `members` gives
/// the JSON text of each member's value.
pub open spec fn object_form(keys: Seq<Seq<char>>, members: Map<Seq<char>, Seq<char>>) -> Seq<char> {
    seq!['{'] + comma_separated(
        keys.map_values(|key: Seq<char>| string_form(key) + seq![':'] + members[key]),
    ) + seq!['}']
}

/// The members of a `serde_json` object: under each key, the JSON text of the
/// value.
pub uninterp spec fn members_of(object: serde_json::Map<String, serde_json::Value>) -> Map<
    Seq<char>,
    Seq<char>,
>;

/// An object without members.
pub open spec fn no_members() -> Map<Seq<char>, Seq<char>> {
    Map::empty()
}

/// Calls `serde_json::Map::new`, which makes an object without members.
#[verifier::external_body]
pub(crate) fn new_object() -> (object: serde_json::Map<String, serde_json::Value>)
    ensures
        members_of(object) == no_members(),
{
    serde_json::Map::new()
}

/// Calls `serde_json::Map::insert` with a string value, which puts the value
/// under the key in place of what was there.
#[verifier::external_body]
pub(crate) fn insert_text(
    object: &mut serde_json::Map<String, serde_json::Value>,
    key: &str,
    text: &str,
)
    ensures
        members_of(*final(object)) == members_of(*old(object)).insert(key@, string_form(text@)),
{
    object.insert(key.to_owned(), serde_json::Value::from(text));
}

/// Calls `serde_json::Map::insert` with an array of strings, which puts the
/// array under the key in place of what was there.
#[verifier::external_body]
pub(crate) fn insert_list(
    object: &mut serde_json::Map<String, serde_json::Value>,
    key: &str,
    list: &[String],
)
    ensures
        members_of(*final(object)) == members_of(*old(object)).insert(
            key@,
            list_form(texts(list@)),
        ),
{
    object.insert(key.to_owned(), serde_json::Value::from(list));
}

/// Displays a `serde_json` object, which writes it compactly with its members
/// in the ascending order of their keys.
#[verifier::external_body]
pub(crate) fn object_text(object: serde_json::Map<String, serde_json::Value>) -> (text: String)
    ensures
        forall|keys: Seq<Seq<char>>| #[trigger]
            ascending(keys) && keys.to_set() == members_of(object).dom() ==> text@ == object_form(
                keys,
                members_of(object),
            ),
{
    serde_json::Value::Object(object).to_string()
}

/// Calls `serde_json::to_string` on a string, which writes it as a JSON string
/// and never fails.
#[verifier::external_body]
pub(crate) fn string_text(text: &str) -> (json: String)
    ensures
        json@ == string_form(text@),
{
    serde_json::to_string(text).expect("a string is always JSON serializable")
}

/// Characters that stand for themselves inside a JSON string.
pub open spec fn is_plain(text: Seq<char>) -> bool {
    forall|i: int| 0 <= i < text.len() ==> #[trigger] text[i] as int >= 0x20 && text[i] != '"' && text[i]
        != '\\'
}

/// A text of plain characters is its own escaped form.
pub proof fn lemma_plain_escaped(text: Seq<char>)
    requires
        is_plain(text),
    ensures
        escaped(text) == text,
    decreases text.len(),
{
    if text.len() > 0 {
        assert(forall|i: int| 0 <= i < text.drop_last().len() ==> text.drop_last()[i] == text[i]);
        lemma_plain_escaped(text.drop_last());
        assert(text[text.len() - 1] as int >= 0x20);
        assert(text =~= text.drop_last() + seq![text.last()]);
    } else {
        assert(escaped(text) =~= text);
    }
}

/// The value of a hexadecimal digit.
pub open spec fn hex_value(digit: char) -> int {
    if '0' <= digit <= '9' {
        digit as int - '0' as int
    } else {
        digit as int - 'a' as int + 10
    }
}

/// Inside a JSON string a character stands for itself, unless it is a double
/// quote, a backslash or a control character. Those begin with a backslash:
/// quote and backslash follow it themselves, five controls have a letter of
/// their own, and the others are given by their code in four hexadecimal
/// digits.
pub proof fn law_escape(c: char)
    ensures
        ({
            let code = c as int;
            let shown = escape(c);
            &&& code >= 0x20 && c != '"' && c != '\\' ==> shown == seq![c]
            &&& code < 0x20 || c == '"' || c == '\\' ==> shown.len() >= 2 && shown[0] == '\\'
            &&& c == '"' || c == '\\' ==> shown.len() == 2 && shown[1] == c
            &&& code == 8 ==> shown == seq!['\\', 'b']
            &&& code == 9 ==> shown == seq!['\\', 't']
            &&& code == 10 ==> shown == seq!['\\', 'n']
            &&& code == 12 ==> shown == seq!['\\', 'f']
            &&& code == 13 ==> shown == seq!['\\', 'r']
            &&& code < 8 || code == 11 || 13 < code < 0x20 ==> shown.len() == 6 && shown[1] == 'u'
                && shown[2] == '0' && shown[3] == '0' && 16 * hex_value(shown[4]) + hex_value(
                shown[5],
            ) == code
        }),
{
}

/// A JSON string is the escaped characters of the text, one after the other,
/// between double quotes.
pub proof fn law_string_form(text: Seq<char>)
    ensures
        string_form(text) == seq!['"'] + Seq::new(
            text.len(),
            |i: int| escape(text[i]),
        ).flatten() + seq!['"'],
{
    lemma_escaped(text);
}

/// The escaped characters of a text, one after the other.
proof fn lemma_escaped(text: Seq<char>)
    ensures
        escaped(text) == Seq::new(text.len(), |i: int| escape(text[i])).flatten(),
    decreases text.len(),
{
    let all = Seq::new(text.len(), |i: int| escape(text[i]));
    if text.len() == 0 {
        assert(all.flatten() =~= seq![]);
    } else {
        let front = text.drop_last();
        lemma_escaped(front);
        let earlier = Seq::new(front.len(), |i: int| escape(front[i]));
        assert(all =~= earlier.push(escape(text.last())));
        earlier.lemma_flatten_push(escape(text.last()));
    }
}

/// A JSON array of texts holds each of them as a JSON string: one text more
/// stands at its end, after a comma unless it is the first.
pub proof fn law_list_form(list: Seq<Seq<char>>, text: Seq<char>)
    ensures
        list_form(seq![]) == seq!['[', ']'],
        list_form(list.push(text)) == list_form(list).drop_last() + (if list.len() > 0 {
            seq![',']
        } else {
            seq![]
        }) + string_form(text) + seq![']'],
{
    let form = |text: Seq<char>| string_form(text);
    let none: Seq<Seq<char>> = seq![];
    assert(none.map_values(form) =~= seq![]);
    assert(list_form(none) =~= seq!['[', ']']);
    let before = list.map_values(form);
    let now = list.push(text).map_values(form);
    assert(now =~= before.push(string_form(text)));
    assert(now.drop_last() =~= before);
    assert(list_form(list).drop_last() =~= seq!['['] + comma_separated(before));
    if list.len() == 0 {
        assert(comma_separated(before) =~= seq![]);
    }
    assert(list_form(list.push(text)) =~= list_form(list).drop_last() + (if list.len() > 0 {
        seq![',']
    } else {
        seq![]
    }) + string_form(text) + seq![']']);
}

/// A JSON object holds each member as its key, a colon and its value: one key
/// more stands at its end, after a comma unless it is the first.
pub proof fn law_object_form(
    keys: Seq<Seq<char>>,
    key: Seq<char>,
    members: Map<Seq<char>, Seq<char>>,
)
    ensures
        object_form(seq![], members) == seq!['{', '}'],
        object_form(keys.push(key), members) == object_form(keys, members).drop_last() + (
        if keys.len() > 0 {
            seq![',']
        } else {
            seq![]
        }) + string_form(key) + seq![':'] + members[key] + seq!['}'],
{
    let form = |key: Seq<char>| string_form(key) + seq![':'] + members[key];
    let none: Seq<Seq<char>> = seq![];
    assert(none.map_values(form) =~= seq![]);
    assert(object_form(none, members) =~= seq!['{', '}']);
    let before = keys.map_values(form);
    let now = keys.push(key).map_values(form);
    assert(now =~= before.push(form(key)));
    assert(now.drop_last() =~= before);
    assert(object_form(keys, members).drop_last() =~= seq!['{'] + comma_separated(before));
    if keys.len() == 0 {
        assert(comma_separated(before) =~= seq![]);
    }
    assert(object_form(keys.push(key), members) =~= object_form(keys, members).drop_last() + (
    if keys.len() > 0 {
        seq![',']
    } else {
        seq![]
    }) + string_form(key) + seq![':'] + members[key] + seq!['}']);
}

} // verus!
