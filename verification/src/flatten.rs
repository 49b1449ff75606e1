//! The flatten engine: it writes the entries of an object or an array into
//! an output object, under keys made from a prefix, a separator and the
//! entry's own key or position.

use crate::document::{items_view, store, Document, Fields, Json, Object};
use crate::rules::StringManipulation;
use vstd::prelude::*;
use vstd::string::StringExecFns;

verus! {

/// The character of a decimal digit.
pub open spec fn digit_char(d: nat) -> char {
    if d == 0 {
        '0'
    } else if d == 1 {
        '1'
    } else if d == 2 {
        '2'
    } else if d == 3 {
        '3'
    } else if d == 4 {
        '4'
    } else if d == 5 {
        '5'
    } else if d == 6 {
        '6'
    } else if d == 7 {
        '7'
    } else if d == 8 {
        '8'
    } else {
        '9'
    }
}

/// A number in decimal digits, without leading zeros.
pub open spec fn decimal_text(n: nat) -> Seq<char>
    decreases n,
{
    if n < 10 {
        seq![digit_char(n)]
    } else {
        decimal_text(n / 10).push(digit_char(n % 10))
    }
}

/// The key of an entry: its own token, behind the prefix and the separator
/// where there is a prefix.
pub open spec fn key_of(prefix: Seq<char>, separator: Seq<char>, token: Seq<char>) -> Seq<char> {
    if prefix.len() > 0 {
        prefix + separator + token
    } else {
        token
    }
}

/// The token of a field of an object: its key, as the manipulation changes it.
pub open spec fn token_of(
    manipulation: Option<Box<dyn StringManipulation>>,
    key: Seq<char>,
) -> Seq<char> {
    match manipulation {
        Some(m) => m.renamed(key),
        None => key,
    }
}

/// Whether a value is an object or an array.
pub open spec fn is_composite(value: Json) -> bool {
    value is Object || value is Array
}

/// The output object after `from` has been flattened into `into`.
///
/// The fields of an object and the elements of an array are written one by
/// one, in their order; a later write to a key replaces an earlier one. An
/// element's token is its position, counted from one, in decimal digits. A
/// value that is neither an object nor an array is written under the prefix.
/// With `recursive`, an entry that is itself an object or an array is not
/// written but flattened in turn, with its key as the prefix.
pub open spec fn flattened(
    manipulation: Option<Box<dyn StringManipulation>>,
    separator: Seq<char>,
    prefix: Seq<char>,
    from: Json,
    into: Fields,
    recursive: bool,
) -> Fields
    decreases from, 0nat,
{
    match from {
        Json::Object(fields) => flattened_fields(
            manipulation,
            separator,
            prefix,
            fields,
            fields.len(),
            into,
            recursive,
        ),
        Json::Array(items) => flattened_items(
            manipulation,
            separator,
            prefix,
            items,
            items.len(),
            into,
            recursive,
        ),
        _ => store(into, prefix, from),
    }
}

/// The output object after one entry has been flattened into `into`.
pub open spec fn flattened_entry(
    manipulation: Option<Box<dyn StringManipulation>>,
    separator: Seq<char>,
    key: Seq<char>,
    value: Json,
    into: Fields,
    recursive: bool,
) -> Fields
    decreases value, 1nat,
{
    if recursive && is_composite(value) {
        flattened(manipulation, separator, key, value, into, recursive)
    } else {
        store(into, key, value)
    }
}

/// The output object after the first `n` fields of an object have been
/// flattened into `into`.
pub open spec fn flattened_fields(
    manipulation: Option<Box<dyn StringManipulation>>,
    separator: Seq<char>,
    prefix: Seq<char>,
    fields: Fields,
    n: nat,
    into: Fields,
    recursive: bool,
) -> Fields
    decreases fields, n,
{
    if n == 0 || n > fields.len() {
        into
    } else {
        flattened_entry(
            manipulation,
            separator,
            key_of(prefix, separator, token_of(manipulation, fields[n - 1].0)),
            fields[n - 1].1,
            flattened_fields(
                manipulation,
                separator,
                prefix,
                fields,
                (n - 1) as nat,
                into,
                recursive,
            ),
            recursive,
        )
    }
}

/// The output object after the first `n` elements of an array have been
/// flattened into `into`.
pub open spec fn flattened_items(
    manipulation: Option<Box<dyn StringManipulation>>,
    separator: Seq<char>,
    prefix: Seq<char>,
    items: Seq<Json>,
    n: nat,
    into: Fields,
    recursive: bool,
) -> Fields
    decreases items, n,
{
    if n == 0 || n > items.len() {
        into
    } else {
        flattened_entry(
            manipulation,
            separator,
            key_of(prefix, separator, decimal_text(n)),
            items[n - 1],
            flattened_items(
                manipulation,
                separator,
                prefix,
                items,
                (n - 1) as nat,
                into,
                recursive,
            ),
            recursive,
        )
    }
}

/// The text of one decimal digit.
fn digit_text(d: usize) -> (r: &'static str)
    requires
        d < 10,
    ensures
        r@ == seq![digit_char(d as nat)],
{
    proof {
        reveal_strlit("0");
        reveal_strlit("1");
        reveal_strlit("2");
        reveal_strlit("3");
        reveal_strlit("4");
        reveal_strlit("5");
        reveal_strlit("6");
        reveal_strlit("7");
        reveal_strlit("8");
        reveal_strlit("9");
    }
    let r = if d == 0 {
        "0"
    } else if d == 1 {
        "1"
    } else if d == 2 {
        "2"
    } else if d == 3 {
        "3"
    } else if d == 4 {
        "4"
    } else if d == 5 {
        "5"
    } else if d == 6 {
        "6"
    } else if d == 7 {
        "7"
    } else if d == 8 {
        "8"
    } else {
        "9"
    };
    r
}

/// Writes a number in decimal digits.
pub fn index_token(n: usize) -> (r: String)
    ensures
        r@ == decimal_text(n as nat),
    decreases n,
{
    if n < 10 {
        digit_text(n).to_owned()
    } else {
        let mut r = index_token(n / 10);
        r.append(digit_text(n % 10));
        r
    }
}

/// Makes the key of an entry from the prefix, the separator and the entry's token.
pub fn derive_key(prefix: &str, separator: &str, token: &str) -> (key: String)
    ensures
        key@ == key_of(prefix@, separator@, token@),
{
    if prefix.is_empty() {
        token.to_owned()
    } else {
        let mut key = prefix.to_owned();
        key.append(separator);
        key.append(token);
        key
    }
}

/// The token of a field of an object.
fn field_token(manipulation: &Option<Box<dyn StringManipulation>>, key: &String) -> (token: String)
    ensures
        token@ == token_of(*manipulation, key@),
{
    match manipulation {
        Some(m) => m.apply(key.as_str()),
        None => key.clone(),
    }
}

/// Whether a value is an object or an array.
fn composite(value: &Document) -> (r: bool)
    ensures
        r == is_composite(value@),
{
    match value {
        Document::Object(_) => true,
        Document::Array(_) => true,
        _ => false,
    }
}

/// Writes the entries of `from` into `to`, each as it is.
pub fn flatten_single_level(
    manipulation: &Option<Box<dyn StringManipulation>>,
    sep: &str,
    id: &str,
    from: &Document,
    to: &mut Object,
)
    ensures
        final(to)@ == flattened(*manipulation, sep@, id@, from@, old(to)@, false),
{
    let ghost start = to@;
    match from {
        Document::Object(object) => {
            let n = object.len();
            let mut i: usize = 0;
            while i < n
                invariant
                    0 <= i <= n,
                    n == object@.len(),
                    to@ == flattened_fields(
                        *manipulation,
                        sep@,
                        id@,
                        object@,
                        i as nat,
                        start,
                        false,
                    ),
                decreases n - i,
            {
                let (k, v) = object.entry(i);
                let token = field_token(manipulation, k);
                let key = derive_key(id, sep, token.as_str());
                let ghost before = to@;
                assert(flattened_fields(
                    *manipulation,
                    sep@,
                    id@,
                    object@,
                    (i + 1) as nat,
                    start,
                    false,
                ) == flattened_entry(*manipulation, sep@, key@, v@, before, false));
                to.insert(key, v.clone());
                i += 1;
            }
        },
        Document::Array(items) => {
            let n = items.len();
            let mut i: usize = 0;
            while i < n
                invariant
                    0 <= i <= n,
                    n == items@.len(),
                    from@ is Array && from@->Array_0 == items_view(items@),
                    to@ == flattened_items(
                        *manipulation,
                        sep@,
                        id@,
                        from@->Array_0,
                        i as nat,
                        start,
                        false,
                    ),
                decreases n - i,
            {
                let token = index_token(i + 1);
                let key = derive_key(id, sep, token.as_str());
                let ghost before = to@;
                assert(flattened_items(
                    *manipulation,
                    sep@,
                    id@,
                    from@->Array_0,
                    (i + 1) as nat,
                    start,
                    false,
                ) == flattened_entry(*manipulation, sep@, key@, items[i as int]@, before, false));
                to.insert(key, items[i].clone());
                i += 1;
            }
        },
        _ => {
            to.insert(id.to_owned(), from.clone());
        },
    }
}

/// Writes the entries of `from` into `to`; an entry that is an object or an
/// array is flattened in turn, with its key as the prefix.
pub fn flatten_recursive(
    manipulation: &Option<Box<dyn StringManipulation>>,
    sep: &str,
    id: &str,
    from: &Document,
    to: &mut Object,
)
    ensures
        final(to)@ == flattened(*manipulation, sep@, id@, from@, old(to)@, true),
    decreases from@,
{
    let ghost start = to@;
    match from {
        Document::Object(object) => {
            let n = object.len();
            let mut i: usize = 0;
            while i < n
                invariant
                    0 <= i <= n,
                    n == object@.len(),
                    from@ is Object && from@->Object_0 == object@,
                    to@ == flattened_fields(
                        *manipulation,
                        sep@,
                        id@,
                        object@,
                        i as nat,
                        start,
                        true,
                    ),
                decreases n - i,
            {
                let (k, v) = object.entry(i);
                let token = field_token(manipulation, k);
                let key = derive_key(id, sep, token.as_str());
                let ghost before = to@;
                assert(flattened_fields(
                    *manipulation,
                    sep@,
                    id@,
                    object@,
                    (i + 1) as nat,
                    start,
                    true,
                ) == flattened_entry(*manipulation, sep@, key@, v@, before, true));
                if composite(v) {
                    flatten_recursive(manipulation, sep, key.as_str(), v, to);
                } else {
                    to.insert(key, v.clone());
                }
                i += 1;
            }
        },
        Document::Array(items) => {
            let n = items.len();
            let mut i: usize = 0;
            while i < n
                invariant
                    0 <= i <= n,
                    n == items@.len(),
                    from@ is Array && from@->Array_0 == items_view(items@),
                    to@ == flattened_items(
                        *manipulation,
                        sep@,
                        id@,
                        from@->Array_0,
                        i as nat,
                        start,
                        true,
                    ),
                decreases n - i,
            {
                let token = index_token(i + 1);
                let key = derive_key(id, sep, token.as_str());
                let ghost before = to@;
                assert(flattened_items(
                    *manipulation,
                    sep@,
                    id@,
                    from@->Array_0,
                    (i + 1) as nat,
                    start,
                    true,
                ) == flattened_entry(*manipulation, sep@, key@, items[i as int]@, before, true));
                if composite(&items[i]) {
                    flatten_recursive(manipulation, sep, key.as_str(), &items[i], to);
                } else {
                    to.insert(key, items[i].clone());
                }
                i += 1;
            }
        },
        _ => {
            to.insert(id.to_owned(), from.clone());
        },
    }
}

/// Flattens `from` into `to`.
///
/// `id` is the prefix of the keys and `sep` what stands between the prefix
/// and an entry's token; the manipulation, where there is one, changes the
/// keys of objects, never the positions of arrays.
pub fn flatten(
    manipulation: &Option<Box<dyn StringManipulation>>,
    sep: &str,
    id: &str,
    from: &Document,
    to: &mut Object,
    recursive: bool,
)
    ensures
        final(to)@ == flattened(*manipulation, sep@, id@, from@, old(to)@, recursive),
{
    if recursive {
        flatten_recursive(manipulation, sep, id, from, to);
    } else {
        flatten_single_level(manipulation, sep, id, from, to);
    }
}

} // verus!
