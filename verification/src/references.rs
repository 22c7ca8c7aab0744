//! Reading the reference transactions from their JSON text.

use crate::distance::DIMS;
use crate::features::label_of;
use sonic_rs::{JsonContainerTrait, JsonValueTrait};
use vstd::prelude::*;

verus! {

/// Why a text holds no reference transactions.
#[derive(Clone, Copy, Debug, PartialEq, Eq, Structural)]
pub enum ReferenceError {
    /// It is not JSON.
    NotJson,
    /// It is not an array.
    NotArray,
    /// One of its items has no vector.
    NoVector,
}

impl ReferenceError {
    /// What to tell the user.
    pub fn message(self) -> (r: &'static str)
        ensures
            r@ == match self {
                ReferenceError::NotJson => "json parse error"@,
                ReferenceError::NotArray => "expected array"@,
                ReferenceError::NoVector => "vector field"@,
            },
    {
        match self {
            ReferenceError::NotJson => "json parse error",
            ReferenceError::NotArray => "expected array",
            ReferenceError::NoVector => "vector field",
        }
    }
}

/// An item of the text.
pub struct RawReference {
    /// The elements of its `vector`, if that is an array: the double-precision
    /// bits of a number, `None` for anything else.
    pub numbers: Option<Vec<Option<u64>>>,
    /// Its `label`, if that is a string.
    pub label: Option<String>,
}

/// What is in an item.
pub type Contents = (Option<Seq<Option<u64>>>, Option<Seq<char>>);

impl RawReference {
    /// What is in the item.
    pub open spec fn contents(self) -> Contents {
        (
            match self.numbers {
                Some(numbers) => Some(numbers@),
                None => None,
            },
            match self.label {
                Some(label) => Some(label@),
                None => None,
            },
        )
    }
}

/// What is in the items of a text.
pub open spec fn all_contents(parsed: Option<Option<Vec<RawReference>>>) -> Option<
    Option<Seq<Contents>>,
> {
    match parsed {
        Some(Some(items)) => Some(Some(items@.map_values(|item: RawReference| item.contents()))),
        Some(None) => Some(None),
        None => None,
    }
}

/// Where a reader of JSON stands.
pub struct Place {
    /// Number of arrays and objects around it.
    pub depth: int,
    /// Number of commas and colons before it that are not in a string.
    pub separators: nat,
    /// It is in a string.
    pub quoted: bool,
    /// It is behind a backslash in a string.
    pub escaped: bool,
}

/// Where a reader stands behind the bytes.
pub open spec fn place_after(b: Seq<u8>) -> Place
    decreases b.len(),
{
    if b.len() == 0 {
        Place { depth: 0, separators: 0, quoted: false, escaped: false }
    } else {
        let p = place_after(b.drop_last());
        let c = b.last();
        if p.quoted {
            Place {
                quoted: p.escaped || c != 0x22,
                escaped: !p.escaped && c == 0x5c,
                ..p
            }
        } else if c == 0x22 {
            Place { quoted: true, ..p }
        } else if c == 0x5b || c == 0x7b {
            Place { depth: p.depth + 1, ..p }
        } else if c == 0x5d || c == 0x7d {
            Place { depth: p.depth - 1, ..p }
        } else if c == 0x2c || c == 0x3a {
            Place { separators: p.separators + 1, ..p }
        } else {
            p
        }
    }
}

/// Deepest nesting of arrays and objects that is read. The references nest three
/// deep; the parser takes stack for every level, and unoptimised on a thread of
/// two megabytes it overflows at about forty.
pub const MAX_NESTING: u32 = 32;

/// Largest number of commas and colons that is read: no array or object then has
/// more elements than the parser can count.
pub const MAX_SEPARATORS: u32 = 0x1fff_fffe;

/// The text is within what the parser can take: it calls itself for every
/// nested array or object, with no limit of its own, and it counts the elements
/// of one in 29 bits.
pub open spec fn is_readable(b: Seq<u8>) -> bool {
    forall|n: int|
        0 <= n <= b.len() ==> (#[trigger] place_after(b.take(n))).depth <= MAX_NESTING
            && place_after(b.take(n)).separators <= MAX_SEPARATORS
}

/// Checks that a text is within what the parser can take.
pub fn check_readable(bytes: &[u8]) -> (r: bool)
    ensures
        r == is_readable(bytes@),
{
    let mut depth: i128 = 0;
    let mut separators: u32 = 0;
    let mut quoted: bool = false;
    let mut escaped: bool = false;
    let mut i: usize = 0;
    while i < bytes.len()
        invariant
            i <= bytes@.len(),
            -(i as int) <= depth <= MAX_NESTING,
            separators <= MAX_SEPARATORS,
            place_after(bytes@.take(i as int)) == (Place {
                depth: depth as int,
                separators: separators as nat,
                quoted,
                escaped,
            }),
            !quoted ==> !escaped,
            forall|n: int|
                0 <= n <= i ==> (#[trigger] place_after(bytes@.take(n))).depth <= MAX_NESTING
                    && place_after(bytes@.take(n)).separators <= MAX_SEPARATORS,
        decreases bytes@.len() - i,
    {
        let c: u8 = bytes[i];
        proof {
            assert(bytes@.take(i + 1).drop_last() =~= bytes@.take(i as int));
            assert(bytes@.take(i + 1).last() == c);
        }
        if quoted {
            if escaped {
                escaped = false;
            } else if c == 0x5c {
                escaped = true;
            } else if c == 0x22 {
                quoted = false;
            }
        } else if c == 0x22 {
            quoted = true;
        } else if c == 0x5b || c == 0x7b {
            depth = depth + 1;
        } else if c == 0x5d || c == 0x7d {
            depth = depth - 1;
        } else if c == 0x2c || c == 0x3a {
            separators = separators + 1;
        }
        assert(place_after(bytes@.take(i + 1)) == (Place {
            depth: depth as int,
            separators: separators as nat,
            quoted,
            escaped,
        }));
        if depth > MAX_NESTING as i128 || separators > MAX_SEPARATORS {
            return false;
        }
        i = i + 1;
    }
    true
}

/// What `sonic_rs` reads in a text, with the names of the two fields of an item:
/// `None` if it is not JSON, `Some(None)` if it is JSON but no array, else what
/// is in each item of the array.
pub uninterp spec fn json_items(
    bytes: Seq<u8>,
    vector_key: Seq<char>,
    label_key: Seq<char>,
) -> Option<Option<Seq<(Option<Seq<Option<u64>>>, Option<Seq<char>>)>>>;

/// Calls `sonic_rs::from_slice` for a `sonic_rs::Value` and takes the value
/// apart.
///
/// What is read is a function of the bytes and of the names of the fields alone,
/// and is given a name here; that it is what the text says in JSON is left to
/// `sonic_rs`. Of an item, a vector that is no array and a label that is no
/// string count as missing, and so do those of an item that is no object.
#[verifier::external_body]
fn parse_items(bytes: &[u8], vector_key: &str, label_key: &str) -> (r: Option<
    Option<Vec<RawReference>>,
>)
    requires
        is_readable(bytes@),
    ensures
        all_contents(r) == json_items(bytes@, vector_key@, label_key@),
{
    let root: sonic_rs::Value = match sonic_rs::from_slice(bytes) {
        Ok(root) => root,
        Err(_) => return None,
    };
    let raw = |item: &sonic_rs::Value| RawReference {
        numbers: item[vector_key].as_array().map(
            |v| v.iter().map(|x| x.as_f64().map(|f| f.to_bits())).collect(),
        ),
        label: item[label_key].as_str().map(|s| s.to_string()),
    };
    Some(root.as_array().map(|items| items.iter().map(raw).collect()))
}

/// A lane of an item: the bits of the number there, and those of zero where
/// there is none.
pub open spec fn lane_bits(numbers: Seq<Option<u64>>, lane: int) -> u64 {
    if lane < numbers.len() && numbers[lane] is Some {
        numbers[lane]->0
    } else {
        0
    }
}

/// The lanes and the label are those of an item: its label is 1 for fraud, 0 for
/// anything else or nothing.
pub open spec fn is_read_from(x: ([u64; 14], u8), item: Contents) -> bool {
    &&& item.0 is Some
    &&& forall|l: int| 0 <= l < DIMS ==> #[trigger] x.0@[l] == lane_bits(item.0->0, l)
    &&& x.1 == if item.1 == Some("fraud"@) {
        1u8
    } else {
        0u8
    }
}

/// Reads an item: the bits of its first 14 numbers, and its label.
pub fn read_item(item: &RawReference) -> (r: Option<([u64; 14], u8)>)
    ensures
        r is Some <==> item.numbers is Some,
        r matches Some(x) ==> is_read_from(x, item.contents()),
{
    match &item.numbers {
        Some(numbers) => {
            let mut lanes: [u64; 14] = [0; 14];
            let mut i: usize = 0;
            while i < DIMS && i < numbers.len()
                invariant
                    i <= DIMS,
                    i <= numbers@.len(),
                    forall|l: int| 0 <= l < i ==> #[trigger] lanes@[l] == lane_bits(numbers@, l),
                    forall|l: int| i <= l < DIMS ==> #[trigger] lanes@[l] == 0,
                decreases DIMS - i,
            {
                if let Some(bits) = numbers[i] {
                    lanes[i] = bits;
                }
                i = i + 1;
            }
            let label: u8 = match &item.label {
                Some(label) => label_of(label.as_str()),
                None => 0,
            };
            Some((lanes, label))
        },
        None => None,
    }
}

/// Every item has a vector.
pub open spec fn have_vectors(items: Seq<Contents>) -> bool {
    forall|i: int| 0 <= i < items.len() ==> (#[trigger] items[i]).0 is Some
}

/// What is made of the items of a text: one reference for each, in their order,
/// if there are items and each of them has a vector; else the error.
pub open spec fn is_reading_of(
    r: Result<Vec<([u64; 14], u8)>, ReferenceError>,
    items: Option<Option<Seq<Contents>>>,
) -> bool {
    match items {
        None => r == Err::<Vec<([u64; 14], u8)>, ReferenceError>(ReferenceError::NotJson),
        Some(None) => r == Err::<Vec<([u64; 14], u8)>, ReferenceError>(ReferenceError::NotArray),
        Some(Some(s)) => if have_vectors(s) {
            &&& r is Ok
            &&& r->Ok_0@.len() == s.len()
            &&& forall|i: int| 0 <= i < s.len() ==> is_read_from(#[trigger] r->Ok_0@[i], s[i])
        } else {
            r == Err::<Vec<([u64; 14], u8)>, ReferenceError>(ReferenceError::NoVector)
        },
    }
}

/// Reads the items of a parsed text.
pub fn read_items(parsed: &Option<Option<Vec<RawReference>>>) -> (r: Result<
    Vec<([u64; 14], u8)>,
    ReferenceError,
>)
    ensures
        is_reading_of(r, all_contents(*parsed)),
{
    let items: &Vec<RawReference> = match parsed {
        None => return Err(ReferenceError::NotJson),
        Some(None) => return Err(ReferenceError::NotArray),
        Some(Some(items)) => items,
    };
    let ghost all = items@.map_values(|item: RawReference| item.contents());
    let mut references: Vec<([u64; 14], u8)> = Vec::new();
    let mut i: usize = 0;
    while i < items.len()
        invariant
            i <= items@.len(),
            *parsed == Some(Some(*items)),
            all == items@.map_values(|item: RawReference| item.contents()),
            references@.len() == i,
            forall|k: int| 0 <= k < i ==> is_read_from(#[trigger] references@[k], all[k]),
            forall|k: int| 0 <= k < i ==> (#[trigger] all[k]).0 is Some,
        decreases items@.len() - i,
    {
        assert(all[i as int] == items@[i as int].contents());
        match read_item(&items[i]) {
            Some(x) => references.push(x),
            None => return Err(ReferenceError::NoVector),
        }
        i = i + 1;
    }
    Ok(references)
}

/// Reads the reference transactions of a JSON text: for each the
/// double-precision bits of its features, which stand under `vector`, and its
/// label, which stands under `label`.
pub fn read_references(bytes: &[u8]) -> (r: Result<Vec<([u64; 14], u8)>, ReferenceError>)
    requires
        is_readable(bytes@),
    ensures
        is_reading_of(r, json_items(bytes@, "vector"@, "label"@)),
{
    let parsed: Option<Option<Vec<RawReference>>> = parse_items(bytes, "vector", "label");
    read_items(&parsed)
}

/// What is read of an item: in each of the 14 lanes the bits of the very number
/// that stands there, whatever its sign, and zero only where there is no number;
/// and a label that is 1 for the text `fraud` and 0 for any other or none.
pub proof fn law_item_is_read_as_it_stands(x: ([u64; 14], u8), item: RawReference, lane: int)
    requires
        is_read_from(x, item.contents()),
        0 <= lane < 14,
    ensures
        item.numbers is Some,
        ({
            let numbers = item.numbers->0@;
            &&& lane < numbers.len() && numbers[lane] is Some ==> numbers[lane] == Some(
                x.0@[lane],
            )
            &&& lane >= numbers.len() || numbers[lane] is None ==> x.0@[lane] == 0
        }),
        x.1 == 0 || x.1 == 1,
        x.1 == 1 <==> item.label is Some && item.label->0@ == seq!['f', 'r', 'a', 'u', 'd'],
{
    reveal_strlit("fraud");
    assert("fraud"@ =~= seq!['f', 'r', 'a', 'u', 'd']);
    assert(x.0@[lane] == lane_bits(item.contents().0->0, lane));
}

/// What is read of a parsed text: an error that says what is missing, or one
/// reference for each item, in the same place.
pub proof fn law_text_is_read_item_by_item(
    r: Result<Vec<([u64; 14], u8)>, ReferenceError>,
    parsed: Option<Option<Vec<RawReference>>>,
    i: int,
)
    requires
        is_reading_of(r, all_contents(parsed)),
    ensures
        r is Err && r->Err_0 is NotJson <==> parsed is None,
        r is Err && r->Err_0 is NotArray <==> parsed == Some(None::<Vec<RawReference>>),
        parsed matches Some(Some(items)) ==> (r is Ok <==> forall|k: int|
            0 <= k < items@.len() ==> (#[trigger] items@[k]).numbers is Some),
        parsed matches Some(Some(items)) ==> r is Ok ==> r->Ok_0@.len() == items@.len(),
        parsed matches Some(Some(items)) ==> r is Ok ==> 0 <= i < items@.len() ==> is_read_from(
            r->Ok_0@[i],
            items@[i].contents(),
        ),
{
    if let Some(Some(items)) = parsed {
        let all = items@.map_values(|item: RawReference| item.contents());
        assert(forall|k: int| 0 <= k < all.len() ==> all[k] == items@[k].contents());
        assert(have_vectors(all) <==> forall|k: int|
            0 <= k < items@.len() ==> (#[trigger] items@[k]).numbers is Some) by {
            if have_vectors(all) {
                assert forall|k: int| 0 <= k < items@.len() implies (
                #[trigger] items@[k]).numbers is Some by {
                    assert(all[k].0 is Some);
                }
            }
        }
        if r is Ok && 0 <= i < items@.len() {
            assert(is_read_from(r->Ok_0@[i], all[i]));
        }
    }
}

/// Outside of strings every opening bracket nests one deeper, every closing one
/// comes out again, and commas and colons are counted; other bytes change
/// nothing.
pub proof fn law_brackets_nest(b: Seq<u8>, c: u8)
    requires
        !place_after(b).quoted,
        c != 0x22,
    ensures
        !place_after(b.push(c)).quoted,
        place_after(b.push(c)).depth == place_after(b).depth + (if c as char == '[' || c as char
            == '{' {
            1int
        } else if c as char == ']' || c as char == '}' {
            -1
        } else {
            0
        }),
        place_after(b.push(c)).separators == place_after(b).separators + (if c as char == ','
            || c as char == ':' {
            1nat
        } else {
            0
        }),
        place_after(Seq::empty()).depth == 0,
        place_after(Seq::empty()).separators == 0,
        !place_after(Seq::empty()).quoted,
{
    assert(b.push(c).drop_last() =~= b);
}

/// A string neither nests nor separates, whatever stands in it: between the
/// quotes any bytes but a quote and a backslash, or a backslash with any byte
/// after it.
pub proof fn law_strings_do_not_nest(b: Seq<u8>, c: u8)
    ensures
        !place_after(b).quoted ==> place_after(b.push(0x22)) == (Place {
            quoted: true,
            ..place_after(b)
        }),
        place_after(b).quoted && !place_after(b).escaped && c != 0x22 && c != 0x5c ==> place_after(
            b.push(c),
        ) == place_after(b),
        place_after(b).quoted && !place_after(b).escaped ==> place_after(b.push(0x5c).push(c))
            == place_after(b),
        place_after(b).quoted && !place_after(b).escaped ==> place_after(b.push(0x22)) == (Place {
            quoted: false,
            ..place_after(b)
        }),
{
    assert(b.push(c).drop_last() =~= b);
    assert(b.push(0x22).drop_last() =~= b);
    assert(b.push(0x5c).drop_last() =~= b);
    assert(b.push(0x5c).push(c).drop_last() =~= b.push(0x5c));
    let p = place_after(b);
    if p.quoted && !p.escaped {
        assert(place_after(b.push(0x5c)) == (Place { escaped: true, ..p }));
    }
}

/// A text is readable where no place in it is more than 32 deep, or behind more
/// commas and colons than 29 bits can count; so is then every beginning of it.
pub proof fn law_readable(b: Seq<u8>, n: int)
    requires
        0 <= n <= b.len(),
    ensures
        is_readable(b) ==> place_after(b.take(n)).depth <= 32 && place_after(b.take(n)).separators
            <= 0x1fff_fffe,
        place_after(b.take(n)).depth > 32 || place_after(b.take(n)).separators > 0x1fff_fffe
            ==> !is_readable(b),
        is_readable(b) ==> is_readable(b.take(n)),
{
    if is_readable(b) {
        assert forall|m: int| 0 <= m <= b.take(n).len() implies (#[trigger] place_after(
            b.take(n).take(m),
        )).depth <= MAX_NESTING && place_after(b.take(n).take(m)).separators <= MAX_SEPARATORS by {
            assert(b.take(n).take(m) =~= b.take(m));
        }
    }
}

}
