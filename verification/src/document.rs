//! What the `toml` crate reads out of a document, over the values and their places.

use crate::source::{self, between};
use crate::text::{self, decimal, quoted};
use toml::de::{DeArray, DeTable, DeValue};
use toml::Spanned;
use vstd::prelude::*;

verus! {

/// A table of the `toml` crate.
#[verifier::external_type_specification]
#[verifier::external_body]
#[verifier::reject_recursive_types(K)]
#[verifier::reject_recursive_types(V)]
pub struct ExMap<K, V>(toml::map::Map<K, V>);

/// A value of the `toml` crate with its place.
#[verifier::external_type_specification]
#[verifier::external_body]
#[verifier::reject_recursive_types(T)]
pub struct ExSpanned<T>(Spanned<T>);

/// A value of the `toml` crate.
#[verifier::external_type_specification]
#[verifier::external_body]
pub struct ExDeValue<'i>(DeValue<'i>);

/// An array of the `toml` crate.
#[verifier::external_type_specification]
#[verifier::external_body]
pub struct ExDeArray<'i>(DeArray<'i>);

/// A value of a document.
pub enum TomlView {
    Text(Seq<char>),
    /// An integer, with its value when an `i64` can hold it.
    Integer(Option<i64>),
    Float,
    Boolean(bool),
    /// A datetime, by the text that it is shown as.
    Datetime(Seq<char>),
    Array(Seq<TomlPlaced>),
    Table(Seq<TomlEntry>),
}

/// A value of a document and the bytes that it is written at.
pub struct TomlPlaced {
    pub value: TomlView,
    pub start: nat,
    pub end: nat,
}

/// A key of a table, the bytes that it is written at, and its value.
pub struct TomlEntry {
    pub key: Seq<char>,
    pub key_start: nat,
    pub key_end: nat,
    pub value: TomlPlaced,
}

/// The entries of a table, in the order they were written.
pub uninterp spec fn entries_of(table: DeTable<'_>) -> Seq<TomlEntry>;

/// A value and its place.
pub uninterp spec fn placed_value(value: Spanned<DeValue<'_>>) -> TomlPlaced;

/// The elements of an array.
pub uninterp spec fn elements_of(array: DeArray<'_>) -> Seq<TomlPlaced>;

/// What a document says: the entries of its root table, or what is wrong with its syntax, in the
/// crate's words, and at which byte.
pub uninterp spec fn parsed(text: Seq<char>) -> Result<Seq<TomlEntry>, (Seq<char>, Option<nat>)>;

/// The byte of a syntax error, if it has one.
pub open spec fn byte_view(byte: Option<usize>) -> Option<nat> {
    match byte {
        Some(byte) => Some(byte as nat),
        None => None,
    }
}

/// `toml::de::DeTable::parse`: reads a document. What comes out depends on the text alone.
#[verifier::external_body]
pub(crate) fn parse<'t>(text: &'t str) -> (document: Result<DeTable<'t>, (String, Option<usize>)>)
    ensures
        match document {
            Ok(table) => parsed(text@) == Ok::<Seq<TomlEntry>, (Seq<char>, Option<nat>)>(
                entries_of(table),
            ),
            Err(fault) => parsed(text@) == Err::<Seq<TomlEntry>, (Seq<char>, Option<nat>)>(
                (fault.0@, byte_view(fault.1)),
            ),
        },
{
    match DeTable::parse(text) {
        Ok(table) => Ok(table.into_inner()),
        Err(error) => Err((error.to_string(), error.span().map(|bytes| bytes.start))),
    }
}

/// `Map::len`: the number of entries.
#[verifier::external_body]
pub(crate) fn size(table: &DeTable<'_>) -> (count: usize)
    ensures
        count == entries_of(*table).len(),
{
    table.len()
}

/// `Map::keys`: the keys, in the order they were written.
#[verifier::external_body]
pub(crate) fn key<'r>(table: &'r DeTable<'_>, index: usize) -> (text: &'r str)
    requires
        index < entries_of(*table).len(),
    ensures
        text@ == entries_of(*table)[index as int].key,
{
    table.keys().nth(index).unwrap().get_ref()
}

/// `Spanned::span`: the bytes that a key is written at.
#[verifier::external_body]
pub(crate) fn key_span(table: &DeTable<'_>, index: usize) -> (bytes: (usize, usize))
    requires
        index < entries_of(*table).len(),
    ensures
        bytes.0 == entries_of(*table)[index as int].key_start,
        bytes.1 == entries_of(*table)[index as int].key_end,
{
    let bytes = table.keys().nth(index).unwrap().span();
    (bytes.start, bytes.end)
}

/// `Map::values`: the values, in the order they were written.
#[verifier::external_body]
pub(crate) fn item<'r, 't>(table: &'r DeTable<'t>, index: usize) -> (value: &'r Spanned<DeValue<'t>>)
    requires
        index < entries_of(*table).len(),
    ensures
        placed_value(*value) == entries_of(*table)[index as int].value,
{
    table.values().nth(index).unwrap()
}

/// `Spanned::span`: the bytes that a value is written at.
#[verifier::external_body]
pub(crate) fn span(value: &Spanned<DeValue<'_>>) -> (bytes: (usize, usize))
    ensures
        bytes.0 == placed_value(*value).start,
        bytes.1 == placed_value(*value).end,
{
    (value.span().start, value.span().end)
}

/// `DeValue::as_str`: the text of a value that is a string.
#[verifier::external_body]
pub(crate) fn as_text<'r>(value: &'r Spanned<DeValue<'_>>) -> (text: Option<&'r str>)
    ensures
        match text {
            Some(text) => placed_value(*value).value == TomlView::Text(text@),
            None => !(placed_value(*value).value is Text),
        },
{
    value.get_ref().as_str()
}

/// `DeValue::as_table`: the table of a value that is one.
#[verifier::external_body]
pub(crate) fn as_table<'r, 't>(value: &'r Spanned<DeValue<'t>>) -> (table: Option<&'r DeTable<'t>>)
    ensures
        match table {
            Some(table) => placed_value(*value).value == TomlView::Table(entries_of(*table)),
            None => !(placed_value(*value).value is Table),
        },
{
    value.get_ref().as_table()
}

/// `DeValue::as_bool`: the value of a boolean.
#[verifier::external_body]
pub(crate) fn as_flag(value: &Spanned<DeValue<'_>>) -> (flag: Option<bool>)
    ensures
        match flag {
            Some(flag) => placed_value(*value).value == TomlView::Boolean(flag),
            None => !(placed_value(*value).value is Boolean),
        },
{
    value.get_ref().as_bool()
}

/// `DeValue::as_integer`: the digits of an integer, which `i64::from_str_radix` reads, unless the
/// integer is out of its range.
#[verifier::external_body]
pub(crate) fn as_integer(value: &Spanned<DeValue<'_>>) -> (integer: Option<Option<i64>>)
    ensures
        match integer {
            Some(integer) => placed_value(*value).value == TomlView::Integer(integer),
            None => !(placed_value(*value).value is Integer),
        },
{
    let integer = value.get_ref().as_integer()?;
    Some(i64::from_str_radix(integer.as_str(), integer.radix()).ok())
}

/// `DeValue::as_array`: the array of a value that is one.
#[verifier::external_body]
pub(crate) fn as_array<'r, 't>(value: &'r Spanned<DeValue<'t>>) -> (array: Option<&'r DeArray<'t>>)
    ensures
        match array {
            Some(array) => placed_value(*value).value == TomlView::Array(elements_of(*array)),
            None => !(placed_value(*value).value is Array),
        },
{
    value.get_ref().as_array()
}

/// `DeArray` as a slice: the number of its elements.
#[verifier::external_body]
pub(crate) fn length(array: &DeArray<'_>) -> (count: usize)
    ensures
        count == elements_of(*array).len(),
{
    array.len()
}

/// `DeArray` as a slice: one of its elements.
#[verifier::external_body]
pub(crate) fn element<'r, 't>(array: &'r DeArray<'t>, index: usize) -> (value: &'r Spanned<DeValue<'t>>)
    requires
        index < elements_of(*array).len(),
    ensures
        placed_value(*value) == elements_of(*array)[index as int],
{
    &array[index]
}

/// `DeValue::is_float`: whether a value is a float.
#[verifier::external_body]
pub(crate) fn is_float(value: &Spanned<DeValue<'_>>) -> (float: bool)
    ensures
        float == (placed_value(*value).value is Float),
{
    value.get_ref().is_float()
}

/// `DeValue::as_datetime`: the datetime of a value that is one, shown by its `Display`.
#[verifier::external_body]
pub(crate) fn as_datetime(value: &Spanned<DeValue<'_>>) -> (shown: Option<String>)
    ensures
        match shown {
            Some(shown) => placed_value(*value).value == TomlView::Datetime(shown@),
            None => !(placed_value(*value).value is Datetime),
        },
{
    value.get_ref().as_datetime().map(ToString::to_string)
}

/// The private key under which a datetime is handed to what reads the keys of a value.
pub const DATETIME_KEY: &'static str = "$__toml_private_datetime";

/// The elements of an array as the values of `names`, one after the other. Elements beyond the
/// last name are left aside.
pub open spec fn positional(elements: Seq<TomlPlaced>, names: Seq<Seq<char>>) -> Seq<TomlEntry> {
    Seq::new(
        if elements.len() < names.len() {
            elements.len()
        } else {
            names.len()
        },
        |i: int|
            TomlEntry {
                key: names[i],
                key_start: elements[i].start,
                key_end: elements[i].end,
                value: elements[i],
            },
    )
}

/// A datetime as the one entry that it is handed out as.
pub open spec fn dated(value: TomlPlaced) -> TomlEntry {
    TomlEntry { key: DATETIME_KEY@, key_start: value.start, key_end: value.end, value }
}

/// What a value gives to the fields `names`: the entries of a table, the elements of an array in
/// the order of the fields, or the mark of a datetime. Other values have no fields.
pub open spec fn fields_in(value: TomlPlaced, names: Seq<Seq<char>>) -> Option<Seq<TomlEntry>> {
    match value.value {
        TomlView::Table(entries) => Some(entries),
        TomlView::Array(elements) => Some(positional(elements, names)),
        TomlView::Datetime(_) => Some(seq![dated(value)]),
        _ => None,
    }
}

/// The characters of each name.
pub open spec fn named(names: Seq<&'static str>) -> Seq<Seq<char>> {
    Seq::new(names.len(), |i: int| names[i]@)
}

/// The fields of a value.
pub(crate) enum Fields<'r, 't> {
    /// Those of a table.
    Keyed(&'r DeTable<'t>),
    /// Those of an array, and what they are called.
    Placed(&'r DeArray<'t>, Vec<&'static str>),
    /// The mark of a datetime.
    Dated(&'r Spanned<DeValue<'t>>),
}

/// The fields of `value`, which are called `names` where the value does not name them.
pub(crate) fn fields_of<'r, 't>(value: &'r Spanned<DeValue<'t>>, names: Vec<&'static str>) -> (fields:
    Option<Fields<'r, 't>>)
    ensures
        fields_in(placed_value(*value), named(names@)) == (match fields {
            Some(fields) => Some(fields.entries()),
            None => None,
        }),
{
    if let Some(table) = as_table(value) {
        return Some(Fields::Keyed(table));
    }
    if let Some(array) = as_array(value) {
        return Some(Fields::Placed(array, names));
    }
    if as_datetime(value).is_some() {
        return Some(Fields::Dated(value));
    }
    None
}

impl<'r, 't> Fields<'r, 't> {
    /// What the fields are.
    pub(crate) open spec fn entries(&self) -> Seq<TomlEntry> {
        match self {
            Fields::Keyed(table) => entries_of(**table),
            Fields::Placed(array, names) => positional(elements_of(**array), named(names@)),
            Fields::Dated(value) => seq![dated(placed_value(**value))],
        }
    }

    /// How many there are.
    pub(crate) fn count(&self) -> (count: usize)
        ensures
            count == self.entries().len(),
    {
        match self {
            Fields::Keyed(table) => size(table),
            Fields::Placed(array, names) => {
                let given = length(array);
                if given < names.len() {
                    given
                } else {
                    names.len()
                }
            },
            Fields::Dated(_) => 1,
        }
    }

    /// The name of a field.
    pub(crate) fn key(&self, index: usize) -> (key: &'r str)
        requires
            index < self.entries().len(),
        ensures
            key@ == self.entries()[index as int].key,
    {
        match self {
            Fields::Keyed(table) => self::key(table, index),
            Fields::Placed(_, names) => names[index],
            Fields::Dated(_) => DATETIME_KEY,
        }
    }

    /// The bytes that the name of a field is written at, or else its value.
    pub(crate) fn key_span(&self, index: usize) -> (bytes: (usize, usize))
        requires
            index < self.entries().len(),
        ensures
            bytes.0 == self.entries()[index as int].key_start,
            bytes.1 == self.entries()[index as int].key_end,
    {
        match self {
            Fields::Keyed(table) => self::key_span(table, index),
            Fields::Placed(array, _) => span(element(array, index)),
            Fields::Dated(value) => span(value),
        }
    }

    /// The value of a field.
    pub(crate) fn item(&self, index: usize) -> (value: &'r Spanned<DeValue<'t>>)
        requires
            index < self.entries().len(),
        ensures
            placed_value(*value) == self.entries()[index as int].value,
    {
        match self {
            Fields::Keyed(table) => self::item(table, index),
            Fields::Placed(array, _) => element(array, index),
            Fields::Dated(value) => value,
        }
    }

    /// Looks up the field `key`.
    pub(crate) fn lookup(&self, key: &str) -> (value: Option<&'r Spanned<DeValue<'t>>>)
        ensures
            value_of(self.entries(), key@) == (match value {
                Some(value) => Some(placed_value(*value)),
                None => None,
            }),
    {
        let count = self.count();
        let ghost entries = self.entries();
        let mut at: usize = 0;
        while at < count
            invariant
                at <= count,
                count == entries.len(),
                entries == self.entries(),
                find(entries, key@, at as int) is None,
            decreases count - at,
        {
            if text::same(self.key(at), key) {
                proof {
                    found_stays(entries, key@, at + 1, count as int);
                }
                return Some(self.item(at));
            }
            at = at + 1;
        }
        None
    }

    /// Looks up the table at `key`.
    pub(crate) fn table_at(&self, key: &str) -> (inner: Option<&'r DeTable<'t>>)
        ensures
            table_of(self.entries(), key@) == (match inner {
                Some(inner) => entries_of(*inner),
                None => Seq::empty(),
            }),
    {
        match self.lookup(key) {
            Some(value) => as_table(value),
            None => None,
        }
    }
}

/// The value of `key` among the first `upto` entries of a table.
pub open spec fn find(entries: Seq<TomlEntry>, key: Seq<char>, upto: int) -> Option<TomlPlaced>
    decreases upto,
{
    if upto <= 0 {
        None
    } else {
        match find(entries, key, upto - 1) {
            Some(value) => Some(value),
            None => if entries[upto - 1].key == key {
                Some(entries[upto - 1].value)
            } else {
                None
            },
        }
    }
}

proof fn found_stays(entries: Seq<TomlEntry>, key: Seq<char>, upto: int, more: int)
    requires
        find(entries, key, upto) is Some,
        upto <= more,
    ensures
        find(entries, key, more) == find(entries, key, upto),
    decreases more - upto,
{
    if upto < more {
        found_stays(entries, key, upto, more - 1);
    }
}

/// The value of `key` in a table.
pub open spec fn value_of(entries: Seq<TomlEntry>, key: Seq<char>) -> Option<TomlPlaced> {
    find(entries, key, entries.len() as int)
}

/// Looks up `key` in a table.
pub(crate) fn lookup<'r, 't>(table: &'r DeTable<'t>, key: &str) -> (value: Option<&'r Spanned<DeValue<'t>>>)
    ensures
        value_of(entries_of(*table), key@) == (match value {
            Some(value) => Some(placed_value(*value)),
            None => None,
        }),
{
    Fields::Keyed(table).lookup(key)
}

/// The entries of the table at `key`; of what is no table, none.
pub open spec fn table_of(entries: Seq<TomlEntry>, key: Seq<char>) -> Seq<TomlEntry> {
    match value_of(entries, key) {
        Some(value) => match value.value {
            TomlView::Table(inner) => inner,
            _ => Seq::empty(),
        },
        None => Seq::empty(),
    }
}

/// Looks up the table at `key`.
pub(crate) fn table_at<'r, 't>(table: &'r DeTable<'t>, key: &str) -> (inner: Option<&'r DeTable<'t>>)
    ensures
        table_of(entries_of(*table), key@) == (match inner {
            Some(inner) => entries_of(*inner),
            None => Seq::empty(),
        }),
{
    Fields::Keyed(table).table_at(key)
}

/// A value that a document may not hold at its place: the bytes that it is written at, and what
/// is wrong with it.
pub struct Misfit {
    pub start: nat,
    pub end: nat,
    pub message: Seq<char>,
}

/// A [`Misfit`] as it was met.
pub struct Refusal {
    pub start: usize,
    pub end: usize,
    pub message: String,
}

impl View for Refusal {
    type V = Misfit;

    open spec fn view(&self) -> Misfit {
        Misfit { start: self.start as nat, end: self.end as nat, message: self.message@ }
    }
}

/// The view of a refusal that may be absent.
pub open spec fn refusal_view(refusal: Option<Refusal>) -> Option<Misfit> {
    match refusal {
        Some(refusal) => Some(refusal@),
        None => None,
    }
}

/// A number in decimal.
pub open spec fn number_text(value: int) -> Seq<char> {
    if value < 0 {
        "-"@ + decimal((-value) as nat)
    } else {
        decimal(value as nat)
    }
}

/// What stands at a place: a scalar by its value, anything else by its type. A number that no
/// `i64` holds stands as it is written.
pub open spec fn met(source: Seq<char>, value: TomlPlaced) -> Seq<char> {
    match value.value {
        TomlView::Text(text) => "string "@ + quoted(text),
        TomlView::Integer(Some(number)) => "integer `"@ + number_text(number as int) + "`"@,
        TomlView::Integer(None) => "integer `"@ + between(source, value.start, value.end) + "`"@,
        TomlView::Float => "floating point `"@ + between(source, value.start, value.end) + "`"@,
        TomlView::Boolean(true) => "boolean `true`"@,
        TomlView::Boolean(false) => "boolean `false`"@,
        TomlView::Datetime(_) => "map"@,
        TomlView::Array(_) => "sequence"@,
        TomlView::Table(_) => "map"@,
    }
}

/// The refusal of a value where something else is expected.
pub open spec fn misfit(value: TomlPlaced, met: Seq<char>, expected: Seq<char>) -> Misfit {
    Misfit {
        start: value.start,
        end: value.end,
        message: "invalid type: "@ + met + ", expected "@ + expected,
    }
}

/// Refuses `value`, which is `met` where `expected` should stand.
pub(crate) fn refuse(value: &Spanned<DeValue<'_>>, met: &str, expected: &str) -> (refusal: Refusal)
    ensures
        refusal@ == misfit(placed_value(*value), met@, expected@),
{
    let (start, end) = span(value);
    let mut message = "invalid type: ".to_owned();
    message.push_str(met);
    message.push_str(", expected ");
    message.push_str(expected);
    Refusal { start, end, message }
}

/// The refusal of a value that is to be a map of `inner` values, and is no table. A datetime is
/// handed out as a map of one string.
pub open spec fn no_map(source: Seq<char>, value: TomlPlaced, inner: Seq<char>) -> Misfit {
    match value.value {
        TomlView::Datetime(shown) => misfit(value, "string "@ + quoted(shown), inner),
        _ => misfit(value, met(source, value), "a map"@),
    }
}

/// Refuses `value`, which is no table, where a map of `inner` values should stand.
pub(crate) fn refuse_map(source: &str, value: &Spanned<DeValue<'_>>, inner: &str) -> (refusal: Refusal)
    ensures
        refusal@ == no_map(source@, placed_value(*value), inner@),
{
    if let Some(shown) = as_datetime(value) {
        let mut what = "string ".to_owned();
        let written = text::quote(shown.as_str());
        what.push_str(written.as_str());
        return refuse(value, what.as_str(), inner);
    }
    let what = met_at(source, value);
    refuse(value, what.as_str(), "a map")
}

fn push_number(written: &mut String, value: i64)
    ensures
        final(written)@ == old(written)@ + number_text(value as int),
{
    if value < 0 {
        let mut number = "-".to_owned();
        let wide: i128 = value as i128;
        text::push_decimal(&mut number, (-wide) as u128);
        written.push_str(number.as_str());
    } else {
        text::push_decimal(written, value as u128);
    }
}

/// Says what stands at a place.
pub(crate) fn met_at(source: &str, value: &Spanned<DeValue<'_>>) -> (written: String)
    ensures
        written@ == met(source@, placed_value(*value)),
{
    if let Some(text) = as_text(value) {
        let mut written = "string ".to_owned();
        let inner = text::quote(text);
        written.push_str(inner.as_str());
        return written;
    }
    if let Some(flag) = as_flag(value) {
        return if flag {
            "boolean `true`".to_owned()
        } else {
            "boolean `false`".to_owned()
        };
    }
    if let Some(Some(number)) = as_integer(value) {
        let mut written = "integer `".to_owned();
        push_number(&mut written, number);
        written.push_str("`");
        return written;
    }
    let float = is_float(value);
    if float || as_integer(value).is_some() {
        let (start, end) = span(value);
        let literal = source::slice(source, start, end);
        let mut written = if float {
            "floating point `".to_owned()
        } else {
            "integer `".to_owned()
        };
        written.push_str(literal.as_str());
        written.push_str("`");
        return written;
    }
    if as_array(value).is_some() {
        "sequence".to_owned()
    } else {
        "map".to_owned()
    }
}

} // verus!
