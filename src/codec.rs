//! Encoding tuples of values into one string, and decoding them back, as a
//! compiled descriptor directs.
use vstd::prelude::*;

use crate::fmt_strings::{
    compile_descriptor, compile_spec, has_optional, has_optional_items, is_optional, items_wf,
    mandatory_text, rebuild_format_string, DescriptorError, DescriptorModel, FormatEnding,
    FormatItem, FormatItemOpt, FormatItemType, FormatString,
};
use crate::fragments::{
    delim, fragments, joined, lemma_no_underscore_separable, lemma_split_joined, no_delim,
    separable, split_fragments,
};
use crate::int_text::{i64_of_text, int_text, lemma_int_text_round_trip, parse_i64, push_int_text};
use crate::text::{
    append_chars, chars_of, push_char, range_equals, range_starts_with, starts_with, string_of,
};

verus! {

/// A value of one slot: a string or a signed 64-bit integer.
#[derive(Clone, PartialEq, Eq, Debug)]
pub enum Value {
    Str(String),
    Int(i64),
}

/// One decoded slot. A mandatory slot gives `Str` or `Int`; an optional one
/// gives `Present` with its value, or `Absent`.
#[derive(Clone, PartialEq, Eq, Debug)]
pub enum Field {
    Str(String),
    Int(i64),
    Present(Value),
    Absent,
}

/// The model of a `Value`.
pub enum ValueModel {
    Str(Seq<char>),
    Int(i64),
}

/// The model of a `Field`.
pub enum FieldModel {
    Str(Seq<char>),
    Int(i64),
    Present(ValueModel),
    Absent,
}

impl View for Value {
    type V = ValueModel;

    open spec fn view(&self) -> ValueModel {
        match self {
            Value::Str(s) => ValueModel::Str(s@),
            Value::Int(n) => ValueModel::Int(*n),
        }
    }
}

impl View for Field {
    type V = FieldModel;

    open spec fn view(&self) -> FieldModel {
        match self {
            Field::Str(s) => FieldModel::Str(s@),
            Field::Int(n) => FieldModel::Int(*n),
            Field::Present(v) => FieldModel::Present(v@),
            Field::Absent => FieldModel::Absent,
        }
    }
}

/// Why a tuple could not be encoded.
#[derive(Copy, Clone, PartialEq, Eq, Debug, Structural)]
pub enum EncodeError {
    /// The number of values differs from the number of items.
    ArgCountMismatch,
    /// A value's type differs from its slot's type.
    TypeConversionFailed,
}

/// Why `frag_format` failed: the descriptor, or the values.
#[derive(Copy, Clone, PartialEq, Eq, Debug, Structural)]
pub enum FormatError {
    Descriptor(DescriptorError),
    Encode(EncodeError),
}

pub open spec fn values_view(vs: Seq<Value>) -> Seq<ValueModel> {
    vs.map_values(|v: Value| v@)
}

pub open spec fn fields_view(fs: Seq<Field>) -> Seq<FieldModel> {
    fs.map_values(|f: Field| f@)
}

/// Whether `v` has the type of the slot `item`.
pub open spec fn fits(item: FormatItem, v: ValueModel) -> bool {
    match v {
        ValueModel::Str(_) => item.0 == FormatItemType::Str,
        ValueModel::Int(_) => item.0 == FormatItemType::Int,
    }
}

/// The text of one field.
pub open spec fn value_text(v: ValueModel) -> Seq<char> {
    match v {
        ValueModel::Str(s) => s,
        ValueModel::Int(n) => int_text(n as int),
    }
}

/// The texts of the values, in order.
pub open spec fn value_texts(vs: Seq<ValueModel>) -> Seq<Seq<char>> {
    vs.map_values(|v: ValueModel| value_text(v))
}

/// What encoding `vs` under the items `items` gives.
pub open spec fn encode_spec(items: Seq<FormatItem>, vs: Seq<ValueModel>) -> Result<
    Seq<char>,
    EncodeError,
> {
    if vs.len() != items.len() {
        Err(EncodeError::ArgCountMismatch)
    } else if exists|i: int| 0 <= i < items.len() && !fits(items[i], #[trigger] vs[i]) {
        Err(EncodeError::TypeConversionFailed)
    } else {
        Ok(mandatory_text(items) + joined(value_texts(vs)))
    }
}

/// Whether the first fragment of decoded text is accepted: it starts with the
/// mandatory items' text where the descriptor has optional items or ends in
/// `*`, and equals it otherwise.
pub open spec fn pattern_accepted(m: DescriptorModel, pattern: Seq<char>) -> bool {
    if m.1 == FormatEnding::Open || has_optional(m.0) {
        starts_with(pattern, mandatory_text(m.0))
    } else {
        pattern == mandatory_text(m.0)
    }
}

/// Whether slot `i` decodes from the data fragments `data`: a mandatory slot
/// needs a fragment, and an integer slot's fragment must read as an `i64`.
pub open spec fn slot_decodes(item: FormatItem, data: Seq<Seq<char>>, i: int) -> bool {
    if i < data.len() {
        item.0 == FormatItemType::Int ==> i64_of_text(data[i]) is Some
    } else {
        is_optional(item)
    }
}

/// The value that fragment `f` gives in a slot of type `t`.
pub open spec fn value_of(t: FormatItemType, f: Seq<char>) -> ValueModel {
    match t {
        FormatItemType::Str => ValueModel::Str(f),
        FormatItemType::Int => ValueModel::Int(i64_of_text(f)->0),
    }
}

/// The field that slot `i` decodes to.
pub open spec fn slot_field(item: FormatItem, data: Seq<Seq<char>>, i: int) -> FieldModel {
    if is_optional(item) {
        if i < data.len() {
            FieldModel::Present(value_of(item.0, data[i]))
        } else {
            FieldModel::Absent
        }
    } else {
        match value_of(item.0, data[i]) {
            ValueModel::Str(s) => FieldModel::Str(s),
            ValueModel::Int(n) => FieldModel::Int(n),
        }
    }
}

/// What decoding `text` under the descriptor `m` gives: the fragments after
/// the first fill the slots in order; with a closed ending none may be left.
pub open spec fn decode_spec(m: DescriptorModel, text: Seq<char>) -> Option<Seq<FieldModel>> {
    let frags = fragments(text);
    let data = frags.drop_first();
    if pattern_accepted(m, frags[0]) && (forall|i: int|
        0 <= i < m.0.len() ==> slot_decodes(#[trigger] m.0[i], data, i)) && (m.1
        == FormatEnding::Closed ==> data.len() <= m.0.len()) {
        Some(Seq::new(m.0.len(), |i: int| slot_field(m.0[i], data, i)))
    } else {
        None
    }
}

/// Decodes `input` under the descriptor `fs`; none where it does not match.
pub fn decode(fs: &FormatString, input: &str) -> (r: Option<Vec<Field>>)
    ensures
        match r {
            Some(v) => decode_spec(fs.model(), input@) == Some(fields_view(v@)),
            None => decode_spec(fs.model(), input@) is None,
        },
{
    let ghost m = fs.model();
    let cs = chars_of(input);
    let frags = split_fragments(&cs);
    let ghost fr = fragments(cs@);
    let ghost data = fr.drop_first();
    let prefix = chars_of(rebuild_format_string(fs.0.as_slice()).as_str());
    let relaxed = fs.1 == FormatEnding::Open || has_optional_items(fs.0.as_slice());
    let (pat_start, pat_end) = frags[0];
    let accepted = if relaxed {
        range_starts_with(&cs, pat_start, pat_end, &prefix)
    } else {
        range_equals(&cs, pat_start, pat_end, &prefix)
    };
    if !accepted {
        return None;
    }
    let n = fs.0.len();
    let n_data = frags.len() - 1;
    let mut out: Vec<Field> = Vec::new();
    let mut i: usize = 0;
    while i < n
        invariant
            m == fs.model(),
            n == m.0.len(),
            cs@ == input@,
            fr == fragments(cs@),
            data == fr.drop_first(),
            frags@.len() == fr.len(),
            n_data + 1 == fr.len(),
            forall|k: int|
                0 <= k < frags@.len() ==> {
                    &&& (#[trigger] frags@[k]).0 <= frags@[k].1 <= cs@.len()
                    &&& cs@.subrange(frags@[k].0 as int, frags@[k].1 as int) == fr[k]
                },
            i <= n,
            out@.len() == i,
            forall|k: int| 0 <= k < i ==> slot_decodes(#[trigger] m.0[k], data, k),
            forall|k: int| 0 <= k < i ==> (#[trigger] out@[k])@ == slot_field(m.0[k], data, k),
        decreases n - i,
    {
        let item = fs.0[i];
        if i < n_data {
            let (a, b) = frags[i + 1];
            assert(data[i as int] == cs@.subrange(a as int, b as int));
            let value = match item.0 {
                FormatItemType::Str => Value::Str(string_of(&cs, a, b)),
                FormatItemType::Int => match parse_i64(&cs, a, b) {
                    Some(x) => Value::Int(x),
                    None => {
                        assert(!slot_decodes(m.0[i as int], data, i as int));
                        return None;
                    },
                },
            };
            let field = if item.1 == FormatItemOpt::Optional {
                Field::Present(value)
            } else {
                match value {
                    Value::Str(s) => Field::Str(s),
                    Value::Int(x) => Field::Int(x),
                }
            };
            out.push(field);
        } else {
            if item.1 == FormatItemOpt::Mandatory {
                assert(!slot_decodes(m.0[i as int], data, i as int));
                return None;
            }
            out.push(Field::Absent);
        }
        i = i + 1;
    }
    if fs.1 == FormatEnding::Closed && n_data > n {
        return None;
    }
    assert(fields_view(out@) == Seq::new(m.0.len(), |k: int| slot_field(m.0[k], data, k)));
    Some(out)
}

/// Appending one more text after a delimiter extends the joined text.
proof fn lemma_joined_push(ts: Seq<Seq<char>>, t: Seq<char>)
    ensures
        joined(ts.push(t)) == joined(ts) + delim() + t,
    decreases ts.len(),
{
    if ts.len() == 0 {
        assert(ts.push(t).drop_first() =~= Seq::<Seq<char>>::empty());
        assert(joined(ts.push(t).drop_first()) == Seq::<char>::empty());
        assert(ts.push(t)[0] == t);
        assert(joined(ts.push(t)) =~= delim() + t + Seq::<char>::empty());
        assert(joined(ts) + delim() + t =~= delim() + t);
    } else {
        assert(ts.push(t).drop_first() == ts.drop_first().push(t));
        lemma_joined_push(ts.drop_first(), t);
        assert(joined(ts.push(t)) =~= joined(ts) + delim() + t);
    }
}

/// Encodes `values` under the descriptor `fs`: the mandatory items' text, then
/// each value's text after a `__`. Every item takes a value, optional or not.
pub fn encode(fs: &FormatString, values: &Vec<Value>) -> (r: Result<String, EncodeError>)
    ensures
        match r {
            Ok(s) => encode_spec(fs.0@, values_view(values@)) == Ok::<
                Seq<char>,
                EncodeError,
            >(s@),
            Err(e) => encode_spec(fs.0@, values_view(values@)) == Err::<Seq<char>, EncodeError>(
                e,
            ),
        },
{
    let ghost vs = values_view(values@);
    if values.len() != fs.0.len() {
        return Err(EncodeError::ArgCountMismatch);
    }
    let mut out = rebuild_format_string(fs.0.as_slice());
    let mut i: usize = 0;
    while i < values.len()
        invariant
            vs == values_view(values@),
            values@.len() == fs.0@.len(),
            i <= values@.len(),
            forall|k: int| 0 <= k < i ==> fits(fs.0@[k], #[trigger] vs[k]),
            out@ == mandatory_text(fs.0@) + joined(value_texts(vs.take(i as int))),
        decreases values.len() - i,
    {
        let ghost before = out@;
        proof {
            lemma_joined_push(value_texts(vs.take(i as int)), value_text(vs[i as int]));
            assert(value_texts(vs.take(i + 1)) == value_texts(vs.take(i as int)).push(
                value_text(vs[i as int]),
            ));
        }
        push_char(&mut out, '_');
        push_char(&mut out, '_');
        match (&values[i], fs.0[i].0) {
            (Value::Str(s), FormatItemType::Str) => {
                let cs = chars_of(s.as_str());
                append_chars(&mut out, &cs, 0, cs.len());
                assert(cs@.subrange(0, cs@.len() as int) == cs@);
            },
            (Value::Int(n), FormatItemType::Int) => {
                push_int_text(&mut out, *n);
            },
            _ => {
                assert(!fits(fs.0@[i as int], vs[i as int]));
                return Err(EncodeError::TypeConversionFailed);
            },
        }
        assert(out@ == before + delim() + value_text(vs[i as int]));
        i = i + 1;
    }
    assert(vs.take(i as int) == vs);
    Ok(out)
}

/// Compiles the descriptor `fmt` and encodes `args` under it.
pub fn frag_format(fmt: &str, args: &Vec<Value>) -> (r: Result<String, FormatError>)
    ensures
        match compile_spec(fmt@) {
            Err(e) => r == Err::<String, FormatError>(FormatError::Descriptor(e)),
            Ok(m) => match encode_spec(m.0, values_view(args@)) {
                Ok(t) => r matches Ok(s) && s@ == t,
                Err(e) => r == Err::<String, FormatError>(FormatError::Encode(e)),
            },
        },
{
    match compile_descriptor(fmt) {
        Err(e) => Err(FormatError::Descriptor(e)),
        Ok(fs) => match encode(&fs, args) {
            Ok(s) => Ok(s),
            Err(e) => Err(FormatError::Encode(e)),
        },
    }
}

/// Compiles the descriptor `fmt` and decodes `input` under it: an error where
/// `fmt` is no descriptor, else the decoded fields or none.
pub fn frag_parse(fmt: &str, input: &str) -> (r: Result<Option<Vec<Field>>, DescriptorError>)
    ensures
        match compile_spec(fmt@) {
            Err(e) => r == Err::<Option<Vec<Field>>, DescriptorError>(e),
            Ok(m) => match decode_spec(m, input@) {
                Some(t) => r matches Ok(Some(v)) && fields_view(v@) == t,
                None => r matches Ok(None),
            },
        },
{
    match compile_descriptor(fmt) {
        Err(e) => Err(e),
        Ok(fs) => Ok(decode(&fs, input)),
    }
}

/// The field that a mandatory slot holding `v` decodes to.
pub open spec fn mandatory_field(v: ValueModel) -> FieldModel {
    match v {
        ValueModel::Str(s) => FieldModel::Str(s),
        ValueModel::Int(n) => FieldModel::Int(n),
    }
}

/// Whether the string values of `vs` come back whole from their encoded text:
/// none holds `__`, and none but the last ends in `_`.
pub open spec fn fields_separable(vs: Seq<ValueModel>) -> bool {
    forall|i: int|
        0 <= i < vs.len() ==> match #[trigger] vs[i] {
            ValueModel::Str(s) => if i < vs.len() - 1 {
                separable(s)
            } else {
                no_delim(s)
            },
            ValueModel::Int(_) => true,
        }
}

/// The mandatory items' text holds no `_`.
proof fn lemma_mandatory_text_no_underscore(items: Seq<FormatItem>)
    ensures
        !mandatory_text(items).contains('_'),
    decreases items.len(),
{
    if items.len() > 0 {
        lemma_mandatory_text_no_underscore(items.drop_last());
        let t = mandatory_text(items);
        let u = mandatory_text(items.drop_last());
        if !is_optional(items.last()) {
            assert forall|i: int| 0 <= i < t.len() implies t[i] != '_' by {
                if i < u.len() {
                    assert(t[i] == u[i]);
                    assert(!u.contains('_'));
                }
            }
        }
    }
}

/// Round trip: for a descriptor whose items are all mandatory and which does
/// not end in `*`, decoding the text that encoding a tuple of values of the
/// declared types gives returns those values, wherever no string value holds
/// `__` and none but the last ends in `_`.
pub proof fn lemma_round_trip(items: Seq<FormatItem>, vs: Seq<ValueModel>)
    requires
        items_wf(items),
        !has_optional(items),
        vs.len() == items.len(),
        forall|i: int| 0 <= i < items.len() ==> fits(items[i], #[trigger] vs[i]),
        fields_separable(vs),
    ensures
        encode_spec(items, vs) is Ok,
        decode_spec((items, FormatEnding::Closed), encode_spec(items, vs)->Ok_0) == Some(
            vs.map_values(|v: ValueModel| mandatory_field(v)),
        ),
{
    let p = mandatory_text(items);
    let ts = value_texts(vs);
    let t = p + joined(ts);
    assert(encode_spec(items, vs) == Ok::<Seq<char>, EncodeError>(t));
    lemma_mandatory_text_no_underscore(items);
    lemma_no_underscore_separable(p);
    assert forall|k: int| 0 <= k < ts.len() - 1 implies separable(#[trigger] ts[k]) by {
        match vs[k] {
            ValueModel::Str(s) => {},
            ValueModel::Int(n) => {
                lemma_int_text_round_trip(n);
                lemma_no_underscore_separable(int_text(n as int));
            },
        }
    }
    if ts.len() > 0 {
        let k = ts.len() - 1;
        match vs[k] {
            ValueModel::Str(s) => {},
            ValueModel::Int(n) => {
                lemma_int_text_round_trip(n);
                lemma_no_underscore_separable(int_text(n as int));
            },
        }
    }
    assert(t.subrange(0, t.len() as int) == p + joined(ts));
    lemma_split_joined(t, 0, p, ts);
    let frags = fragments(t);
    assert(frags[0] == p);
    assert(frags.drop_first() == ts);
    assert forall|i: int| 0 <= i < items.len() implies slot_decodes(#[trigger] items[i], ts, i)
        && slot_field(items[i], ts, i) == mandatory_field(vs[i]) by {
        assert(!is_optional(items[i]));
        match vs[i] {
            ValueModel::Str(s) => {},
            ValueModel::Int(n) => {
                lemma_int_text_round_trip(n);
            },
        }
    }
    assert(Seq::new(items.len(), |i: int| slot_field(items[i], ts, i)) == vs.map_values(
        |v: ValueModel| mandatory_field(v),
    ));
}

} // verus!
