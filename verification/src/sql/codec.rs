//! How tables and rows are written as bytes, and read back.
//!
//! A number takes eight bytes. A text is the length of its UTF-8 bytes, as
//! a number, and then those bytes. A list is its length, as a number, and
//! then its items.
use vstd::prelude::*;
use vstd::string::StrSliceExecFns;
use vstd::utf8::{decode_utf8, encode_utf8, encode_utf8_decode_utf8, encode_utf8_valid_utf8, valid_utf8};

use crate::sql::schema::{Column, ColumnView, Table, TableView};
use crate::sql::types::{DataType, Row, Value, ValueView};
use crate::storage::keycode::{be64, from_be64, get_u64, lemma_be64_read_back, put_u64};

verus! {

/// `String::from_utf8` hands back the text whose UTF-8 bytes are `bytes`,
/// and fails where `bytes` are not UTF-8.
#[verifier::external_body]
fn text_from_utf8(bytes: Vec<u8>) -> (r: Option<String>)
    ensures
        match r {
            Some(text) => encode_utf8(text@) == bytes@,
            None => !valid_utf8(bytes@),
        },
{
    String::from_utf8(bytes).ok()
}

// ------------------------------------------------------------------
// Writing, in the model
// ------------------------------------------------------------------
/// The bytes of a byte string: its length, and then its bytes.
pub open spec fn enc_bytes(raw: Seq<u8>) -> Seq<u8> {
    be64(raw.len() as u64) + raw
}

/// The bytes of a text: the length of its UTF-8 bytes, and then those bytes.
pub open spec fn enc_text(text: Seq<char>) -> Seq<u8> {
    enc_bytes(encode_utf8(text))
}

/// An integer, moved into the unsigned numbers so that its order is kept.
pub open spec fn bias(i: i64) -> u64 {
    (i + 0x8000_0000_0000_0000) as u64
}

/// The integer that `bias` moved.
pub open spec fn unbias(u: u64) -> i64 {
    (u - 0x8000_0000_0000_0000) as i64
}

/// The byte of a flag.
pub open spec fn enc_flag(f: bool) -> Seq<u8> {
    seq![if f { 1u8 } else { 0u8 }]
}

/// The bytes of a value: the byte of its kind, and then what it holds.
#[verifier::opaque]
pub open spec fn enc_value(v: ValueView) -> Seq<u8> {
    match v {
        ValueView::Null => seq![0u8],
        ValueView::Boolean(b) => seq![1u8] + enc_flag(b),
        ValueView::Integer(i) => seq![2u8] + be64(bias(i)),
        ValueView::Float(s) => seq![3u8] + enc_text(s),
        ValueView::String(s) => seq![4u8] + enc_text(s),
    }
}

/// The bytes of values, one after the other.
pub open spec fn enc_values(vs: Seq<ValueView>) -> Seq<u8>
    decreases vs.len(),
{
    if vs.len() == 0 {
        Seq::empty()
    } else {
        enc_value(vs[0]) + enc_values(vs.drop_first())
    }
}

/// The bytes of a row.
pub open spec fn enc_row(vs: Seq<ValueView>) -> Seq<u8> {
    be64(vs.len() as u64) + enc_values(vs)
}

/// The byte that stands for a datatype.
pub open spec fn datatype_tag(d: DataType) -> u8 {
    match d {
        DataType::Boolean => 0,
        DataType::Integer => 1,
        DataType::Float => 2,
        DataType::String => 3,
    }
}

/// The bytes of a default: whether there is one, and then its value.
pub open spec fn enc_default(d: Option<ValueView>) -> Seq<u8> {
    match d {
        None => seq![0u8],
        Some(v) => seq![1u8] + enc_value(v),
    }
}

/// The byte of a datatype.
pub open spec fn enc_datatype(d: DataType) -> Seq<u8> {
    seq![datatype_tag(d)]
}

/// The bytes of a column: its name, its datatype, whether it is nullable, and its
/// default.
#[verifier::opaque]
pub open spec fn enc_column(c: ColumnView) -> Seq<u8> {
    enc_text(c.name) + enc_datatype(c.datatype) + enc_flag(c.nullable) + enc_default(c.default)
}

/// The bytes of columns, one after the other.
pub open spec fn enc_columns(cs: Seq<ColumnView>) -> Seq<u8>
    decreases cs.len(),
{
    if cs.len() == 0 {
        Seq::empty()
    } else {
        enc_column(cs[0]) + enc_columns(cs.drop_first())
    }
}

/// The bytes of a table.
pub open spec fn enc_table(t: TableView) -> Seq<u8> {
    enc_text(t.name) + be64(t.columns.len() as u64) + enc_columns(t.columns)
}

// ------------------------------------------------------------------
// Reading, in the model: what stands at the start of the bytes, and the
// bytes behind it
// ------------------------------------------------------------------
/// A number at the start of the bytes.
pub open spec fn take_u64(b: Seq<u8>) -> Option<(u64, Seq<u8>)> {
    if b.len() >= 8 {
        Some((from_be64(b.take(8)), b.skip(8)))
    } else {
        None
    }
}

/// A byte string at the start of the bytes.
pub open spec fn take_bytes(b: Seq<u8>) -> Option<(Seq<u8>, Seq<u8>)> {
    match take_u64(b) {
        Some((n, rest)) => if n <= rest.len() {
            Some((rest.take(n as int), rest.skip(n as int)))
        } else {
            None
        },
        None => None,
    }
}

/// A text at the start of the bytes.
pub open spec fn take_text(b: Seq<u8>) -> Option<(Seq<char>, Seq<u8>)> {
    match take_bytes(b) {
        Some((raw, rest)) => if valid_utf8(raw) {
            Some((decode_utf8(raw), rest))
        } else {
            None
        },
        None => None,
    }
}

/// A flag at the start of the bytes.
pub open spec fn take_flag(b: Seq<u8>) -> Option<(bool, Seq<u8>)> {
    if b.len() >= 1 && b[0] <= 1 {
        Some((b[0] == 1, b.skip(1)))
    } else {
        None
    }
}

/// A value at the start of the bytes.
#[verifier::opaque]
pub open spec fn take_value(b: Seq<u8>) -> Option<(ValueView, Seq<u8>)> {
    if b.len() == 0 {
        None
    } else if b[0] == 0 {
        Some((ValueView::Null, b.skip(1)))
    } else if b[0] == 1 {
        match take_flag(b.skip(1)) {
            Some((f, rest)) => Some((ValueView::Boolean(f), rest)),
            None => None,
        }
    } else if b[0] == 2 {
        match take_u64(b.skip(1)) {
            Some((u, rest)) => Some((ValueView::Integer(unbias(u)), rest)),
            None => None,
        }
    } else if b[0] == 3 {
        match take_text(b.skip(1)) {
            Some((s, rest)) => Some((ValueView::Float(s), rest)),
            None => None,
        }
    } else if b[0] == 4 {
        match take_text(b.skip(1)) {
            Some((s, rest)) => Some((ValueView::String(s), rest)),
            None => None,
        }
    } else {
        None
    }
}

/// `count` values at the start of the bytes.
pub open spec fn take_values(b: Seq<u8>, count: nat) -> Option<(Seq<ValueView>, Seq<u8>)>
    decreases count,
{
    if count == 0 {
        Some((Seq::empty(), b))
    } else {
        match take_value(b) {
            Some((v, rest)) => match take_values(rest, (count - 1) as nat) {
                Some((vs, end)) => Some((seq![v] + vs, end)),
                None => None,
            },
            None => None,
        }
    }
}

/// The row that bytes spell, if they spell one and nothing more.
pub open spec fn dec_row(b: Seq<u8>) -> Option<Seq<ValueView>> {
    match take_u64(b) {
        Some((n, rest)) => match take_values(rest, n as nat) {
            Some((vs, end)) => if end.len() == 0 {
                Some(vs)
            } else {
                None
            },
            None => None,
        },
        None => None,
    }
}

/// A datatype at the start of the bytes.
pub open spec fn take_datatype(b: Seq<u8>) -> Option<(DataType, Seq<u8>)> {
    if b.len() == 0 {
        None
    } else if b[0] == 0 {
        Some((DataType::Boolean, b.skip(1)))
    } else if b[0] == 1 {
        Some((DataType::Integer, b.skip(1)))
    } else if b[0] == 2 {
        Some((DataType::Float, b.skip(1)))
    } else if b[0] == 3 {
        Some((DataType::String, b.skip(1)))
    } else {
        None
    }
}

/// A default at the start of the bytes.
pub open spec fn take_default(b: Seq<u8>) -> Option<(Option<ValueView>, Seq<u8>)> {
    if b.len() == 0 {
        None
    } else if b[0] == 0 {
        Some((None, b.skip(1)))
    } else if b[0] == 1 {
        match take_value(b.skip(1)) {
            Some((v, rest)) => Some((Some(v), rest)),
            None => None,
        }
    } else {
        None
    }
}

/// A column at the start of the bytes.
#[verifier::opaque]
pub open spec fn take_column(b: Seq<u8>) -> Option<(ColumnView, Seq<u8>)> {
    match take_text(b) {
        Some((name, r1)) => match take_datatype(r1) {
            Some((datatype, r2)) => match take_flag(r2) {
                Some((nullable, r3)) => match take_default(r3) {
                    Some((default, r4)) => Some(
                        (ColumnView { name, datatype, nullable, default }, r4),
                    ),
                    None => None,
                },
                None => None,
            },
            None => None,
        },
        None => None,
    }
}

/// `count` columns at the start of the bytes.
pub open spec fn take_columns(b: Seq<u8>, count: nat) -> Option<(Seq<ColumnView>, Seq<u8>)>
    decreases count,
{
    if count == 0 {
        Some((Seq::empty(), b))
    } else {
        match take_column(b) {
            Some((c, rest)) => match take_columns(rest, (count - 1) as nat) {
                Some((cs, end)) => Some((seq![c] + cs, end)),
                None => None,
            },
            None => None,
        }
    }
}

/// The table that bytes spell, if they spell one and nothing more.
pub open spec fn dec_table(b: Seq<u8>) -> Option<TableView> {
    match take_text(b) {
        Some((name, r1)) => match take_u64(r1) {
            Some((n, r2)) => match take_columns(r2, n as nat) {
                Some((columns, end)) => if end.len() == 0 {
                    Some(TableView { name, columns })
                } else {
                    None
                },
                None => None,
            },
            None => None,
        },
        None => None,
    }
}

// ------------------------------------------------------------------
// What is written is read back
// ------------------------------------------------------------------
/// Whether the texts of a value are short enough for their lengths to be
/// written.
pub open spec fn value_fits(v: ValueView) -> bool {
    match v {
        ValueView::Float(s) => encode_utf8(s).len() <= u64::MAX,
        ValueView::String(s) => encode_utf8(s).len() <= u64::MAX,
        _ => true,
    }
}

/// Whether the values of a row, and their number, can be written.
pub open spec fn values_fit(vs: Seq<ValueView>) -> bool {
    &&& vs.len() <= u64::MAX
    &&& forall|i: int| 0 <= i < vs.len() ==> value_fits(#[trigger] vs[i])
}

/// Whether the texts of a column are short enough to be written.
pub open spec fn column_fits(c: ColumnView) -> bool {
    &&& encode_utf8(c.name).len() <= u64::MAX
    &&& match c.default {
        Some(v) => value_fits(v),
        None => true,
    }
}

/// Whether the texts of a table, and the number of its columns, can be written.
pub open spec fn table_fits(t: TableView) -> bool {
    &&& encode_utf8(t.name).len() <= u64::MAX
    &&& t.columns.len() <= u64::MAX
    &&& forall|i: int| 0 <= i < t.columns.len() ==> column_fits(#[trigger] t.columns[i])
}

/// A number is read back from its bytes, whatever follows them.
pub proof fn lemma_take_u64(x: u64, rest: Seq<u8>)
    ensures
        take_u64(be64(x) + rest) == Some((x, rest)),
{
    lemma_be64_read_back(x);
    assert((be64(x) + rest).take(8) =~= be64(x));
    assert((be64(x) + rest).skip(8) =~= rest);
}

/// A byte string is read back from its bytes, whatever follows them.
pub proof fn lemma_take_bytes(raw: Seq<u8>, rest: Seq<u8>)
    requires
        raw.len() <= u64::MAX,
    ensures
        take_bytes(enc_bytes(raw) + rest) == Some((raw, rest)),
{
    lemma_take_u64(raw.len() as u64, raw + rest);
    assert(enc_bytes(raw) + rest =~= be64(raw.len() as u64) + (raw + rest));
    assert((raw + rest).take(raw.len() as int) =~= raw);
    assert((raw + rest).skip(raw.len() as int) =~= rest);
}

/// A text is read back from its bytes, whatever follows them.
pub proof fn lemma_take_text(text: Seq<char>, rest: Seq<u8>)
    requires
        encode_utf8(text).len() <= u64::MAX,
    ensures
        take_text(enc_text(text) + rest) == Some((text, rest)),
{
    lemma_take_bytes(encode_utf8(text), rest);
    encode_utf8_valid_utf8(text);
    encode_utf8_decode_utf8(text);
}

/// A value is read back from its bytes, whatever follows them.
pub proof fn lemma_take_value(v: ValueView, rest: Seq<u8>)
    requires
        value_fits(v),
    ensures
        take_value(enc_value(v) + rest) == Some((v, rest)),
{
    reveal(enc_value);
    reveal(take_value);
    let b = enc_value(v) + rest;
    match v {
        ValueView::Null => {
            assert(b.skip(1) =~= rest);
        },
        ValueView::Boolean(f) => {
            assert(b.skip(1) =~= enc_flag(f) + rest);
            lemma_take_flag(f, rest);
        },
        ValueView::Integer(i) => {
            assert(b.skip(1) =~= be64(bias(i)) + rest);
            lemma_take_u64(bias(i), rest);
        },
        ValueView::Float(s) => {
            assert(b.skip(1) =~= enc_text(s) + rest);
            lemma_take_text(s, rest);
        },
        ValueView::String(s) => {
            assert(b.skip(1) =~= enc_text(s) + rest);
            lemma_take_text(s, rest);
        },
    }
}

/// Values are read back from their bytes, whatever follows them.
pub proof fn lemma_take_values(vs: Seq<ValueView>, rest: Seq<u8>)
    requires
        forall|i: int| 0 <= i < vs.len() ==> value_fits(#[trigger] vs[i]),
    ensures
        take_values(enc_values(vs) + rest, vs.len()) == Some((vs, rest)),
    decreases vs.len(),
{
    if vs.len() == 0 {
        assert(enc_values(vs) + rest =~= rest);
        assert(vs =~= Seq::empty());
    } else {
        let tail = vs.drop_first();
        assert(enc_values(vs) + rest =~= enc_value(vs[0]) + (enc_values(tail) + rest));
        lemma_take_value(vs[0], enc_values(tail) + rest);
        assert forall|i: int| 0 <= i < tail.len() implies value_fits(#[trigger] tail[i]) by {
            assert(tail[i] == vs[i + 1]);
        }
        lemma_take_values(tail, rest);
        assert(seq![vs[0]] + tail =~= vs);
    }
}

/// A row is read back from its bytes.
pub proof fn lemma_row_read_back(vs: Seq<ValueView>)
    requires
        values_fit(vs),
    ensures
        dec_row(enc_row(vs)) == Some(vs),
{
    lemma_take_u64(vs.len() as u64, enc_values(vs));
    lemma_take_values(vs, Seq::empty());
    assert(enc_values(vs) + Seq::<u8>::empty() =~= enc_values(vs));
}

/// A flag is read back from its byte, whatever follows it.
pub proof fn lemma_take_flag(f: bool, rest: Seq<u8>)
    ensures
        take_flag(enc_flag(f) + rest) == Some((f, rest)),
{
    assert((enc_flag(f) + rest).skip(1) =~= rest);
}

/// A datatype is read back from its byte, whatever follows it.
pub proof fn lemma_take_datatype(d: DataType, rest: Seq<u8>)
    ensures
        take_datatype(enc_datatype(d) + rest) == Some((d, rest)),
{
    assert((enc_datatype(d) + rest).skip(1) =~= rest);
}

/// A default is read back from its bytes, whatever follows them.
pub proof fn lemma_take_default(d: Option<ValueView>, rest: Seq<u8>)
    requires
        d matches Some(v) ==> value_fits(v),
    ensures
        take_default(enc_default(d) + rest) == Some((d, rest)),
{
    let b = enc_default(d) + rest;
    match d {
        None => {
            assert(b.skip(1) =~= rest);
        },
        Some(v) => {
            assert(b.skip(1) =~= enc_value(v) + rest);
            lemma_take_value(v, rest);
        },
    }
}

/// A column is read back from its bytes, whatever follows them.
pub proof fn lemma_take_column(c: ColumnView, rest: Seq<u8>)
    requires
        column_fits(c),
    ensures
        take_column(enc_column(c) + rest) == Some((c, rest)),
{
    reveal(enc_column);
    reveal(take_column);
    let r3 = enc_default(c.default) + rest;
    let r2 = enc_flag(c.nullable) + r3;
    let r1 = enc_datatype(c.datatype) + r2;
    assert(enc_column(c) + rest =~= enc_text(c.name) + r1);
    lemma_take_text(c.name, r1);
    lemma_take_datatype(c.datatype, r2);
    lemma_take_flag(c.nullable, r3);
    lemma_take_default(c.default, rest);
}

/// Columns are read back from their bytes, whatever follows them.
pub proof fn lemma_take_columns(cs: Seq<ColumnView>, rest: Seq<u8>)
    requires
        forall|i: int| 0 <= i < cs.len() ==> column_fits(#[trigger] cs[i]),
    ensures
        take_columns(enc_columns(cs) + rest, cs.len()) == Some((cs, rest)),
    decreases cs.len(),
{
    if cs.len() == 0 {
        assert(enc_columns(cs) + rest =~= rest);
        assert(cs =~= Seq::empty());
    } else {
        let tail = cs.drop_first();
        assert(enc_columns(cs) + rest =~= enc_column(cs[0]) + (enc_columns(tail) + rest));
        lemma_take_column(cs[0], enc_columns(tail) + rest);
        assert forall|i: int| 0 <= i < tail.len() implies column_fits(#[trigger] tail[i]) by {
            assert(tail[i] == cs[i + 1]);
        }
        lemma_take_columns(tail, rest);
        assert(seq![cs[0]] + tail =~= cs);
    }
}

/// A table is read back from its bytes.
pub proof fn lemma_table_read_back(t: TableView)
    requires
        table_fits(t),
    ensures
        dec_table(enc_table(t)) == Some(t),
{
    let tail = be64(t.columns.len() as u64) + enc_columns(t.columns);
    assert(enc_table(t) =~= enc_text(t.name) + tail);
    lemma_take_text(t.name, tail);
    lemma_take_u64(t.columns.len() as u64, enc_columns(t.columns));
    lemma_take_columns(t.columns, Seq::empty());
    assert(enc_columns(t.columns) + Seq::<u8>::empty() =~= enc_columns(t.columns));
}

// ------------------------------------------------------------------
// Writing
// ------------------------------------------------------------------
/// The bytes of one more value follow those of the values before it.
pub proof fn lemma_enc_values_push(vs: Seq<ValueView>, v: ValueView)
    ensures
        enc_values(vs.push(v)) == enc_values(vs) + enc_value(v),
    decreases vs.len(),
{
    if vs.len() == 0 {
        assert(vs.push(v).drop_first() =~= Seq::<ValueView>::empty());
        assert(enc_values(vs.push(v)) =~= enc_value(v) + enc_values(Seq::empty()));
        assert(enc_values(vs.push(v)) =~= enc_values(vs) + enc_value(v));
    } else {
        assert(vs.push(v).drop_first() =~= vs.drop_first().push(v));
        lemma_enc_values_push(vs.drop_first(), v);
        assert(enc_values(vs.push(v)) =~= enc_values(vs) + enc_value(v));
    }
}

/// The bytes of one more column follow those of the columns before it.
pub proof fn lemma_enc_columns_push(cs: Seq<ColumnView>, c: ColumnView)
    ensures
        enc_columns(cs.push(c)) == enc_columns(cs) + enc_column(c),
    decreases cs.len(),
{
    if cs.len() == 0 {
        assert(cs.push(c).drop_first() =~= Seq::<ColumnView>::empty());
        assert(enc_columns(cs.push(c)) =~= enc_column(c) + enc_columns(Seq::empty()));
        assert(enc_columns(cs.push(c)) =~= enc_columns(cs) + enc_column(c));
    } else {
        assert(cs.push(c).drop_first() =~= cs.drop_first().push(c));
        lemma_enc_columns_push(cs.drop_first(), c);
        assert(enc_columns(cs.push(c)) =~= enc_columns(cs) + enc_column(c));
    }
}

/// Writes bytes behind `out`.
pub fn put_all(out: &mut Vec<u8>, raw: &Vec<u8>)
    ensures
        final(out)@ == old(out)@ + raw@,
{
    let ghost before = out@;
    let mut i: usize = 0;
    while i < raw.len()
        invariant
            i <= raw.len(),
            out@ == before + raw@.take(i as int),
        decreases raw.len() - i,
    {
        out.push(raw[i]);
        assert(out@ =~= before + raw@.take(i + 1));
        i = i + 1;
    }
    assert(raw@.take(raw.len() as int) == raw@);
}

/// Writes a text behind `out`.
pub fn put_text(out: &mut Vec<u8>, text: &str)
    ensures
        final(out)@ == old(out)@ + enc_text(text@),
        encode_utf8(text@).len() <= u64::MAX,
{
    let ghost before = out@;
    let raw = text.as_bytes_vec();
    put_u64(out, raw.len() as u64);
    put_all(out, &raw);
    assert(out@ =~= before + enc_text(text@));
}

/// Writes a flag behind `out`.
fn put_flag(out: &mut Vec<u8>, f: bool)
    ensures
        final(out)@ == old(out)@ + enc_flag(f),
{
    let ghost before = out@;
    out.push(if f { 1u8 } else { 0u8 });
    assert(out@ =~= before + enc_flag(f));
}

/// Writes a value behind `out`.
fn put_value(out: &mut Vec<u8>, v: &Value)
    ensures
        final(out)@ == old(out)@ + enc_value(v@),
        value_fits(v@),
{
    reveal(enc_value);
    let ghost before = out@;
    match v {
        Value::Null => {
            out.push(0u8);
            assert(out@ =~= before + enc_value(v@));
        },
        Value::Boolean(b) => {
            out.push(1u8);
            put_flag(out, *b);
            assert(out@ =~= before + enc_value(v@));
        },
        Value::Integer(i) => {
            out.push(2u8);
            let u: u64 = if *i >= 0 {
                (*i as u64) + 0x8000_0000_0000_0000u64
            } else {
                ((*i + i64::MAX) + 1) as u64
            };
            assert(u == bias(*i));
            put_u64(out, u);
            assert(out@ =~= before + enc_value(v@));
        },
        Value::Float(s) => {
            out.push(3u8);
            put_text(out, s.as_str());
            assert(out@ =~= before + enc_value(v@));
        },
        Value::String(s) => {
            out.push(4u8);
            put_text(out, s.as_str());
            assert(out@ =~= before + enc_value(v@));
        },
    }
}

/// Writes a row.
pub fn write_row(row: &Row) -> (bytes: Vec<u8>)
    ensures
        bytes@ == enc_row(row.deep_view()),
        values_fit(row.deep_view()),
{
    let ghost vs = row.deep_view();
    let mut out: Vec<u8> = Vec::new();
    put_u64(&mut out, row.len() as u64);
    let mut i: usize = 0;
    assert(enc_values(vs.take(0)) =~= Seq::<u8>::empty());
    while i < row.len()
        invariant
            i <= row.len(),
            vs == row.deep_view(),
            out@ == be64(vs.len() as u64) + enc_values(vs.take(i as int)),
            forall|j: int| 0 <= j < i ==> value_fits(#[trigger] vs[j]),
        decreases row.len() - i,
    {
        let ghost before = out@;
        put_value(&mut out, &row[i]);
        proof {
            assert(vs[i as int] == row[i as int]@);
            assert(vs.take(i + 1) =~= vs.take(i as int).push(vs[i as int]));
            lemma_enc_values_push(vs.take(i as int), vs[i as int]);
            assert(out@ =~= be64(vs.len() as u64) + enc_values(vs.take(i + 1)));
        }
        i = i + 1;
    }
    assert(vs.take(row.len() as int) == vs);
    out
}

/// Writes a column behind `out`.
fn put_column(out: &mut Vec<u8>, c: &Column)
    ensures
        final(out)@ == old(out)@ + enc_column(c@),
        column_fits(c@),
{
    reveal(enc_column);
    let ghost before = out@;
    put_text(out, c.name.as_str());
    let tag: u8 = match c.datatype {
        DataType::Boolean => 0,
        DataType::Integer => 1,
        DataType::Float => 2,
        DataType::String => 3,
    };
    out.push(tag);
    put_flag(out, c.nullable);
    match &c.default {
        None => {
            out.push(0u8);
        },
        Some(v) => {
            out.push(1u8);
            put_value(out, v);
        },
    }
    assert(out@ =~= before + enc_column(c@));
}

/// Writes a table.
pub fn write_table(table: &Table) -> (bytes: Vec<u8>)
    ensures
        bytes@ == enc_table(table@),
        table_fits(table@),
{
    let ghost cs = table@.columns;
    let mut out: Vec<u8> = Vec::new();
    put_text(&mut out, table.name.as_str());
    put_u64(&mut out, table.columns.len() as u64);
    let ghost head = out@;
    let mut i: usize = 0;
    assert(enc_columns(cs.take(0)) =~= Seq::<u8>::empty());
    assert(head + enc_columns(cs.take(0)) =~= head);
    while i < table.columns.len()
        invariant
            i <= table.columns.len(),
            cs == table@.columns,
            head == enc_text(table@.name) + be64(cs.len() as u64),
            out@ == head + enc_columns(cs.take(i as int)),
            forall|j: int| 0 <= j < i ==> column_fits(#[trigger] cs[j]),
        decreases table.columns.len() - i,
    {
        put_column(&mut out, &table.columns[i]);
        proof {
            assert(cs[i as int] == table.columns[i as int]@);
            assert(cs.take(i + 1) =~= cs.take(i as int).push(cs[i as int]));
            lemma_enc_columns_push(cs.take(i as int), cs[i as int]);
            assert(out@ =~= head + enc_columns(cs.take(i + 1)));
        }
        i = i + 1;
    }
    assert(cs.take(table.columns.len() as int) == cs);
    out
}

// ------------------------------------------------------------------
// Reading
// ------------------------------------------------------------------
/// Reads the number that stands at `pos`.
fn read_u64(bytes: &Vec<u8>, pos: usize) -> (r: Option<(u64, usize)>)
    requires
        pos <= bytes.len(),
    ensures
        match take_u64(bytes@.skip(pos as int)) {
            Some((x, rest)) => r matches Some((y, p)) && y == x && p <= bytes.len()
                && bytes@.skip(p as int) == rest,
            None => r is None,
        },
{
    if bytes.len() - pos >= 8 {
        assert(bytes@.subrange(pos as int, pos + 8) == bytes@.skip(pos as int).take(8));
        assert(bytes@.skip(pos + 8) == bytes@.skip(pos as int).skip(8));
        Some((get_u64(bytes, pos), pos + 8))
    } else {
        None
    }
}

/// Reads the byte string that stands at `pos`.
fn read_bytes(bytes: &Vec<u8>, pos: usize) -> (r: Option<(Vec<u8>, usize)>)
    requires
        pos <= bytes.len(),
    ensures
        match take_bytes(bytes@.skip(pos as int)) {
            Some((x, rest)) => r matches Some((y, p)) && y@ == x && p <= bytes.len()
                && bytes@.skip(p as int) == rest,
            None => r is None,
        },
{
    match read_u64(bytes, pos) {
        None => None,
        Some((n, start)) => {
            if n > (bytes.len() - start) as u64 {
                return None;
            }
            let end = start + n as usize;
            let mut raw: Vec<u8> = Vec::new();
            let mut i: usize = start;
            while i < end
                invariant
                    start <= i <= end <= bytes.len(),
                    raw@ == bytes@.subrange(start as int, i as int),
                decreases end - i,
            {
                raw.push(bytes[i]);
                assert(raw@ =~= bytes@.subrange(start as int, i + 1));
                i = i + 1;
            }
            assert(bytes@.subrange(start as int, end as int) == bytes@.skip(start as int).take(
                n as int,
            ));
            assert(bytes@.skip(end as int) == bytes@.skip(start as int).skip(n as int));
            Some((raw, end))
        },
    }
}

/// Reads the text that stands at `pos`.
fn read_text(bytes: &Vec<u8>, pos: usize) -> (r: Option<(String, usize)>)
    requires
        pos <= bytes.len(),
    ensures
        match take_text(bytes@.skip(pos as int)) {
            Some((x, rest)) => r matches Some((y, p)) && y@ == x && p <= bytes.len()
                && bytes@.skip(p as int) == rest,
            None => r is None,
        },
{
    match read_bytes(bytes, pos) {
        None => None,
        Some((raw, end)) => {
            let ghost given = raw@;
            match text_from_utf8(raw) {
                None => None,
                Some(text) => {
                    proof {
                        encode_utf8_valid_utf8(text@);
                        encode_utf8_decode_utf8(text@);
                    }
                    Some((text, end))
                },
            }
        },
    }
}

/// Reads the flag that stands at `pos`.
fn read_flag(bytes: &Vec<u8>, pos: usize) -> (r: Option<(bool, usize)>)
    requires
        pos <= bytes.len(),
    ensures
        match take_flag(bytes@.skip(pos as int)) {
            Some((x, rest)) => r matches Some((y, p)) && y == x && p <= bytes.len()
                && bytes@.skip(p as int) == rest,
            None => r is None,
        },
{
    if pos < bytes.len() && bytes[pos] <= 1 {
        assert(bytes@.skip(pos + 1) == bytes@.skip(pos as int).skip(1));
        Some((bytes[pos] == 1, pos + 1))
    } else {
        None
    }
}

/// Reads the value that stands at `pos`.
fn read_value(bytes: &Vec<u8>, pos: usize) -> (r: Option<(Value, usize)>)
    requires
        pos <= bytes.len(),
    ensures
        match take_value(bytes@.skip(pos as int)) {
            Some((x, rest)) => r matches Some((y, p)) && y@ == x && p <= bytes.len()
                && bytes@.skip(p as int) == rest,
            None => r is None,
        },
{
    reveal(take_value);
    if pos >= bytes.len() {
        return None;
    }
    assert(bytes@.skip(pos + 1) == bytes@.skip(pos as int).skip(1));
    let tag = bytes[pos];
    if tag == 0 {
        Some((Value::Null, pos + 1))
    } else if tag == 1 {
        match read_flag(bytes, pos + 1) {
            Some((f, p)) => Some((Value::Boolean(f), p)),
            None => None,
        }
    } else if tag == 2 {
        match read_u64(bytes, pos + 1) {
            Some((u, p)) => {
                let i: i64 = if u >= 0x8000_0000_0000_0000u64 {
                    (u - 0x8000_0000_0000_0000u64) as i64
                } else {
                    ((u as i64) - i64::MAX) - 1
                };
                assert(i == unbias(u));
                Some((Value::Integer(i), p))
            },
            None => None,
        }
    } else if tag == 3 {
        match read_text(bytes, pos + 1) {
            Some((s, p)) => Some((Value::Float(s), p)),
            None => None,
        }
    } else if tag == 4 {
        match read_text(bytes, pos + 1) {
            Some((s, p)) => Some((Value::String(s), p)),
            None => None,
        }
    } else {
        None
    }
}

/// What `take_values` finds, with `done` before it.
pub open spec fn values_after(done: Seq<ValueView>, found: Option<(Seq<ValueView>, Seq<u8>)>)
    -> Option<(Seq<ValueView>, Seq<u8>)> {
    match found {
        Some((vs, end)) => Some((done + vs, end)),
        None => None,
    }
}

/// Reads a row.
pub fn read_row(bytes: &Vec<u8>) -> (r: Option<Row>)
    ensures
        match dec_row(bytes@) {
            Some(vs) => r matches Some(row) && row.deep_view() == vs,
            None => r is None,
        },
{
    assert(bytes@.skip(0) == bytes@);
    match read_u64(bytes, 0) {
        None => None,
        Some((count, start)) => {
            let ghost whole = take_values(bytes@.skip(start as int), count as nat);
            let mut row: Row = Vec::new();
            let mut pos: usize = start;
            let mut i: u64 = 0;
            assert(row.deep_view() =~= Seq::<ValueView>::empty());
            assert(values_after(row.deep_view(), whole) == whole) by {
                if let Some((vs, end)) = whole {
                    assert(Seq::<ValueView>::empty() + vs =~= vs);
                }
            }
            while i < count
                invariant
                    i <= count,
                    pos <= bytes.len(),
                    take_u64(bytes@) == Some((count, bytes@.skip(start as int))),
                    whole == take_values(bytes@.skip(start as int), count as nat),
                    whole == values_after(
                        row.deep_view(),
                        take_values(bytes@.skip(pos as int), (count - i) as nat),
                    ),
                decreases count - i,
            {
                let ghost done = row.deep_view();
                match read_value(bytes, pos) {
                    None => {
                        return None;
                    },
                    Some((v, p)) => {
                        row.push(v);
                        proof {
                            assert(row.deep_view() =~= done.push(v@));
                            let after = take_values(bytes@.skip(p as int), (count - i - 1) as nat);
                            if let Some((vs, end)) = after {
                                assert(done + (seq![v@] + vs) =~= done.push(v@) + vs);
                            }
                        }
                        pos = p;
                    },
                }
                i = i + 1;
            }
            proof {
                assert(row.deep_view() + Seq::<ValueView>::empty() =~= row.deep_view());
            }
            if pos == bytes.len() {
                Some(row)
            } else {
                None
            }
        },
    }
}

/// Reads the datatype that stands at `pos`.
fn read_datatype(bytes: &Vec<u8>, pos: usize) -> (r: Option<(DataType, usize)>)
    requires
        pos <= bytes.len(),
    ensures
        match take_datatype(bytes@.skip(pos as int)) {
            Some((x, rest)) => r matches Some((y, p)) && y == x && p <= bytes.len()
                && bytes@.skip(p as int) == rest,
            None => r is None,
        },
{
    if pos >= bytes.len() {
        return None;
    }
    assert(bytes@.skip(pos + 1) == bytes@.skip(pos as int).skip(1));
    let tag = bytes[pos];
    if tag == 0 {
        Some((DataType::Boolean, pos + 1))
    } else if tag == 1 {
        Some((DataType::Integer, pos + 1))
    } else if tag == 2 {
        Some((DataType::Float, pos + 1))
    } else if tag == 3 {
        Some((DataType::String, pos + 1))
    } else {
        None
    }
}

/// Reads the default that stands at `pos`.
fn read_default(bytes: &Vec<u8>, pos: usize) -> (r: Option<(Option<Value>, usize)>)
    requires
        pos <= bytes.len(),
    ensures
        match take_default(bytes@.skip(pos as int)) {
            Some((x, rest)) => r matches Some((y, p)) && y.deep_view() == x && p <= bytes.len()
                && bytes@.skip(p as int) == rest,
            None => r is None,
        },
{
    if pos >= bytes.len() {
        return None;
    }
    assert(bytes@.skip(pos + 1) == bytes@.skip(pos as int).skip(1));
    let tag = bytes[pos];
    if tag == 0 {
        Some((None, pos + 1))
    } else if tag == 1 {
        match read_value(bytes, pos + 1) {
            Some((v, p)) => Some((Some(v), p)),
            None => None,
        }
    } else {
        None
    }
}

/// Reads the column that stands at `pos`.
fn read_column(bytes: &Vec<u8>, pos: usize) -> (r: Option<(Column, usize)>)
    requires
        pos <= bytes.len(),
    ensures
        match take_column(bytes@.skip(pos as int)) {
            Some((x, rest)) => r matches Some((y, p)) && y@ == x && p <= bytes.len()
                && bytes@.skip(p as int) == rest,
            None => r is None,
        },
{
    reveal(take_column);
    match read_text(bytes, pos) {
        None => None,
        Some((name, named)) => match read_datatype(bytes, named) {
            None => None,
            Some((datatype, typed)) => match read_flag(bytes, typed) {
                None => None,
                Some((nullable, flagged)) => match read_default(bytes, flagged) {
                    None => None,
                    Some((default, end)) => Some((Column { name, datatype, nullable, default }, end)),
                },
            },
        },
    }
}

/// What `take_columns` finds, with `done` before it.
pub open spec fn columns_after(done: Seq<ColumnView>, found: Option<(Seq<ColumnView>, Seq<u8>)>)
    -> Option<(Seq<ColumnView>, Seq<u8>)> {
    match found {
        Some((cs, end)) => Some((done + cs, end)),
        None => None,
    }
}

/// Reads a table.
pub fn read_table(bytes: &Vec<u8>) -> (r: Option<Table>)
    ensures
        match dec_table(bytes@) {
            Some(t) => r matches Some(table) && table@ == t,
            None => r is None,
        },
{
    assert(bytes@.skip(0) == bytes@);
    match read_text(bytes, 0) {
        None => None,
        Some((name, named)) => match read_u64(bytes, named) {
            None => None,
            Some((count, start)) => {
                let ghost whole = take_columns(bytes@.skip(start as int), count as nat);
                let mut columns: Vec<Column> = Vec::new();
                let mut pos: usize = start;
                let mut i: u64 = 0;
                assert(columns.deep_view() =~= Seq::<ColumnView>::empty());
                assert(columns_after(columns.deep_view(), whole) == whole) by {
                    if let Some((cs, end)) = whole {
                        assert(Seq::<ColumnView>::empty() + cs =~= cs);
                    }
                }
                while i < count
                    invariant
                        i <= count,
                        pos <= bytes.len(),
                        take_text(bytes@) == Some((name@, bytes@.skip(named as int))),
                        take_u64(bytes@.skip(named as int)) == Some(
                            (count, bytes@.skip(start as int)),
                        ),
                        whole == take_columns(bytes@.skip(start as int), count as nat),
                        whole == columns_after(
                            columns.deep_view(),
                            take_columns(bytes@.skip(pos as int), (count - i) as nat),
                        ),
                    decreases count - i,
                {
                    let ghost done = columns.deep_view();
                    match read_column(bytes, pos) {
                        None => {
                            return None;
                        },
                        Some((c, p)) => {
                            columns.push(c);
                            proof {
                                assert(columns.deep_view() =~= done.push(c@));
                                let after = take_columns(
                                    bytes@.skip(p as int),
                                    (count - i - 1) as nat,
                                );
                                if let Some((cs, end)) = after {
                                    assert(done + (seq![c@] + cs) =~= done.push(c@) + cs);
                                }
                            }
                            pos = p;
                        },
                    }
                    i = i + 1;
                }
                proof {
                    assert(columns.deep_view() + Seq::<ColumnView>::empty()
                        =~= columns.deep_view());
                }
                if pos == bytes.len() {
                    Some(Table { name, columns })
                } else {
                    None
                }
            },
        },
    }
}

} // verus!
