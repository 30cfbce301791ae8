//! Canonical bencode: a model of its values, their byte encoding, and the
//! writers that append encoded values to a buffer.

use crate::order::bytes_lt;
use vstd::prelude::*;

verus! {

/// A bencode value. Dictionaries keep their entries in the order in which they
/// are written out; `canonical` says when that order is the sorted one.
pub enum Bencode {
    Int(int),
    Bytes(Seq<u8>),
    List(Seq<Bencode>),
    Dict(Seq<(Seq<u8>, Bencode)>),
}

/// `i`
pub const INT_OPEN: u8 = 0x69;

/// `l`
pub const LIST_OPEN: u8 = 0x6c;

/// `d`
pub const DICT_OPEN: u8 = 0x64;

/// `e`
pub const CLOSE: u8 = 0x65;

/// `:`
pub const COLON: u8 = 0x3a;

/// `-`
pub const MINUS: u8 = 0x2d;

/// `0`
pub const ZERO: u8 = 0x30;

/// The ASCII digit for `d`, where `d` is below ten.
pub open spec fn digit(d: nat) -> u8 {
    (ZERO + d) as u8
}

/// The decimal digits of `n`, most significant first, without leading zeros.
pub open spec fn decimal(n: nat) -> Seq<u8>
    decreases n,
{
    if n < 10 {
        seq![digit(n)]
    } else {
        decimal(n / 10).push(digit(n % 10))
    }
}

/// The text of an integer: its decimal digits, after a minus sign if it is negative.
pub open spec fn integer_text(i: int) -> Seq<u8> {
    if i < 0 {
        seq![MINUS] + decimal((-i) as nat)
    } else {
        decimal(i as nat)
    }
}

/// `i<N>e`
pub open spec fn encode_int(i: int) -> Seq<u8> {
    seq![INT_OPEN] + integer_text(i) + seq![CLOSE]
}

/// `<length>:<bytes>`
pub open spec fn encode_bytes(s: Seq<u8>) -> Seq<u8> {
    decimal(s.len()) + seq![COLON] + s
}

/// The canonical encoding of a value.
pub open spec fn encode(v: Bencode) -> Seq<u8>
    decreases v, 0nat,
{
    match v {
        Bencode::Int(i) => encode_int(i),
        Bencode::Bytes(s) => encode_bytes(s),
        Bencode::List(items) => seq![LIST_OPEN] + encode_items(items) + seq![CLOSE],
        Bencode::Dict(entries) => seq![DICT_OPEN] + encode_entries(entries) + seq![CLOSE],
    }
}

/// The encodings of the items of a list, one after the other.
pub open spec fn encode_items(items: Seq<Bencode>) -> Seq<u8>
    decreases items, 1nat,
{
    if items.len() == 0 {
        Seq::empty()
    } else {
        encode_items(items.drop_last()) + encode(items.last())
    }
}

/// The entries of a dictionary, each as its key followed by its value.
pub open spec fn encode_entries(entries: Seq<(Seq<u8>, Bencode)>) -> Seq<u8>
    decreases entries, 1nat,
{
    if entries.len() == 0 {
        Seq::empty()
    } else {
        encode_entries(entries.drop_last()) + encode_bytes(entries.last().0) + encode(
            entries.last().1,
        )
    }
}

/// The keys of the entries are strictly increasing.
pub open spec fn keys_sorted(entries: Seq<(Seq<u8>, Bencode)>) -> bool {
    forall|i: int, j: int|
        0 <= i < j < entries.len() ==> bytes_lt(#[trigger] entries[i].0, #[trigger] entries[j].0)
}

/// Every dictionary inside the value, at any depth, has its keys sorted.
pub open spec fn canonical(v: Bencode) -> bool
    decreases v,
{
    match v {
        Bencode::Int(_) => true,
        Bencode::Bytes(_) => true,
        Bencode::List(items) => forall|i: int|
            0 <= i < items.len() ==> canonical(#[trigger] items[i]),
        Bencode::Dict(entries) => keys_sorted(entries) && forall|i: int|
            0 <= i < entries.len() ==> canonical((#[trigger] entries[i]).1),
    }
}

/// Appending an item to a list appends its encoding.
pub proof fn lemma_encode_items_push(items: Seq<Bencode>, v: Bencode)
    ensures
        encode_items(items.push(v)) == encode_items(items) + encode(v),
{
    assert(items.push(v).drop_last() =~= items);
}

/// Appending an entry to a dictionary appends its key and its value.
pub proof fn lemma_encode_entries_push(entries: Seq<(Seq<u8>, Bencode)>, k: Seq<u8>, v: Bencode)
    ensures
        encode_entries(entries.push((k, v))) == encode_entries(entries) + encode_bytes(k) + encode(
            v,
        ),
{
    assert(entries.push((k, v)).drop_last() =~= entries);
}

/// `entries`, followed by the entry of `key` where it is present.
pub open spec fn with_entry(
    entries: Seq<(Seq<u8>, Bencode)>,
    present: bool,
    key: Seq<u8>,
    value: Bencode,
) -> Seq<(Seq<u8>, Bencode)> {
    if present {
        entries.push((key, value))
    } else {
        entries
    }
}

/// Writing an entry's key and value after the entries written so far writes
/// the entries with that entry added.
pub proof fn lemma_entry_written(
    base: Seq<u8>,
    entries: Seq<(Seq<u8>, Bencode)>,
    present: bool,
    k: Seq<u8>,
    v: Bencode,
    before: Seq<u8>,
    after: Seq<u8>,
)
    requires
        before == base + encode_entries(entries),
        after == (if present {
            before + encode_bytes(k) + encode(v)
        } else {
            before
        }),
    ensures
        after == base + encode_entries(with_entry(entries, present, k, v)),
{
    if present {
        lemma_encode_entries_push(entries, k, v);
        assert(after =~= base + encode_entries(entries.push((k, v))));
    }
}

/// A dictionary is its opening byte, its entries and its closing byte.
pub proof fn lemma_dict_written(
    prefix: Seq<u8>,
    entries: Seq<(Seq<u8>, Bencode)>,
    before: Seq<u8>,
    after: Seq<u8>,
)
    requires
        before == prefix + seq![DICT_OPEN] + encode_entries(entries),
        after == before.push(CLOSE),
    ensures
        after == prefix + encode(Bencode::Dict(entries)),
{
    assert(after =~= prefix + encode(Bencode::Dict(entries)));
}

/// An entry whose key lies above all present keys keeps a dictionary sorted.
pub proof fn lemma_keys_sorted_push(entries: Seq<(Seq<u8>, Bencode)>, k: Seq<u8>, v: Bencode)
    requires
        keys_sorted(entries),
        forall|i: int| 0 <= i < entries.len() ==> bytes_lt(#[trigger] entries[i].0, k),
    ensures
        keys_sorted(entries.push((k, v))),
{
    let after = entries.push((k, v));
    assert forall|i: int, j: int| 0 <= i < j < after.len() implies bytes_lt(
        #[trigger] after[i].0,
        #[trigger] after[j].0,
    ) by {
        if j < entries.len() {
            assert(after[i] == entries[i]);
            assert(after[j] == entries[j]);
        } else {
            assert(after[i] == entries[i]);
        }
    }
}

/// Appends the bytes of `s` to `out`.
pub fn append(out: &mut Vec<u8>, s: &[u8])
    ensures
        final(out)@ == old(out)@ + s@,
{
    let n: usize = s.len();
    let mut i: usize = 0;
    while i < n
        invariant
            n == s@.len(),
            i <= n,
            out@ == old(out)@ + s@.take(i as int),
        decreases n - i,
    {
        out.push(s[i]);
        i = i + 1;
        assert(s@.take(i as int) =~= s@.take(i - 1).push(s@[i - 1]));
    }
    assert(s@.take(n as int) =~= s@);
}

/// Appends the decimal digits of `n`.
pub fn write_decimal(out: &mut Vec<u8>, n: u64)
    ensures
        final(out)@ == old(out)@ + decimal(n as nat),
    decreases n,
{
    if n >= 10 {
        write_decimal(out, n / 10);
    }
    let d: u8 = (n % 10) as u8;
    out.push(ZERO + d);
    assert(out@ =~= old(out)@ + decimal(n as nat));
}

/// Appends `i<N>e` for a signed integer.
pub fn write_int(out: &mut Vec<u8>, v: i64)
    ensures
        final(out)@ == old(out)@ + encode_int(v as int),
{
    out.push(INT_OPEN);
    if v < 0 {
        out.push(MINUS);
        let magnitude: u64 = if v == i64::MIN {
            9223372036854775808u64
        } else {
            (-v) as u64
        };
        write_decimal(out, magnitude);
    } else {
        write_decimal(out, v as u64);
    }
    out.push(CLOSE);
    assert(out@ =~= old(out)@ + encode_int(v as int));
}

/// Appends `i<N>e` for an unsigned integer.
pub fn write_uint(out: &mut Vec<u8>, v: u64)
    ensures
        final(out)@ == old(out)@ + encode_int(v as int),
{
    out.push(INT_OPEN);
    write_decimal(out, v);
    out.push(CLOSE);
    assert(out@ =~= old(out)@ + encode_int(v as int));
}

/// Appends `<length>:<bytes>`.
pub fn write_bytes(out: &mut Vec<u8>, s: &[u8])
    ensures
        final(out)@ == old(out)@ + encode_bytes(s@),
{
    write_decimal(out, s.len() as u64);
    out.push(COLON);
    append(out, s);
    assert(out@ =~= old(out)@ + encode_bytes(s@));
}

/// The bytes of a text whose characters are all ASCII.
pub open spec fn ascii(text: Seq<char>) -> Seq<u8> {
    Seq::new(text.len(), |i: int| text[i] as u8)
}

/// Appends the bytes of an ASCII text.
pub(crate) fn append_text(out: &mut Vec<u8>, text: &str)
    requires
        vstd::string::is_ascii(text),
    ensures
        final(out)@ == old(out)@ + ascii(text@),
{
    proof {
        vstd::string::is_ascii_spec_bytes(text);
    }
    let bytes: &[u8] = text.as_bytes();
    assert(bytes@ =~= ascii(text@));
    append(out, bytes);
}

/// Appends an ASCII text as a byte string.
pub(crate) fn write_text(out: &mut Vec<u8>, text: &str)
    requires
        vstd::string::is_ascii(text),
    ensures
        final(out)@ == old(out)@ + encode_bytes(ascii(text@)),
{
    proof {
        vstd::string::is_ascii_spec_bytes(text);
    }
    let bytes: &[u8] = text.as_bytes();
    assert(bytes@ =~= ascii(text@));
    write_bytes(out, bytes);
}

/// Appends a list of byte strings: `l`, each string, `e`.
pub fn write_bytes_list(out: &mut Vec<u8>, items: &Vec<Vec<u8>>)
    ensures
        final(out)@ == old(out)@ + encode(bytes_list(strings(items@))),
{
    let ghost vals: Seq<Bencode> = strings(items@).map_values(|s: Seq<u8>| Bencode::Bytes(s));
    out.push(LIST_OPEN);
    let n: usize = items.len();
    let mut i: usize = 0;
    while i < n
        invariant
            n == items@.len(),
            i <= n,
            vals == strings(items@).map_values(|s: Seq<u8>| Bencode::Bytes(s)),
            out@ == old(out)@ + seq![LIST_OPEN] + encode_items(vals.take(i as int)),
        decreases n - i,
    {
        write_bytes(out, items[i].as_slice());
        proof {
            lemma_encode_items_push(vals.take(i as int), vals[i as int]);
            assert(vals.take(i + 1) =~= vals.take(i as int).push(vals[i as int]));
        }
        i = i + 1;
    }
    out.push(CLOSE);
    proof {
        assert(vals.take(n as int) =~= vals);
        assert(out@ =~= old(out)@ + encode(bytes_list(strings(items@))));
    }
}

/// The byte strings held by a sequence of vectors.
pub open spec fn strings(items: Seq<Vec<u8>>) -> Seq<Seq<u8>> {
    items.map_values(|s: Vec<u8>| s@)
}

/// The list whose items are the given byte strings.
pub open spec fn bytes_list(items: Seq<Seq<u8>>) -> Bencode {
    Bencode::List(items.map_values(|s: Seq<u8>| Bencode::Bytes(s)))
}

} // verus!
