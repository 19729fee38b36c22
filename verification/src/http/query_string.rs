//! URL query strings such as `name=jhulian&lang=rust&lang=elixir`.
//!
//! A query string is cut at every `&` into pieces; each piece is a key, or a
//! key and a value separated by the first `=`. A key that appears once maps to
//! a single value; a key that appears more than once maps to all its values,
//! in the order in which they appear.
use vstd::prelude::*;
use vstd::string::*;

use crate::text::{
    bytes_equal, find_byte, first_index, is_first_of, is_slice_of, lemma_exists_first,
    lemma_first_of_bounds, lemma_first_of_is, lemma_first_of_none, lemma_slice_subrange,
    lemma_slice_trans, split_around,
};

verus! {

/// The byte `&`, which separates the pieces of a query string.
pub const AMPERSAND: u8 = 0x26;

/// The byte `=`, which separates a key from its value.
pub const EQUALS: u8 = 0x3d;

/// The value of a query parameter: one string, or all strings of a key that
/// appears more than once.
#[derive(Debug)]
pub enum Value<'buf> {
    Single(&'buf str),
    Multiple(Vec<&'buf str>),
}

/// The bytes of each string of a sequence.
pub open spec fn texts_bytes(texts: Seq<&str>) -> Seq<Seq<u8>> {
    texts.map_values(|t: &str| t.spec_bytes())
}

impl<'buf> Value<'buf> {
    /// The values, in order, as bytes.
    pub open spec fn values(&self) -> Seq<Seq<u8>> {
        match self {
            Value::Single(s) => seq![s.spec_bytes()],
            Value::Multiple(vs) => texts_bytes(vs@),
        }
    }
}

/// The pieces of a query string between the `&` separators.
pub open spec fn query_pieces(raw: Seq<u8>) -> Seq<Seq<u8>>
    decreases raw.len(),
{
    match first_index(raw, AMPERSAND) {
        Some(i) => {
            proof {
                lemma_first_of_bounds(raw, AMPERSAND, AMPERSAND);
            }
            seq![raw.take(i)] + query_pieces(raw.skip(i + 1))
        },
        None => seq![raw],
    }
}

/// The key and the value of one piece; a piece without `=` has an empty value.
pub open spec fn key_value(piece: Seq<u8>) -> (Seq<u8>, Seq<u8>) {
    match first_index(piece, EQUALS) {
        Some(i) => (piece.take(i), piece.skip(i + 1)),
        None => (piece, Seq::empty()),
    }
}

/// Records one more value for `key`.
pub open spec fn add_value(
    m: Map<Seq<u8>, Seq<Seq<u8>>>,
    key: Seq<u8>,
    value: Seq<u8>,
) -> Map<Seq<u8>, Seq<Seq<u8>>> {
    if m.contains_key(key) {
        m.insert(key, m[key].push(value))
    } else {
        m.insert(key, seq![value])
    }
}

/// The values of each key over a sequence of pieces, in order of appearance.
pub open spec fn collect_pieces(pieces: Seq<Seq<u8>>) -> Map<Seq<u8>, Seq<Seq<u8>>>
    decreases pieces.len(),
{
    if pieces.len() == 0 {
        Map::empty()
    } else {
        let (k, v) = key_value(pieces.last());
        add_value(collect_pieces(pieces.drop_last()), k, v)
    }
}

/// Each key of a query string mapped to all its values, in order.
pub open spec fn query_map(raw: Seq<u8>) -> Map<Seq<u8>, Seq<Seq<u8>>> {
    collect_pieces(query_pieces(raw))
}

/// Cutting `raw & piece` gives the pieces of `raw` followed by `piece`.
proof fn lemma_pieces_append(raw: Seq<u8>, piece: Seq<u8>)
    requires
        forall|j: int| 0 <= j < piece.len() ==> #[trigger] piece[j] != AMPERSAND,
    ensures
        query_pieces(raw + seq![AMPERSAND] + piece) == query_pieces(raw).push(piece),
    decreases raw.len(),
{
    let whole = raw + seq![AMPERSAND] + piece;
    lemma_first_of_bounds(raw, AMPERSAND, AMPERSAND);
    match first_index(raw, AMPERSAND) {
        Some(i) => {
            assert(is_first_of(whole, AMPERSAND, AMPERSAND, i)) by {
                assert forall|j: int| 0 <= j < i implies #[trigger] whole[j] != AMPERSAND
                    && whole[j] != AMPERSAND by {
                    assert(whole[j] == raw[j]);
                }
                assert(whole[i] == raw[i]);
            }
            lemma_first_of_is(whole, AMPERSAND, AMPERSAND, i);
            assert(whole.take(i) =~= raw.take(i));
            assert(whole.skip(i + 1) =~= raw.skip(i + 1) + seq![AMPERSAND] + piece);
            lemma_pieces_append(raw.skip(i + 1), piece);
            assert(query_pieces(whole) =~= seq![raw.take(i)] + query_pieces(raw.skip(i + 1)).push(
                piece,
            ));
        },
        None => {
            assert forall|j: int| 0 <= j < raw.len() implies #[trigger] raw[j] != AMPERSAND
                && raw[j] != AMPERSAND by {
                if raw[j] == AMPERSAND {
                    lemma_exists_first(raw, AMPERSAND, j);
                }
            }
            let n = raw.len() as int;
            assert(is_first_of(whole, AMPERSAND, AMPERSAND, n)) by {
                assert forall|j: int| 0 <= j < n implies #[trigger] whole[j] != AMPERSAND
                    && whole[j] != AMPERSAND by {
                    assert(whole[j] == raw[j]);
                }
            }
            lemma_first_of_is(whole, AMPERSAND, AMPERSAND, n);
            assert(whole.take(n) =~= raw);
            assert(whole.skip(n + 1) =~= piece);
            lemma_first_of_none(piece, AMPERSAND, AMPERSAND);
            assert(query_pieces(piece) == seq![piece]);
            assert(query_pieces(whole) == seq![whole.take(n)] + query_pieces(whole.skip(n + 1)));
            assert(query_pieces(whole) =~= seq![raw, piece]);
        },
    }
}

/// Appending `&piece` to a query string records one more value for the key of
/// `piece`: a key seen before keeps its earlier values and gains this one
/// last; a new key gets this value alone.
pub proof fn lemma_query_append(raw: Seq<u8>, piece: Seq<u8>)
    requires
        forall|j: int| 0 <= j < piece.len() ==> #[trigger] piece[j] != AMPERSAND,
    ensures
        query_map(raw + seq![AMPERSAND] + piece) == add_value(
            query_map(raw),
            key_value(piece).0,
            key_value(piece).1,
        ),
{
    lemma_pieces_append(raw, piece);
    let pieces = query_pieces(raw).push(piece);
    assert(pieces.drop_last() =~= query_pieces(raw));
}

/// The value of every piece whose key is `k`, in the order of the pieces.
pub open spec fn values_of_key(pieces: Seq<Seq<u8>>, k: Seq<u8>) -> Seq<Seq<u8>>
    decreases pieces.len(),
{
    if pieces.len() == 0 {
        Seq::empty()
    } else {
        let earlier = values_of_key(pieces.drop_last(), k);
        if key_value(pieces.last()).0 == k {
            earlier.push(key_value(pieces.last()).1)
        } else {
            earlier
        }
    }
}

proof fn lemma_collect_values(pieces: Seq<Seq<u8>>, k: Seq<u8>)
    ensures
        collect_pieces(pieces).contains_key(k) <==> values_of_key(pieces, k).len() > 0,
        collect_pieces(pieces).contains_key(k) ==> collect_pieces(pieces)[k] == values_of_key(
            pieces,
            k,
        ),
    decreases pieces.len(),
{
    if pieces.len() > 0 {
        lemma_collect_values(pieces.drop_last(), k);
    }
}

/// A key is in a parsed query string exactly when some piece has that key,
/// and its values are the values of all pieces with that key, in order; so
/// there are as many values as pieces with that key.
pub proof fn lemma_query_values(raw: Seq<u8>, k: Seq<u8>)
    ensures
        query_map(raw).contains_key(k) <==> values_of_key(query_pieces(raw), k).len() > 0,
        query_map(raw).contains_key(k) ==> query_map(raw)[k] == values_of_key(
            query_pieces(raw),
            k,
        ),
{
    lemma_collect_values(query_pieces(raw), k);
}

/// Appending `&piece` adds exactly one value, the piece's value, at the end
/// of the values of the piece's key, and leaves every other key as it was.
pub proof fn lemma_query_append_one_value(raw: Seq<u8>, piece: Seq<u8>, other: Seq<u8>)
    requires
        forall|j: int| 0 <= j < piece.len() ==> #[trigger] piece[j] != AMPERSAND,
        other != key_value(piece).0,
    ensures
        ({
            let (k, v) = key_value(piece);
            let before = query_map(raw);
            let after = query_map(raw + seq![AMPERSAND] + piece);
            &&& after.contains_key(k)
            &&& after[k].len() == (if before.contains_key(k) {
                before[k].len()
            } else {
                0
            }) + 1
            &&& after[k].last() == v
            &&& before.contains_key(k) ==> after[k].drop_last() == before[k]
            &&& after.contains_key(other) == before.contains_key(other)
            &&& before.contains_key(other) ==> after[other] == before[other]
        }),
{
    let (k, v) = key_value(piece);
    lemma_pieces_append(raw, piece);
    let pieces = query_pieces(raw).push(piece);
    assert(pieces.drop_last() =~= query_pieces(raw));
    lemma_query_values(raw, k);
    lemma_query_values(raw, other);
    lemma_query_values(raw + seq![AMPERSAND] + piece, k);
    lemma_query_values(raw + seq![AMPERSAND] + piece, other);
    assert(values_of_key(pieces, k) == values_of_key(query_pieces(raw), k).push(v));
    assert(values_of_key(pieces, k).drop_last() =~= values_of_key(query_pieces(raw), k));
    assert(values_of_key(pieces, other) == values_of_key(query_pieces(raw), other));
}

/// Every key and every value of `m` is a contiguous piece of `whole`.
pub open spec fn all_slices_of(m: Map<Seq<u8>, Seq<Seq<u8>>>, whole: Seq<u8>) -> bool {
    &&& forall|k: Seq<u8>| #[trigger] m.contains_key(k) ==> is_slice_of(k, whole)
    &&& forall|k: Seq<u8>, j: int|
        m.contains_key(k) && 0 <= j < m[k].len() ==> is_slice_of(#[trigger] m[k][j], whole)
}

/// The pieces of a query string are pieces of it.
proof fn lemma_pieces_are_slices(raw: Seq<u8>)
    ensures
        forall|i: int|
            0 <= i < query_pieces(raw).len() ==> is_slice_of(#[trigger] query_pieces(raw)[i], raw),
    decreases raw.len(),
{
    lemma_first_of_bounds(raw, AMPERSAND, AMPERSAND);
    match first_index(raw, AMPERSAND) {
        Some(i) => {
            let tail = raw.skip(i + 1);
            lemma_pieces_are_slices(tail);
            lemma_slice_subrange(raw, 0, i);
            assert(raw.take(i) =~= raw.subrange(0, i));
            lemma_slice_subrange(raw, i + 1, raw.len() as int);
            assert(tail =~= raw.subrange(i + 1, raw.len() as int));
            let ps = query_pieces(raw);
            assert(ps == seq![raw.take(i)] + query_pieces(tail));
            assert forall|j: int| 0 <= j < ps.len() implies is_slice_of(#[trigger] ps[j], raw) by {
                if j > 0 {
                    assert(ps[j] == query_pieces(tail)[j - 1]);
                    lemma_slice_trans(ps[j], tail, raw);
                }
            }
        },
        None => {
            lemma_slice_subrange(raw, 0, raw.len() as int);
            assert(raw.subrange(0, raw.len() as int) =~= raw);
        },
    }
}

/// The key and the value of a piece are pieces of it.
proof fn lemma_key_value_slices(piece: Seq<u8>)
    ensures
        is_slice_of(key_value(piece).0, piece),
        is_slice_of(key_value(piece).1, piece),
{
    lemma_first_of_bounds(piece, EQUALS, EQUALS);
    match first_index(piece, EQUALS) {
        Some(i) => {
            lemma_slice_subrange(piece, 0, i);
            assert(piece.take(i) =~= piece.subrange(0, i));
            lemma_slice_subrange(piece, i + 1, piece.len() as int);
            assert(piece.skip(i + 1) =~= piece.subrange(i + 1, piece.len() as int));
        },
        None => {
            lemma_slice_subrange(piece, 0, piece.len() as int);
            assert(piece.subrange(0, piece.len() as int) =~= piece);
            lemma_slice_subrange(piece, 0, 0);
            assert(piece.subrange(0, 0) =~= Seq::<u8>::empty());
        },
    }
}

/// Collecting pieces of `whole` records only pieces of `whole`.
proof fn lemma_collect_slices(pieces: Seq<Seq<u8>>, whole: Seq<u8>)
    requires
        forall|i: int| 0 <= i < pieces.len() ==> is_slice_of(#[trigger] pieces[i], whole),
    ensures
        all_slices_of(collect_pieces(pieces), whole),
    decreases pieces.len(),
{
    if pieces.len() > 0 {
        let init = pieces.drop_last();
        assert forall|i: int| 0 <= i < init.len() implies is_slice_of(#[trigger] init[i], whole) by {
            assert(init[i] == pieces[i]);
        }
        lemma_collect_slices(init, whole);
        let piece = pieces.last();
        assert(is_slice_of(piece, whole));
        lemma_key_value_slices(piece);
        let (k, v) = key_value(piece);
        lemma_slice_trans(k, piece, whole);
        lemma_slice_trans(v, piece, whole);
        let m = collect_pieces(init);
        let n = collect_pieces(pieces);
        assert(n == add_value(m, k, v));
        assert forall|key: Seq<u8>, j: int|
            n.contains_key(key) && 0 <= j < n[key].len() implies is_slice_of(
            #[trigger] n[key][j],
            whole,
        ) by {
            if key != k {
                assert(n[key] == m[key]);
            } else if m.contains_key(k) {
                assert(n[key] == m[k].push(v));
                if j < m[k].len() {
                    assert(n[key][j] == m[k][j]);
                }
            }
        }
    }
}

/// Every key and value of a parsed query string is a piece of its text.
pub proof fn lemma_query_slices(raw: Seq<u8>)
    ensures
        all_slices_of(query_map(raw), raw),
{
    lemma_pieces_are_slices(raw);
    lemma_collect_slices(query_pieces(raw), raw);
}

/// The key of an entry.
pub open spec fn entry_key(e: (&str, Value)) -> Seq<u8> {
    e.0.spec_bytes()
}

/// Keys are distinct, and a key with several values has at least two.
pub open spec fn entries_wf(es: Seq<(&str, Value)>) -> bool {
    &&& forall|i: int, j: int|
        0 <= i < es.len() && 0 <= j < es.len() && i != j ==> #[trigger] entry_key(es[i])
            != #[trigger] entry_key(es[j])
    &&& forall|i: int|
        0 <= i < es.len() && (#[trigger] es[i]).1 is Multiple ==> es[i].1.values().len() >= 2
}

/// `k` is the key of some entry.
pub open spec fn has_key(es: Seq<(&str, Value)>, k: Seq<u8>) -> bool {
    exists|j: int| 0 <= j < es.len() && entry_key(es[j]) == k
}

/// The position of the entry with key `k`.
pub open spec fn index_of_key(es: Seq<(&str, Value)>, k: Seq<u8>) -> int {
    choose|j: int| 0 <= j < es.len() && entry_key(es[j]) == k
}

/// The map that a list of entries stands for.
pub open spec fn entries_map(es: Seq<(&str, Value)>) -> Map<Seq<u8>, Seq<Seq<u8>>> {
    Map::new(|k: Seq<u8>| has_key(es, k), |k: Seq<u8>| es[index_of_key(es, k)].1.values())
}

/// With distinct keys, the entry found for a key is the one holding it.
proof fn lemma_index_of_key(es: Seq<(&str, Value)>, j: int)
    requires
        entries_wf(es),
        0 <= j < es.len(),
    ensures
        has_key(es, entry_key(es[j])),
        index_of_key(es, entry_key(es[j])) == j,
        entries_map(es).contains_key(entry_key(es[j])),
        entries_map(es)[entry_key(es[j])] == es[j].1.values(),
{
    let k = entry_key(es[j]);
    assert(has_key(es, k));
    let i = index_of_key(es, k);
    if i != j {
        assert(entry_key(es[i]) != entry_key(es[j]));
    }
}

/// Adding an entry with a new key adds that key to the map.
proof fn lemma_push_new_key(es: Seq<(&str, Value)>, e: (&str, Value))
    requires
        entries_wf(es),
        !has_key(es, entry_key(e)),
        e.1 is Multiple ==> e.1.values().len() >= 2,
    ensures
        entries_wf(es.push(e)),
        entries_map(es.push(e)) == entries_map(es).insert(entry_key(e), e.1.values()),
{
    let new = es.push(e);
    assert forall|i: int, j: int|
        0 <= i < new.len() && 0 <= j < new.len() && i != j implies #[trigger] entry_key(new[i])
        != #[trigger] entry_key(new[j]) by {
        if i == es.len() {
            assert(new[j] == es[j]);
        } else if j == es.len() {
            assert(new[i] == es[i]);
        } else {
            assert(new[i] == es[i] && new[j] == es[j]);
        }
    }
    assert forall|i: int|
        0 <= i < new.len() && (#[trigger] new[i]).1 is Multiple implies new[i].1.values().len()
        >= 2 by {
        if i < es.len() {
            assert(new[i] == es[i]);
        }
    }
    assert(entries_wf(new));
    let expected = entries_map(es).insert(entry_key(e), e.1.values());
    assert forall|k: Seq<u8>| #[trigger] entries_map(new).contains_key(k) == expected.contains_key(
        k,
    ) by {
        if has_key(new, k) {
            let j = choose|j: int| 0 <= j < new.len() && entry_key(new[j]) == k;
            if j < es.len() {
                assert(new[j] == es[j]);
                assert(has_key(es, k));
            }
        }
        if has_key(es, k) {
            let j = choose|j: int| 0 <= j < es.len() && entry_key(es[j]) == k;
            assert(new[j] == es[j]);
            assert(has_key(new, k));
        }
        if k == entry_key(e) {
            assert(entry_key(new[es.len() as int]) == k);
        }
    }
    assert forall|k: Seq<u8>| #[trigger] entries_map(new).contains_key(k) implies entries_map(
        new,
    )[k] == expected[k] by {
        let j = index_of_key(new, k);
        lemma_index_of_key(new, j);
        if j < es.len() {
            assert(new[j] == es[j]);
            lemma_index_of_key(es, j);
        }
    }
    assert(entries_map(new) =~= expected);
}

/// Replacing the entry at `j` by one with the same key replaces its values.
proof fn lemma_replace_entry(es: Seq<(&str, Value)>, j: int, e: (&str, Value))
    requires
        entries_wf(es),
        0 <= j < es.len(),
        entry_key(e) == entry_key(es[j]),
        e.1 is Multiple ==> e.1.values().len() >= 2,
    ensures
        entries_wf(es.remove(j).push(e)),
        entries_map(es.remove(j).push(e)) == entries_map(es).insert(entry_key(e), e.1.values()),
{
    let rest = es.remove(j);
    assert forall|i: int, l: int|
        0 <= i < rest.len() && 0 <= l < rest.len() && i != l implies #[trigger] entry_key(rest[i])
        != #[trigger] entry_key(rest[l]) by {
        let oi = if i < j { i } else { i + 1 };
        let ol = if l < j { l } else { l + 1 };
        assert(rest[i] == es[oi] && rest[l] == es[ol]);
    }
    assert forall|i: int|
        0 <= i < rest.len() && (#[trigger] rest[i]).1 is Multiple implies rest[i].1.values().len()
        >= 2 by {
        let oi = if i < j { i } else { i + 1 };
        assert(rest[i] == es[oi]);
    }
    assert(!has_key(rest, entry_key(e))) by {
        if has_key(rest, entry_key(e)) {
            let i = choose|i: int| 0 <= i < rest.len() && entry_key(rest[i]) == entry_key(e);
            let oi = if i < j { i } else { i + 1 };
            assert(rest[i] == es[oi]);
        }
    }
    lemma_push_new_key(rest, e);
    let expected = entries_map(es).insert(entry_key(e), e.1.values());
    assert forall|k: Seq<u8>| #[trigger] entries_map(rest).contains_key(k) == (entries_map(
        es,
    ).contains_key(k) && k != entry_key(e)) by {
        if has_key(rest, k) {
            let i = choose|i: int| 0 <= i < rest.len() && entry_key(rest[i]) == k;
            let oi = if i < j { i } else { i + 1 };
            assert(rest[i] == es[oi]);
            assert(has_key(es, k));
        }
        if has_key(es, k) && k != entry_key(e) {
            let i = choose|i: int| 0 <= i < es.len() && entry_key(es[i]) == k;
            assert(i != j);
            let ri = if i < j { i } else { i - 1 };
            assert(rest[ri] == es[i]);
            assert(has_key(rest, k));
        }
    }
    assert forall|k: Seq<u8>| #[trigger] entries_map(rest).contains_key(k) implies entries_map(
        rest,
    )[k] == entries_map(es)[k] by {
        let i = index_of_key(rest, k);
        lemma_index_of_key(rest, i);
        let oi = if i < j { i } else { i + 1 };
        assert(rest[i] == es[oi]);
        lemma_index_of_key(es, oi);
    }
    assert(entries_map(rest).insert(entry_key(e), e.1.values()) =~= expected);
}

/// Records one more value for `key` in the entries.
fn add_pair<'buf>(data: &mut Vec<(&'buf str, Value<'buf>)>, key: &'buf str, value: &'buf str)
    requires
        entries_wf(old(data)@),
    ensures
        entries_wf(final(data)@),
        entries_map(final(data)@) == add_value(
            entries_map(old(data)@),
            key.spec_bytes(),
            value.spec_bytes(),
        ),
{
    let ghost es = data@;
    let mut j: usize = 0;
    while j < data.len()
        invariant
            data@ == es,
            old(data)@ == es,
            entries_wf(es),
            j <= es.len(),
            forall|i: int| 0 <= i < j ==> entry_key(#[trigger] es[i]) != key.spec_bytes(),
        decreases es.len() - j,
    {
        if bytes_equal(data[j].0.as_bytes(), key.as_bytes()) {
            proof {
                lemma_index_of_key(es, j as int);
            }
            let (existing_key, existing) = data.remove(j);
            assert(existing == es[j as int].1 && existing_key == es[j as int].0);
            let ghost previous_values = existing.values();
            let combined = match existing {
                Value::Single(previous) => {
                    let both = vec![previous, value];
                    assert(texts_bytes(both@) =~= seq![previous.spec_bytes()].push(
                        value.spec_bytes(),
                    ));
                    Value::Multiple(both)
                },
                Value::Multiple(mut values) => {
                    let ghost before = values@;
                    values.push(value);
                    assert(texts_bytes(values@) =~= texts_bytes(before).push(value.spec_bytes()));
                    Value::Multiple(values)
                },
            };
            assert(combined.values() == previous_values.push(value.spec_bytes()));
            proof {
                lemma_replace_entry(es, j as int, (existing_key, combined));
            }
            data.push((existing_key, combined));
            return;
        }
        j = j + 1;
    }
    assert(!has_key(es, key.spec_bytes()));
    proof {
        lemma_push_new_key(es, (key, Value::Single(value)));
    }
    data.push((key, Value::Single(value)));
}

/// Records the key and value of one piece of a query string.
fn add_piece<'buf>(data: &mut Vec<(&'buf str, Value<'buf>)>, piece: &'buf str)
    requires
        entries_wf(old(data)@),
    ensures
        entries_wf(final(data)@),
        entries_map(final(data)@) == add_value(
            entries_map(old(data)@),
            key_value(piece.spec_bytes()).0,
            key_value(piece.spec_bytes()).1,
        ),
{
    match find_byte(piece.as_bytes(), EQUALS) {
        Some(separator_index) => {
            let (key, value) = split_around(piece, separator_index);
            add_pair(data, key, value);
        },
        None => {
            let value: &'buf str = "";
            proof {
                reveal_strlit("");
                assert(value.spec_bytes() =~= Seq::<u8>::empty());
            }
            add_pair(data, piece, value);
        },
    }
}

/// A parsed query string.
#[derive(Debug)]
pub struct QueryString<'buf> {
    data: Vec<(&'buf str, Value<'buf>)>,
}

impl<'buf> QueryString<'buf> {
    #[verifier::type_invariant]
    spec fn well_formed(&self) -> bool {
        entries_wf(self.data@)
    }

    pub closed spec fn spec_map(&self) -> Map<Seq<u8>, Seq<Seq<u8>>> {
        entries_map(self.data@)
    }

    /// The value recorded for `key`: a single value for a key that appeared
    /// once, all values in order for a key that appeared more often.
    pub fn get(&self, key: &str) -> (res: Option<&Value<'buf>>)
        ensures
            match res {
                Some(v) => {
                    &&& self@.contains_key(key.spec_bytes())
                    &&& v.values() == self@[key.spec_bytes()]
                    &&& (v is Single <==> self@[key.spec_bytes()].len() == 1)
                },
                None => !self@.contains_key(key.spec_bytes()),
            },
    {
        proof {
            use_type_invariant(self);
        }
        let ghost es = self.data@;
        let mut j: usize = 0;
        while j < self.data.len()
            invariant
                self.data@ == es,
                entries_wf(es),
                j <= es.len(),
                forall|i: int| 0 <= i < j ==> entry_key(#[trigger] es[i]) != key.spec_bytes(),
            decreases es.len() - j,
        {
            if bytes_equal(self.data[j].0.as_bytes(), key.as_bytes()) {
                proof {
                    lemma_index_of_key(es, j as int);
                }
                return Some(&self.data[j].1);
            }
            j = j + 1;
        }
        assert(!has_key(es, key.spec_bytes()));
        None
    }

    /// Parses a raw query string such as `name=jhulian&lang=rust&lang=elixir`.
    pub fn from(raw_query: &'buf str) -> (res: QueryString<'buf>)
        ensures
            res@ == query_map(raw_query.spec_bytes()),
    {
        let ghost raw = raw_query.spec_bytes();
        let mut data: Vec<(&'buf str, Value<'buf>)> = Vec::new();
        let mut rest: &'buf str = raw_query;
        let ghost mut done: Seq<Seq<u8>> = Seq::empty();
        assert(query_pieces(raw) =~= done + query_pieces(rest.spec_bytes()));
        assert(entries_map(data@) =~= collect_pieces(done));
        loop
            invariant_except_break
                query_pieces(raw) == done + query_pieces(rest.spec_bytes()),
                entries_wf(data@),
                entries_map(data@) == collect_pieces(done),
            ensures
                entries_wf(data@),
                entries_map(data@) == query_map(raw),
            decreases rest.spec_bytes().len(),
        {
            let ghost rest_bytes = rest.spec_bytes();
            match find_byte(rest.as_bytes(), AMPERSAND) {
                Some(i) => {
                    let (piece, tail) = split_around(rest, i);
                    add_piece(&mut data, piece);
                    proof {
                        assert(query_pieces(rest_bytes) == seq![piece.spec_bytes()]
                            + query_pieces(tail.spec_bytes()));
                        assert(done.push(piece.spec_bytes()).drop_last() =~= done);
                        assert(done + query_pieces(rest_bytes) =~= done.push(piece.spec_bytes())
                            + query_pieces(tail.spec_bytes()));
                        done = done.push(piece.spec_bytes());
                    }
                    rest = tail;
                },
                None => {
                    add_piece(&mut data, rest);
                    proof {
                        assert(query_pieces(rest_bytes) == seq![rest_bytes]);
                        assert(done.push(rest_bytes).drop_last() =~= done);
                        assert(query_pieces(raw) =~= done.push(rest_bytes));
                    }
                    break;
                },
            }
        }
        QueryString { data }
    }
}

impl<'buf> View for QueryString<'buf> {
    type V = Map<Seq<u8>, Seq<Seq<u8>>>;

    open spec fn view(&self) -> Map<Seq<u8>, Seq<Seq<u8>>> {
        self.spec_map()
    }
}

} // verus!
