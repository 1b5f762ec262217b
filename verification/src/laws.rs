//! What holds of the codec as a whole: laws that relate the encoder, the
//! decoder and the raw walk to one another.

use crate::error::Failure;
use crate::grammar::{
    byte_str_at, decimal, decode, dict_tail, digits_end, digits_value, encode, encode_bytes,
    encode_entries, encode_items, encode_number, is_digit, lemma_digits_end_bounds,
    lemma_digits_end_is, lemma_extends_transitive, list_tail, number_at, number_text, raw_dict_tail,
    raw_item_at, raw_list_tail, starts_value, value_at, Span, Tree, COLON, DICT, END, INT, LIST,
    MINUS, ZERO,
};
use crate::order::{
    bytes_lt, lemma_lt_differs, lemma_lt_irreflexive, lemma_lt_total, lemma_lt_transitive,
    lemma_slot, lemma_slot_is, put, slot, sorted,
};
use crate::read::{stepped, Seen};
use crate::ser::encode_pairs;
use crate::value::{lemma_put_sorted, Number};
use vstd::prelude::*;

verus! {

/// Whether a value is one that the decoder gives: its byte strings are no
/// longer than a `usize` can count, its signed numbers are negative (one
/// that is not is written without a sign, and so read back unsigned), and
/// the keys of its dictionaries ascend strictly.
pub open spec fn canonical(t: Tree) -> bool
    decreases t,
{
    match t {
        Tree::ByteStr(b) => b.len() <= usize::MAX,
        Tree::Int(n) => n matches Number::Signed(i) ==> i < 0,
        Tree::List(items) => forall|i: int| 0 <= i < items.len() ==> canonical(#[trigger] items[i]),
        Tree::Dict(entries) => sorted(entries) && forall|i: int|
            0 <= i < entries.len() ==> (#[trigger] entries[i]).0.len() <= usize::MAX && canonical(
                entries[i].1,
            ),
    }
}

/// The decimal text of a number is one digit at least, all of it digits, and
/// denotes the number.
pub proof fn lemma_decimal(n: nat)
    ensures
        decimal(n).len() >= 1,
        forall|i: int| 0 <= i < decimal(n).len() ==> is_digit(#[trigger] decimal(n)[i]),
        digits_value(decimal(n)) == n,
    decreases n,
{
    if n < 10 {
        assert(decimal(n).drop_last() =~= Seq::<u8>::empty());
        assert(digits_value(Seq::<u8>::empty()) == 0);
    } else {
        lemma_decimal(n / 10);
        let d = decimal(n / 10);
        let last: u8 = (ZERO + n % 10) as u8;
        assert(decimal(n) == d.push(last));
        assert(d.push(last).drop_last() =~= d);
        assert forall|i: int| 0 <= i < decimal(n).len() implies is_digit(
            #[trigger] decimal(n)[i],
        ) by {
            if i < d.len() {
                assert(decimal(n)[i] == d[i]);
            }
        }
    }
}

/// Where the decimal text of `n` stands in `s` at `pos`, and no digit after
/// it, a run of digits starts at `pos`, ends after the text and denotes `n`.
pub proof fn lemma_decimal_at(s: Seq<u8>, pos: int, n: nat)
    requires
        0 <= pos,
        pos + decimal(n).len() <= s.len(),
        s.subrange(pos, pos + decimal(n).len()) == decimal(n),
        pos + decimal(n).len() < s.len() ==> !is_digit(s[pos + decimal(n).len()]),
    ensures
        digits_end(s, pos) == pos + decimal(n).len(),
        digits_value(s.subrange(pos, pos + decimal(n).len())) == n,
        is_digit(s[pos]),
{
    lemma_decimal(n);
    let text = decimal(n);
    assert forall|i: int| pos <= i < pos + text.len() implies is_digit(#[trigger] s[i]) by {
        assert(s[i] == s.subrange(pos, pos + text.len())[i - pos]);
    }
    lemma_digits_end_is(s, pos, pos + text.len());
}

/// The byte string that is encoded at `pos` is found there.
pub proof fn lemma_byte_str_at_encode(s: Seq<u8>, pos: int, b: Seq<u8>)
    requires
        0 <= pos,
        b.len() <= usize::MAX,
        pos + encode_bytes(b).len() <= s.len(),
        s.subrange(pos, pos + encode_bytes(b).len()) == encode_bytes(b),
    ensures
        byte_str_at(s, pos) == Ok::<Span, Failure>(
            Span {
                start: pos + decimal(b.len()).len() + 1,
                end: pos + encode_bytes(b).len(),
            },
        ),
        s.subrange(pos + decimal(b.len()).len() + 1, pos + encode_bytes(b).len()) == b,
        is_digit(s[pos]),
{
    let text = decimal(b.len());
    let enc = encode_bytes(b);
    let j: int = pos + text.len();
    lemma_decimal(b.len());
    assert(s[j] == enc[text.len() as int]);
    assert(enc[text.len() as int] == COLON);
    assert(s.subrange(pos, j) =~= text) by {
        assert forall|i: int| 0 <= i < text.len() implies s.subrange(pos, j)[i] == text[i] by {
            assert(s[pos + i] == enc[i]);
        }
    }
    lemma_decimal_at(s, pos, b.len());
    assert(s.subrange(j + 1, pos + enc.len()) =~= b) by {
        assert forall|i: int| 0 <= i < b.len() implies s.subrange(j + 1, pos + enc.len())[i]
            == b[i] by {
            assert(s[j + 1 + i] == enc[text.len() + 1 + i]);
        }
    }
}

/// The number that is encoded at `pos` is found there.
pub proof fn lemma_number_at_encode(s: Seq<u8>, pos: int, n: Number)
    requires
        0 <= pos,
        n matches Number::Signed(i) ==> i < 0,
        pos + encode_number(n).len() <= s.len(),
        s.subrange(pos, pos + encode_number(n).len()) == encode_number(n),
    ensures
        s[pos] == INT,
        number_at(s, pos + 1) == Ok::<(Number, int), Failure>(
            (n, pos + encode_number(n).len()),
        ),
{
    let enc = encode_number(n);
    let text = number_text(n);
    let j: int = pos + 1 + text.len();
    assert(s[pos] == enc[0]);
    assert(s[j] == enc[(1 + text.len()) as int]);
    assert(s.subrange(pos + 1, j) =~= text) by {
        assert forall|i: int| 0 <= i < text.len() implies s.subrange(pos + 1, j)[i] == text[i] by {
            assert(s[pos + 1 + i] == enc[1 + i]);
        }
    }
    match n {
        Number::Signed(i) => {
            let m: nat = (-(i as int)) as nat;
            let digits = decimal(m);
            lemma_decimal(m);
            assert(text == seq![MINUS] + digits);
            assert(s[pos + 1] == text[0]);
            assert(s.subrange(pos + 2, j) =~= digits) by {
                assert forall|k: int| 0 <= k < digits.len() implies s.subrange(pos + 2, j)[k]
                    == digits[k] by {
                    assert(s[pos + 2 + k] == text[1 + k]);
                }
            }
            lemma_decimal_at(s, pos + 2, m);
            assert(text.skip(1) =~= digits);
        },
        Number::Unsigned(u) => {
            lemma_decimal(u as nat);
            assert(text == decimal(u as nat));
            assert(s[pos + 1] == text[0]);
            lemma_decimal_at(s, pos + 1, u as nat);
        },
    }
}

/// The encoding of a value starts with a byte that starts a value.
pub proof fn lemma_encode_starts(t: Tree)
    ensures
        encode(t).len() >= 1,
        starts_value(encode(t)[0]),
        encode(t)[0] != END,
{
    match t {
        Tree::ByteStr(b) => {
            lemma_decimal(b.len());
            assert(encode(t)[0] == decimal(b.len())[0]);
        },
        Tree::Int(n) => {},
        Tree::List(items) => {},
        Tree::Dict(entries) => {},
    }
}

/// The encodings of the items of a list, taken from the front.
pub proof fn lemma_encode_items_front(items: Seq<Tree>)
    requires
        items.len() > 0,
    ensures
        encode_items(items) == encode(items[0]) + encode_items(items.skip(1)),
    decreases items.len(),
{
    if items.len() == 1 {
        assert(items.drop_last() =~= Seq::<Tree>::empty());
        assert(items.skip(1) =~= Seq::<Tree>::empty());
        assert(encode_items(items) =~= encode(items[0]) + encode_items(items.skip(1)));
    } else {
        lemma_encode_items_front(items.drop_last());
        assert(items.drop_last().skip(1) =~= items.skip(1).drop_last());
        assert(items.skip(1).last() == items.last());
        assert(encode_items(items) =~= encode(items[0]) + encode_items(items.skip(1)));
    }
}

/// The encodings of the entries of a dictionary, taken from the front.
pub proof fn lemma_encode_entries_front(entries: Seq<(Seq<u8>, Tree)>)
    requires
        entries.len() > 0,
    ensures
        encode_entries(entries) == encode_bytes(entries[0].0) + encode(entries[0].1)
            + encode_entries(entries.skip(1)),
    decreases entries.len(),
{
    if entries.len() == 1 {
        assert(entries.drop_last() =~= Seq::<(Seq<u8>, Tree)>::empty());
        assert(entries.skip(1) =~= Seq::<(Seq<u8>, Tree)>::empty());
        assert(encode_entries(entries) =~= encode_bytes(entries[0].0) + encode(entries[0].1)
            + encode_entries(entries.skip(1)));
    } else {
        lemma_encode_entries_front(entries.drop_last());
        assert(entries.drop_last().skip(1) =~= entries.skip(1).drop_last());
        assert(entries.skip(1).last() == entries.last());
        assert(encode_entries(entries) =~= encode_bytes(entries[0].0) + encode(entries[0].1)
            + encode_entries(entries.skip(1)));
    }
}

/// An entry whose key comes after all keys of a sorted sequence goes at its
/// end.
pub proof fn lemma_put_last<V>(d: Seq<(Seq<u8>, V)>, k: Seq<u8>, v: V)
    requires
        forall|i: int| 0 <= i < d.len() ==> bytes_lt(#[trigger] d[i].0, k),
    ensures
        put(d, k, v) == d.push((k, v)),
{
    lemma_slot_is(d, k, 0, d.len() as int);
    assert(d.insert(d.len() as int, (k, v)) =~= d.push((k, v)));
}

/// The value that is encoded at `pos` is found there, whatever stands before
/// and after it.
pub proof fn lemma_value_at_encode(s: Seq<u8>, pos: int, t: Tree)
    requires
        canonical(t),
        0 <= pos,
        pos + encode(t).len() <= s.len(),
        s.subrange(pos, pos + encode(t).len()) == encode(t),
    ensures
        value_at(s, pos) == Ok::<(Tree, int), Failure>((t, pos + encode(t).len())),
    decreases t,
{
    lemma_encode_starts(t);
    let enc = encode(t);
    assert(s[pos] == s.subrange(pos, pos + enc.len())[0]);
    match t {
        Tree::ByteStr(b) => {
            lemma_byte_str_at_encode(s, pos, b);
        },
        Tree::Int(n) => {
            lemma_number_at_encode(s, pos, n);
        },
        Tree::List(items) => {
            let body = encode_items(items);
            assert(s.subrange(pos + 1, pos + 1 + body.len() + 1) =~= body + seq![END]) by {
                assert forall|i: int| 0 <= i < body.len() + 1 implies s.subrange(
                    pos + 1,
                    pos + 1 + body.len() + 1,
                )[i] == (body + seq![END])[i] by {
                    assert(s[pos + 1 + i] == s.subrange(pos, pos + enc.len())[1 + i]);
                }
            }
            lemma_list_tail_encode(s, pos + 1, Seq::empty(), items);
            assert(Seq::<Tree>::empty() + items =~= items);
        },
        Tree::Dict(entries) => {
            let body = encode_entries(entries);
            assert(s.subrange(pos + 1, pos + 1 + body.len() + 1) =~= body + seq![END]) by {
                assert forall|i: int| 0 <= i < body.len() + 1 implies s.subrange(
                    pos + 1,
                    pos + 1 + body.len() + 1,
                )[i] == (body + seq![END])[i] by {
                    assert(s[pos + 1 + i] == s.subrange(pos, pos + enc.len())[1 + i]);
                }
            }
            assert(Seq::<(Seq<u8>, Tree)>::empty() + entries =~= entries);
            lemma_dict_tail_encode(s, pos + 1, Seq::empty(), entries);
        },
    }
}

/// The items that are encoded at `pos`, and closed by `e`, are found there
/// and added to those before them.
pub proof fn lemma_list_tail_encode(s: Seq<u8>, pos: int, acc: Seq<Tree>, rest: Seq<Tree>)
    requires
        forall|i: int| 0 <= i < rest.len() ==> canonical(#[trigger] rest[i]),
        0 <= pos,
        pos + encode_items(rest).len() + 1 <= s.len(),
        s.subrange(pos, pos + encode_items(rest).len() + 1) == encode_items(rest) + seq![END],
    ensures
        list_tail(s, pos, acc) == Ok::<(Seq<Tree>, int), Failure>(
            (acc + rest, pos + encode_items(rest).len() + 1),
        ),
    decreases rest,
{
    let body = encode_items(rest);
    let whole = body + seq![END];
    if rest.len() == 0 {
        assert(s[pos] == s.subrange(pos, pos + 1)[0]);
        assert(acc + rest =~= acc);
    } else {
        let first = rest[0];
        let tail = rest.skip(1);
        let e1 = encode(first);
        lemma_encode_items_front(rest);
        lemma_encode_starts(first);
        assert(s[pos] == s.subrange(pos, pos + whole.len())[0]);
        assert(whole[0] == e1[0]);
        assert(s.subrange(pos, pos + e1.len()) =~= e1) by {
            assert forall|i: int| 0 <= i < e1.len() implies s.subrange(pos, pos + e1.len())[i]
                == e1[i] by {
                assert(s[pos + i] == s.subrange(pos, pos + whole.len())[i]);
            }
        }
        lemma_value_at_encode(s, pos, first);
        let next: int = pos + e1.len();
        let body2 = encode_items(tail);
        assert(s.subrange(next, next + body2.len() + 1) =~= body2 + seq![END]) by {
            assert forall|i: int| 0 <= i < body2.len() + 1 implies s.subrange(
                next,
                next + body2.len() + 1,
            )[i] == (body2 + seq![END])[i] by {
                assert(s[next + i] == s.subrange(pos, pos + whole.len())[e1.len() + i]);
            }
        }
        assert forall|i: int| 0 <= i < tail.len() implies canonical(#[trigger] tail[i]) by {
            assert(tail[i] == rest[i + 1]);
        }
        lemma_list_tail_encode(s, next, acc.push(first), tail);
        assert(acc.push(first) + tail =~= acc + rest);
    }
}

/// The entries that are encoded at `pos` in ascending key order, and closed
/// by `e`, are found there and added to those before them.
pub proof fn lemma_dict_tail_encode(
    s: Seq<u8>,
    pos: int,
    acc: Seq<(Seq<u8>, Tree)>,
    rest: Seq<(Seq<u8>, Tree)>,
)
    requires
        sorted(acc + rest),
        forall|i: int|
            0 <= i < rest.len() ==> (#[trigger] rest[i]).0.len() <= usize::MAX && canonical(
                rest[i].1,
            ),
        0 <= pos,
        pos + encode_entries(rest).len() + 1 <= s.len(),
        s.subrange(pos, pos + encode_entries(rest).len() + 1) == encode_entries(rest) + seq![END],
    ensures
        dict_tail(s, pos, acc) == Ok::<(Seq<(Seq<u8>, Tree)>, int), Failure>(
            (acc + rest, pos + encode_entries(rest).len() + 1),
        ),
    decreases rest,
{
    let body = encode_entries(rest);
    let whole = body + seq![END];
    if rest.len() == 0 {
        assert(s[pos] == s.subrange(pos, pos + 1)[0]);
        assert(acc + rest =~= acc);
    } else {
        let key = rest[0].0;
        let item = rest[0].1;
        let tail = rest.skip(1);
        let e1 = encode_bytes(key);
        let e2 = encode(item);
        lemma_encode_entries_front(rest);
        assert(s.subrange(pos, pos + e1.len()) =~= e1) by {
            assert forall|i: int| 0 <= i < e1.len() implies s.subrange(pos, pos + e1.len())[i]
                == e1[i] by {
                assert(s[pos + i] == s.subrange(pos, pos + whole.len())[i]);
            }
        }
        lemma_byte_str_at_encode(s, pos, key);
        let at: int = pos + e1.len();
        assert(s.subrange(at, at + e2.len()) =~= e2) by {
            assert forall|i: int| 0 <= i < e2.len() implies s.subrange(at, at + e2.len())[i]
                == e2[i] by {
                assert(s[at + i] == s.subrange(pos, pos + whole.len())[e1.len() + i]);
            }
        }
        lemma_encode_starts(item);
        lemma_value_at_encode(s, at, item);
        let next: int = at + e2.len();
        let body2 = encode_entries(tail);
        assert(s.subrange(next, next + body2.len() + 1) =~= body2 + seq![END]) by {
            assert forall|i: int| 0 <= i < body2.len() + 1 implies s.subrange(
                next,
                next + body2.len() + 1,
            )[i] == (body2 + seq![END])[i] by {
                assert(s[next + i] == s.subrange(pos, pos + whole.len())[e1.len() + e2.len()
                    + i]);
            }
        }
        assert forall|i: int| 0 <= i < acc.len() implies bytes_lt(#[trigger] acc[i].0, key) by {
            assert((acc + rest)[i] == acc[i]);
            assert((acc + rest)[acc.len() as int] == rest[0]);
        }
        lemma_put_last(acc, key, item);
        assert(acc.push((key, item)) + tail =~= acc + rest);
        assert forall|i: int| 0 <= i < tail.len() implies (#[trigger] tail[i]).0.len()
            <= usize::MAX && canonical(tail[i].1) by {
            assert(tail[i] == rest[i + 1]);
        }
        lemma_dict_tail_encode(s, next, acc.push((key, item)), tail);
    }
}

/// Round trip: what the encoder writes for a value, the decoder reads back as
/// that value.
///
/// This holds of the values that the decoder gives, which `canonical` tells.
/// A signed number that is not negative is not among them: it is written as
/// the unsigned number is, and read back as that.
pub proof fn law_round_trip(t: Tree)
    requires
        canonical(t),
    ensures
        decode(encode(t)) == Ok::<Tree, Failure>(t),
{
    let s = encode(t);
    assert(s.subrange(0, s.len() as int) =~= s);
    lemma_value_at_encode(s, 0, t);
}

/// Whether `e` is among the entries of `d`.
pub open spec fn has<V>(d: Seq<(Seq<u8>, V)>, e: (Seq<u8>, V)) -> bool {
    exists|i: int| 0 <= i < d.len() && #[trigger] d[i] == e
}

/// Whether no key occurs twice in `d`.
pub open spec fn distinct_keys<V>(d: Seq<(Seq<u8>, V)>) -> bool {
    forall|i: int, j: int| 0 <= i < j < d.len() ==> (#[trigger] d[i]).0 != (#[trigger] d[j]).0
}

/// The entries that a dictionary holds after `pairs` were bound in it one
/// after the other, from the first to the last.
pub open spec fn inserted<V>(pairs: Seq<(Seq<u8>, V)>) -> Seq<(Seq<u8>, V)>
    decreases pairs.len(),
{
    if pairs.len() == 0 {
        Seq::empty()
    } else {
        put(inserted(pairs.drop_last()), pairs.last().0, pairs.last().1)
    }
}

/// In sorted entries, two that differ have keys that differ.
pub proof fn lemma_sorted_keys_differ<V>(d: Seq<(Seq<u8>, V)>, i: int, j: int)
    requires
        sorted(d),
        0 <= i < d.len(),
        0 <= j < d.len(),
        i != j,
    ensures
        d[i].0 != d[j].0,
{
    if i < j {
        assert(bytes_lt(d[i].0, d[j].0));
        lemma_lt_differs(d[i].0, d[j].0);
    } else {
        assert(bytes_lt(d[j].0, d[i].0));
        lemma_lt_differs(d[j].0, d[i].0);
    }
}

/// What is among the entries after a key was bound: the new entry, and the
/// entries of before under other keys.
pub proof fn lemma_put_has<V>(d: Seq<(Seq<u8>, V)>, k: Seq<u8>, v: V, e: (Seq<u8>, V))
    requires
        sorted(d),
    ensures
        has(put(d, k, v), e) <==> (e == (k, v) || (has(d, e) && e.0 != k)),
{
    let i: int = slot(d, k);
    let r = put(d, k, v);
    lemma_slot(d, k, 0);
    let replaces: bool = i < d.len() && d[i].0 == k;
    if has(r, e) {
        let m: int = choose|m: int| 0 <= m < r.len() && #[trigger] r[m] == e;
        if replaces {
            if m != i {
                assert(d[m] == e);
                lemma_sorted_keys_differ(d, m, i);
            }
        } else {
            if m < i {
                assert(d[m] == e);
                assert(bytes_lt(d[m].0, k));
                lemma_lt_differs(d[m].0, k);
            } else if m > i {
                assert(d[m - 1] == e);
                lemma_lt_total(k, d[i].0, 0);
                if m - 1 > i {
                    assert(bytes_lt(d[i].0, d[m - 1].0));
                    lemma_lt_transitive(k, d[i].0, d[m - 1].0, 0);
                }
                lemma_lt_differs(k, d[m - 1].0);
            }
        }
    }
    if e == (k, v) {
        assert(r[i] == e);
    }
    if has(d, e) && e.0 != k {
        let j: int = choose|j: int| 0 <= j < d.len() && #[trigger] d[j] == e;
        if replaces {
            assert(r[j] == e);
        } else if j < i {
            assert(r[j] == e);
        } else {
            assert(r[j + 1] == e);
        }
    }
}

/// Sorted entries are told by what is among them: two sorted sequences with
/// the same entries are the same sequence.
pub proof fn law_sorted_unique<V>(a: Seq<(Seq<u8>, V)>, b: Seq<(Seq<u8>, V)>)
    requires
        sorted(a),
        sorted(b),
        forall|e: (Seq<u8>, V)| has(a, e) <==> has(b, e),
    ensures
        a == b,
    decreases a.len(),
{
    if a.len() == 0 {
        if b.len() > 0 {
            assert(b[0] == b[0]);
            assert(has(b, b[0]));
            assert(has(a, b[0]));
        }
        assert(a =~= b);
    } else {
        assert(a[0] == a[0]);
        assert(has(a, a[0]));
        assert(has(b, a[0]));
        let j: int = choose|j: int| 0 <= j < b.len() && #[trigger] b[j] == a[0];
        assert(b[0] == b[0]);
        assert(has(b, b[0]));
        assert(has(a, b[0]));
        let i: int = choose|i: int| 0 <= i < a.len() && #[trigger] a[i] == b[0];
        if j > 0 {
            assert(bytes_lt(b[0].0, b[j].0));
            if i > 0 {
                assert(bytes_lt(a[0].0, a[i].0));
                lemma_lt_transitive(a[0].0, b[0].0, a[0].0, 0);
            }
            lemma_lt_irreflexive(a[0].0, 0);
        }
        assert(a[0] == b[0]);
        let a1 = a.skip(1);
        let b1 = b.skip(1);
        assert forall|x: int, y: int| 0 <= x < y < a1.len() implies bytes_lt(
            #[trigger] a1[x].0,
            #[trigger] a1[y].0,
        ) by {
            assert(bytes_lt(a[x + 1].0, a[y + 1].0));
        }
        assert forall|x: int, y: int| 0 <= x < y < b1.len() implies bytes_lt(
            #[trigger] b1[x].0,
            #[trigger] b1[y].0,
        ) by {
            assert(bytes_lt(b[x + 1].0, b[y + 1].0));
        }
        assert forall|e: (Seq<u8>, V)| has(a1, e) <==> has(b1, e) by {
            if has(a1, e) {
                let m: int = choose|m: int| 0 <= m < a1.len() && #[trigger] a1[m] == e;
                assert(a[m + 1] == e);
                assert(has(a, e));
                assert(has(b, e));
                let n: int = choose|n: int| 0 <= n < b.len() && #[trigger] b[n] == e;
                lemma_sorted_keys_differ(a, 0, m + 1);
                assert(b1[n - 1] == e);
            }
            if has(b1, e) {
                let m: int = choose|m: int| 0 <= m < b1.len() && #[trigger] b1[m] == e;
                assert(b[m + 1] == e);
                assert(has(b, e));
                assert(has(a, e));
                let n: int = choose|n: int| 0 <= n < a.len() && #[trigger] a[n] == e;
                lemma_sorted_keys_differ(b, 0, m + 1);
                assert(a1[n - 1] == e);
            }
        }
        law_sorted_unique(a1, b1);
        assert(a =~= b) by {
            assert forall|x: int| 0 <= x < a.len() implies a[x] == b[x] by {
                if x > 0 {
                    assert(a[x] == a1[x - 1]);
                    assert(b[x] == b1[x - 1]);
                }
            }
            assert(a.len() == a1.len() + 1);
            assert(b.len() == b1.len() + 1);
        }
    }
}

/// However entries were bound, they are held in ascending key order; and
/// where no key was bound twice, exactly the entries bound are held.
pub proof fn lemma_inserted<V>(pairs: Seq<(Seq<u8>, V)>)
    ensures
        sorted(inserted(pairs)),
        distinct_keys(pairs) ==> forall|e: (Seq<u8>, V)| has(inserted(pairs), e) <==> has(pairs, e),
    decreases pairs.len(),
{
    if pairs.len() == 0 {
    } else {
        let before = pairs.drop_last();
        let last = pairs.last();
        lemma_inserted(before);
        lemma_put_sorted(inserted(before), last.0, last.1);
        if distinct_keys(pairs) {
            assert forall|i: int, j: int| 0 <= i < j < before.len() implies (
            #[trigger] before[i]).0 != (#[trigger] before[j]).0 by {
                assert(before[i] == pairs[i]);
                assert(before[j] == pairs[j]);
            }
            assert forall|e: (Seq<u8>, V)| has(inserted(pairs), e) <==> has(pairs, e) by {
                lemma_put_has(inserted(before), last.0, last.1, e);
                if has(pairs, e) {
                    let m: int = choose|m: int| 0 <= m < pairs.len() && #[trigger] pairs[m] == e;
                    if m < before.len() {
                        assert(before[m] == e);
                        assert(has(before, e));
                        assert(pairs[m].0 != pairs[pairs.len() - 1].0);
                    }
                }
                if has(before, e) {
                    let m: int = choose|m: int| 0 <= m < before.len() && #[trigger] before[m] == e;
                    assert(pairs[m] == e);
                }
                if e == (last.0, last.1) {
                    assert(pairs[pairs.len() - 1] == e);
                }
            }
        }
    }
}

/// Canonical order: the order in which entries are bound in a dictionary
/// makes no difference to what the dictionary holds, and so none to what is
/// written for it. The entries are held, and written, in ascending key order.
///
/// Two sequences of bindings are taken to bind the same entries, each key
/// once; where a key is bound twice, the later binding stays, and then the
/// order does tell.
pub proof fn law_insertion_order(a: Seq<(Seq<u8>, Tree)>, b: Seq<(Seq<u8>, Tree)>)
    requires
        distinct_keys(a),
        distinct_keys(b),
        forall|e: (Seq<u8>, Tree)| has(a, e) <==> has(b, e),
    ensures
        sorted(inserted(a)),
        inserted(a) == inserted(b),
        encode(Tree::Dict(inserted(a))) == encode(Tree::Dict(inserted(b))),
{
    lemma_inserted(a);
    lemma_inserted(b);
    assert forall|e: (Seq<u8>, Tree)| has(inserted(a), e) <==> has(inserted(b), e) by {
        assert(has(inserted(a), e) <==> has(a, e));
        assert(has(inserted(b), e) <==> has(b, e));
    }
    law_sorted_unique(inserted(a), inserted(b));
}

/// Whether the keys of every dictionary in a value ascend strictly.
pub open spec fn ordered(t: Tree) -> bool
    decreases t,
{
    match t {
        Tree::ByteStr(_) => true,
        Tree::Int(_) => true,
        Tree::List(items) => forall|i: int| 0 <= i < items.len() ==> ordered(#[trigger] items[i]),
        Tree::Dict(entries) => sorted(entries) && forall|i: int|
            0 <= i < entries.len() ==> ordered((#[trigger] entries[i]).1),
    }
}

/// What is decoded is in canonical order: in every dictionary of a decoded
/// value the keys ascend strictly, in whatever order the input had them.
pub proof fn law_decoded_ordered(s: Seq<u8>, pos: int)
    requires
        value_at(s, pos) is Ok,
    ensures
        ordered(value_at(s, pos)->Ok_0.0),
    decreases s.len() - pos, 0int,
{
    if is_digit(s[pos]) {
    } else if s[pos] == INT {
    } else if s[pos] == LIST {
        lemma_list_tail_ordered(s, pos + 1, Seq::empty());
    } else if s[pos] == DICT {
        lemma_dict_tail_ordered(s, pos + 1, Seq::empty());
    }
}

/// The items of a decoded list are in canonical order.
pub proof fn lemma_list_tail_ordered(s: Seq<u8>, pos: int, acc: Seq<Tree>)
    requires
        list_tail(s, pos, acc) is Ok,
        forall|i: int| 0 <= i < acc.len() ==> ordered(#[trigger] acc[i]),
    ensures
        forall|i: int|
            0 <= i < list_tail(s, pos, acc)->Ok_0.0.len() ==> ordered(
                #[trigger] list_tail(s, pos, acc)->Ok_0.0[i],
            ),
    decreases s.len() - pos, 1int,
{
    if s[pos] == END {
    } else {
        law_decoded_ordered(s, pos);
        let item = value_at(s, pos)->Ok_0.0;
        let next = value_at(s, pos)->Ok_0.1;
        let acc2 = acc.push(item);
        assert forall|i: int| 0 <= i < acc2.len() implies ordered(#[trigger] acc2[i]) by {
            if i < acc.len() {
                assert(acc2[i] == acc[i]);
            }
        }
        lemma_list_tail_ordered(s, next, acc2);
    }
}

/// The entries of a decoded dictionary are in canonical order.
pub proof fn lemma_dict_tail_ordered(s: Seq<u8>, pos: int, acc: Seq<(Seq<u8>, Tree)>)
    requires
        dict_tail(s, pos, acc) is Ok,
        sorted(acc),
        forall|i: int| 0 <= i < acc.len() ==> ordered((#[trigger] acc[i]).1),
    ensures
        sorted(dict_tail(s, pos, acc)->Ok_0.0),
        forall|i: int|
            0 <= i < dict_tail(s, pos, acc)->Ok_0.0.len() ==> ordered(
                (#[trigger] dict_tail(s, pos, acc)->Ok_0.0[i]).1,
            ),
    decreases s.len() - pos, 1int,
{
    if s[pos] == END {
    } else {
        let key = byte_str_at(s, pos)->Ok_0;
        law_decoded_ordered(s, key.end);
        let item = value_at(s, key.end)->Ok_0.0;
        let next = value_at(s, key.end)->Ok_0.1;
        let k = s.subrange(key.start, key.end);
        let acc2 = put(acc, k, item);
        lemma_put_sorted(acc, k, item);
        lemma_slot(acc, k, 0);
        assert forall|i: int| 0 <= i < acc2.len() implies ordered((#[trigger] acc2[i]).1) by {
            let at: int = slot(acc, k);
            if at < acc.len() && acc[at].0 == k {
                if i != at {
                    assert(acc2[i] == acc[i]);
                }
            } else if i < at {
                assert(acc2[i] == acc[i]);
            } else if i > at {
                assert(acc2[i] == acc[i - 1]);
            }
        }
        lemma_dict_tail_ordered(s, next, acc2);
    }
}

/// Raw capture follows the grammar of values: where a value is decoded from
/// `pos` up to some position, the raw walk from `pos` ends at that position,
/// so that the bytes it captures are those of the value, from its first to
/// its last.
pub proof fn law_raw_follows_value(s: Seq<u8>, pos: int)
    requires
        value_at(s, pos) is Ok,
    ensures
        raw_item_at(s, pos) == Some(Ok::<int, Failure>(value_at(s, pos)->Ok_0.1)),
        pos < value_at(s, pos)->Ok_0.1 <= s.len(),
    decreases s.len() - pos, 0int,
{
    if is_digit(s[pos]) {
        lemma_digits_end_bounds(s, pos);
    } else if s[pos] == INT {
        let p: int = if s[pos + 1] == MINUS {
            pos + 2
        } else {
            pos + 1
        };
        lemma_digits_end_bounds(s, p);
    } else if s[pos] == LIST {
        lemma_raw_list_follows(s, pos + 1, Seq::empty());
    } else if s[pos] == DICT {
        lemma_raw_dict_follows(s, pos + 1, Seq::empty());
    }
}

/// The raw walk of a list ends where its decoding ends.
pub proof fn lemma_raw_list_follows(s: Seq<u8>, pos: int, acc: Seq<Tree>)
    requires
        list_tail(s, pos, acc) is Ok,
    ensures
        raw_list_tail(s, pos) == Ok::<int, Failure>(list_tail(s, pos, acc)->Ok_0.1),
        pos < list_tail(s, pos, acc)->Ok_0.1 <= s.len(),
    decreases s.len() - pos, 1int,
{
    if s[pos] == END {
    } else {
        law_raw_follows_value(s, pos);
        let item = value_at(s, pos)->Ok_0.0;
        let next = value_at(s, pos)->Ok_0.1;
        lemma_raw_list_follows(s, next, acc.push(item));
    }
}

/// The raw walk of a dictionary ends where its decoding ends.
pub proof fn lemma_raw_dict_follows(s: Seq<u8>, pos: int, acc: Seq<(Seq<u8>, Tree)>)
    requires
        dict_tail(s, pos, acc) is Ok,
    ensures
        raw_dict_tail(s, pos) == Ok::<int, Failure>(dict_tail(s, pos, acc)->Ok_0.1),
        pos < dict_tail(s, pos, acc)->Ok_0.1 <= s.len(),
    decreases s.len() - pos, 1int,
{
    if s[pos] == END {
    } else {
        let key = byte_str_at(s, pos)->Ok_0;
        law_raw_follows_value(s, key.end);
        let item = value_at(s, key.end)->Ok_0.0;
        let next = value_at(s, key.end)->Ok_0.1;
        lemma_raw_dict_follows(s, next, put(acc, s.subrange(key.start, key.end), item));
    }
}

/// Offsets never go back: what a reader keeps over one operation it keeps
/// over any number of them, one after the other. Consuming a byte adds one to
/// the offset, peeking leaves it, and so the offset after any run of
/// operations is no less than before it.
pub proof fn law_steps_compose(first: Seen, then: Seen, last: Seen)
    requires
        stepped(first, then),
        stepped(then, last),
    ensures
        stepped(first, last),
        first.offset <= last.offset,
{
    lemma_extends_transitive(last.input, then.input, first.input);
}

/// The entries of a dictionary as an encoder collects them: each key with
/// the encoding of its value.
pub open spec fn collected(entries: Seq<(Seq<u8>, Tree)>) -> Seq<(Seq<u8>, Seq<u8>)> {
    Seq::new(entries.len(), |i: int| (entries[i].0, encode(entries[i].1)))
}

/// What an encoder writes for the entries that it collected is what is
/// written for the dictionary that holds them: the two ways of writing a
/// dictionary give the same bytes.
pub proof fn law_collected_is_encoded(entries: Seq<(Seq<u8>, Tree)>)
    ensures
        encode_pairs(collected(entries)) == encode_entries(entries),
    decreases entries.len(),
{
    if entries.len() > 0 {
        law_collected_is_encoded(entries.drop_last());
        assert(collected(entries).drop_last() =~= collected(entries.drop_last()));
    }
}

} // verus!
