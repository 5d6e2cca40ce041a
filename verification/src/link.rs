//! The reference string of a shared selection: two fields joined by `&`,
//! `s` with the dataset version and `c` with the positions as decimal
//! numbers joined by commas, as in `s=S26&c=3,7,12`.
//!
//! `parse_reference` reads the fields as they stand in the text: nothing
//! is percent-decoded. Where the fields come decoded from elsewhere, as
//! from the address of a page, `reference_from_fields` takes their values.

use vstd::prelude::*;
use crate::codec::{as_positions, ShareReference, ShareReferenceView};
use crate::config::DEFAULT_SEMESTER;
use crate::text::{chars_of, same_chars, string_of, words};

verus! {

/// The position of the first `sep` in `s`, or the length of `s` where it
/// holds none.
pub open spec fn first_of(s: Seq<char>, sep: char) -> int
    decreases s.len(),
{
    if s.len() == 0 || s[0] == sep {
        0
    } else {
        1 + first_of(s.drop_first(), sep)
    }
}

/// The pieces of `s` between the occurrences of `sep`; a text without
/// `sep` is one piece, and pieces may be empty.
pub open spec fn split(s: Seq<char>, sep: char) -> Seq<Seq<char>>
    decreases s.len(),
    via split_terminates
{
    let p = first_of(s, sep);
    if p < s.len() {
        seq![s.take(p)] + split(s.skip(p + 1), sep)
    } else {
        seq![s]
    }
}

#[via_fn]
proof fn split_terminates(s: Seq<char>, sep: char) {
    lemma_first_of_bounds(s, sep);
}

/// The key of a field: what stands before its first `=`.
pub open spec fn field_key(field: Seq<char>) -> Seq<char> {
    field.take(first_of(field, '='))
}

/// The value of a field: what stands after its first `=`; empty where it
/// has none.
pub open spec fn field_value(field: Seq<char>) -> Seq<char> {
    let p = first_of(field, '=');
    if p < field.len() {
        field.skip(p + 1)
    } else {
        Seq::empty()
    }
}

/// The value of the first of `fields` whose key is `key`.
pub open spec fn lookup(fields: Seq<Seq<char>>, key: Seq<char>) -> Option<Seq<char>>
    decreases fields.len(),
{
    if fields.len() == 0 {
        None
    } else if field_key(fields[0]) == key {
        Some(field_value(fields[0]))
    } else {
        lookup(fields.drop_first(), key)
    }
}

/// The text without a leading `?`.
pub open spec fn query_part(text: Seq<char>) -> Seq<char> {
    if text.len() > 0 && text[0] == '?' {
        text.drop_first()
    } else {
        text
    }
}

/// The value of a decimal digit; none for any other character.
pub open spec fn digit_value(c: char) -> Option<nat> {
    if c == '0' {
        Some(0)
    } else if c == '1' {
        Some(1)
    } else if c == '2' {
        Some(2)
    } else if c == '3' {
        Some(3)
    } else if c == '4' {
        Some(4)
    } else if c == '5' {
        Some(5)
    } else if c == '6' {
        Some(6)
    } else if c == '7' {
        Some(7)
    } else if c == '8' {
        Some(8)
    } else if c == '9' {
        Some(9)
    } else {
        None
    }
}

/// The digit for a value below ten.
pub open spec fn digit_char(d: nat) -> char {
    if d == 0 {
        '0'
    } else if d == 1 {
        '1'
    } else if d == 2 {
        '2'
    } else if d == 3 {
        '3'
    } else if d == 4 {
        '4'
    } else if d == 5 {
        '5'
    } else if d == 6 {
        '6'
    } else if d == 7 {
        '7'
    } else if d == 8 {
        '8'
    } else {
        '9'
    }
}

/// Whether `s` is made of decimal digits only.
pub open spec fn all_digits(s: Seq<char>) -> bool {
    forall|i: int| 0 <= i < s.len() ==> digit_value(#[trigger] s[i]) is Some
}

/// The number that the digits of `s` write in base ten.
pub open spec fn decimal_value(s: Seq<char>) -> nat
    decreases s.len(),
{
    if s.len() == 0 {
        0
    } else {
        decimal_value(s.drop_last()) * 10 + match digit_value(s.last()) {
            Some(d) => d,
            None => 0,
        }
    }
}

/// The position that `piece` writes: one or more decimal digits whose
/// number fits a `usize`. Anything else writes none.
pub open spec fn parsed_index(piece: Seq<char>) -> Option<nat> {
    if piece.len() > 0 && all_digits(piece) && decimal_value(piece) <= usize::MAX {
        Some(decimal_value(piece))
    } else {
        None
    }
}

/// The positions that `pieces` write, without the pieces that write none.
pub open spec fn parsed_indices(pieces: Seq<Seq<char>>) -> Seq<nat>
    decreases pieces.len(),
{
    if pieces.len() == 0 {
        Seq::empty()
    } else {
        let front = parsed_indices(pieces.drop_last());
        match parsed_index(pieces.last()) {
            Some(i) => front.push(i),
            None => front,
        }
    }
}

/// The reference that the values of the two fields give: the version is
/// the value of the field `s`, or the default version where there is none;
/// the positions are the numbers in the value of the field `c`, or none
/// where there is no such field.
pub open spec fn reference_of(
    version: Option<Seq<char>>,
    positions: Option<Seq<char>>,
) -> ShareReferenceView {
    ShareReferenceView {
        dataset_version: match version {
            Some(v) => v,
            None => DEFAULT_SEMESTER@,
        },
        indices: match positions {
            Some(v) => parsed_indices(split(v, ',')),
            None => Seq::empty(),
        },
    }
}

/// The reference that `text` writes: that of the first field `s` and the
/// first field `c` among its fields.
pub open spec fn parsed_reference(text: Seq<char>) -> ShareReferenceView {
    let fields = split(query_part(text), '&');
    reference_of(lookup(fields, seq!['s']), lookup(fields, seq!['c']))
}

/// The value of a text that may be absent.
pub open spec fn text_view(text: Option<&str>) -> Option<Seq<char>> {
    match text {
        Some(t) => Some(t@),
        None => None,
    }
}

/// The value of characters that may be absent.
pub open spec fn chars_view(chars: Option<Vec<char>>) -> Option<Seq<char>> {
    match chars {
        Some(c) => Some(c@),
        None => None,
    }
}

/// The decimal digits of `n`, without leading zeros.
pub open spec fn decimal(n: nat) -> Seq<char>
    decreases n,
{
    if n < 10 {
        seq![digit_char(n)]
    } else {
        decimal(n / 10).push(digit_char(n % 10))
    }
}

/// The positions in decimal, joined by commas.
pub open spec fn index_list(indices: Seq<nat>) -> Seq<char>
    decreases indices.len(),
{
    if indices.len() == 0 {
        Seq::empty()
    } else if indices.len() == 1 {
        decimal(indices[0])
    } else {
        index_list(indices.drop_last()) + seq![','] + decimal(indices.last())
    }
}

/// The reference string of `reference`.
pub open spec fn reference_text(reference: ShareReferenceView) -> Seq<char> {
    seq!['s', '='] + reference.dataset_version + seq!['&', 'c', '='] + index_list(
        reference.indices,
    )
}

/// A run of `k` characters other than `sep` that ends at the end of `s` or
/// before a `sep` ends at the first `sep`.
pub proof fn lemma_first_of(s: Seq<char>, sep: char, k: int)
    requires
        0 <= k <= s.len(),
        forall|i: int| 0 <= i < k ==> s[i] != sep,
        k == s.len() || s[k] == sep,
    ensures
        first_of(s, sep) == k,
    decreases k,
{
    if k > 0 {
        lemma_first_of(s.drop_first(), sep, k - 1);
    }
}

/// The first `sep` lies within the text or at its end, and nothing before
/// it is a `sep`.
pub proof fn lemma_first_of_bounds(s: Seq<char>, sep: char)
    ensures
        0 <= first_of(s, sep) <= s.len(),
        forall|i: int| 0 <= i < first_of(s, sep) ==> s[i] != sep,
        first_of(s, sep) < s.len() ==> s[first_of(s, sep)] == sep,
    decreases s.len(),
{
    if s.len() == 0 || s[0] == sep {
    } else {
        let t = s.drop_first();
        lemma_first_of_bounds(t, sep);
        assert forall|i: int| 0 <= i < first_of(s, sep) implies s[i] != sep by {
            if i > 0 {
                assert(s[i] == t[i - 1]);
            }
        }
        if first_of(s, sep) < s.len() {
            assert(s[first_of(s, sep)] == t[first_of(t, sep)]);
        }
    }
}

/// The number written by the first digits is no more than the number
/// written by all.
pub proof fn lemma_decimal_value_grows(s: Seq<char>, k: int)
    requires
        0 <= k <= s.len(),
    ensures
        decimal_value(s.take(k)) <= decimal_value(s),
    decreases s.len() - k,
{
    if k < s.len() {
        lemma_decimal_value_grows(s, k + 1);
        assert(s.take(k + 1).drop_last() =~= s.take(k));
    } else {
        assert(s.take(k) =~= s);
    }
}

/// The decimal digits of a number write that number, and nothing else
/// stands among them.
pub proof fn lemma_decimal(n: nat)
    ensures
        decimal(n).len() > 0,
        all_digits(decimal(n)),
        decimal_value(decimal(n)) == n,
    decreases n,
{
    if n < 10 {
        let d = decimal(n);
        assert(d.drop_last() =~= Seq::<char>::empty());
        assert(decimal_value(d.drop_last()) == 0);
        assert(digit_value(digit_char(n)) == Some(n));
    } else {
        lemma_decimal(n / 10);
        let front = decimal(n / 10);
        let d = front.push(digit_char(n % 10));
        assert(d.drop_last() =~= front);
        assert(digit_value(digit_char(n % 10)) == Some(n % 10));
        assert forall|i: int| 0 <= i < d.len() implies digit_value(#[trigger] d[i]) is Some by {
            if i < front.len() {
                assert(d[i] == front[i]);
            }
        }
    }
}

/// A text without `sep` is one piece.
pub proof fn lemma_split_whole(s: Seq<char>, sep: char)
    requires
        forall|i: int| 0 <= i < s.len() ==> s[i] != sep,
    ensures
        split(s, sep) == seq![s],
{
    lemma_first_of(s, sep, s.len() as int);
}

/// Appending `sep` and a text without `sep` appends that text as a piece.
pub proof fn lemma_split_append(x: Seq<char>, sep: char, d: Seq<char>)
    requires
        forall|i: int| 0 <= i < d.len() ==> d[i] != sep,
    ensures
        split(x + seq![sep] + d, sep) == split(x, sep).push(d),
    decreases x.len(),
{
    let y = x + seq![sep] + d;
    let p = first_of(x, sep);
    lemma_first_of_bounds(x, sep);
    assert forall|i: int| 0 <= i < p implies y[i] != sep by {
        assert(y[i] == x[i]);
    }
    if p < x.len() {
        assert(y[p] == x[p]);
        lemma_first_of(y, sep, p);
        assert(y.take(p) =~= x.take(p));
        assert(y.skip(p + 1) =~= x.skip(p + 1) + seq![sep] + d);
        lemma_split_append(x.skip(p + 1), sep, d);
        assert(split(y, sep) =~= split(x, sep).push(d));
    } else {
        assert(y[p] == sep);
        lemma_first_of(y, sep, p);
        assert(y.take(p) =~= x);
        assert(y.skip(p + 1) =~= d);
        lemma_split_whole(d, sep);
        assert(split(y, sep) =~= split(x, sep).push(d));
    }
}

/// A list of positions holds digits and commas only.
pub proof fn lemma_index_list_chars(indices: Seq<nat>)
    ensures
        forall|i: int|
            0 <= i < index_list(indices).len() ==> (#[trigger] index_list(indices)[i]) == ','
                || digit_value(index_list(indices)[i]) is Some,
    decreases indices.len(),
{
    if indices.len() == 0 {
    } else if indices.len() == 1 {
        lemma_decimal(indices[0]);
    } else {
        let front = index_list(indices.drop_last());
        let last = decimal(indices.last());
        lemma_index_list_chars(indices.drop_last());
        lemma_decimal(indices.last());
        let all = front + seq![','] + last;
        assert forall|i: int| 0 <= i < all.len() implies (#[trigger] all[i]) == ','
            || digit_value(all[i]) is Some by {
            if i < front.len() {
                assert(all[i] == front[i]);
            } else if i > front.len() {
                assert(all[i] == last[i - front.len() - 1]);
            }
        }
    }
}

/// Reading a written list of positions gives the positions back.
pub proof fn lemma_index_list_round_trip(indices: Seq<nat>)
    requires
        forall|i: int| 0 <= i < indices.len() ==> #[trigger] indices[i] <= usize::MAX,
    ensures
        parsed_indices(split(index_list(indices), ',')) == indices,
    decreases indices.len(),
{
    if indices.len() == 0 {
        let none = Seq::<char>::empty();
        lemma_split_whole(none, ',');
        let pieces = seq![none];
        assert(pieces.drop_last() =~= Seq::<Seq<char>>::empty());
        assert(parsed_indices(pieces.drop_last()) =~= Seq::<nat>::empty());
        assert(parsed_indices(pieces) =~= indices);
    } else {
        let last = decimal(indices.last());
        lemma_decimal(indices.last());
        assert forall|i: int| 0 <= i < last.len() implies last[i] != ',' by {
            assert(digit_value(last[i]) is Some);
        }
        if indices.len() == 1 {
            lemma_split_whole(last, ',');
            let pieces = seq![last];
            assert(pieces.drop_last() =~= Seq::<Seq<char>>::empty());
            assert(parsed_indices(pieces.drop_last()) =~= Seq::<nat>::empty());
            assert(parsed_indices(pieces) =~= seq![indices[0]]);
            assert(seq![indices[0]] =~= indices);
        } else {
            let front = indices.drop_last();
            assert forall|i: int| 0 <= i < front.len() implies #[trigger] front[i]
                <= usize::MAX by {
                assert(front[i] == indices[i]);
            }
            lemma_index_list_round_trip(front);
            lemma_split_append(index_list(front), ',', last);
            let pieces = split(index_list(front), ',').push(last);
            assert(pieces.drop_last() =~= split(index_list(front), ','));
            assert(parsed_indices(pieces) =~= front.push(indices.last()));
            assert(front.push(indices.last()) =~= indices);
        }
    }
}

/// Reading a written reference gives the reference back, where its version
/// holds no `&` and its positions fit a `usize`.
pub proof fn lemma_text_round_trip(reference: ShareReferenceView)
    requires
        forall|i: int|
            0 <= i < reference.dataset_version.len() ==> reference.dataset_version[i] != '&',
        forall|i: int|
            0 <= i < reference.indices.len() ==> #[trigger] reference.indices[i] <= usize::MAX,
    ensures
        parsed_reference(reference_text(reference)) == reference,
{
    let v = reference.dataset_version;
    let list = index_list(reference.indices);
    let text = reference_text(reference);
    let first = seq!['s', '='] + v;
    let second = seq!['c', '='] + list;
    let k = first.len() as int;
    assert(text =~= first + seq!['&'] + second);
    assert(query_part(text) == text);
    lemma_index_list_chars(reference.indices);
    assert forall|i: int| 0 <= i < second.len() implies second[i] != '&' by {
        if i >= 2 {
            assert(second[i] == list[i - 2]);
        }
    }
    assert forall|i: int| 0 <= i < first.len() implies first[i] != '&' by {
        if i >= 2 {
            assert(first[i] == v[i - 2]);
        }
    }
    lemma_split_whole(first, '&');
    lemma_split_append(first, '&', second);
    let fields = seq![first, second];
    assert(split(text, '&') =~= fields);
    lemma_first_of(first, '=', 1);
    lemma_first_of(second, '=', 1);
    assert(field_key(first) =~= seq!['s']);
    assert(field_key(second) =~= seq!['c']);
    assert(field_value(first) =~= v);
    assert(field_value(second) =~= list);
    assert(seq!['s'] != seq!['c']) by {
        assert(seq!['s'][0] != seq!['c'][0]);
    }
    assert(fields.drop_first() =~= seq![second]);
    assert(lookup(fields, seq!['s']) == Some(v));
    assert(lookup(fields.drop_first(), seq!['c']) == Some(list));
    assert(lookup(fields, seq!['c']) == Some(list));
    lemma_index_list_round_trip(reference.indices);
}

/// The pieces of the part of `s` from `start` on, between the occurrences
/// of `sep`.
fn split_from(s: &Vec<char>, start: usize, sep: char) -> (pieces: Vec<Vec<char>>)
    requires
        start <= s.len(),
    ensures
        words(pieces@) == split(s@.skip(start as int), sep),
{
    let mut pieces: Vec<Vec<char>> = Vec::new();
    let mut piece: Vec<char> = Vec::new();
    let mut from: usize = start;
    let mut i: usize = start;
    assert(words(pieces@) =~= Seq::<Seq<char>>::empty());
    assert(Seq::<Seq<char>>::empty() + split(s@.skip(start as int), sep) =~= split(
        s@.skip(start as int),
        sep,
    ));
    while i < s.len()
        invariant
            start <= from <= i <= s.len(),
            piece@ == s@.subrange(from as int, i as int),
            forall|k: int| from <= k < i ==> s@[k] != sep,
            words(pieces@) + split(s@.skip(from as int), sep) == split(
                s@.skip(start as int),
                sep,
            ),
        decreases s.len() - i,
    {
        if s[i] == sep {
            proof {
                let rest = s@.skip(from as int);
                let n = i - from;
                assert forall|k: int| 0 <= k < n implies rest[k] != sep by {
                    assert(rest[k] == s@[from + k]);
                }
                lemma_first_of(rest, sep, n);
                assert(rest.take(n) =~= piece@);
                assert(rest.skip(n + 1) =~= s@.skip(i + 1));
                assert(words(pieces@.push(piece)) =~= words(pieces@) + seq![piece@]);
                assert(words(pieces@) + (seq![piece@] + split(s@.skip(i + 1), sep)) =~= words(
                    pieces@,
                ) + seq![piece@] + split(s@.skip(i + 1), sep));
            }
            pieces.push(piece);
            piece = Vec::new();
            from = i + 1;
            assert(piece@ =~= s@.subrange(from as int, i + 1));
        } else {
            piece.push(s[i]);
            assert(piece@ =~= s@.subrange(from as int, i + 1));
        }
        i += 1;
    }
    proof {
        let rest = s@.skip(from as int);
        let n = s.len() - from;
        assert forall|k: int| 0 <= k < n implies rest[k] != sep by {
            assert(rest[k] == s@[from + k]);
        }
        lemma_first_of(rest, sep, n);
        assert(rest =~= piece@);
        assert(words(pieces@.push(piece)) =~= words(pieces@) + seq![piece@]);
    }
    pieces.push(piece);
    pieces
}

/// The pieces of `s` between the occurrences of `sep`.
pub fn split_chars(s: &Vec<char>, sep: char) -> (pieces: Vec<Vec<char>>)
    ensures
        words(pieces@) == split(s@, sep),
{
    assert(s@.skip(0) =~= s@);
    split_from(s, 0, sep)
}

/// The value of the decimal digit `c`.
fn digit_of(c: char) -> (d: Option<usize>)
    ensures
        d matches Some(v) ==> digit_value(c) == Some(v as nat) && v <= 9,
        d is None ==> digit_value(c) is None,
{
    if c == '0' {
        Some(0)
    } else if c == '1' {
        Some(1)
    } else if c == '2' {
        Some(2)
    } else if c == '3' {
        Some(3)
    } else if c == '4' {
        Some(4)
    } else if c == '5' {
        Some(5)
    } else if c == '6' {
        Some(6)
    } else if c == '7' {
        Some(7)
    } else if c == '8' {
        Some(8)
    } else if c == '9' {
        Some(9)
    } else {
        None
    }
}

/// The position that `piece` writes, if it writes one.
pub fn parse_index(piece: &Vec<char>) -> (r: Option<usize>)
    ensures
        r matches Some(i) ==> parsed_index(piece@) == Some(i as nat),
        r is None ==> parsed_index(piece@) is None,
{
    if piece.len() == 0 {
        return None;
    }
    let mut value: usize = 0;
    let mut i: usize = 0;
    assert(piece@.take(0) =~= Seq::<char>::empty());
    while i < piece.len()
        invariant
            i <= piece.len(),
            all_digits(piece@.take(i as int)),
            value == decimal_value(piece@.take(i as int)),
        decreases piece.len() - i,
    {
        let ghost upto = piece@.take(i + 1);
        assert(upto.drop_last() =~= piece@.take(i as int));
        assert(upto.last() == piece@[i as int]);
        match digit_of(piece[i]) {
            None => {
                assert(!all_digits(piece@));
                return None;
            },
            Some(d) => {
                if value > (usize::MAX - d) / 10 {
                    proof {
                        assert(decimal_value(upto) > usize::MAX);
                        lemma_decimal_value_grows(piece@, i + 1);
                    }
                    return None;
                }
                value = value * 10 + d;
                assert forall|k: int| 0 <= k < upto.len() implies digit_value(
                    #[trigger] upto[k],
                ) is Some by {
                    if k < i {
                        assert(upto[k] == piece@.take(i as int)[k]);
                    }
                }
            },
        }
        i += 1;
    }
    assert(piece@.take(piece.len() as int) =~= piece@);
    Some(value)
}

/// The positions that the pieces write.
fn parse_indices(pieces: &Vec<Vec<char>>) -> (r: Vec<usize>)
    ensures
        as_positions(r@) == parsed_indices(words(pieces@)),
{
    let mut out: Vec<usize> = Vec::new();
    let mut k: usize = 0;
    assert(words(pieces@).take(0) =~= Seq::<Seq<char>>::empty());
    assert(as_positions(out@) =~= Seq::<nat>::empty());
    while k < pieces.len()
        invariant
            k <= pieces.len(),
            as_positions(out@) == parsed_indices(words(pieces@).take(k as int)),
        decreases pieces.len() - k,
    {
        assert(words(pieces@).take(k + 1).drop_last() =~= words(pieces@).take(k as int));
        assert(words(pieces@).take(k + 1).last() == pieces@[k as int]@);
        match parse_index(&pieces[k]) {
            Some(i) => {
                assert(as_positions(out@.push(i)) =~= as_positions(out@).push(i as nat));
                out.push(i);
            },
            None => {},
        }
        k += 1;
    }
    assert(words(pieces@).take(pieces.len() as int) =~= words(pieces@));
    out
}

/// The value of the first of `fields` whose key is `key`.
fn lookup_field(fields: &Vec<Vec<char>>, key: &Vec<char>) -> (r: Option<Vec<char>>)
    ensures
        r matches Some(v) ==> lookup(words(fields@), key@) == Some(v@),
        r is None ==> lookup(words(fields@), key@) is None,
{
    let mut k: usize = 0;
    assert(words(fields@).skip(0) =~= words(fields@));
    while k < fields.len()
        invariant
            k <= fields.len(),
            lookup(words(fields@), key@) == lookup(words(fields@).skip(k as int), key@),
        decreases fields.len() - k,
    {
        let field = &fields[k];
        let ghost rest = words(fields@).skip(k as int);
        assert(rest[0] == field@);
        assert(rest.drop_first() =~= words(fields@).skip(k + 1));
        let mut p: usize = 0;
        while p < field.len() && field[p] != '='
            invariant
                p <= field.len(),
                forall|i: int| 0 <= i < p ==> field@[i] != '=',
            decreases field.len() - p,
        {
            p += 1;
        }
        proof {
            lemma_first_of(field@, '=', p as int);
        }
        let mut name: Vec<char> = Vec::new();
        let mut i: usize = 0;
        while i < p
            invariant
                i <= p <= field.len(),
                name@ == field@.take(i as int),
            decreases p - i,
        {
            name.push(field[i]);
            assert(name@ =~= field@.take(i + 1));
            i += 1;
        }
        if same_chars(&name, key) {
            let mut value: Vec<char> = Vec::new();
            if p < field.len() {
                let mut j: usize = p + 1;
                assert(value@ =~= field@.subrange(p + 1, j as int));
                while j < field.len()
                    invariant
                        p < j <= field.len(),
                        value@ == field@.subrange(p + 1, j as int),
                    decreases field.len() - j,
                {
                    value.push(field[j]);
                    assert(value@ =~= field@.subrange(p + 1, j + 1));
                    j += 1;
                }
                assert(value@ =~= field@.skip(p + 1));
            } else {
                assert(value@ =~= Seq::<char>::empty());
            }
            return Some(value);
        }
        k += 1;
    }
    None
}

/// The reference that the values of the two fields give, as characters.
fn reference_from_chars(version: Option<Vec<char>>, positions: Option<Vec<char>>) -> (r:
    ShareReference)
    ensures
        r@ == reference_of(chars_view(version), chars_view(positions)),
{
    let dataset_version = match version {
        Some(v) => string_of(&v),
        None => DEFAULT_SEMESTER.to_owned(),
    };
    let indices = match positions {
        Some(v) => {
            let pieces = split_chars(&v, ',');
            parse_indices(&pieces)
        },
        None => {
            let none: Vec<usize> = Vec::new();
            assert(as_positions(none@) =~= Seq::<nat>::empty());
            none
        },
    };
    ShareReference { dataset_version, indices }
}

/// The reference that the values of the field `s` and of the field `c`
/// give, each as it was decoded or absent. A missing version gives the
/// default version, missing positions give none, and a position that is no
/// number is left out.
pub fn reference_from_fields(version: Option<&str>, positions: Option<&str>) -> (r: ShareReference)
    ensures
        r@ == reference_of(text_view(version), text_view(positions)),
{
    let version_chars = match version {
        Some(v) => Some(chars_of(v)),
        None => None,
    };
    let position_chars = match positions {
        Some(p) => Some(chars_of(p)),
        None => None,
    };
    reference_from_chars(version_chars, position_chars)
}

/// Reads a reference string. A missing version gives the default version,
/// missing positions give none, and a position that is no number is left
/// out.
pub fn parse_reference(text: &str) -> (r: ShareReference)
    ensures
        r@ == parsed_reference(text@),
{
    let chars = chars_of(text);
    let start: usize = if chars.len() > 0 && chars[0] == '?' {
        1
    } else {
        0
    };
    assert(chars@.skip(start as int) =~= query_part(text@));
    let fields = split_from(&chars, start, '&');
    let version_key: Vec<char> = vec!['s'];
    let indices_key: Vec<char> = vec!['c'];
    assert(version_key@ =~= seq!['s']);
    assert(indices_key@ =~= seq!['c']);
    let version = lookup_field(&fields, &version_key);
    let positions = lookup_field(&fields, &indices_key);
    reference_from_chars(version, positions)
}

/// The digit for `d`.
fn digit_for(d: usize) -> (c: char)
    requires
        d < 10,
    ensures
        c == digit_char(d as nat),
{
    if d == 0 {
        '0'
    } else if d == 1 {
        '1'
    } else if d == 2 {
        '2'
    } else if d == 3 {
        '3'
    } else if d == 4 {
        '4'
    } else if d == 5 {
        '5'
    } else if d == 6 {
        '6'
    } else if d == 7 {
        '7'
    } else if d == 8 {
        '8'
    } else {
        '9'
    }
}

/// The digits of `m` where it is positive, nothing where it is zero.
pub open spec fn leading_digits(m: nat) -> Seq<char> {
    if m == 0 {
        Seq::empty()
    } else {
        decimal(m)
    }
}

/// Appends the decimal digits of `n` to `out`.
fn push_decimal(out: &mut Vec<char>, n: usize)
    ensures
        final(out)@ == old(out)@ + decimal(n as nat),
{
    let mut low_first: Vec<char> = Vec::new();
    low_first.push(digit_for(n % 10));
    let mut m: usize = n / 10;
    assert(decimal(n as nat) =~= leading_digits(m as nat) + low_first@.reverse());
    while m > 0
        invariant
            decimal(n as nat) == leading_digits(m as nat) + low_first@.reverse(),
        decreases m,
    {
        let c = digit_for(m % 10);
        proof {
            let grown = low_first@.push(c);
            assert(grown.reverse() =~= seq![c] + low_first@.reverse());
            assert(leading_digits(m as nat) =~= leading_digits((m / 10) as nat) + seq![c]);
            assert(leading_digits((m / 10) as nat) + grown.reverse() =~= leading_digits(
                m as nat,
            ) + low_first@.reverse());
        }
        low_first.push(c);
        m = m / 10;
    }
    assert(decimal(n as nat) =~= low_first@.reverse());
    let mut k: usize = low_first.len();
    let ghost before = out@;
    assert(out@ =~= before + low_first@.reverse().take(0));
    while k > 0
        invariant
            k <= low_first.len(),
            out@ == before + low_first@.reverse().take(low_first.len() - k),
        decreases k,
    {
        k -= 1;
        out.push(low_first[k]);
        assert(out@ =~= before + low_first@.reverse().take(low_first.len() - k));
    }
    assert(low_first@.reverse().take(low_first.len() as int) =~= low_first@.reverse());
}

/// Appends the reference string of `reference` to `out`.
fn push_reference(out: &mut Vec<char>, reference: &ShareReference)
    ensures
        final(out)@ == old(out)@ + reference_text(reference@),
{
    let ghost before = out@;
    out.push('s');
    out.push('=');
    let version = chars_of(reference.dataset_version.as_str());
    let mut i: usize = 0;
    assert(out@ =~= before + seq!['s', '='] + version@.take(0));
    while i < version.len()
        invariant
            i <= version.len(),
            out@ == before + seq!['s', '='] + version@.take(i as int),
        decreases version.len() - i,
    {
        out.push(version[i]);
        assert(out@ =~= before + seq!['s', '='] + version@.take(i + 1));
        i += 1;
    }
    assert(version@.take(version.len() as int) =~= version@);
    out.push('&');
    out.push('c');
    out.push('=');
    let ghost head = before + seq!['s', '='] + version@ + seq!['&', 'c', '='];
    let ghost idx = reference@.indices;
    assert(out@ =~= head + index_list(idx.take(0)));
    let mut k: usize = 0;
    while k < reference.indices.len()
        invariant
            k <= reference.indices.len(),
            idx == reference@.indices,
            out@ == head + index_list(idx.take(k as int)),
        decreases reference.indices.len() - k,
    {
        let ghost upto = idx.take(k + 1);
        assert(upto.drop_last() =~= idx.take(k as int));
        assert(upto.last() == reference.indices@[k as int] as nat);
        if k > 0 {
            out.push(',');
        }
        push_decimal(out, reference.indices[k]);
        proof {
            if k > 0 {
                assert(upto.len() > 1);
                assert(out@ =~= head + (index_list(idx.take(k as int)) + seq![','] + decimal(
                    upto.last(),
                )));
            } else {
                assert(upto.len() == 1);
                assert(upto[0] == upto.last());
                assert(index_list(idx.take(0)) =~= Seq::<char>::empty());
                assert(out@ =~= head + decimal(upto.last()));
            }
        }
        k += 1;
    }
    assert(idx.take(reference.indices.len() as int) =~= idx);
    assert(out@ =~= before + reference_text(reference@));
}

/// Writes `reference` as a reference string.
pub fn format_reference(reference: &ShareReference) -> (text: String)
    ensures
        text@ == reference_text(reference@),
{
    let mut out: Vec<char> = Vec::new();
    push_reference(&mut out, reference);
    assert(out@ =~= reference_text(reference@));
    string_of(&out)
}

/// The address that shares `reference` from the page at `href`: what
/// stands in `href` before its first `?`, then `?` and the reference
/// string.
pub open spec fn shared_address(href: Seq<char>, reference: ShareReferenceView) -> Seq<char> {
    href.take(first_of(href, '?')) + seq!['?'] + reference_text(reference)
}

/// The address that shares `reference` from the page at `href`.
pub fn share_url(href: &str, reference: &ShareReference) -> (url: String)
    ensures
        url@ == shared_address(href@, reference@),
{
    let page = chars_of(href);
    let mut out: Vec<char> = Vec::new();
    let mut i: usize = 0;
    assert(out@ =~= page@.take(0));
    while i < page.len() && page[i] != '?'
        invariant
            i <= page.len(),
            out@ == page@.take(i as int),
            forall|k: int| 0 <= k < i ==> page@[k] != '?',
        decreases page.len() - i,
    {
        out.push(page[i]);
        assert(out@ =~= page@.take(i + 1));
        i += 1;
    }
    proof {
        lemma_first_of(page@, '?', i as int);
    }
    out.push('?');
    push_reference(&mut out, reference);
    string_of(&out)
}

} // verus!
