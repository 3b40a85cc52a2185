//! What reading and writing texts comes to.
use super::{
    char_from, contains_text, dec, digit_char, ends_with, first_visible, index_of, joined,
    lemma_char_from, lemma_dec, lemma_find_from, occurs_at, parse_signed, parse_up_to, pieces,
    pieces_from, replaced, starts_with, text_before, trimmed, unsigned_digits, visible_end,
    whitespace,
};
use vstd::prelude::*;

verus! {

/// A text begins with another just where that one with some rest behind it is the text; it ends
/// with it just where some rest before it is; and it holds it just where rests on both sides do.
pub proof fn law_parts_of_texts(a: Seq<char>, p: Seq<char>, b: Seq<char>)
    ensures
        starts_with(p + b, p),
        ends_with(a + p, p),
        contains_text(a + p + b, p),
        starts_with(a, p) ==> a == p + a.skip(p.len() as int),
        ends_with(a, p) ==> a == a.take(a.len() - p.len()) + p,
        contains_text(a, p) ==> exists|i: int|
            0 <= i <= a.len() - p.len() && a == #[trigger] a.take(i) + p + a.skip(i + p.len()),
{
    assert((p + b).take(p.len() as int) =~= p);
    assert((a + p).skip(a.len() as int) =~= p);
    let s = a + p + b;
    assert(s.subrange(a.len() as int, (a.len() + p.len()) as int) =~= p);
    assert(occurs_at(s, p, a.len() as int));
    if starts_with(a, p) {
        assert(a =~= p + a.skip(p.len() as int)) by {
            assert(a.take(p.len() as int) == p);
            assert(a =~= a.take(p.len() as int) + a.skip(p.len() as int));
        }
    }
    if ends_with(a, p) {
        let n = a.len() - p.len();
        assert(a.skip(n) == p);
        assert(a =~= a.take(n) + a.skip(n));
    }
    if contains_text(a, p) {
        let i = choose|i: int| occurs_at(a, p, i);
        assert(a.subrange(i, i + p.len()) == p);
        assert(a =~= a.take(i) + p + a.skip(i + p.len())) by {
            assert(a =~= a.take(i) + a.subrange(i, i + p.len()) + a.skip(i + p.len()));
        }
    }
}

/// A text is found at the first place where it stands, and nowhere just where it stands nowhere.
pub proof fn law_the_first_place_is_found(s: Seq<char>, p: Seq<char>)
    ensures
        match index_of(s, p) {
            Some(i) => 0 <= i <= s.len() - p.len() && s.subrange(i, i + p.len()) == p && (forall|
                j: int,
            |
                0 <= j < i ==> #[trigger] s.subrange(j, j + p.len()) != p),
            None => forall|j: int|
                0 <= j <= s.len() - p.len() ==> #[trigger] s.subrange(j, j + p.len()) != p,
        },
{
    lemma_find_from(s, p, 0);
    match index_of(s, p) {
        Some(i) => {
            assert(occurs_at(s, p, i));
            assert forall|j: int| 0 <= j < i implies #[trigger] s.subrange(j, j + p.len()) != p by {
                assert(!occurs_at(s, p, j));
            }
        },
        None => {
            assert forall|j: int| 0 <= j <= s.len() - p.len() implies #[trigger] s.subrange(
                j,
                j + p.len(),
            ) != p by {
                assert(!occurs_at(s, p, j));
            }
        },
    }
}

/// The pieces between separators hold no separator, and joined by it they are the text again.
pub proof fn law_pieces_join_to_the_text(s: Seq<char>, c: char)
    ensures
        joined(pieces(s, c), seq![c]) == s,
        pieces(s, c).len() > 0,
        forall|i: int| 0 <= i < pieces(s, c).len() ==> !(#[trigger] pieces(s, c)[i]).contains(c),
{
    lemma_pieces_from(s, c, 0);
    assert(s.skip(0) =~= s);
}

proof fn lemma_pieces_from(s: Seq<char>, c: char, k: int)
    requires
        0 <= k <= s.len(),
    ensures
        joined(pieces_from(s, c, k), seq![c]) == s.skip(k),
        pieces_from(s, c, k).len() > 0,
        forall|i: int|
            0 <= i < pieces_from(s, c, k).len() ==> !(#[trigger] pieces_from(s, c, k)[i]).contains(
                c,
            ),
    decreases s.len() + 1 - k,
{
    lemma_char_from(s, c, k);
    let i = char_from(s, c, k);
    let all = pieces_from(s, c, k);
    if i >= s.len() {
        let t = s.skip(k);
        assert(all =~= seq![t]);
        if t.contains(c) {
            let a = choose|a: int| 0 <= a < t.len() && t[a] == c;
            assert(s[k + a] == c);
        }
    } else {
        lemma_pieces_from(s, c, i + 1);
        let first = s.subrange(k, i);
        let rest = pieces_from(s, c, i + 1);
        assert(all =~= seq![first] + rest);
        lemma_joined_front(first, rest, seq![c]);
        assert(s.skip(k) =~= first + seq![c] + s.skip(i + 1));
        if first.contains(c) {
            let a = choose|a: int| 0 <= a < first.len() && first[a] == c;
            assert(s[k + a] == c);
        }
        assert forall|j: int| 0 <= j < all.len() implies !(#[trigger] all[j]).contains(c) by {
            if j > 0 {
                assert(all[j] == rest[j - 1]);
            }
        }
    }
}

proof fn lemma_joined_front(first: Seq<char>, rest: Seq<Seq<char>>, sep: Seq<char>)
    requires
        rest.len() > 0,
    ensures
        joined(seq![first] + rest, sep) == first + sep + joined(rest, sep),
    decreases rest.len(),
{
    let all = seq![first] + rest;
    if rest.len() == 1 {
        assert(all.drop_last() =~= seq![first]);
        assert(joined(all.drop_last(), sep) == first);
        assert(all.last() == rest[0]);
    } else {
        lemma_joined_front(first, rest.drop_last(), sep);
        assert(all.drop_last() =~= seq![first] + rest.drop_last());
        assert(all.last() == rest.last());
        assert(first + sep + joined(rest, sep) =~= first + sep + joined(rest.drop_last(), sep)
            + sep + rest.last());
    }
}

/// A text without white space at its ends is a part of the text: only white space is taken
/// away, and it neither begins nor ends with any.
pub proof fn law_only_white_space_is_trimmed(s: Seq<char>) -> (ends: (int, int))
    ensures
        0 <= ends.0 <= ends.1 <= s.len(),
        trimmed(s) == s.subrange(ends.0, ends.1),
        forall|i: int|
            (0 <= i < ends.0 || ends.1 <= i < s.len()) ==> whitespace(#[trigger] s[i]),
        ends.0 < ends.1 ==> !whitespace(s[ends.0]) && !whitespace(s[ends.1 - 1]),
{
    lemma_first_visible(s, 0);
    lemma_last_visible(s, s.len() as int);
    let a = first_visible(s, 0);
    let b = visible_end(s, s.len() as int);
    if a < b {
        (a, b)
    } else {
        assert(s.subrange(0, 0) =~= Seq::<char>::empty());
        assert forall|i: int| 0 <= i < s.len() implies whitespace(#[trigger] s[i]) by {
            if i >= a {
                assert(i >= b);
            }
        }
        (0, 0)
    }
}

proof fn lemma_first_visible(s: Seq<char>, k: int)
    requires
        0 <= k <= s.len(),
    ensures
        k <= first_visible(s, k) <= s.len(),
        forall|i: int| k <= i < first_visible(s, k) ==> whitespace(#[trigger] s[i]),
        first_visible(s, k) < s.len() ==> !whitespace(s[first_visible(s, k)]),
    decreases s.len() - k,
{
    if k < s.len() && whitespace(s[k]) {
        lemma_first_visible(s, k + 1);
    }
}

proof fn lemma_last_visible(s: Seq<char>, k: int)
    requires
        0 <= k <= s.len(),
    ensures
        0 <= visible_end(s, k) <= k,
        forall|i: int| visible_end(s, k) <= i < k ==> whitespace(#[trigger] s[i]),
        visible_end(s, k) > 0 ==> !whitespace(s[visible_end(s, k) - 1]),
    decreases k,
{
    if k > 0 && whitespace(s[k - 1]) {
        lemma_last_visible(s, k - 1);
    }
}

/// Replacing a character changes just the places where it stands.
pub proof fn law_only_one_character_is_replaced(s: Seq<char>, a: char, b: char, i: int)
    requires
        0 <= i < s.len(),
    ensures
        replaced(s, a, b).len() == s.len(),
        s[i] == a ==> replaced(s, a, b)[i] == b,
        s[i] != a ==> replaced(s, a, b)[i] == s[i],
{
}

/// A number is written in the digits from 0 to 9, the last one for what is left of tens.
pub proof fn law_numbers_are_written_in_tens(n: nat, k: nat)
    requires
        k < 10,
    ensures
        dec(k) == seq!["0123456789"@[k as int]],
        n > 0 ==> dec(n * 10 + k) == dec(n).push("0123456789"@[k as int]),
{
    reveal_strlit("0123456789");
    assert(digit_char(k) == "0123456789"@[k as int]);
    if n > 0 {
        assert((n * 10 + k) / 10 == n);
        assert((n * 10 + k) % 10 == k);
    }
}

/// A number that was written is read again, with a sign or without, as long as it is within the
/// limit; nothing else than digits behind a sign is read.
pub proof fn law_numbers_are_read_again(n: nat, max: nat)
    ensures
        n <= max ==> parse_up_to(dec(n), max) == Some(n),
        n <= max ==> parse_up_to("+"@ + dec(n), max) == Some(n),
        n > max ==> parse_up_to(dec(n), max) is None,
        n <= 0x7fff_ffff_ffff_ffff ==> parse_signed(dec(n)) == Some(n as int),
        n <= 0x8000_0000_0000_0000 ==> parse_signed("-"@ + dec(n)) == Some(-(n as int)),
{
    lemma_dec(n);
    reveal_strlit("+");
    reveal_strlit("-");
    assert(("+"@ + dec(n)).skip(1) =~= dec(n));
    assert(("-"@ + dec(n)).skip(1) =~= dec(n));
}

/// What is read as a number are digits, behind a plus sign at most.
pub proof fn law_only_digits_are_read(s: Seq<char>, max: nat, i: int)
    requires
        parse_up_to(s, max) is Some,
        0 <= i < s.len(),
    ensures
        '0' <= s[i] <= '9' || (i == 0 && s[i] == '+' && s.len() > 1),
        parse_up_to(s, max)->0 <= max,
{
    let d = unsigned_digits(s);
    if s[0] == '+' {
        if i > 0 {
            assert(d[i - 1] == s[i]);
        }
    } else {
        assert(d[i] == s[i]);
    }
}

/// One text comes before another just where it is a beginning of it, or has the lesser character
/// at the first place where they differ.
pub proof fn law_texts_are_ordered_by_characters(a: Seq<char>, b: Seq<char>, k: int)
    requires
        0 <= k <= a.len(),
        0 <= k <= b.len(),
        a.take(k) == b.take(k),
    ensures
        k == a.len() && k < b.len() ==> text_before(a, b),
        k == b.len() ==> !text_before(a, b),
        k < a.len() && k < b.len() && a[k] < b[k] ==> text_before(a, b),
        k < a.len() && k < b.len() && a[k] > b[k] ==> !text_before(a, b),
    decreases k,
{
    if k > 0 {
        let x = a.drop_first();
        let y = b.drop_first();
        assert(a[0] == a.take(k)[0]);
        assert(b[0] == b.take(k)[0]);
        assert(x.take(k - 1) =~= y.take(k - 1)) by {
            assert forall|i: int| 0 <= i < k - 1 implies x[i] == y[i] by {
                assert(a[i + 1] == a.take(k)[i + 1]);
                assert(b[i + 1] == b.take(k)[i + 1]);
            }
        }
        law_texts_are_ordered_by_characters(x, y, k - 1);
    }
}

} // verus!
