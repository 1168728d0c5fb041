//! Text: comparing, ordering and sorting names.

use vstd::prelude::*;
use vstd::utf8::encode_utf8;

verus! {

/// Lexicographic order on byte strings.
pub open spec fn bytes_precede(x: Seq<u8>, y: Seq<u8>) -> bool
    decreases x.len(),
{
    if y.len() == 0 {
        false
    } else if x.len() == 0 {
        true
    } else if x[0] != y[0] {
        x[0] < y[0]
    } else {
        bytes_precede(x.drop_first(), y.drop_first())
    }
}

/// The order of names: lexicographic by UTF-8 byte values.
pub open spec fn precedes(a: Seq<char>, b: Seq<char>) -> bool {
    bytes_precede(encode_utf8(a), encode_utf8(b))
}

/// Every name precedes all the names behind it; in particular no name occurs twice.
pub open spec fn strictly_sorted(s: Seq<Seq<char>>) -> bool {
    forall|i: int, j: int| 0 <= i < j < s.len() ==> precedes(#[trigger] s[i], #[trigger] s[j])
}

proof fn lemma_bytes_irreflexive(x: Seq<u8>)
    ensures
        !bytes_precede(x, x),
    decreases x.len(),
{
    if x.len() > 0 {
        lemma_bytes_irreflexive(x.drop_first());
    }
}

proof fn lemma_bytes_transitive(x: Seq<u8>, y: Seq<u8>, z: Seq<u8>)
    requires
        bytes_precede(x, y),
        bytes_precede(y, z),
    ensures
        bytes_precede(x, z),
    decreases x.len(),
{
    if x.len() > 0 && x[0] == y[0] && y[0] == z[0] {
        lemma_bytes_transitive(x.drop_first(), y.drop_first(), z.drop_first());
    }
}

proof fn lemma_bytes_total(x: Seq<u8>, y: Seq<u8>)
    ensures
        bytes_precede(x, y) || bytes_precede(y, x) || x == y,
    decreases x.len(),
{
    if x.len() > 0 && y.len() > 0 {
        lemma_bytes_total(x.drop_first(), y.drop_first());
        if x[0] == y[0] && x.drop_first() == y.drop_first() {
            assert(x =~= seq![x[0]] + x.drop_first());
            assert(y =~= seq![y[0]] + y.drop_first());
        }
    } else if x.len() == 0 && y.len() == 0 {
        assert(x =~= y);
    }
}

/// Names with the same bytes are the same name.
pub proof fn lemma_bytes_determine_text(a: Seq<char>, b: Seq<char>)
    requires
        encode_utf8(a) == encode_utf8(b),
    ensures
        a == b,
{
    vstd::utf8::encode_utf8_decode_utf8(a);
    vstd::utf8::encode_utf8_decode_utf8(b);
}

/// The order of names is strict: no name precedes itself, and no two names
/// precede each other.
pub proof fn law_precedes_asymmetric(a: Seq<char>, b: Seq<char>)
    requires
        precedes(a, b),
    ensures
        a != b,
        !precedes(b, a),
{
    lemma_bytes_irreflexive(encode_utf8(a));
    if precedes(b, a) {
        lemma_bytes_transitive(encode_utf8(a), encode_utf8(b), encode_utf8(a));
    }
}

/// The order of names is transitive.
pub proof fn law_precedes_transitive(a: Seq<char>, b: Seq<char>, c: Seq<char>)
    requires
        precedes(a, b),
        precedes(b, c),
    ensures
        precedes(a, c),
{
    lemma_bytes_transitive(encode_utf8(a), encode_utf8(b), encode_utf8(c));
}

/// The order of names is total: of two different names one precedes the other.
pub proof fn law_precedes_total(a: Seq<char>, b: Seq<char>)
    ensures
        precedes(a, b) || precedes(b, a) || a == b,
{
    lemma_bytes_total(encode_utf8(a), encode_utf8(b));
    if encode_utf8(a) == encode_utf8(b) {
        lemma_bytes_determine_text(a, b);
    }
}

/// One byte string precedes another exactly if it ends, or has the smaller byte, where the two
/// first differ.
proof fn lemma_bytes_first_difference(x: Seq<u8>, y: Seq<u8>)
    ensures
        bytes_precede(x, y) <==> exists|i: int|
            0 <= i <= x.len() && i < y.len() && #[trigger] x.take(i) == y.take(i) && (i == x.len()
                || x[i] < y[i]),
    decreases x.len(),
{
    if y.len() > 0 && x.len() > 0 {
        let x1 = x.drop_first();
        let y1 = y.drop_first();
        lemma_bytes_first_difference(x1, y1);
        if x[0] == y[0] && bytes_precede(x1, y1) {
            let i = choose|i: int|
                0 <= i <= x1.len() && i < y1.len() && #[trigger] x1.take(i) == y1.take(i) && (i
                    == x1.len() || x1[i] < y1[i]);
            assert(x.take(i + 1) =~= seq![x[0]] + x1.take(i));
            assert(y.take(i + 1) =~= seq![y[0]] + y1.take(i));
            assert(x.take(i + 1) == y.take(i + 1));
        }
        if x[0] < y[0] {
            assert(x.take(0) =~= y.take(0));
        }
        if exists|i: int|
            0 <= i <= x.len() && i < y.len() && #[trigger] x.take(i) == y.take(i) && (i == x.len()
                || x[i] < y[i]) {
            let i = choose|i: int|
                0 <= i <= x.len() && i < y.len() && #[trigger] x.take(i) == y.take(i) && (i
                    == x.len() || x[i] < y[i]);
            if i > 0 {
                assert(x.take(i)[0] == y.take(i)[0]);
                assert(x1.take(i - 1) =~= x.take(i).drop_first());
                assert(y1.take(i - 1) =~= y.take(i).drop_first());
                assert(x1.take(i - 1) == y1.take(i - 1));
            }
        }
    } else if y.len() > 0 {
        assert(x.take(0) =~= y.take(0));
    }
}

/// One name precedes another exactly if its UTF-8 bytes end, or have the smaller value, where
/// the two first differ.
pub proof fn law_precedes_at_first_difference(a: Seq<char>, b: Seq<char>)
    ensures
        precedes(a, b) <==> exists|i: int|
            0 <= i <= encode_utf8(a).len() && i < encode_utf8(b).len() && #[trigger] encode_utf8(
                a,
            ).take(i) == encode_utf8(b).take(i) && (i == encode_utf8(a).len() || encode_utf8(a)[i]
                < encode_utf8(b)[i]),
{
    lemma_bytes_first_difference(encode_utf8(a), encode_utf8(b));
}

/// Of two names in a strictly sorted list, the one ahead has, where their UTF-8 bytes first
/// differ, ended or the smaller value.
pub proof fn law_sorted_by_bytes(s: Seq<Seq<char>>, i: int, j: int)
    requires
        strictly_sorted(s),
        0 <= i < j < s.len(),
    ensures
        s[i] != s[j],
        exists|k: int|
            0 <= k <= encode_utf8(s[i]).len() && k < encode_utf8(s[j]).len()
                && #[trigger] encode_utf8(s[i]).take(k) == encode_utf8(s[j]).take(k) && (k
                == encode_utf8(s[i]).len() || encode_utf8(s[i])[k] < encode_utf8(s[j])[k]),
{
    assert(precedes(s[i], s[j]));
    law_precedes_at_first_difference(s[i], s[j]);
    law_precedes_asymmetric(s[i], s[j]);
}

/// A list is strictly sorted if each of its names precedes the next one.
pub proof fn law_sorted_by_neighbours(s: Seq<Seq<char>>)
    requires
        forall|i: int| 0 < i < s.len() ==> precedes(s[i - 1], #[trigger] s[i]),
    ensures
        strictly_sorted(s),
    decreases s.len(),
{
    if s.len() > 1 {
        let init = s.drop_last();
        assert forall|i: int| 0 < i < init.len() implies precedes(init[i - 1], #[trigger] init[i]) by {
            assert(precedes(s[i - 1], s[i]));
        }
        law_sorted_by_neighbours(init);
        let last = s.len() - 1;
        assert forall|i: int, j: int| 0 <= i < j < s.len() implies precedes(
            #[trigger] s[i],
            #[trigger] s[j],
        ) by {
            assert(precedes(s[last - 1], s[last]));
            if j < last {
                assert(precedes(init[i], init[j]));
            } else if i < last - 1 {
                assert(precedes(init[i], init[last - 1]));
                law_precedes_transitive(s[i], s[last - 1], s[last]);
            }
        }
    }
}

/// Whether two texts are the same.
pub fn same_text(a: &str, b: &str) -> (same: bool)
    ensures
        same == (a@ == b@),
{
    let x = a.as_bytes();
    let y = b.as_bytes();
    if x.len() != y.len() {
        return false;
    }
    let mut i: usize = 0;
    while i < x.len()
        invariant
            0 <= i <= x@.len(),
            x@.len() == y@.len(),
            x@ == encode_utf8(a@),
            y@ == encode_utf8(b@),
            forall|j: int| 0 <= j < i ==> x@[j] == y@[j],
        decreases x@.len() - i,
    {
        if x[i] != y[i] {
            return false;
        }
        i += 1;
    }
    proof {
        assert(x@ =~= y@);
        lemma_bytes_determine_text(a@, b@);
    }
    true
}

/// Whether the first text comes before the second in the order of names.
pub fn text_precedes(a: &str, b: &str) -> (before: bool)
    ensures
        before == precedes(a@, b@),
        before == exists|i: int|
            0 <= i <= encode_utf8(a@).len() && i < encode_utf8(b@).len() && #[trigger] encode_utf8(
                a@,
            ).take(i) == encode_utf8(b@).take(i) && (i == encode_utf8(a@).len() || encode_utf8(
                a@,
            )[i] < encode_utf8(b@)[i]),
{
    proof {
        law_precedes_at_first_difference(a@, b@);
    }
    let x = a.as_bytes();
    let y = b.as_bytes();
    let mut i: usize = 0;
    proof {
        assert(x@.skip(0) =~= x@);
        assert(y@.skip(0) =~= y@);
    }
    while i < x.len() && i < y.len()
        invariant
            0 <= i <= x@.len(),
            i <= y@.len(),
            x@ == encode_utf8(a@),
            y@ == encode_utf8(b@),
            bytes_precede(x@, y@) == bytes_precede(x@.skip(i as int), y@.skip(i as int)),
        decreases x@.len() - i,
    {
        proof {
            assert(x@.skip(i as int).drop_first() =~= x@.skip(i + 1));
            assert(y@.skip(i as int).drop_first() =~= y@.skip(i + 1));
        }
        if x[i] != y[i] {
            proof {
                law_precedes_at_first_difference(a@, b@);
            }
            return x[i] < y[i];
        }
        i += 1;
    }
    i < y.len()
}

/// A text in double quotes with special characters escaped, as `Debug` shows a `str`.
pub uninterp spec fn quoted_text(text: Seq<char>) -> Seq<char>;

/// The text that `std` formats a `str` to with `{:?}`.
///
/// The standard library quotes the text and escapes characters that do not print; which those
/// are is a table of its own. The contract says only that the result is determined by the text.
#[verifier::external_body]
pub(crate) fn quoted(text: &str) -> (shown: String)
    ensures
        shown@ == quoted_text(text@),
{
    format!("{:?}", text)
}

/// Several texts, each behind the separator but the first.
pub open spec fn joined_text(parts: Seq<Seq<char>>, separator: Seq<char>) -> Seq<char>
    decreases parts.len(),
{
    if parts.len() == 0 {
        Seq::empty()
    } else if parts.len() == 1 {
        parts[0]
    } else {
        joined_text(parts.drop_last(), separator) + separator + parts.last()
    }
}

/// Joins texts with a separator between each two.
pub fn join_texts(parts: &Vec<String>, separator: &str) -> (joined: String)
    ensures
        joined@ == joined_text(crate::names::names(parts@), separator@),
{
    let ghost all = crate::names::names(parts@);
    let mut joined = String::new();
    let mut i: usize = 0;
    proof {
        assert(all.take(0) =~= Seq::<Seq<char>>::empty());
    }
    while i < parts.len()
        invariant
            0 <= i <= parts@.len(),
            all == crate::names::names(parts@),
            joined@ == joined_text(all.take(i as int), separator@),
        decreases parts@.len() - i,
    {
        proof {
            assert(all.take(i + 1).drop_last() =~= all.take(i as int));
            assert(all.take(i + 1).last() == all[i as int]);
        }
        if i > 0 {
            joined.append(separator);
        }
        joined.append(parts[i].as_str());
        proof {
            if i == 0 {
                assert(joined@ =~= all[0]);
            }
        }
        i += 1;
    }
    proof {
        assert(all.take(parts@.len() as int) =~= all);
    }
    joined
}

/// Texts can be joined part by part: what is joined of two lists stands on both sides of a
/// separator. A single text is joined to itself, and no texts to nothing.
pub proof fn law_joined_part_by_part(
    a: Seq<Seq<char>>,
    b: Seq<Seq<char>>,
    one: Seq<char>,
    separator: Seq<char>,
)
    ensures
        joined_text(Seq::empty(), separator) == Seq::<char>::empty(),
        joined_text(seq![one], separator) == one,
        a.len() > 0 && b.len() > 0 ==> joined_text(a + b, separator) == joined_text(a, separator)
            + separator + joined_text(b, separator),
    decreases b.len(),
{
    if a.len() > 0 && b.len() > 0 {
        assert((a + b).drop_last() =~= a + b.drop_last());
        assert((a + b).last() == b.last());
        if b.len() == 1 {
            assert(a + b.drop_last() =~= a);
        } else {
            law_joined_part_by_part(a, b.drop_last(), one, separator);
        }
        assert(joined_text(a + b, separator) =~= joined_text(a, separator) + separator
            + joined_text(b, separator));
    }
}

/// The decimal digit of a number below ten.
pub open spec fn digit_text(d: nat) -> char {
    if d == 0 {
        '0'
    } else if d == 1 {
        '1'
    } else if d == 2 {
        '2'
    } else if d == 3 {
        '3'
    } else if d == 4 {
        '4'
    } else if d == 5 {
        '5'
    } else if d == 6 {
        '6'
    } else if d == 7 {
        '7'
    } else if d == 8 {
        '8'
    } else {
        '9'
    }
}

/// A number in decimal notation.
pub open spec fn decimal_text(n: nat) -> Seq<char>
    decreases n,
{
    if n < 10 {
        seq![digit_text(n)]
    } else {
        decimal_text(n / 10).push(digit_text(n % 10))
    }
}

/// Different numbers have different decimal texts.
pub proof fn law_decimal_text_unique(m: nat, n: nat)
    requires
        decimal_text(m) == decimal_text(n),
    ensures
        m == n,
    decreases m,
{
    lemma_decimal_text_length(m);
    lemma_decimal_text_length(n);
    assert(decimal_text(m).last() == digit_text(m % 10));
    assert(decimal_text(n).last() == digit_text(n % 10));
    if m >= 10 && n >= 10 {
        assert(decimal_text(m).drop_last() =~= decimal_text(m / 10));
        assert(decimal_text(n).drop_last() =~= decimal_text(n / 10));
        law_decimal_text_unique(m / 10, n / 10);
    }
}

/// The number that a row of decimal digits is read as, digit by digit.
proof fn lemma_read_push(text: Seq<char>, c: char)
    ensures
        text.push(c).fold_left(0int, |v: int, d: char| 10 * v + (d as int - '0' as int)) == 10
            * text.fold_left(0int, |v: int, d: char| 10 * v + (d as int - '0' as int)) + (c as int
            - '0' as int),
{
    assert(text.push(c).drop_last() =~= text);
    reveal_with_fuel(Seq::fold_left, 2);
}

/// Read digit by digit, the decimal text of a number is that number. It consists of digits, and
/// only that of zero begins with a zero.
pub proof fn law_decimal_text_reads_back(n: nat)
    ensures
        decimal_text(n).fold_left(0int, |v: int, d: char| 10 * v + (d as int - '0' as int)) == n,
        decimal_text(n).len() > 0,
        forall|i: int|
            0 <= i < decimal_text(n).len() ==> '0' <= #[trigger] decimal_text(n)[i] <= '9',
        decimal_text(n)[0] == '0' ==> n == 0,
    decreases n,
{
    let before = if n < 10 {
        Seq::<char>::empty()
    } else {
        decimal_text(n / 10)
    };
    if n >= 10 {
        law_decimal_text_reads_back(n / 10);
    } else {
        reveal_with_fuel(Seq::fold_left, 1);
        assert(decimal_text(n) =~= before.push(digit_text(n)));
    }
    lemma_read_push(before, digit_text(n % 10));
}

proof fn lemma_decimal_text_length(n: nat)
    ensures
        decimal_text(n).len() >= 1,
        n < 10 <==> decimal_text(n).len() == 1,
    decreases n,
{
    if n >= 10 {
        lemma_decimal_text_length(n / 10);
    }
}


fn append_digit(text: &mut String, d: u32)
    requires
        d < 10,
    ensures
        final(text)@ == old(text)@.push(digit_text(d as nat)),
{
    let ghost before = text@;
    let digits = "0123456789";
    proof {
        reveal_strlit("0123456789");
    }
    let one = digits.substring_char(d as usize, d as usize + 1);
    text.append(one);
    proof {
        assert(one@[0] == digit_text(d as nat));
        assert(text@ =~= before.push(digit_text(d as nat)));
    }
}

/// Writes a number in decimal notation.
pub fn decimal(n: u32) -> (text: String)
    ensures
        text@ == decimal_text(n as nat),
    decreases n,
{
    let mut text = if n < 10 {
        String::new()
    } else {
        decimal(n / 10)
    };
    append_digit(&mut text, n % 10);
    proof {
        assert(text@ =~= decimal_text(n as nat));
    }
    text
}

} // verus!
