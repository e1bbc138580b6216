//! Words and decimal numbers in the arguments and replies of commands.

use vstd::prelude::*;
use vstd::string::StringExecFns;

use crate::codec;

verus! {

/// An ASCII letter in lower case; any other byte as it is.
pub open spec fn lowercase(b: u8) -> u8 {
    if 0x41 <= b <= 0x5A {
        (b + 0x20) as u8
    } else {
        b
    }
}

/// Whether the bytes spell a lower-case word, in letters of either case.
pub open spec fn spelled(bytes: Seq<u8>, word: Seq<char>) -> bool {
    &&& bytes.len() == word.len()
    &&& forall|i: int|
        0 <= i < bytes.len() ==> lowercase(#[trigger] bytes[i]) as int == word[i] as int
}

/// Whether the bytes spell `word`, in letters of either case.
pub fn spells(bytes: &[u8], word: &str) -> (r: bool)
    requires
        word.is_ascii(),
    ensures
        r == spelled(bytes@, word@),
{
    let w = word.as_bytes();
    if bytes.len() != w.len() {
        return false;
    }
    let mut i: usize = 0;
    while i < bytes.len()
        invariant
            i <= bytes.len(),
            bytes@.len() == w@.len(),
            w@ == Seq::new(word@.len(), |i: int| word@[i] as u8),
            word.is_ascii(),
            forall|j: int| 0 <= j < i ==> lowercase(#[trigger] bytes@[j]) as int == word@[j] as int,
        decreases bytes.len() - i,
    {
        let b: u8 = bytes[i];
        let low: u8 = if 0x41 <= b && b <= 0x5A {
            b + 0x20
        } else {
            b
        };
        if low != w[i] {
            assert(lowercase(bytes@[i as int]) as int != word@[i as int] as int);
            return false;
        }
        i += 1;
    }
    true
}

/// The number that decimal digits stand for; none if there is another byte among
/// them.
pub open spec fn digits_value(s: Seq<u8>) -> Option<nat>
    decreases s.len(),
{
    if s.len() == 0 {
        Some(0)
    } else {
        match digits_value(s.drop_last()) {
            Some(n) => if 0x30 <= s.last() <= 0x39 {
                Some((10 * n + (s.last() - 0x30)) as nat)
            } else {
                None
            },
            None => None,
        }
    }
}

/// The number that the bytes say: one or more decimal digits, behind an optional
/// plus sign.
pub open spec fn unsigned(s: Seq<u8>) -> Option<nat> {
    let digits = if s.len() > 0 && s[0] == 0x2B {
        s.drop_first()
    } else {
        s
    };
    if digits.len() == 0 {
        None
    } else {
        digits_value(digits)
    }
}

/// The number that the bytes say, if a `usize` holds it.
pub open spec fn usize_in(s: Seq<u8>) -> Option<usize> {
    match unsigned(s) {
        Some(n) => if n <= usize::MAX {
            Some(n as usize)
        } else {
            None
        },
        None => None,
    }
}

/// Parses an unsigned decimal number.
pub fn parse_usize(bytes: &[u8]) -> (r: Option<usize>)
    ensures
        r == usize_in(bytes@),
{
    let mut start: usize = 0;
    if bytes.len() > 0 && bytes[0] == 0x2B {
        start = 1;
    }
    let ghost digits = bytes@.skip(start as int);
    assert(digits =~= if bytes@.len() > 0 && bytes@[0] == 0x2B {
        bytes@.drop_first()
    } else {
        bytes@
    });
    if start == bytes.len() {
        return None;
    }
    let mut n: usize = 0;
    let mut i: usize = start;
    assert(digits.take(0) =~= seq![]);
    while i < bytes.len()
        invariant
            start <= i <= bytes@.len(),
            digits == bytes@.skip(start as int),
            digits.len() > 0,
            unsigned(bytes@) == digits_value(digits),
            digits_value(digits.take(i - start)) == Some(n as nat),
        decreases bytes@.len() - i,
    {
        let b: u8 = bytes[i];
        proof {
            let part = digits.take(i - start + 1);
            assert(part.drop_last() =~= digits.take(i - start));
            assert(part.last() == b);
            if digits_value(digits) is Some {
                lemma_digits_grow(digits, i - start + 1);
            }
        }
        if b < 0x30 || b > 0x39 {
            return None;
        }
        let d: usize = (b - 0x30) as usize;
        if n > usize::MAX / 10 || d > usize::MAX - 10 * n {
            return None;
        }
        n = 10 * n + d;
        i += 1;
    }
    assert(digits.take(i - start) =~= digits);
    Some(n)
}

/// The first of some digits stand for no more than all of them.
proof fn lemma_digits_grow(s: Seq<u8>, i: int)
    requires
        0 <= i <= s.len(),
        digits_value(s) is Some,
    ensures
        digits_value(s.take(i)) is Some,
        digits_value(s.take(i))->0 <= digits_value(s)->0,
    decreases s.len(),
{
    if i == s.len() {
        assert(s.take(i) =~= s);
    } else {
        lemma_digits_grow(s.drop_last(), i);
        assert(s.drop_last().take(i) =~= s.take(i));
    }
}

/// A digit.
pub open spec fn digit(d: nat) -> char {
    (0x30 + d) as char
}

/// A number in decimal digits.
pub open spec fn decimal(n: nat) -> Seq<char>
    decreases n,
{
    if n < 10 {
        seq![digit(n)]
    } else {
        decimal(n / 10).push(digit(n % 10))
    }
}

/// Appends one decimal digit.
fn push_digit(s: &mut String, d: u64)
    requires
        d < 10,
    ensures
        final(s)@ == old(s)@.push(digit(d as nat)),
{
    proof {
        reveal_strlit("0");
        reveal_strlit("1");
        reveal_strlit("2");
        reveal_strlit("3");
        reveal_strlit("4");
        reveal_strlit("5");
        reveal_strlit("6");
        reveal_strlit("7");
        reveal_strlit("8");
        reveal_strlit("9");
    }
    let digits: &str = match d {
        0 => "0",
        1 => "1",
        2 => "2",
        3 => "3",
        4 => "4",
        5 => "5",
        6 => "6",
        7 => "7",
        8 => "8",
        _ => "9",
    };
    s.append(digits);
    assert(s@ =~= old(s)@.push(digit(d as nat)));
}

/// Appends a number in decimal digits.
pub fn push_decimal(s: &mut String, n: u64)
    ensures
        final(s)@ == old(s)@ + decimal(n as nat),
    decreases n,
{
    if n >= 10 {
        push_decimal(s, n / 10);
    }
    push_digit(s, n % 10);
    assert(s@ =~= old(s)@ + decimal(n as nat));
}

/// The bytes of a text.
pub fn bytes_of(s: &str) -> (r: Vec<u8>)
    ensures
        r@ == vstd::utf8::encode_utf8(s@),
{
    codec::copied(s.as_bytes())
}

/// A number in decimal digits reads back as that number.
pub proof fn law_decimals_read_back(n: nat)
    ensures
        unsigned(vstd::utf8::encode_utf8(decimal(n))) == Some(n),
{
    let text = decimal(n);
    lemma_decimal_is_ascii(n);
    vstd::utf8::is_ascii_chars_encode_utf8(text);
    let bytes = text.map_values(|c: char| c as u8);
    assert(vstd::utf8::encode_utf8(text) =~= bytes);
    lemma_decimal_value(n);
    assert(bytes.len() > 0);
    assert(bytes[0] == text[0] as u8);
}

proof fn lemma_decimal_is_ascii(n: nat)
    ensures
        vstd::utf8::is_ascii_chars(decimal(n)),
        decimal(n).len() > 0,
        0x30 <= decimal(n)[0] as int <= 0x39,
    decreases n,
{
    if n >= 10 {
        lemma_decimal_is_ascii(n / 10);
    }
}

proof fn lemma_decimal_value(n: nat)
    ensures
        digits_value(decimal(n).map_values(|c: char| c as u8)) == Some(n),
    decreases n,
{
    let bytes = decimal(n).map_values(|c: char| c as u8);
    reveal_with_fuel(digits_value, 2);
    if n < 10 {
        assert(bytes.drop_last() =~= seq![]);
        assert(bytes.last() == 0x30 + n);
    } else {
        lemma_decimal_value(n / 10);
        assert(bytes.drop_last() =~= decimal(n / 10).map_values(|c: char| c as u8));
        assert(bytes.last() == 0x30 + n % 10);
    }
}

/// Bytes spell no more than one word.
pub proof fn law_bytes_spell_one_word(bytes: Seq<u8>, a: Seq<char>, b: Seq<char>)
    requires
        spelled(bytes, a),
        spelled(bytes, b),
    ensures
        a == b,
{
    assert forall|i: int| 0 <= i < a.len() implies a[i] == b[i] by {
        assert(lowercase(bytes[i]) as int == a[i] as int);
        assert(lowercase(bytes[i]) as int == b[i] as int);
    }
    assert(a =~= b);
}

/// A word of lower-case letters and digits is spelled by its own bytes.
pub proof fn law_word_is_spelled_by_its_bytes(word: Seq<char>)
    requires
        forall|i: int|
            0 <= i < word.len() ==> 0x61 <= (#[trigger] word[i]) as int <= 0x7A || 0x30
                <= word[i] as int <= 0x39,
    ensures
        spelled(word.map_values(|c: char| c as u8), word),
{
    let bytes = word.map_values(|c: char| c as u8);
    assert forall|i: int| 0 <= i < bytes.len() implies lowercase(#[trigger] bytes[i]) as int
        == word[i] as int by {
        assert(bytes[i] == word[i] as u8);
    }
}

/// Whether two bytes are the same, or the same letter in upper and lower case.
pub open spec fn same_letter(a: u8, b: u8) -> bool {
    ||| a == b
    ||| 0x41 <= a <= 0x5A && b == a + 0x20
    ||| 0x41 <= b <= 0x5A && a == b + 0x20
}

/// It makes no difference whether a word is written in upper or lower case, and
/// every other difference makes it another word.
pub proof fn law_case_makes_no_difference(a: Seq<u8>, b: Seq<u8>, word: Seq<char>)
    requires
        spelled(a, word),
    ensures
        spelled(b, word) <==> a.len() == b.len() && forall|i: int|
            0 <= i < a.len() ==> same_letter(#[trigger] a[i], b[i]),
{
    if spelled(b, word) {
        assert forall|i: int| 0 <= i < a.len() implies same_letter(#[trigger] a[i], b[i]) by {
            assert(lowercase(a[i]) as int == word[i] as int);
            assert(lowercase(b[i]) as int == word[i] as int);
        }
    }
    if a.len() == b.len() && forall|i: int|
        0 <= i < a.len() ==> same_letter(#[trigger] a[i], b[i]) {
        assert forall|i: int| 0 <= i < b.len() implies lowercase(#[trigger] b[i]) as int
            == word[i] as int by {
            assert(same_letter(a[i], b[i]));
            assert(lowercase(a[i]) as int == word[i] as int);
        }
    }
}

/// Numbers are read in decimal: a digit alone is its own value, a digit behind a
/// number counts once and the number ten times, and no other byte is read.
pub proof fn law_numbers_are_read_in_decimal(s: Seq<u8>, b: u8)
    ensures
        unsigned(seq![]) is None,
        unsigned(seq![b]) == if 0x30 <= b <= 0x39 {
            Some((b - 0x30) as nat)
        } else {
            None::<nat>
        },
        unsigned(s) is Some && 0x30 <= b <= 0x39 ==> unsigned(s.push(b)) == Some(
            (10 * unsigned(s)->0 + (b - 0x30)) as nat,
        ),
        s.len() > 0 && !(0x30 <= b <= 0x39) ==> unsigned(s.push(b)) is None,
        s.len() > 0 && s != seq![0x2Bu8] && unsigned(s) is None ==> unsigned(s.push(b)) is None,
{
    reveal_with_fuel(digits_value, 2);
    if s.len() == 1 && s[0] == 0x2B {
        assert(s =~= seq![0x2Bu8]);
    }
    assert(seq![b].drop_last() =~= seq![]);
    assert(seq![b].drop_first() =~= seq![]);
    let more = s.push(b);
    assert(more.drop_last() =~= s);
    if s.len() > 0 {
        assert(more.drop_first() =~= s.drop_first().push(b));
        assert(s.drop_first().push(b).drop_last() =~= s.drop_first());
    }
}

/// A plus sign in front of a number makes no difference, but there is only one.
pub proof fn law_plus_sign_makes_no_difference(s: Seq<u8>)
    requires
        s.len() > 0,
    ensures
        s[0] != 0x2B ==> unsigned(seq![0x2Bu8] + s) == unsigned(s),
        s[0] == 0x2B ==> unsigned(seq![0x2Bu8] + s) is None,
    decreases s.len(),
{
    assert((seq![0x2Bu8] + s).drop_first() =~= s);
    if s[0] == 0x2B {
        lemma_sign_is_no_digit(s);
    }
}

proof fn lemma_sign_is_no_digit(s: Seq<u8>)
    requires
        s.len() > 0,
        s[0] == 0x2B,
    ensures
        digits_value(s) is None,
    decreases s.len(),
{
    if s.len() > 1 {
        lemma_sign_is_no_digit(s.drop_last());
    } else {
        assert(s.last() == s[0]);
    }
}

/// A number is taken just if it is read and is no larger than a `usize` can be.
pub proof fn law_numbers_are_taken_as_they_are_read(s: Seq<u8>, n: usize)
    ensures
        usize_in(s) == Some(n) <==> unsigned(s) == Some(n as nat),
        usize_in(s) is None <==> unsigned(s) is None || unsigned(s)->0 > usize::MAX,
{
}

/// A number is written in digits only, and without zeros in front.
pub proof fn law_numbers_are_written_in_short(n: nat)
    ensures
        decimal(n).len() > 0,
        forall|i: int|
            0 <= i < decimal(n).len() ==> 0x30 <= (#[trigger] decimal(n)[i]) as int <= 0x39,
        decimal(n)[0] == '0' ==> n == 0 && decimal(n).len() == 1,
    decreases n,
{
    if n >= 10 {
        law_numbers_are_written_in_short(n / 10);
        assert(decimal(n)[0] == decimal(n / 10)[0]);
        assert forall|i: int| 0 <= i < decimal(n).len() implies 0x30 <= (
        #[trigger] decimal(n)[i]) as int <= 0x39 by {
            if i < decimal(n / 10).len() {
                assert(decimal(n)[i] == decimal(n / 10)[i]);
            }
        }
    }
}

} // verus!
