//! Numbers written into strings.

use vstd::prelude::*;

verus! {

/// The character that stands for a digit in bases up to sixteen.
pub open spec fn digit_char(d: nat) -> char {
    if d == 0 {
        '0'
    } else if d == 1 {
        '1'
    } else if d == 2 {
        '2'
    } else if d == 3 {
        '3'
    } else if d == 4 {
        '4'
    } else if d == 5 {
        '5'
    } else if d == 6 {
        '6'
    } else if d == 7 {
        '7'
    } else if d == 8 {
        '8'
    } else if d == 9 {
        '9'
    } else if d == 10 {
        'a'
    } else if d == 11 {
        'b'
    } else if d == 12 {
        'c'
    } else if d == 13 {
        'd'
    } else if d == 14 {
        'e'
    } else {
        'f'
    }
}

/// A number in decimal notation.
pub open spec fn decimal(n: nat) -> Seq<char>
    decreases n,
{
    if n < 10 {
        seq![digit_char(n)]
    } else {
        decimal(n / 10).push(digit_char(n % 10))
    }
}

/// A byte as two lower-case hexadecimal digits.
pub open spec fn hex_byte(b: u8) -> Seq<char> {
    seq![digit_char((b / 16) as nat), digit_char((b % 16) as nat)]
}

/// A byte string as lower-case hexadecimal digits, two for each byte.
pub open spec fn hex(s: Seq<u8>) -> Seq<char>
    decreases s.len(),
{
    if s.len() == 0 {
        Seq::empty()
    } else {
        hex(s.drop_last()) + hex_byte(s.last())
    }
}

/// Appends one digit.
pub fn push_digit(s: &mut String, d: u64)
    requires
        d < 16,
    ensures
        final(s)@ == old(s)@.push(digit_char(d as nat)),
{
    proof {
        reveal_strlit("0");
        reveal_strlit("1");
        reveal_strlit("2");
        reveal_strlit("3");
        reveal_strlit("4");
        reveal_strlit("5");
        reveal_strlit("6");
        reveal_strlit("7");
        reveal_strlit("8");
        reveal_strlit("9");
        reveal_strlit("a");
        reveal_strlit("b");
        reveal_strlit("c");
        reveal_strlit("d");
        reveal_strlit("e");
        reveal_strlit("f");
    }
    let digit: &str = match d {
        0 => "0",
        1 => "1",
        2 => "2",
        3 => "3",
        4 => "4",
        5 => "5",
        6 => "6",
        7 => "7",
        8 => "8",
        9 => "9",
        10 => "a",
        11 => "b",
        12 => "c",
        13 => "d",
        14 => "e",
        _ => "f",
    };
    assert(digit@ =~= seq![digit_char(d as nat)]);
    s.append(digit);
    assert(s@ =~= old(s)@.push(digit_char(d as nat)));
}

/// Appends a number in decimal notation.
pub fn push_decimal(s: &mut String, n: u64)
    ensures
        final(s)@ == old(s)@ + decimal(n as nat),
    decreases n,
{
    if n >= 10 {
        push_decimal(s, n / 10);
    }
    push_digit(s, n % 10);
    assert(s@ =~= old(s)@ + decimal(n as nat));
}

/// Appends a byte as two hexadecimal digits.
pub fn push_hex_byte(s: &mut String, b: u8)
    ensures
        final(s)@ == old(s)@ + hex_byte(b),
{
    push_digit(s, (b / 16) as u64);
    push_digit(s, (b % 16) as u64);
    assert(s@ =~= old(s)@ + hex_byte(b));
}

/// A string with the characters of `s`.
pub fn text_of(s: &str) -> (r: String)
    ensures
        r@ == s@,
{
    s.to_owned()
}

/// `head`, then `n` in decimal notation, then `tail`.
pub fn text_with_number(head: &str, n: u64, tail: &str) -> (r: String)
    ensures
        r@ == head@ + decimal(n as nat) + tail@,
{
    let mut r: String = text_of(head);
    push_decimal(&mut r, n);
    r.append(tail);
    r
}

/// `head`, then `b` as two hexadecimal digits.
pub fn text_with_hex_byte(head: &str, b: u8) -> (r: String)
    ensures
        r@ == head@ + hex_byte(b),
{
    let mut r: String = text_of(head);
    push_hex_byte(&mut r, b);
    r
}

/// The characters of a string.
pub fn chars_of(s: &str) -> (r: Vec<char>)
    ensures
        r@ == s@,
{
    let n: usize = s.unicode_len();
    let mut r: Vec<char> = Vec::new();
    let mut i: usize = 0;
    while i < n
        invariant
            i <= n == s@.len(),
            r@ == s@.take(i as int),
        decreases n - i,
    {
        r.push(s.get_char(i));
        assert(r@ =~= s@.take(i + 1));
        i = i + 1;
    }
    assert(s@.take(n as int) =~= s@);
    r
}

/// A white-space character.
pub open spec fn is_white(c: char) -> bool {
    let n = c as u32;
    ||| 0x09 <= n <= 0x0d
    ||| n == 0x20
    ||| n == 0x85
    ||| n == 0xa0
    ||| n == 0x1680
    ||| 0x2000 <= n <= 0x200a
    ||| n == 0x2028
    ||| n == 0x2029
    ||| n == 0x202f
    ||| n == 0x205f
    ||| n == 0x3000
}

/// The length of the longest prefix without white space.
pub open spec fn word_len(s: Seq<char>) -> nat
    decreases s.len(),
{
    if s.len() == 0 || is_white(s[0]) {
        0
    } else {
        1 + word_len(s.skip(1))
    }
}

/// The words of a text: its maximal parts without white space.
pub open spec fn words(s: Seq<char>) -> Seq<Seq<char>>
    decreases s.len(),
{
    if s.len() == 0 {
        Seq::empty()
    } else if is_white(s[0]) {
        words(s.skip(1))
    } else {
        let n = word_len(s);
        if 0 < n <= s.len() {
            seq![s.take(n as int)] + words(s.skip(n as int))
        } else {
            Seq::empty()
        }
    }
}

/// The length of the longest prefix without a line feed.
pub open spec fn line_len(s: Seq<char>) -> nat
    decreases s.len(),
{
    if s.len() == 0 || s[0] == '\n' {
        0
    } else {
        1 + line_len(s.skip(1))
    }
}

/// The parts of a text between line feeds.
pub open spec fn lines(s: Seq<char>) -> Seq<Seq<char>>
    decreases s.len(),
{
    let n = line_len(s);
    if n >= s.len() {
        seq![s]
    } else {
        seq![s.take(n as int)] + lines(s.skip(n as int + 1))
    }
}

pub proof fn word_len_bound(s: Seq<char>)
    ensures
        word_len(s) <= s.len(),
        forall|i: int| 0 <= i < word_len(s) ==> !is_white(#[trigger] s[i]),
        word_len(s) < s.len() ==> is_white(s[word_len(s) as int]),
    decreases s.len(),
{
    if s.len() > 0 && !is_white(s[0]) {
        word_len_bound(s.skip(1));
        assert forall|i: int| 0 <= i < word_len(s) implies !is_white(#[trigger] s[i]) by {
            if i > 0 {
                assert(s.skip(1)[i - 1] == s[i]);
            }
        }
    }
}

/// The value of a decimal digit.
pub open spec fn digit_value(c: char) -> Option<nat> {
    if '0' <= c <= '9' {
        Some((c as u32 - 48) as nat)
    } else {
        None
    }
}

/// The number that a string of decimal digits stands for.
pub open spec fn digits_value(s: Seq<char>) -> Option<nat>
    decreases s.len(),
{
    if s.len() == 0 {
        Some(0)
    } else {
        match (digits_value(s.drop_last()), digit_value(s.last())) {
            (Some(h), Some(d)) => Some(h * 10 + d),
            _ => None,
        }
    }
}

/// The 64-bit number that a text stands for: decimal digits, a plus sign before
/// them allowed.
pub open spec fn number(s: Seq<char>) -> Option<u64> {
    let t = if s.len() > 0 && s[0] == '+' {
        s.skip(1)
    } else {
        s
    };
    if t.len() == 0 {
        None
    } else {
        match digits_value(t) {
            Some(n) => if n <= u64::MAX {
                Some(n as u64)
            } else {
                None
            },
            None => None,
        }
    }
}

/// A number in decimal notation reads back as itself.
pub proof fn decimal_reads_back(n: nat)
    ensures
        digits_value(decimal(n)) == Some(n),
        decimal(n).len() > 0,
        forall|i: int| 0 <= i < decimal(n).len() ==> '0' <= #[trigger] decimal(n)[i] <= '9',
    decreases n,
{
    if n < 10 {
        assert(decimal(n).drop_last() =~= Seq::<char>::empty());
        assert(digits_value(Seq::<char>::empty()) == Some(0nat));
    } else {
        decimal_reads_back(n / 10);
        let d = digit_char(n % 10);
        assert(decimal(n).drop_last() =~= decimal(n / 10));
        assert(decimal(n).last() == d);
    }
}

/// A 64-bit number in decimal notation reads back as itself.
pub proof fn number_reads_back(n: u64)
    ensures
        number(decimal(n as nat)) == Some(n),
{
    decimal_reads_back(n as nat);
    let s = decimal(n as nat);
    assert('0' <= s[0] <= '9');
}

/// The value grows with the digits.
proof fn digits_value_monotonic(s: Seq<char>, n: int)
    requires
        0 <= n <= s.len(),
    ensures
        digits_value(s) matches Some(v) ==> digits_value(s.take(n)) matches Some(w) && w <= v,
    decreases s.len(),
{
    if n < s.len() {
        assert(s.drop_last().take(n) =~= s.take(n));
        digits_value_monotonic(s.drop_last(), n);
    } else {
        assert(s.take(n) =~= s);
    }
}

/// Reads a 64-bit number.
pub fn parse_number(s: &[char]) -> (r: Option<u64>)
    ensures
        r == number(s@),
{
    let n: usize = s.len();
    let start: usize = if n > 0 && s[0] == '+' {
        1
    } else {
        0
    };
    if start >= n {
        return None;
    }
    let ghost t = s@.skip(start as int);
    assert(start == 0 ==> t =~= s@);
    let mut v: u64 = 0;
    let mut i: usize = start;
    assert(t.take(0) =~= Seq::<char>::empty());
    while i < n
        invariant
            start <= i <= n == s@.len(),
            start < n,
            t == s@.skip(start as int),
            t == (if s@.len() > 0 && s@[0] == '+' {
                s@.skip(1)
            } else {
                s@
            }),
            digits_value(t.take(i - start)) == Some(v as nat),
        decreases n - i,
    {
        let c: char = s[i];
        proof {
            let k = i - start;
            assert(t.take(k + 1).drop_last() =~= t.take(k));
            assert(t.take(k + 1).last() == c);
            digits_value_monotonic(t, k + 1);
        }
        let d: u64 = match c {
            '0' => 0,
            '1' => 1,
            '2' => 2,
            '3' => 3,
            '4' => 4,
            '5' => 5,
            '6' => 6,
            '7' => 7,
            '8' => 8,
            '9' => 9,
            _ => {
                return None;
            },
        };
        if v > 1844674407370955161 || v * 10 > 18446744073709551615 - d {
            return None;
        }
        v = v * 10 + d;
        i = i + 1;
    }
    assert(t.take(n - start) =~= t);
    Some(v)
}

/// Whether a character is white space.
pub fn white(c: char) -> (r: bool)
    ensures
        r == is_white(c),
{
    let n: u32 = c as u32;
    (0x09 <= n && n <= 0x0d) || n == 0x20 || n == 0x85 || n == 0xa0 || n == 0x1680 || (0x2000 <= n
        && n <= 0x200a) || n == 0x2028 || n == 0x2029 || n == 0x202f || n == 0x205f || n == 0x3000
}

/// The words of a part of a text.
pub fn split_words(s: &[char]) -> (r: Vec<Vec<char>>)
    ensures
        r@.len() == words(s@).len(),
        forall|i: int| 0 <= i < r@.len() ==> (#[trigger] r@[i])@ == words(s@)[i],
{
    let n: usize = s.len();
    let mut r: Vec<Vec<char>> = Vec::new();
    let mut i: usize = 0;
    assert(s@.skip(0) =~= s@);
    while i < n
        invariant
            i <= n == s@.len(),
            r@.len() + words(s@.skip(i as int)).len() == words(s@).len(),
            forall|j: int| 0 <= j < r@.len() ==> (#[trigger] r@[j])@ == words(s@)[j],
            forall|j: int|
                0 <= j < words(s@.skip(i as int)).len() ==> words(s@)[r@.len() + j]
                    == #[trigger] words(s@.skip(i as int))[j],
        decreases n - i,
    {
        let ghost rest = s@.skip(i as int);
        let ghost all = words(s@);
        if white(s[i]) {
            assert(rest.skip(1) =~= s@.skip(i + 1));
            i = i + 1;
        } else {
            let mut w: Vec<char> = Vec::new();
            let start: usize = i;
            proof {
                word_len_bound(rest);
            }
            while i < n && !white(s[i])
                invariant
                    start <= i <= n == s@.len(),
                    rest == s@.skip(start as int),
                    w@ == s@.subrange(start as int, i as int),
                    i - start <= word_len(rest),
                    word_len(rest) <= rest.len(),
                    forall|j: int| 0 <= j < word_len(rest) ==> !is_white(#[trigger] rest[j]),
                    word_len(rest) < rest.len() ==> is_white(rest[word_len(rest) as int]),
                decreases n - i,
            {
                assert(rest[i - start] == s@[i as int]);
                w.push(s[i]);
                i = i + 1;
                assert(w@ =~= s@.subrange(start as int, i as int));
            }
            proof {
                let k = i - start;
                if k < word_len(rest) {
                    assert(!is_white(rest[k]));
                    assert(rest[k] == s@[i as int]);
                }
                assert(k == word_len(rest));
                assert(k > 0) by {
                    assert(rest[0] == s@[start as int]);
                }
                assert(w@ =~= rest.take(k));
                assert(rest.skip(k) =~= s@.skip(i as int));
                let tail = words(s@.skip(i as int));
                assert(words(rest) =~= seq![w@] + tail);
                assert(words(rest)[0] == w@);
                assert(all[r@.len() as int] == words(rest)[0]);
                assert forall|j: int| 0 <= j < tail.len() implies all[r@.len() + 1 + j]
                    == #[trigger] tail[j] by {
                    assert(words(rest)[j + 1] == tail[j]);
                }
            }
            r.push(w);
        }
    }
    r
}

/// The lines of a text.
pub fn split_lines(s: &[char]) -> (r: Vec<Vec<char>>)
    ensures
        r@.len() == lines(s@).len(),
        forall|i: int| 0 <= i < r@.len() ==> (#[trigger] r@[i])@ == lines(s@)[i],
{
    let n: usize = s.len();
    let mut r: Vec<Vec<char>> = Vec::new();
    let mut start: usize = 0;
    assert(s@.skip(0) =~= s@);
    loop
        invariant
            start <= n == s@.len(),
            r@.len() + lines(s@.skip(start as int)).len() == lines(s@).len(),
            forall|j: int| 0 <= j < r@.len() ==> (#[trigger] r@[j])@ == lines(s@)[j],
            forall|j: int|
                0 <= j < lines(s@.skip(start as int)).len() ==> lines(s@)[r@.len() + j]
                    == #[trigger] lines(s@.skip(start as int))[j],
        decreases n - start,
    {
        let ghost rest = s@.skip(start as int);
        let mut w: Vec<char> = Vec::new();
        let mut i: usize = start;
        assert(rest.skip(0) =~= rest);
        while i < n && s[i] != '\n'
            invariant
                start <= i <= n == s@.len(),
                rest == s@.skip(start as int),
                w@ == rest.take(i - start),
                line_len(rest) == (i - start) + line_len(rest.skip(i - start)),
            decreases n - i,
        {
            proof {
                let k = i - start;
                assert(rest.skip(k)[0] == s@[i as int]);
                assert(rest.skip(k).skip(1) =~= rest.skip(k + 1));
            }
            w.push(s[i]);
            i = i + 1;
            assert(w@ =~= rest.take(i - start));
        }
        proof {
            let k = i - start;
            if i < n {
                assert(rest.skip(k)[0] == s@[i as int]);
                assert(rest.skip(k + 1) =~= s@.skip(i + 1));
            } else {
                assert(rest.skip(k).len() == 0);
                assert(rest.take(k) =~= rest);
            }
            assert(line_len(rest) == k);
            assert(lines(rest)[0] == w@);
            assert(lines(s@)[r@.len() as int] == lines(rest)[0]);
        }
        r.push(w);
        if i >= n {
            return r;
        }
        proof {
            let tail = lines(s@.skip(i + 1));
            assert(lines(rest) =~= seq![w@] + tail);
            assert forall|j: int| 0 <= j < tail.len() implies lines(s@)[r@.len() + j]
                == #[trigger] tail[j] by {
                assert(lines(rest)[j + 1] == tail[j]);
            }
        }
        start = i + 1;
    }
}

/// An ASCII capital as its small letter; other characters as they are.
pub open spec fn lower(c: char) -> char {
    if 'A' <= c <= 'Z' {
        ((c as u32 + 32) as u32) as char
    } else {
        c
    }
}

pub open spec fn lowered(s: Seq<char>) -> Seq<char> {
    Seq::new(s.len(), |i: int| lower(s[i]))
}

/// An ASCII capital as its small letter; other characters as they are.
pub fn to_lower(c: char) -> (r: char)
    ensures
        r == lower(c),
{
    match c {
        'A' => 'a',
        'B' => 'b',
        'C' => 'c',
        'D' => 'd',
        'E' => 'e',
        'F' => 'f',
        'G' => 'g',
        'H' => 'h',
        'I' => 'i',
        'J' => 'j',
        'K' => 'k',
        'L' => 'l',
        'M' => 'm',
        'N' => 'n',
        'O' => 'o',
        'P' => 'p',
        'Q' => 'q',
        'R' => 'r',
        'S' => 's',
        'T' => 't',
        'U' => 'u',
        'V' => 'v',
        'W' => 'w',
        'X' => 'x',
        'Y' => 'y',
        'Z' => 'z',
        _ => c,
    }
}

/// The text with its ASCII capitals as small letters.
pub fn lower_all(s: &[char]) -> (r: Vec<char>)
    ensures
        r@ == lowered(s@),
{
    let mut r: Vec<char> = Vec::new();
    let mut i: usize = 0;
    while i < s.len()
        invariant
            i <= s@.len(),
            r@ == lowered(s@).take(i as int),
        decreases s.len() - i,
    {
        r.push(to_lower(s[i]));
        assert(r@ =~= lowered(s@).take(i + 1));
        i = i + 1;
    }
    assert(r@ =~= lowered(s@));
    r
}

/// Whether two texts are equal.
pub fn chars_eq(a: &[char], b: &[char]) -> (r: bool)
    ensures
        r == (a@ == b@),
{
    if a.len() != b.len() {
        return false;
    }
    let mut i: usize = 0;
    while i < a.len()
        invariant
            i <= a@.len() == b@.len(),
            a@.take(i as int) == b@.take(i as int),
        decreases a.len() - i,
    {
        if a[i] != b[i] {
            assert(a@[i as int] != b@[i as int]);
            return false;
        }
        assert(a@.take(i + 1) =~= a@.take(i as int).push(a@[i as int]));
        assert(b@.take(i + 1) =~= b@.take(i as int).push(b@[i as int]));
        i = i + 1;
    }
    assert(a@.take(a@.len() as int) =~= a@);
    assert(b@.take(b@.len() as int) =~= b@);
    true
}

/// The lower-case hexadecimal digits of a byte string.
pub fn hex_text(s: &[u8]) -> (r: String)
    ensures
        r@ == hex(s@),
{
    let mut r: String = String::new();
    let mut i: usize = 0;
    assert(s@.take(0) =~= Seq::<u8>::empty());
    assert(r@ =~= hex(s@.take(0)));
    while i < s.len()
        invariant
            i <= s@.len(),
            r@ == hex(s@.take(i as int)),
        decreases s.len() - i,
    {
        proof {
            assert(s@.take(i + 1).drop_last() =~= s@.take(i as int));
            assert(s@.take(i + 1).last() == s@[i as int]);
        }
        push_hex_byte(&mut r, s[i]);
        i = i + 1;
    }
    assert(s@.take(s@.len() as int) =~= s@);
    r
}

/// `n` zeros.
pub open spec fn zeros(n: nat) -> Seq<char> {
    Seq::new(n, |i: int| '0')
}

/// A number in decimal notation, with zeros before it up to `width` digits.
pub open spec fn padded(n: nat, width: nat) -> Seq<char> {
    let d = decimal(n);
    if d.len() < width {
        zeros((width - d.len()) as nat) + d
    } else {
        d
    }
}

/// The number of digits of a number.
fn digit_count(n: u64) -> (r: usize)
    ensures
        r == decimal(n as nat).len(),
        r <= 20,
    decreases n,
{
    let mut r: usize = 1;
    let mut m: u64 = n;
    let mut room: u64 = 18446744073709551615;
    while m >= 10
        invariant
            m <= room,
            1 <= r <= 20,
            decimal(n as nat).len() == decimal(m as nat).len() + r - 1,
            r == 1 ==> room <= 18446744073709551615,
            r == 2 ==> room <= 1844674407370955161,
            r == 3 ==> room <= 184467440737095516,
            r == 4 ==> room <= 18446744073709551,
            r == 5 ==> room <= 1844674407370955,
            r == 6 ==> room <= 184467440737095,
            r == 7 ==> room <= 18446744073709,
            r == 8 ==> room <= 1844674407370,
            r == 9 ==> room <= 184467440737,
            r == 10 ==> room <= 18446744073,
            r == 11 ==> room <= 1844674407,
            r == 12 ==> room <= 184467440,
            r == 13 ==> room <= 18446744,
            r == 14 ==> room <= 1844674,
            r == 15 ==> room <= 184467,
            r == 16 ==> room <= 18446,
            r == 17 ==> room <= 1844,
            r == 18 ==> room <= 184,
            r == 19 ==> room <= 18,
            r == 20 ==> room <= 1,
        decreases m,
    {
        m = m / 10;
        room = room / 10;
        r = r + 1;
    }
    r
}

/// Appends a number with zeros before it up to `width` digits.
pub fn push_padded(s: &mut String, n: u64, width: usize)
    ensures
        final(s)@ == old(s)@ + padded(n as nat, width as nat),
{
    let d: usize = digit_count(n);
    let mut i: usize = d;
    assert(s@ =~= old(s)@ + zeros(0));
    while i < width
        invariant
            d <= i,
            i <= width || i == d,
            s@ == old(s)@ + zeros((i - d) as nat),
        decreases width - i,
    {
        push_digit(s, 0);
        i = i + 1;
        assert(s@ =~= old(s)@ + zeros((i - d) as nat));
    }
    push_decimal(s, n);
    assert(s@ =~= old(s)@ + padded(n as nat, width as nat));
}

/// The text `part` occurs in `s`.
pub open spec fn has_part(s: Seq<char>, part: Seq<char>) -> bool {
    exists|i: int|
        0 <= i && i + part.len() <= s.len() && #[trigger] s.subrange(i, i + part.len()) == part
}

/// Whether a text occurs in another.
pub fn contains_part(s: &[char], part: &[char]) -> (r: bool)
    ensures
        r == has_part(s@, part@),
{
    let n: usize = part.len();
    if n > s.len() {
        return false;
    }
    let total: usize = s.len();
    let last: usize = total - n;
    let mut i: usize = 0;
    while i <= last
        invariant
            n == part@.len(),
            total == s@.len(),
            last == s@.len() - n,
            i <= last + 1,
            forall|j: int| 0 <= j < i ==> #[trigger] s@.subrange(j, j + n) != part@,
        decreases last + 1 - i,
    {
        let mut k: usize = 0;
        while k < n && s[i + k] == part[k]
            invariant
                n == part@.len(),
                i + n <= total == s@.len(),
                k <= n,
                forall|j: int| 0 <= j < k ==> s@[i + j] == #[trigger] part@[j],
            decreases n - k,
        {
            k = k + 1;
        }
        if k == n {
            assert(s@.subrange(i as int, i + n) =~= part@);
            return true;
        }
        proof {
            if s@.subrange(i as int, i + n) == part@ {
                assert(s@.subrange(i as int, i + n)[k as int] == part@[k as int]);
            }
        }
        if i == last {
            return false;
        }
        i = i + 1;
    }
    false
}

} // verus!
