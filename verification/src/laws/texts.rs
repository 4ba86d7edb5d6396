//! Texts: numbers, words and lines, and what shipping reads from them.

use vstd::prelude::*;
use crate::shipping::{best_seq, heartbeat_of, hex_digit, is_digest, line_fault, sample_of};
use crate::text::{
    decimal, decimal_reads_back, digit_char, digits_value, has_part, hex, hex_byte, is_white,
    line_len, lines, lower, number, padded, word_len, word_len_bound, words,
};

verus! {

/// The number that digits stand for, the most significant first.
pub open spec fn read_digits(s: Seq<char>) -> int {
    s.fold_left(0int, |n: int, c: char| 10 * n + (c as u32 - 48))
}

/// All characters are decimal digits.
pub open spec fn all_digits(s: Seq<char>) -> bool {
    forall|i: int| 0 <= i < s.len() ==> '0' <= #[trigger] s[i] <= '9'
}

proof fn digits_are_read(s: Seq<char>)
    ensures
        digits_value(s) is Some <==> all_digits(s),
        digits_value(s) matches Some(n) ==> n == read_digits(s),
    decreases s.len(),
{
    if s.len() > 0 {
        let init = s.drop_last();
        digits_are_read(init);
        if all_digits(s) {
            assert forall|i: int| 0 <= i < init.len() implies '0' <= #[trigger] init[i]
                <= '9' by {
                assert(s[i] == init[i]);
            }
            assert('0' <= s[s.len() - 1] <= '9');
        }
        if digits_value(s) is Some {
            assert forall|i: int| 0 <= i < s.len() implies '0' <= #[trigger] s[i] <= '9' by {
                if i < init.len() {
                    assert(s[i] == init[i]);
                }
            }
        }
    }
}

/// A number is written in decimal digits without a zero in front, and reads back. A text is
/// read as a number where it is digits, perhaps behind a plus sign, of a value that fits 64
/// bits; and only then.
pub proof fn numbers_are_written_and_read(n: nat, s: Seq<char>)
    ensures
        all_digits(decimal(n)),
        read_digits(decimal(n)) == n,
        n > 0 ==> decimal(n)[0] != '0',
        n == 0 ==> decimal(n) == seq!['0'],
        ({
            let t = if s.len() > 0 && s[0] == '+' {
                s.skip(1)
            } else {
                s
            };
            number(s) matches Some(x) ==> t.len() > 0 && all_digits(t) && read_digits(t) == x
        }),
        ({
            let t = if s.len() > 0 && s[0] == '+' {
                s.skip(1)
            } else {
                s
            };
            number(s) is None ==> t.len() == 0 || !all_digits(t) || read_digits(t) > u64::MAX
        }),
    decreases n,
{
    decimal_reads_back(n);
    digits_are_read(decimal(n));
    let t = if s.len() > 0 && s[0] == '+' {
        s.skip(1)
    } else {
        s
    };
    digits_are_read(t);
    if n >= 10 {
        numbers_are_written_and_read(n / 10, s);
        assert(decimal(n)[0] == decimal(n / 10)[0]) by {
            decimal_reads_back(n / 10);
        }
    }
}

/// A padded number has at least its width, zeros in front of the digits, and reads back.
pub proof fn padded_numbers(n: nat, width: nat)
    ensures
        padded(n, width).len() >= width,
        padded(n, width).len() == width || padded(n, width) == decimal(n),
        padded(n, width).len() >= decimal(n).len(),
        forall|i: int|
            0 <= i < padded(n, width).len() - decimal(n).len() ==> #[trigger] padded(n, width)[i]
                == '0',
        padded(n, width).skip(padded(n, width).len() - decimal(n).len()) == decimal(n),
{
    let p = padded(n, width);
    assert(p.skip(p.len() - decimal(n).len()) =~= decimal(n));
}

/// A byte is written as two digits, the first for sixteens, from nought to nine and from a
/// to f.
pub proof fn bytes_in_hexadecimal(b: u8, s: Seq<u8>, i: int)
    requires
        0 <= i < s.len(),
    ensures
        hex_byte(b).len() == 2,
        hex_digit(hex_byte(b)[0]) == Some((b / 16) as nat),
        hex_digit(hex_byte(b)[1]) == Some((b % 16) as nat),
        lower(hex_byte(b)[0]) == hex_byte(b)[0],
        lower(hex_byte(b)[1]) == hex_byte(b)[1],
        hex(s).len() == 2 * s.len(),
        hex(s)[2 * i] == hex_byte(s[i])[0],
        hex(s)[2 * i + 1] == hex_byte(s[i])[1],
{
    assert(0 <= b / 16 < 16 && 0 <= b % 16 < 16);
    crate::change_log::hex_text_at(s, i);
}

/// A hexadecimal digit is one of nought to nine, a to f and A to F.
pub proof fn hexadecimal_digits(c: char)
    ensures
        hex_digit(c) matches Some(d) ==> d < 16 && digit_char(d) == lower(c),
        hex_digit(c) is Some <==> ('0' <= c <= '9' || 'a' <= c <= 'f' || 'A' <= c <= 'F'),
{
}

/// The words of a text are its characters that are no white space, in order; no word is
/// empty or holds white space.
pub proof fn words_are_what_is_between_white_space(s: Seq<char>)
    ensures
        words(s).fold_left_alt(Seq::<char>::empty(), |a: Seq<char>, w: Seq<char>| a + w)
            == s.filter(|c: char| !is_white(c)),
        forall|i: int| 0 <= i < words(s).len() ==> (#[trigger] words(s)[i]).len() > 0,
        forall|i: int, j: int| #![trigger words(s)[i][j]]
            0 <= i < words(s).len() && 0 <= j < words(s)[i].len() ==> !is_white(words(s)[i][j]),
    decreases s.len(),
{
    let p = |c: char| !is_white(c);
    let f = |a: Seq<char>, w: Seq<char>| a + w;
    let none = Seq::<char>::empty();
    reveal(Seq::filter);
    if s.len() == 0 {
    } else if is_white(s[0]) {
        words_are_what_is_between_white_space(s.skip(1));
        filter_front(s, p);
    } else {
        let n = word_len(s) as int;
        word_len_bound(s);
        assert(n > 0);
        let rest = s.skip(n);
        words_are_what_is_between_white_space(rest);
        let w = s.take(n);
        assert(words(s) == seq![w] + words(rest));
        assert(words(s).skip(1) =~= words(rest));
        assert(none + w =~= w);
        fold_shifts(words(rest), w);
        assert(s =~= w + rest);
        filter_parts(w, rest, p);
        all_kept(w, p);
        assert forall|i: int, j: int| #![trigger words(s)[i][j]]
            0 <= i < words(s).len() && 0 <= j < words(s)[i].len() implies !is_white(
            words(s)[i][j],
        ) by {
            if i == 0 {
                assert(!is_white(s[j]));
            } else {
                assert(words(s)[i] == words(rest)[i - 1]);
                assert(!is_white(words(rest)[i - 1][j]));
            }
        }
        assert forall|i: int| 0 <= i < words(s).len() implies (#[trigger] words(s)[i]).len()
            > 0 by {
            if i > 0 {
                assert(words(s)[i] == words(rest)[i - 1]);
            }
        }
    }
}

proof fn fold_shifts(ws: Seq<Seq<char>>, a: Seq<char>)
    ensures
        ws.fold_left_alt(a, |a: Seq<char>, w: Seq<char>| a + w) == a + ws.fold_left_alt(
            Seq::<char>::empty(),
            |a: Seq<char>, w: Seq<char>| a + w,
        ),
    decreases ws.len(),
{
    let none = Seq::<char>::empty();
    let f = |a: Seq<char>, w: Seq<char>| a + w;
    if ws.len() == 0 {
        assert(a + none =~= a);
    } else {
        let rest = ws.subrange(1, ws.len() as int);
        fold_shifts(rest, a + ws[0]);
        fold_shifts(rest, none + ws[0]);
        assert(none + ws[0] =~= ws[0]);
        let z = rest.fold_left_alt(none, f);
        assert((a + ws[0]) + z =~= a + (ws[0] + z));
    }
}

proof fn filter_front(s: Seq<char>, p: spec_fn(char) -> bool)
    requires
        s.len() > 0,
        !p(s[0]),
    ensures
        s.filter(p) == s.skip(1).filter(p),
    decreases s.len(),
{
    reveal(Seq::filter);
    if s.len() > 1 {
        filter_front(s.drop_last(), p);
        assert(s.drop_last().skip(1) =~= s.skip(1).drop_last());
        assert(s.last() == s.skip(1).last());
    } else {
        assert(s.drop_last() =~= Seq::<char>::empty());
        assert(s.skip(1) =~= Seq::<char>::empty());
    }
}

proof fn filter_parts(a: Seq<char>, b: Seq<char>, p: spec_fn(char) -> bool)
    ensures
        (a + b).filter(p) == a.filter(p) + b.filter(p),
    decreases b.len(),
{
    reveal(Seq::filter);
    if b.len() == 0 {
        assert(a + b =~= a);
        assert(a.filter(p) + b.filter(p) =~= a.filter(p));
    } else {
        filter_parts(a, b.drop_last(), p);
        assert((a + b).drop_last() =~= a + b.drop_last());
        assert((a + b).last() == b.last());
        assert((a + b).filter(p) =~= a.filter(p) + b.filter(p));
    }
}

proof fn all_kept(w: Seq<char>, p: spec_fn(char) -> bool)
    requires
        forall|i: int| 0 <= i < w.len() ==> p(#[trigger] w[i]),
    ensures
        w.filter(p) == w,
    decreases w.len(),
{
    reveal(Seq::filter);
    if w.len() > 0 {
        let init = w.drop_last();
        assert forall|i: int| 0 <= i < init.len() implies p(#[trigger] init[i]) by {
            assert(p(w[i]));
        }
        all_kept(init, p);
        assert(p(w[w.len() - 1]));
        assert(w =~= init.push(w.last()));
    }
}

/// The lines of a text, with a line feed between any two, make the text, and no line holds
/// a line feed.
pub proof fn lines_are_what_is_between_line_feeds(s: Seq<char>)
    ensures
        lines(s).len() > 0,
        joined_by_feeds(lines(s)) == s,
        forall|i: int, j: int| #![trigger lines(s)[i][j]]
            0 <= i < lines(s).len() && 0 <= j < lines(s)[i].len() ==> lines(s)[i][j] != '\n',
    decreases s.len(),
{
    let n = line_len(s) as int;
    line_len_bound(s);
    if n >= s.len() {
        assert(lines(s) =~= seq![s]);
        assert(lines(s).skip(1) =~= Seq::<Seq<char>>::empty());
    } else {
        let rest = s.skip(n + 1);
        lines_are_what_is_between_line_feeds(rest);
        let first = s.take(n);
        assert(lines(s) == seq![first] + lines(rest));
        assert(lines(s).skip(1) =~= lines(rest));
        assert(s =~= first + seq!['\n'] + rest);
        assert forall|i: int, j: int| #![trigger lines(s)[i][j]]
            0 <= i < lines(s).len() && 0 <= j < lines(s)[i].len() implies lines(s)[i][j]
            != '\n' by {
            if i > 0 {
                assert(lines(s)[i] == lines(rest)[i - 1]);
                assert(lines(rest)[i - 1][j] != '\n');
            }
        }
    }
}

/// Lines with a line feed between any two.
pub open spec fn joined_by_feeds(ls: Seq<Seq<char>>) -> Seq<char>
    decreases ls.len(),
{
    if ls.len() == 0 {
        Seq::empty()
    } else if ls.len() == 1 {
        ls[0]
    } else {
        ls[0] + seq!['\n'] + joined_by_feeds(ls.skip(1))
    }
}

proof fn line_len_bound(s: Seq<char>)
    ensures
        line_len(s) <= s.len(),
        forall|i: int| 0 <= i < line_len(s) ==> #[trigger] s[i] != '\n',
        line_len(s) < s.len() ==> s[line_len(s) as int] == '\n',
    decreases s.len(),
{
    if s.len() > 0 && s[0] != '\n' {
        line_len_bound(s.skip(1));
        assert forall|i: int| 0 <= i < line_len(s) implies #[trigger] s[i] != '\n' by {
            if i > 0 {
                assert(s.skip(1)[i - 1] == s[i]);
            }
        }
    }
}

/// A point in time is resolved to the largest number of a sample that is not after it, and
/// to none where there is no such sample.
pub proof fn times_resolve_to_the_largest_number(ls: Seq<Seq<char>>, target: u64, n: int)
    requires
        0 <= n <= ls.len(),
    ensures
        match best_seq(ls, target, n) {
            Some(m) => {
                &&& exists|i: int|
                    0 <= i < n && (sample_of(#[trigger] ls[i]) matches Some((t, q)) && t <= target
                        && q == m)
                &&& forall|i: int|
                    0 <= i < n ==> (sample_of(#[trigger] ls[i]) matches Some((t, q)) ==> t <= target
                        ==> q <= m)
            },
            None => forall|i: int|
                0 <= i < n ==> (sample_of(#[trigger] ls[i]) matches Some((t, q)) ==> t > target),
        },
    decreases n,
{
    if n > 0 {
        times_resolve_to_the_largest_number(ls, target, n - 1);
        let x = sample_of(ls[n - 1]);
        if let Some(m) = best_seq(ls, target, n) {
            if best_seq(ls, target, n - 1) == Some(m) {
                let i = choose|i: int|
                    0 <= i < n - 1 && (sample_of(#[trigger] ls[i]) matches Some((t, q)) && t <= target
                        && q == m);
                assert(sample_of(ls[i]) is Some);
            } else {
                assert(sample_of(ls[n - 1]) matches Some((t, q)) && t <= target && q == m);
            }
        }
    }
}

/// A sample is a line of two numbers, the time and the number sealed by then; a heartbeat is
/// such a text.
pub proof fn samples_are_two_numbers(line: Seq<char>)
    ensures
        sample_of(line) matches Some((t, q)) ==> words(line).len() == 2 && number(words(line)[0])
            == Some(t) && number(words(line)[1]) == Some(q),
        sample_of(line) is None ==> words(line).len() != 2 || number(words(line)[0]) is None
            || number(words(line)[1]) is None,
        heartbeat_of(line) matches Ok(h) ==> sample_of(line) == Some(
            (h.unix_millis, h.last_seal_seq),
        ),
        heartbeat_of(line) is Err ==> sample_of(line) is None,
{
}

/// A line of the log of shipped segments is accepted where it is blank, or two numbers and
/// sixty-four hexadecimal digits; and only then.
pub proof fn shipped_lines_are_three_words(line: Seq<char>, n: nat)
    ensures
        line_fault(line, n) is None <==> {
            let w = words(line);
            ||| w.len() == 0
            ||| w.len() == 3 && number(w[0]) is Some && number(w[1]) is Some && w[2].len() == 64
                && forall|i: int|
                    0 <= i < 64 ==> {
                        let c = #[trigger] w[2][i];
                        '0' <= c <= '9' || 'a' <= c <= 'f' || 'A' <= c <= 'F'
                    }
        },
{
    let w = words(line);
    if w.len() == 3 && w[2].len() == 64 {
        assert forall|i: int| 0 <= i < 64 implies (hex_digit(#[trigger] w[2][i]) is Some <==> {
            let c = w[2][i];
            '0' <= c <= '9' || 'a' <= c <= 'f' || 'A' <= c <= 'F'
        }) by {}
        if is_digest(w[2]) {
            assert forall|i: int| 0 <= i < 64 implies {
                let c = #[trigger] w[2][i];
                '0' <= c <= '9' || 'a' <= c <= 'f' || 'A' <= c <= 'F'
            } by {
                assert(hex_digit(w[2][i]) is Some);
            }
        }
    }
}

/// A text stands in another from a place on.
pub open spec fn stands_at(s: Seq<char>, part: Seq<char>, i: int) -> bool {
    0 <= i && i + part.len() <= s.len() && forall|j: int|
        0 <= j < part.len() ==> #[trigger] s[i + j] == part[j]
}

/// One text is a part of another where it stands somewhere in it.
pub proof fn parts_of_texts(s: Seq<char>, part: Seq<char>)
    ensures
        has_part(s, part) <==> exists|i: int| #[trigger] stands_at(s, part, i),
{
    if has_part(s, part) {
        let i = choose|i: int|
            0 <= i && i + part.len() <= s.len() && #[trigger] s.subrange(i, i + part.len()) == part;
        assert forall|j: int| 0 <= j < part.len() implies #[trigger] s[i + j] == part[j] by {
            assert(s.subrange(i, i + part.len())[j] == s[i + j]);
        }
        assert(stands_at(s, part, i));
    }
    if exists|i: int| #[trigger] stands_at(s, part, i) {
        let i = choose|i: int| #[trigger] stands_at(s, part, i);
        let t = s.subrange(i, i + part.len());
        assert forall|j: int| 0 <= j < part.len() implies #[trigger] t[j] == part[j] by {
            assert(s[i + j] == part[j]);
        }
        assert(t =~= part);
    }
}

} // verus!
