//! Shipping of sealed log segments to a directory from which an operator carries
//! them elsewhere: its small text files and the check of shipped bytes.

use vstd::prelude::*;
use crate::checksum::{sha256, sha256_of};
use crate::errors::{EngineError, EngineResult};
use crate::text::{
    chars_eq, chars_of, decimal, decimal_reads_back, digit_char, hex, hex_text, is_white, line_len,
    lines, lower, lower_all, lowered, number, number_reads_back, parse_number, push_decimal,
    push_digit, split_lines, split_words, text_of, text_with_number, word_len, words,
};

verus! {

/// How a sealed segment reaches the ship directory.
#[derive(Debug, Clone, Copy, PartialEq, Eq, Structural)]
pub enum ShipMode {
    /// A hard link, which needs the same file system.
    Hardlink,
    /// A copy.
    Copy,
}

impl ShipMode {
    /// Reads a mode: `copy` in any case and with white space around it, and
    /// otherwise a hard link.
    pub fn from_str_or_default(s: &str) -> (m: ShipMode)
        ensures
            m == ShipMode::Copy <==> words(s@).len() == 1 && lowered(words(s@)[0]) == "copy"@,
    {
        let text: Vec<char> = chars_of(s);
        let parts: Vec<Vec<char>> = split_words(text.as_slice());
        if parts.len() == 1 {
            let low: Vec<char> = lower_all(parts[0].as_slice());
            let want: Vec<char> = chars_of("copy");
            if chars_eq(low.as_slice(), want.as_slice()) {
                return ShipMode::Copy;
            }
        }
        ShipMode::Hardlink
    }
}

pub const SHIPPED_LOG: &'static str = "shipped.log";

/// The liveness mark that the primary refreshes even while it is idle.
pub const HEARTBEAT: &'static str = "shipped.heartbeat";

/// The index from wall-clock time to sequence numbers.
pub const TIMEINDEX: &'static str = "timeindex.log";

/// When the primary last wrote its mark, and how far it had written.
#[derive(Debug, Clone, Copy, PartialEq, Eq, Structural)]
pub struct Heartbeat {
    pub unix_millis: u64,
    pub last_seal_seq: u64,
}

/// A line of two numbers.
pub open spec fn pair_line(a: u64, b: u64) -> Seq<char> {
    decimal(a as nat) + " "@ + decimal(b as nat) + "\n"@
}

/// The text of a heartbeat, and of one line of the time index.
pub fn pair_text(a: u64, b: u64) -> (s: String)
    ensures
        s@ == pair_line(a, b),
{
    let mut s: String = String::new();
    push_decimal(&mut s, a);
    s.append(" ");
    push_decimal(&mut s, b);
    s.append("\n");
    assert(s@ =~= pair_line(a, b));
    s
}

/// The heartbeat that a text holds, or why it is refused.
pub open spec fn heartbeat_of(text: Seq<char>) -> Result<Heartbeat, Seq<char>> {
    let w = words(text);
    if w.len() != 2 {
        Err("heartbeat: expected '<unix_millis> <seq>'"@)
    } else {
        match number(w[0]) {
            None => Err("heartbeat: bad timestamp"@),
            Some(t) => match number(w[1]) {
                None => Err("heartbeat: bad seq"@),
                Some(q) => Ok(Heartbeat { unix_millis: t, last_seal_seq: q }),
            },
        }
    }
}

/// Reads a heartbeat.
pub fn parse_heartbeat(text: &str) -> (r: EngineResult<Heartbeat>)
    ensures
        match r {
            Ok(h) => heartbeat_of(text@) == Ok::<Heartbeat, Seq<char>>(h),
            Err(e) => heartbeat_of(text@) matches Err(m) && (e matches EngineError::Io(t) && t@
                == m),
        },
{
    let chars: Vec<char> = chars_of(text);
    let parts: Vec<Vec<char>> = split_words(chars.as_slice());
    if parts.len() != 2 {
        return Err(EngineError::Io(text_of("heartbeat: expected '<unix_millis> <seq>'")));
    }
    let unix_millis: u64 = match parse_number(parts[0].as_slice()) {
        Some(t) => t,
        None => {
            return Err(EngineError::Io(text_of("heartbeat: bad timestamp")));
        },
    };
    let last_seal_seq: u64 = match parse_number(parts[1].as_slice()) {
        Some(q) => q,
        None => {
            return Err(EngineError::Io(text_of("heartbeat: bad seq")));
        },
    };
    Ok(Heartbeat { unix_millis, last_seal_seq })
}

proof fn word_then_white(w: Seq<char>, rest: Seq<char>)
    requires
        forall|i: int| 0 <= i < w.len() ==> !is_white(#[trigger] w[i]),
        rest.len() == 0 || is_white(rest[0]),
    ensures
        word_len(w + rest) == w.len(),
    decreases w.len(),
{
    let s = w + rest;
    if w.len() == 0 {
        assert(s =~= rest);
    } else {
        assert(s[0] == w[0]);
        assert(s.skip(1) =~= w.skip(1) + rest);
        assert forall|i: int| 0 <= i < w.skip(1).len() implies !is_white(#[trigger] w.skip(1)[i]) by {
            assert(!is_white(w[i + 1]));
        }
        word_then_white(w.skip(1), rest);
    }
}

proof fn decimal_is_a_word(n: nat)
    ensures
        decimal(n).len() > 0,
        forall|i: int| 0 <= i < decimal(n).len() ==> !is_white(#[trigger] decimal(n)[i]),
{
    decimal_reads_back(n);
    assert forall|i: int| 0 <= i < decimal(n).len() implies !is_white(#[trigger] decimal(n)[i]) by {
        assert('0' <= decimal(n)[i] <= '9');
    }
}

proof fn pair_line_words(a: u64, b: u64)
    ensures
        words(pair_line(a, b)) == seq![decimal(a as nat), decimal(b as nat)],
{
    reveal_strlit(" ");
    reveal_strlit("\n");
    let da = decimal(a as nat);
    let db = decimal(b as nat);
    decimal_is_a_word(a as nat);
    decimal_is_a_word(b as nat);
    let rest1 = " "@ + db + "\n"@;
    let s = pair_line(a, b);
    assert(s =~= da + rest1);
    assert(rest1[0] == ' ');
    word_then_white(da, rest1);
    assert(s[0] == da[0]);
    assert(s.take(da.len() as int) =~= da);
    assert(s.skip(da.len() as int) =~= rest1);
    let rest2 = db + "\n"@;
    assert(rest1.skip(1) =~= rest2);
    word_then_white(db, "\n"@);
    assert(rest2[0] == db[0]);
    assert(rest2.take(db.len() as int) =~= db);
    assert(rest2.skip(db.len() as int) =~= "\n"@);
    assert("\n"@.skip(1) =~= Seq::<char>::empty());
    assert(words("\n"@.skip(1)) =~= Seq::<Seq<char>>::empty());
    assert(words("\n"@) =~= Seq::<Seq<char>>::empty());
    assert(words(rest2) =~= seq![db]);
    assert(words(rest1) =~= seq![db]);
    assert(words(s) =~= seq![da, db]);
}

/// A heartbeat that was written reads back as it was.
pub proof fn heartbeat_round_trips(h: Heartbeat)
    ensures
        heartbeat_of(pair_line(h.unix_millis, h.last_seal_seq)) == Ok::<Heartbeat, Seq<char>>(h),
{
    pair_line_words(h.unix_millis, h.last_seal_seq);
    number_reads_back(h.unix_millis);
    number_reads_back(h.last_seal_seq);
}

/// The sample that a line of the time index holds, if it is one.
pub open spec fn sample_of(line: Seq<char>) -> Option<(u64, u64)> {
    let w = words(line);
    if w.len() != 2 {
        None
    } else {
        match (number(w[0]), number(w[1])) {
            (Some(t), Some(q)) => Some((t, q)),
            _ => None,
        }
    }
}

/// The largest sequence number among the samples of the first `n` lines that are
/// not after `target`.
pub open spec fn best_seq(ls: Seq<Seq<char>>, target: u64, n: int) -> Option<u64>
    decreases n,
{
    if n <= 0 {
        None
    } else {
        let b = best_seq(ls, target, n - 1);
        match sample_of(ls[n - 1]) {
            Some((t, q)) => if t <= target {
                match b {
                    Some(m) => if m >= q {
                        Some(m)
                    } else {
                        Some(q)
                    },
                    None => Some(q),
                }
            } else {
                b
            },
            None => b,
        }
    }
}

/// The largest sequence number whose sample in a time index is not after
/// `target_millis`. Lines that are no samples are passed over.
pub fn resolve_seq_at_or_before(text: &str, target_millis: u64) -> (r: Option<u64>)
    ensures
        r == best_seq(lines(text@), target_millis, lines(text@).len() as int),
{
    let chars: Vec<char> = chars_of(text);
    let ls: Vec<Vec<char>> = split_lines(chars.as_slice());
    let ghost all = lines(text@);
    let mut best: Option<u64> = None;
    let mut i: usize = 0;
    while i < ls.len()
        invariant
            i <= ls@.len() == all.len(),
            forall|j: int| 0 <= j < ls@.len() ==> (#[trigger] ls@[j])@ == all[j],
            best == best_seq(all, target_millis, i as int),
        decreases ls.len() - i,
    {
        assert(ls@[i as int]@ == all[i as int]);
        let parts: Vec<Vec<char>> = split_words(ls[i].as_slice());
        if parts.len() == 2 {
            assert(parts@[0]@ == words(all[i as int])[0]);
            assert(parts@[1]@ == words(all[i as int])[1]);
            let t: Option<u64> = parse_number(parts[0].as_slice());
            let q: Option<u64> = parse_number(parts[1].as_slice());
            if let (Some(t), Some(q)) = (t, q) {
                if t <= target_millis {
                    best = match best {
                        Some(m) => if m >= q {
                            Some(m)
                        } else {
                            Some(q)
                        },
                        None => Some(q),
                    };
                }
            }
        }
        i = i + 1;
    }
    best
}

/// One line of the log of shipped segments.
#[derive(Debug, PartialEq, Eq)]
pub struct ShippedEntry {
    pub segment_id: u64,
    pub seal_seq: u64,
    pub sha256_hex: String,
}

/// What a line of the log holds.
pub struct ShippedView {
    pub segment_id: u64,
    pub seal_seq: u64,
    pub sha256_hex: Seq<char>,
}

impl View for ShippedEntry {
    type V = ShippedView;

    open spec fn view(&self) -> ShippedView {
        ShippedView {
            segment_id: self.segment_id,
            seal_seq: self.seal_seq,
            sha256_hex: self.sha256_hex@,
        }
    }
}

pub open spec fn shipped_views(s: Seq<ShippedEntry>) -> Seq<ShippedView> {
    Seq::new(s.len(), |i: int| s[i]@)
}

/// A line of the log.
pub open spec fn shipped_line(segment_id: u64, seal_seq: u64, sha256_hex: Seq<char>) -> Seq<char> {
    decimal(segment_id as nat) + " "@ + decimal(seal_seq as nat) + " "@ + sha256_hex + "\n"@
}

/// The text of a line of the log.
pub fn shipped_text(segment_id: u64, seal_seq: u64, sha256_hex: &str) -> (s: String)
    ensures
        s@ == shipped_line(segment_id, seal_seq, sha256_hex@),
{
    let mut s: String = String::new();
    push_decimal(&mut s, segment_id);
    s.append(" ");
    push_decimal(&mut s, seal_seq);
    s.append(" ");
    s.append(sha256_hex);
    s.append("\n");
    assert(s@ =~= shipped_line(segment_id, seal_seq, sha256_hex@));
    s
}

/// The value of a hexadecimal digit.
pub open spec fn hex_digit(c: char) -> Option<nat> {
    if '0' <= c <= '9' {
        Some((c as u32 - 48) as nat)
    } else if 'a' <= c <= 'f' {
        Some((c as u32 - 87) as nat)
    } else if 'A' <= c <= 'F' {
        Some((c as u32 - 55) as nat)
    } else {
        None
    }
}

/// The value of a hexadecimal digit.
pub fn hex_digit_value(c: char) -> (r: Option<u64>)
    ensures
        match r {
            Some(d) => hex_digit(c) == Some(d as nat) && d < 16,
            None => hex_digit(c) is None,
        },
{
    match c {
        '0' => Some(0),
        '1' => Some(1),
        '2' => Some(2),
        '3' => Some(3),
        '4' => Some(4),
        '5' => Some(5),
        '6' => Some(6),
        '7' => Some(7),
        '8' => Some(8),
        '9' => Some(9),
        'a' | 'A' => Some(10),
        'b' | 'B' => Some(11),
        'c' | 'C' => Some(12),
        'd' | 'D' => Some(13),
        'e' | 'E' => Some(14),
        'f' | 'F' => Some(15),
        _ => None,
    }
}

/// A digest in hexadecimal digits.
pub open spec fn is_digest(s: Seq<char>) -> bool {
    s.len() == 64 && forall|i: int| 0 <= i < s.len() ==> hex_digit(#[trigger] s[i]) is Some
}

/// Why line `n` of the log is refused, or `None` where it is blank or well
/// formed.
pub open spec fn line_fault(line: Seq<char>, n: nat) -> Option<Seq<char>> {
    let w = words(line);
    if w.len() == 0 {
        None
    } else if w.len() != 3 {
        Some("shipped.log line "@ + decimal(n) + ": expected '<id> <seq> <sha256>'"@)
    } else if number(w[0]) is None {
        Some("shipped.log line "@ + decimal(n) + ": bad id"@)
    } else if number(w[1]) is None {
        Some("shipped.log line "@ + decimal(n) + ": bad seq"@)
    } else if !is_digest(w[2]) {
        Some("shipped.log line "@ + decimal(n) + ": bad sha256"@)
    } else {
        None
    }
}

/// The entries of the first `n` lines, or why the first bad line is refused.
pub open spec fn shipped_upto(ls: Seq<Seq<char>>, n: int) -> Result<Seq<ShippedView>, Seq<char>>
    decreases n,
{
    if n <= 0 {
        Ok(Seq::empty())
    } else {
        match shipped_upto(ls, n - 1) {
            Err(m) => Err(m),
            Ok(s) => {
                let w = words(ls[n - 1]);
                match line_fault(ls[n - 1], n as nat) {
                    Some(m) => Err(m),
                    None => if w.len() == 0 {
                        Ok(s)
                    } else {
                        Ok(
                            s.push(
                                ShippedView {
                                    segment_id: number(w[0])->0,
                                    seal_seq: number(w[1])->0,
                                    sha256_hex: lowered(w[2]),
                                },
                            ),
                        )
                    },
                }
            },
        }
    }
}

proof fn lower_of_hex(c: char)
    requires
        hex_digit(c) is Some,
    ensures
        digit_char(hex_digit(c)->0) == lower(c),
{
}

/// The digest that a word holds, in lower case.
fn digest_text(w: &Vec<char>) -> (r: Option<String>)
    ensures
        match r {
            Some(s) => is_digest(w@) && s@ == lowered(w@),
            None => !is_digest(w@),
        },
{
    if w.len() != 64 {
        return None;
    }
    let mut s: String = String::new();
    let mut i: usize = 0;
    assert(s@ =~= lowered(w@).take(0));
    while i < w.len()
        invariant
            i <= w@.len() == 64,
            s@ == lowered(w@).take(i as int),
            forall|j: int| 0 <= j < i ==> hex_digit(#[trigger] w@[j]) is Some,
        decreases w.len() - i,
    {
        match hex_digit_value(w[i]) {
            Some(d) => {
                proof {
                    lower_of_hex(w@[i as int]);
                }
                push_digit(&mut s, d);
                assert(s@ =~= lowered(w@).take(i + 1));
            },
            None => {
                assert(hex_digit(w@[i as int]) is None);
                return None;
            },
        }
        i = i + 1;
    }
    assert(s@ =~= lowered(w@));
    Some(s)
}

proof fn fault_stops(ls: Seq<Seq<char>>, k: int, n: int)
    requires
        0 < k <= n,
        shipped_upto(ls, k) is Err,
    ensures
        shipped_upto(ls, n) == shipped_upto(ls, k),
    decreases n,
{
    if k < n {
        fault_stops(ls, k, n - 1);
    }
}

/// The text of a log of shipped segments.
pub open spec fn shipped_log(s: Seq<ShippedView>) -> Seq<char>
    decreases s.len(),
{
    if s.len() == 0 {
        Seq::empty()
    } else {
        shipped_line(s[0].segment_id, s[0].seal_seq, s[0].sha256_hex) + shipped_log(s.skip(1))
    }
}

/// The entries with their digests in lower case.
pub open spec fn in_lower_case(s: Seq<ShippedView>) -> Seq<ShippedView> {
    Seq::new(
        s.len(),
        |i: int| ShippedView { sha256_hex: lowered(s[i].sha256_hex), ..s[i] },
    )
}

/// A line without its line feed.
spec fn line_body(e: ShippedView) -> Seq<char> {
    decimal(e.segment_id as nat) + " "@ + decimal(e.seal_seq as nat) + " "@ + e.sha256_hex
}

spec fn line_bodies(s: Seq<ShippedView>) -> Seq<Seq<char>> {
    Seq::new(s.len(), |i: int| line_body(s[i]))
}

proof fn digest_is_a_word(w: Seq<char>)
    requires
        is_digest(w),
    ensures
        w.len() > 0,
        forall|i: int| 0 <= i < w.len() ==> !is_white(#[trigger] w[i]) && w[i] != '\n',
{
    assert forall|i: int| 0 <= i < w.len() implies !is_white(#[trigger] w[i]) && w[i] != '\n' by {
        assert(hex_digit(w[i]) is Some);
    }
}

proof fn body_words(e: ShippedView)
    requires
        is_digest(e.sha256_hex),
    ensures
        words(line_body(e)) == seq![
            decimal(e.segment_id as nat),
            decimal(e.seal_seq as nat),
            e.sha256_hex,
        ],
        forall|i: int| 0 <= i < line_body(e).len() ==> #[trigger] line_body(e)[i] != '\n',
{
    reveal_strlit(" ");
    let da = decimal(e.segment_id as nat);
    let db = decimal(e.seal_seq as nat);
    let h = e.sha256_hex;
    decimal_is_a_word(e.segment_id as nat);
    decimal_is_a_word(e.seal_seq as nat);
    digest_is_a_word(h);
    let s = line_body(e);
    let rest1 = " "@ + db + " "@ + h;
    let rest2 = " "@ + h;
    let none = Seq::<char>::empty();
    assert(s =~= da + rest1);
    word_then_white(da, rest1);
    assert(s[0] == da[0]);
    assert(s.take(da.len() as int) =~= da);
    assert(s.skip(da.len() as int) =~= rest1);
    assert(rest1.skip(1) =~= db + rest2);
    word_then_white(db, rest2);
    let t = db + rest2;
    assert(t[0] == db[0]);
    assert(t.take(db.len() as int) =~= db);
    assert(t.skip(db.len() as int) =~= rest2);
    assert(rest2.skip(1) =~= h);
    assert(h =~= h + none);
    word_then_white(h, none);
    assert(h.take(h.len() as int) =~= h);
    assert(h.skip(h.len() as int) =~= none);
    assert(words(none) =~= Seq::<Seq<char>>::empty());
    assert(words(h) =~= seq![h]);
    assert(words(rest2) =~= seq![h]);
    assert(words(t) =~= seq![db, h]);
    assert(words(rest1) =~= seq![db, h]);
    assert(words(s) =~= seq![da, db, h]);
    decimal_reads_back(e.segment_id as nat);
    decimal_reads_back(e.seal_seq as nat);
    assert forall|i: int| 0 <= i < s.len() implies #[trigger] s[i] != '\n' by {
        if i < da.len() {
            assert(s[i] == da[i]);
        } else if da.len() < i < da.len() + 1 + db.len() {
            assert(s[i] == db[i - da.len() - 1]);
        } else if i > da.len() + 1 + db.len() {
            assert(s[i] == h[i - da.len() - 2 - db.len()]);
        }
    }
}

proof fn line_then_feed(w: Seq<char>, rest: Seq<char>)
    requires
        forall|i: int| 0 <= i < w.len() ==> #[trigger] w[i] != '\n',
        rest.len() > 0,
        rest[0] == '\n',
    ensures
        line_len(w + rest) == w.len(),
    decreases w.len(),
{
    let s = w + rest;
    if w.len() == 0 {
        assert(s =~= rest);
    } else {
        assert(s[0] == w[0]);
        assert(s.skip(1) =~= w.skip(1) + rest);
        assert forall|i: int| 0 <= i < w.skip(1).len() implies #[trigger] w.skip(1)[i] != '\n' by {
            assert(w[i + 1] != '\n');
        }
        line_then_feed(w.skip(1), rest);
    }
}

proof fn shipped_log_lines(s: Seq<ShippedView>)
    requires
        forall|i: int| 0 <= i < s.len() ==> is_digest((#[trigger] s[i]).sha256_hex),
    ensures
        lines(shipped_log(s)) == line_bodies(s).push(Seq::empty()),
    decreases s.len(),
{
    reveal_strlit("\n");
    let text = shipped_log(s);
    if s.len() == 0 {
        assert(lines(text) =~= seq![text]);
        assert(line_bodies(s).push(Seq::empty()) =~= seq![text]);
    } else {
        let body = line_body(s[0]);
        let rest = shipped_log(s.skip(1));
        let tail = "\n"@ + rest;
        assert(is_digest(s[0].sha256_hex));
        body_words(s[0]);
        assert(text =~= body + tail);
        line_then_feed(body, tail);
        assert(text.take(body.len() as int) =~= body);
        assert(text.skip(body.len() as int + 1) =~= rest);
        assert forall|i: int| 0 <= i < s.skip(1).len() implies is_digest(
            (#[trigger] s.skip(1)[i]).sha256_hex,
        ) by {
            assert(is_digest(s[i + 1].sha256_hex));
        }
        shipped_log_lines(s.skip(1));
        assert(lines(text) =~= seq![body] + lines(rest));
        assert(line_bodies(s).push(Seq::empty()) =~= seq![body] + line_bodies(s.skip(1)).push(
            Seq::empty(),
        ));
    }
}

proof fn shipped_lines_read(s: Seq<ShippedView>, n: int)
    requires
        forall|i: int| 0 <= i < s.len() ==> is_digest((#[trigger] s[i]).sha256_hex),
        0 <= n <= s.len(),
    ensures
        shipped_upto(line_bodies(s).push(Seq::empty()), n) == Ok::<Seq<ShippedView>, Seq<char>>(
            in_lower_case(s).take(n),
        ),
    decreases n,
{
    let ls = line_bodies(s).push(Seq::empty());
    let all = in_lower_case(s);
    if n == 0 {
        assert(all.take(0) =~= Seq::<ShippedView>::empty());
    } else {
        shipped_lines_read(s, n - 1);
        let e = s[n - 1];
        assert(is_digest(e.sha256_hex));
        body_words(e);
        number_reads_back(e.segment_id);
        number_reads_back(e.seal_seq);
        assert(ls[n - 1] == line_body(e));
        assert(all.take(n) =~= all.take(n - 1).push(all[n - 1]));
    }
}

/// The text of a list of shipped segments reads back as that list: the digests come out in
/// lower case, and are otherwise as they were written.
pub proof fn shipped_log_round_trips(s: Seq<ShippedView>)
    requires
        forall|i: int| 0 <= i < s.len() ==> is_digest((#[trigger] s[i]).sha256_hex),
    ensures
        ({
            let ls = lines(shipped_log(s));
            shipped_upto(ls, ls.len() as int) == Ok::<Seq<ShippedView>, Seq<char>>(in_lower_case(s))
        }),
        (forall|i: int|
            0 <= i < s.len() ==> lowered((#[trigger] s[i]).sha256_hex) == s[i].sha256_hex)
            ==> in_lower_case(s) == s,
{
    let ls = lines(shipped_log(s));
    shipped_log_lines(s);
    shipped_lines_read(s, s.len() as int);
    assert(ls[s.len() as int] =~= Seq::<char>::empty());
    assert(words(ls[s.len() as int]) =~= Seq::<Seq<char>>::empty());
    assert(in_lower_case(s).take(s.len() as int) =~= in_lower_case(s));
    if forall|i: int|
        0 <= i < s.len() ==> lowered((#[trigger] s[i]).sha256_hex) == s[i].sha256_hex {
        assert(in_lower_case(s) =~= s);
    }
}

/// Reads the log of shipped segments. A malformed line is refused, so that a
/// damaged log cannot silently skip data.
pub fn parse_shipped_log(text: &str) -> (r: EngineResult<Vec<ShippedEntry>>)
    ensures
        match r {
            Ok(v) => shipped_upto(lines(text@), lines(text@).len() as int) == Ok::<
                Seq<ShippedView>,
                Seq<char>,
            >(shipped_views(v@)),
            Err(e) => shipped_upto(lines(text@), lines(text@).len() as int) matches Err(m) && (
            e matches EngineError::Io(t) && t@ == m),
        },
{
    let chars: Vec<char> = chars_of(text);
    let ls: Vec<Vec<char>> = split_lines(chars.as_slice());
    let ghost all = lines(text@);
    let ghost total = all.len() as int;
    let mut out: Vec<ShippedEntry> = Vec::new();
    let mut i: usize = 0;
    assert(shipped_views(out@) =~= Seq::<ShippedView>::empty());
    while i < ls.len()
        invariant
            i <= ls@.len() == all.len() == total,
            all == lines(text@),
            forall|j: int| 0 <= j < ls@.len() ==> (#[trigger] ls@[j])@ == all[j],
            shipped_upto(all, i as int) == Ok::<Seq<ShippedView>, Seq<char>>(shipped_views(out@)),
        decreases ls.len() - i,
    {
        let n: u64 = i as u64 + 1;
        let ghost w = words(all[i as int]);
        assert(ls@[i as int]@ == all[i as int]);
        proof {
            if shipped_upto(all, i + 1) is Err {
                fault_stops(all, i + 1, total);
            }
        }
        let parts: Vec<Vec<char>> = split_words(ls[i].as_slice());
        if parts.len() != 0 {
            if parts.len() != 3 {
                return Err(
                    EngineError::Io(
                        text_with_number(
                            "shipped.log line ",
                            n,
                            ": expected '<id> <seq> <sha256>'",
                        ),
                    ),
                );
            }
            assert(parts@[0]@ == w[0]);
            assert(parts@[1]@ == w[1]);
            assert(parts@[2]@ == w[2]);
            let segment_id: u64 = match parse_number(parts[0].as_slice()) {
                Some(x) => x,
                None => {
                    return Err(
                        EngineError::Io(text_with_number("shipped.log line ", n, ": bad id")),
                    );
                },
            };
            let seal_seq: u64 = match parse_number(parts[1].as_slice()) {
                Some(x) => x,
                None => {
                    return Err(
                        EngineError::Io(text_with_number("shipped.log line ", n, ": bad seq")),
                    );
                },
            };
            let sha256_hex: String = match digest_text(&parts[2]) {
                Some(s) => s,
                None => {
                    return Err(
                        EngineError::Io(text_with_number("shipped.log line ", n, ": bad sha256")),
                    );
                },
            };
            let ghost before = shipped_views(out@);
            out.push(ShippedEntry { segment_id, seal_seq, sha256_hex });
            assert(shipped_views(out@) =~= before.push(
                ShippedView { segment_id, seal_seq, sha256_hex: sha256_hex@ },
            ));
        }
        i = i + 1;
    }
    Ok(out)
}

/// The SHA-256 digest of some bytes in lower-case hexadecimal digits.
pub fn sha256_hex(bytes: &[u8]) -> (s: String)
    ensures
        s@ == hex(sha256(bytes@)),
{
    let d: Vec<u8> = sha256_of(bytes);
    hex_text(d.as_slice())
}

/// Whether the bytes of a shipped segment have the digest that the log records.
/// The case of the digits does not matter.
pub fn verify_segment(bytes: &[u8], expected_sha256_hex: &str) -> (r: bool)
    ensures
        r == (lowered(hex(sha256(bytes@))) == lowered(expected_sha256_hex@)),
{
    let have: String = sha256_hex(bytes);
    same_ignoring_case(have.as_str(), expected_sha256_hex)
}

/// Whether two texts are equal but for the case of ASCII letters.
pub fn same_ignoring_case(a: &str, b: &str) -> (r: bool)
    ensures
        r == (lowered(a@) == lowered(b@)),
{
    let x: Vec<char> = lower_all(chars_of(a).as_slice());
    let y: Vec<char> = lower_all(chars_of(b).as_slice());
    chars_eq(x.as_slice(), y.as_slice())
}

} // verus!
