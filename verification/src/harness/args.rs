//! The arguments of the test programs.

use vstd::prelude::*;
use crate::text::{
    chars_eq, chars_of, digit_value, lower_all, lowered, number, parse_number, text_of,
};

verus! {

/// What follows a flag.
#[derive(Debug, Clone, Copy, PartialEq, Eq, Structural)]
pub enum FlagKind {
    /// Any text.
    Text,
    /// A number up to a maximum.
    Number(u64),
    /// A number that may have a fraction and an exponent.
    Real,
    /// The name of the phases of an isolation run.
    Phases,
    /// Nothing.
    Switch,
    /// Nothing: the program tells of its flags and stops.
    Help,
}

/// A flag that a program knows.
#[derive(Debug, Clone, Copy)]
pub struct Flag {
    pub name: &'static str,
    pub kind: FlagKind,
}

/// The names and kinds of some flags.
pub open spec fn flag_views(s: Seq<Flag>) -> Seq<(Seq<char>, FlagKind)> {
    Seq::new(s.len(), |i: int| (s[i].name@, s[i].kind))
}

/// A flag that was given, with what followed it.
#[derive(Debug)]
pub struct Given {
    pub name: String,
    pub value: String,
}

/// The names and values of some given flags.
pub open spec fn given_views(s: Seq<Given>) -> Seq<(Seq<char>, Seq<char>)> {
    Seq::new(s.len(), |i: int| (s[i].name@, s[i].value@))
}

/// What the texts of a list hold.
pub open spec fn token_views(s: Seq<String>) -> Seq<Seq<char>> {
    Seq::new(s.len(), |i: int| s[i]@)
}

/// Why arguments are refused.
#[derive(Debug)]
pub enum ArgFault {
    /// The value of a flag, or a required flag, is missing.
    Missing(String),
    Unknown(String),
    /// The value of a flag is not of its kind.
    Bad(String),
    /// The program is to tell of its flags.
    Help,
}

/// What a refusal holds.
pub enum FaultView {
    Missing(Seq<char>),
    Unknown(Seq<char>),
    Bad(Seq<char>),
    Help,
}

impl View for ArgFault {
    type V = FaultView;

    open spec fn view(&self) -> FaultView {
        match *self {
            ArgFault::Missing(t) => FaultView::Missing(t@),
            ArgFault::Unknown(t) => FaultView::Unknown(t@),
            ArgFault::Bad(t) => FaultView::Bad(t@),
            ArgFault::Help => FaultView::Help,
        }
    }
}

/// The kind of the flag with a name, among those from `i` on.
pub open spec fn kind_of(table: Seq<(Seq<char>, FlagKind)>, name: Seq<char>, i: int) -> Option<
    FlagKind,
>
    decreases table.len() - i,
{
    if i < 0 || i >= table.len() {
        None
    } else if table[i].0 == name {
        Some(table[i].1)
    } else {
        kind_of(table, name, i + 1)
    }
}

/// The flags that tokens give from the `i`-th on, after those of `done`; or the first
/// fault.
pub open spec fn read_from(
    tokens: Seq<Seq<char>>,
    table: Seq<(Seq<char>, FlagKind)>,
    i: int,
    done: Seq<(Seq<char>, Seq<char>)>,
) -> Result<Seq<(Seq<char>, Seq<char>)>, FaultView>
    decreases tokens.len() - i,
{
    if i < 0 || i >= tokens.len() {
        Ok(done)
    } else {
        let name = tokens[i];
        match kind_of(table, name, 0) {
            None => Err(FaultView::Unknown(name)),
            Some(FlagKind::Help) => Err(FaultView::Help),
            Some(FlagKind::Switch) => read_from(
                tokens,
                table,
                i + 1,
                done.push((name, Seq::<char>::empty())),
            ),
            Some(kind) => if i + 1 >= tokens.len() {
                Err(FaultView::Missing(name))
            } else if !of_kind(tokens[i + 1], kind) {
                Err(FaultView::Bad(name))
            } else {
                read_from(tokens, table, i + 2, done.push((name, tokens[i + 1])))
            },
        }
    }
}

/// A value is of a kind.
pub open spec fn of_kind(value: Seq<char>, kind: FlagKind) -> bool {
    match kind {
        FlagKind::Number(max) => number(value) matches Some(n) && n <= max,
        FlagKind::Real => is_real(value),
        FlagKind::Phases => mode_given(Some(value)) is Some,
        _ => true,
    }
}

/// The length of the longest prefix of decimal digits.
pub open spec fn digits_len(s: Seq<char>) -> nat
    decreases s.len(),
{
    if s.len() == 0 || digit_value(s[0]) is None {
        0
    } else {
        1 + digits_len(s.skip(1))
    }
}

/// What follows a sign, where there is one.
pub open spec fn unsigned(s: Seq<char>) -> Seq<char> {
    if s.len() > 0 && (s[0] == '+' || s[0] == '-') {
        s.skip(1)
    } else {
        s
    }
}

/// An exponent, or nothing.
pub open spec fn is_exponent(s: Seq<char>) -> bool {
    s.len() == 0 || ((s[0] == 'e' || s[0] == 'E') && {
        let t = unsigned(s.skip(1));
        t.len() > 0 && digits_len(t) == t.len()
    })
}

/// Decimal digits with a point among or beside them or none, and an exponent or none.
pub open spec fn is_decimal(s: Seq<char>) -> bool {
    let n = digits_len(s);
    let t = s.skip(n as int);
    if t.len() > 0 && t[0] == '.' {
        let m = digits_len(t.skip(1));
        n + m > 0 && is_exponent(t.skip(1 + m as int))
    } else {
        n > 0 && is_exponent(t)
    }
}

/// A text that reads as a floating-point number: a sign or none, and decimal digits or the
/// name of a value without digits.
pub open spec fn is_real(s: Seq<char>) -> bool {
    let t = unsigned(s);
    is_decimal(t) || lowered(t) == "inf"@ || lowered(t) == "infinity"@ || lowered(t) == "nan"@
}

proof fn digits_len_bound(s: Seq<char>)
    ensures
        digits_len(s) <= s.len(),
    decreases s.len(),
{
    if s.len() > 0 && digit_value(s[0]) is Some {
        digits_len_bound(s.skip(1));
    }
}

/// How many digits stand from `start` on.
fn count_digits(s: &[char], start: usize) -> (n: usize)
    requires
        start <= s@.len(),
    ensures
        n == digits_len(s@.skip(start as int)),
        n <= s@.len() - start,
{
    let mut i: usize = start;
    let ghost all = s@.skip(start as int);
    proof {
        digits_len_bound(all);
    }
    while i < s.len() && s[i] >= '0' && s[i] <= '9'
        invariant
            start <= i <= s@.len(),
            all == s@.skip(start as int),
            digits_len(all) == (i - start) + digits_len(s@.skip(i as int)),
        decreases s.len() - i,
    {
        assert(s@.skip(i as int)[0] == s@[i as int]);
        assert(s@.skip(i as int).skip(1) =~= s@.skip(i + 1));
        i = i + 1;
    }
    proof {
        if i < s@.len() {
            assert(s@.skip(i as int)[0] == s@[i as int]);
        }
    }
    i - start
}

/// Where the text goes on after a sign that may stand at `start`.
fn past_sign(s: &[char], start: usize) -> (i: usize)
    requires
        start <= s@.len(),
    ensures
        start <= i <= s@.len(),
        s@.skip(i as int) == unsigned(s@.skip(start as int)),
{
    if start < s.len() && (s[start] == '+' || s[start] == '-') {
        assert(s@.skip(start as int)[0] == s@[start as int]);
        assert(s@.skip(start as int).skip(1) =~= s@.skip(start + 1));
        start + 1
    } else {
        proof {
            if start < s@.len() {
                assert(s@.skip(start as int)[0] == s@[start as int]);
            }
        }
        start
    }
}

fn ends_in_exponent(s: &[char], start: usize) -> (r: bool)
    requires
        start <= s@.len(),
    ensures
        r == is_exponent(s@.skip(start as int)),
{
    if start == s.len() {
        return true;
    }
    assert(s@.skip(start as int)[0] == s@[start as int]);
    if s[start] != 'e' && s[start] != 'E' {
        return false;
    }
    assert(s@.skip(start as int).skip(1) =~= s@.skip(start + 1));
    let i: usize = past_sign(s, start + 1);
    let n: usize = count_digits(s, i);
    n > 0 && n == s.len() - i
}

fn reads_as_real(text: &str) -> (r: bool)
    ensures
        r == is_real(text@),
{
    let s: Vec<char> = chars_of(text);
    let i: usize = past_sign(s.as_slice(), 0);
    assert(s@.skip(0) =~= s@);
    let ghost t = unsigned(s@);
    let n: usize = count_digits(s.as_slice(), i);
    let size: usize = s.len();
    let j: usize = i + n;
    assert(t.skip(n as int) =~= s@.skip(j as int));
    let decimal: bool = if j < size && s[j] == '.' {
        assert(s@.skip(j as int)[0] == s@[j as int]);
        assert(s@.skip(j as int).skip(1) =~= s@.skip(j + 1));
        let m: usize = count_digits(s.as_slice(), j + 1);
        assert(s@.skip(j as int).skip(1 + m as int) =~= s@.skip(j + 1 + m));
        n + m > 0 && ends_in_exponent(s.as_slice(), j + 1 + m)
    } else {
        proof {
            if j < s@.len() {
                assert(s@.skip(j as int)[0] == s@[j as int]);
            }
        }
        n > 0 && ends_in_exponent(s.as_slice(), j)
    };
    assert(decimal == is_decimal(t));
    if decimal {
        return true;
    }
    let mut rest: Vec<char> = Vec::new();
    let mut k: usize = i;
    while k < s.len()
        invariant
            i <= k <= s@.len(),
            rest@ == s@.subrange(i as int, k as int),
        decreases s.len() - k,
    {
        rest.push(s[k]);
        assert(rest@ =~= s@.subrange(i as int, k + 1));
        k = k + 1;
    }
    assert(rest@ =~= t);
    let low: Vec<char> = lower_all(rest.as_slice());
    let a: Vec<char> = chars_of("inf");
    let b: Vec<char> = chars_of("infinity");
    let c: Vec<char> = chars_of("nan");
    chars_eq(low.as_slice(), a.as_slice()) || chars_eq(low.as_slice(), b.as_slice()) || chars_eq(
        low.as_slice(),
        c.as_slice(),
    )
}

/// Every given value is of the kind of its flag.
pub open spec fn all_of_kind(
    g: Seq<(Seq<char>, Seq<char>)>,
    table: Seq<(Seq<char>, FlagKind)>,
) -> bool {
    forall|i: int|
        0 <= i < g.len() ==> (kind_of(table, (#[trigger] g[i]).0, 0) matches Some(kind) && of_kind(
            g[i].1,
            kind,
        ))
}

proof fn read_values_fit(
    tokens: Seq<Seq<char>>,
    table: Seq<(Seq<char>, FlagKind)>,
    i: int,
    done: Seq<(Seq<char>, Seq<char>)>,
)
    requires
        all_of_kind(done, table),
    ensures
        read_from(tokens, table, i, done) matches Ok(g) ==> all_of_kind(g, table),
    decreases tokens.len() - i,
{
    if 0 <= i < tokens.len() {
        let name = tokens[i];
        match kind_of(table, name, 0) {
            None => {},
            Some(FlagKind::Help) => {},
            Some(FlagKind::Switch) => {
                let more = done.push((name, Seq::<char>::empty()));
                assert(all_of_kind(more, table)) by {
                    assert forall|j: int| 0 <= j < more.len() implies (kind_of(
                        table,
                        (#[trigger] more[j]).0,
                        0,
                    ) matches Some(kind) && of_kind(more[j].1, kind)) by {
                        if j < done.len() {
                            assert(more[j] == done[j]);
                        }
                    }
                }
                read_values_fit(tokens, table, i + 1, more);
            },
            Some(kind) => {
                if i + 1 < tokens.len() && of_kind(tokens[i + 1], kind) {
                    let more = done.push((name, tokens[i + 1]));
                    assert(all_of_kind(more, table)) by {
                        assert forall|j: int| 0 <= j < more.len() implies (kind_of(
                            table,
                            (#[trigger] more[j]).0,
                            0,
                        ) matches Some(kind) && of_kind(more[j].1, kind)) by {
                            if j < done.len() {
                                assert(more[j] == done[j]);
                            }
                        }
                    }
                    read_values_fit(tokens, table, i + 2, more);
                }
            },
        }
    }
}

proof fn last_given_fits(
    g: Seq<(Seq<char>, Seq<char>)>,
    table: Seq<(Seq<char>, FlagKind)>,
    name: Seq<char>,
    n: int,
)
    requires
        all_of_kind(g, table),
        0 <= n <= g.len(),
    ensures
        last_given(g, name, n) matches Some(t) ==> (kind_of(table, name, 0) matches Some(kind)
            && of_kind(t, kind)),
    decreases n,
{
    if n > 0 {
        if g[n - 1].0 == name {
            assert(kind_of(table, g[n - 1].0, 0) is Some);
        } else {
            last_given_fits(g, table, name, n - 1);
        }
    }
}

fn same_text(a: &str, b: &str) -> (r: bool)
    ensures
        r == (a@ == b@),
{
    let x: Vec<char> = chars_of(a);
    let y: Vec<char> = chars_of(b);
    chars_eq(x.as_slice(), y.as_slice())
}

fn find_kind(table: &Vec<Flag>, name: &str) -> (r: Option<FlagKind>)
    ensures
        r == kind_of(flag_views(table@), name@, 0),
{
    let ghost t = flag_views(table@);
    let mut i: usize = 0;
    while i < table.len()
        invariant
            i <= table@.len(),
            t == flag_views(table@),
            kind_of(t, name@, 0) == kind_of(t, name@, i as int),
        decreases table.len() - i,
    {
        assert(t[i as int] == (table@[i as int].name@, table@[i as int].kind));
        if same_text(table[i].name, name) {
            return Some(table[i].kind);
        }
        i = i + 1;
    }
    None
}

/// Reads the flags of a program.
pub fn read_flags(tokens: &Vec<String>, table: &Vec<Flag>) -> (r: Result<Vec<Given>, ArgFault>)
    ensures
        match r {
            Ok(g) => read_from(token_views(tokens@), flag_views(table@), 0, Seq::empty()) == Ok::<
                Seq<(Seq<char>, Seq<char>)>,
                FaultView,
            >(given_views(g@)),
            Err(e) => read_from(token_views(tokens@), flag_views(table@), 0, Seq::empty()) == Err::<
                Seq<(Seq<char>, Seq<char>)>,
                FaultView,
            >(e@),
        },
{
    let ghost s = token_views(tokens@);
    let ghost t = flag_views(table@);
    let ghost want = read_from(s, t, 0, Seq::empty());
    let mut done: Vec<Given> = Vec::new();
    let mut i: usize = 0;
    assert(given_views(done@) =~= Seq::<(Seq<char>, Seq<char>)>::empty());
    while i < tokens.len()
        invariant
            i <= tokens@.len(),
            s == token_views(tokens@),
            t == flag_views(table@),
            want == read_from(s, t, 0, Seq::empty()),
            read_from(s, t, i as int, given_views(done@)) == want,
        decreases tokens.len() - i,
    {
        let name: &String = &tokens[i];
        let ghost was = given_views(done@);
        assert(s[i as int] == name@);
        match find_kind(table, name.as_str()) {
            None => {
                return Err(ArgFault::Unknown(text_of(name.as_str())));
            },
            Some(FlagKind::Help) => {
                return Err(ArgFault::Help);
            },
            Some(FlagKind::Switch) => {
                let none: String = String::new();
                assert(none@ =~= Seq::<char>::empty());
                done.push(Given { name: text_of(name.as_str()), value: none });
                assert(given_views(done@) =~= was.push((name@, Seq::<char>::empty())));
                i = i + 1;
            },
            Some(kind) => {
                if tokens.len() - i < 2 {
                    return Err(ArgFault::Missing(text_of(name.as_str())));
                }
                let value: &String = &tokens[i + 1];
                assert(s[i + 1] == value@);
                let fits: bool = match kind {
                    FlagKind::Number(max) => {
                        let digits: Vec<char> = chars_of(value.as_str());
                        match parse_number(digits.as_slice()) {
                            Some(n) => n <= max,
                            None => false,
                        }
                    },
                    FlagKind::Real => reads_as_real(value.as_str()),
                    FlagKind::Phases => named_mode(value.as_str()).is_some(),
                    _ => true,
                };
                assert(fits == of_kind(value@, kind));
                if !fits {
                    return Err(ArgFault::Bad(text_of(name.as_str())));
                }
                done.push(
                    Given { name: text_of(name.as_str()), value: text_of(value.as_str()) },
                );
                assert(given_views(done@) =~= was.push((name@, value@)));
                i = i + 2;
            },
        }
    }
    Ok(done)
}

/// What the last of the first `n` flags with a name gives.
pub open spec fn last_given(g: Seq<(Seq<char>, Seq<char>)>, name: Seq<char>, n: int) -> Option<
    Seq<char>,
>
    decreases n,
{
    if n <= 0 {
        None
    } else if g[n - 1].0 == name {
        Some(g[n - 1].1)
    } else {
        last_given(g, name, n - 1)
    }
}

/// The number up to a maximum that a flag gives, or its default.
pub open spec fn number_given(
    g: Seq<(Seq<char>, Seq<char>)>,
    name: Seq<char>,
    default: u64,
    max: u64,
) -> u64 {
    match last_given(g, name, g.len() as int) {
        Some(t) => match number(t) {
            Some(n) => if n <= max {
                n
            } else {
                default
            },
            None => default,
        },
        None => default,
    }
}

/// What an optional text holds.
pub open spec fn text_view(t: Option<String>) -> Option<Seq<char>> {
    match t {
        Some(t) => Some(t@),
        None => None,
    }
}

fn find_text(given: &Vec<Given>, name: &str) -> (r: Option<String>)
    ensures
        text_view(r) == last_given(given_views(given@), name@, given@.len() as int),
{
    let ghost g = given_views(given@);
    let mut n: usize = given.len();
    while n > 0
        invariant
            n <= given@.len(),
            g == given_views(given@),
            last_given(g, name@, given@.len() as int) == last_given(g, name@, n as int),
        decreases n,
    {
        assert(g[n - 1] == (given@[n - 1].name@, given@[n - 1].value@));
        if same_text(given[n - 1].name.as_str(), name) {
            return Some(text_of(given[n - 1].value.as_str()));
        }
        n = n - 1;
    }
    None
}

fn find_number(given: &Vec<Given>, name: &str, default: u64, max: u64) -> (r: u64)
    requires
        default <= max,
    ensures
        r == number_given(given_views(given@), name@, default, max),
        r <= max,
{
    match find_text(given, name) {
        Some(t) => {
            let digits: Vec<char> = chars_of(t.as_str());
            match parse_number(digits.as_slice()) {
                Some(n) => if n <= max {
                    n
                } else {
                    default
                },
                None => default,
            }
        },
        None => default,
    }
}

/// The flags of the differential test.
pub open spec fn model_table() -> Seq<(Seq<char>, FlagKind)> {
    seq![
        ("--data-dir"@, FlagKind::Text),
        ("--wal-dir"@, FlagKind::Text),
        ("--seed"@, FlagKind::Number(u64::MAX)),
        ("--steps"@, FlagKind::Number(u64::MAX)),
        ("--keyspace"@, FlagKind::Number(u64::MAX)),
        ("--val-min"@, FlagKind::Number(usize::MAX as u64)),
        ("--val-max"@, FlagKind::Number(usize::MAX as u64)),
        ("--checkpoint-every"@, FlagKind::Number(u64::MAX)),
        ("--flush-threshold"@, FlagKind::Number(usize::MAX as u64)),
        ("--out"@, FlagKind::Text),
    ]
}

fn model_flags() -> (v: Vec<Flag>)
    ensures
        flag_views(v@) == model_table(),
{
    let mut v: Vec<Flag> = Vec::new();
    v.push(Flag { name: "--data-dir", kind: FlagKind::Text });
    v.push(Flag { name: "--wal-dir", kind: FlagKind::Text });
    v.push(Flag { name: "--seed", kind: FlagKind::Number(u64::MAX) });
    v.push(Flag { name: "--steps", kind: FlagKind::Number(u64::MAX) });
    v.push(Flag { name: "--keyspace", kind: FlagKind::Number(u64::MAX) });
    v.push(Flag { name: "--val-min", kind: FlagKind::Number(usize::MAX as u64) });
    v.push(Flag { name: "--val-max", kind: FlagKind::Number(usize::MAX as u64) });
    v.push(Flag { name: "--checkpoint-every", kind: FlagKind::Number(u64::MAX) });
    v.push(Flag { name: "--flush-threshold", kind: FlagKind::Number(usize::MAX as u64) });
    v.push(Flag { name: "--out", kind: FlagKind::Text });
    assert(flag_views(v@) =~= model_table());
    v
}

/// The arguments of the differential test.
#[derive(Debug)]
pub struct ModelArgs {
    pub data_dir: String,
    pub wal_dir: String,
    pub seed: u64,
    pub steps: u64,
    pub keyspace: u64,
    pub val_min: usize,
    pub val_max: usize,
    pub checkpoint_every: u64,
    pub flush_threshold: usize,
    pub out: Option<String>,
}

impl ModelArgs {
    /// The arguments are what the flags give.
    pub open spec fn given_by(&self, g: Seq<(Seq<char>, Seq<char>)>) -> bool {
        &&& last_given(g, "--data-dir"@, g.len() as int) == Some(self.data_dir@)
        &&& last_given(g, "--wal-dir"@, g.len() as int) == Some(self.wal_dir@)
        &&& self.seed == number_given(g, "--seed"@, 1, u64::MAX)
        &&& self.steps == number_given(g, "--steps"@, 100_000, u64::MAX)
        &&& self.keyspace == number_given(g, "--keyspace"@, 50_000, u64::MAX)
        &&& self.val_min == number_given(g, "--val-min"@, 8, usize::MAX as u64)
        &&& self.val_max == number_given(g, "--val-max"@, 64, usize::MAX as u64)
        &&& self.checkpoint_every == number_given(g, "--checkpoint-every"@, 1_000, u64::MAX)
        &&& self.flush_threshold == number_given(g, "--flush-threshold"@, 1_048_576, usize::MAX as u64)
        &&& last_given(g, "--out"@, g.len() as int) == text_view(self.out)
    }
}

/// Reads the arguments.
pub fn parse_model_args(tokens: &Vec<String>) -> (r: Result<ModelArgs, ArgFault>)
    ensures
        match read_from(token_views(tokens@), model_table(), 0, Seq::empty()) {
            Err(f) => r matches Err(e) && e@ == f,
            Ok(g) => match r {
                Ok(a) => a.given_by(g),
                Err(e) => if last_given(g, "--data-dir"@, g.len() as int) is None {
                    e@ == FaultView::Missing("--data-dir"@)
                } else {
                    &&& last_given(g, "--wal-dir"@, g.len() as int) is None
                    &&& e@ == FaultView::Missing("--wal-dir"@)
                },
            },
        },
{
    let table: Vec<Flag> = model_flags();
    let given: Vec<Given> = match read_flags(tokens, &table) {
        Ok(g) => g,
        Err(e) => {
            return Err(e);
        },
    };
    let data_dir: String = match find_text(&given, "--data-dir") {
        Some(t) => t,
        None => {
            return Err(ArgFault::Missing(text_of("--data-dir")));
        },
    };
    let wal_dir: String = match find_text(&given, "--wal-dir") {
        Some(t) => t,
        None => {
            return Err(ArgFault::Missing(text_of("--wal-dir")));
        },
    };
    let seed: u64 = find_number(&given, "--seed", 1, u64::MAX);
    let steps: u64 = find_number(&given, "--steps", 100_000, u64::MAX);
    let keyspace: u64 = find_number(&given, "--keyspace", 50_000, u64::MAX);
    let val_min: usize = find_number(&given, "--val-min", 8, usize::MAX as u64) as usize;
    let val_max: usize = find_number(&given, "--val-max", 64, usize::MAX as u64) as usize;
    let checkpoint_every: u64 = find_number(&given, "--checkpoint-every", 1_000, u64::MAX);
    let flush_threshold: usize = find_number(&given, "--flush-threshold", 1_048_576, usize::MAX as u64) as usize;
    let out: Option<String> = find_text(&given, "--out");
    Ok(
        ModelArgs {
            data_dir,
            wal_dir,
            seed,
            steps,
            keyspace,
            val_min,
            val_max,
            checkpoint_every,
            flush_threshold,
            out,
        },
    )
}

/// The flags of the soak run.
pub open spec fn soak_table() -> Seq<(Seq<char>, FlagKind)> {
    seq![
        ("--data-dir"@, FlagKind::Text),
        ("--wal-dir"@, FlagKind::Text),
        ("--hours"@, FlagKind::Real),
        ("--ops-per-sec"@, FlagKind::Number(u32::MAX as u64)),
        ("--put-pct"@, FlagKind::Number(u8::MAX as u64)),
        ("--get-pct"@, FlagKind::Number(u8::MAX as u64)),
        ("--scan-pct"@, FlagKind::Number(u8::MAX as u64)),
        ("--scan-range-keys"@, FlagKind::Number(u32::MAX as u64)),
        ("--snapshot-every-secs"@, FlagKind::Number(u64::MAX)),
        ("--hot-key-count"@, FlagKind::Number(u32::MAX as u64)),
        ("--cold-key-count"@, FlagKind::Number(u32::MAX as u64)),
        ("--hot-pct"@, FlagKind::Number(u8::MAX as u64)),
        ("--val-min"@, FlagKind::Number(usize::MAX as u64)),
        ("--val-max"@, FlagKind::Number(usize::MAX as u64)),
        ("--seed"@, FlagKind::Number(u64::MAX)),
        ("--metrics-out"@, FlagKind::Text),
        ("--sample-every-secs"@, FlagKind::Number(u64::MAX)),
        ("--poll-compaction-ms"@, FlagKind::Number(u64::MAX)),
        ("--block-cache-mb"@, FlagKind::Number(usize::MAX as u64)),
        ("--result-cache-mb"@, FlagKind::Number(usize::MAX as u64)),
        ("--max-open-readers"@, FlagKind::Number(usize::MAX as u64)),
        ("-h"@, FlagKind::Help),
        ("--help"@, FlagKind::Help),
    ]
}

fn soak_flags() -> (v: Vec<Flag>)
    ensures
        flag_views(v@) == soak_table(),
{
    let mut v: Vec<Flag> = Vec::new();
    v.push(Flag { name: "--data-dir", kind: FlagKind::Text });
    v.push(Flag { name: "--wal-dir", kind: FlagKind::Text });
    v.push(Flag { name: "--hours", kind: FlagKind::Real });
    v.push(Flag { name: "--ops-per-sec", kind: FlagKind::Number(u32::MAX as u64) });
    v.push(Flag { name: "--put-pct", kind: FlagKind::Number(u8::MAX as u64) });
    v.push(Flag { name: "--get-pct", kind: FlagKind::Number(u8::MAX as u64) });
    v.push(Flag { name: "--scan-pct", kind: FlagKind::Number(u8::MAX as u64) });
    v.push(Flag { name: "--scan-range-keys", kind: FlagKind::Number(u32::MAX as u64) });
    v.push(Flag { name: "--snapshot-every-secs", kind: FlagKind::Number(u64::MAX) });
    v.push(Flag { name: "--hot-key-count", kind: FlagKind::Number(u32::MAX as u64) });
    v.push(Flag { name: "--cold-key-count", kind: FlagKind::Number(u32::MAX as u64) });
    v.push(Flag { name: "--hot-pct", kind: FlagKind::Number(u8::MAX as u64) });
    v.push(Flag { name: "--val-min", kind: FlagKind::Number(usize::MAX as u64) });
    v.push(Flag { name: "--val-max", kind: FlagKind::Number(usize::MAX as u64) });
    v.push(Flag { name: "--seed", kind: FlagKind::Number(u64::MAX) });
    v.push(Flag { name: "--metrics-out", kind: FlagKind::Text });
    v.push(Flag { name: "--sample-every-secs", kind: FlagKind::Number(u64::MAX) });
    v.push(Flag { name: "--poll-compaction-ms", kind: FlagKind::Number(u64::MAX) });
    v.push(Flag { name: "--block-cache-mb", kind: FlagKind::Number(usize::MAX as u64) });
    v.push(Flag { name: "--result-cache-mb", kind: FlagKind::Number(usize::MAX as u64) });
    v.push(Flag { name: "--max-open-readers", kind: FlagKind::Number(usize::MAX as u64) });
    v.push(Flag { name: "-h", kind: FlagKind::Help });
    v.push(Flag { name: "--help", kind: FlagKind::Help });
    assert(flag_views(v@) =~= soak_table());
    v
}

/// The arguments of a soak run. A directory for the log or a duration that is not given
/// is the program's default.
#[derive(Debug)]
pub struct SoakArgs {
    pub data_dir: String,
    pub wal_dir: Option<String>,
    pub hours: Option<String>,
    pub ops_per_sec: u32,
    pub put_pct: u8,
    pub get_pct: u8,
    pub scan_pct: u8,
    pub scan_range_keys: u32,
    pub snapshot_every_secs: u64,
    pub hot_key_count: u32,
    pub cold_key_count: u32,
    pub hot_pct: u8,
    pub val_min: usize,
    pub val_max: usize,
    pub seed: u64,
    pub metrics_out: Option<String>,
    pub sample_every_secs: u64,
    pub poll_compaction_ms: u64,
    pub block_cache_mb: usize,
    pub result_cache_mb: usize,
    pub max_open_readers: usize,
}

impl SoakArgs {
    /// The arguments are what the flags give.
    pub open spec fn given_by(&self, g: Seq<(Seq<char>, Seq<char>)>) -> bool {
        &&& last_given(g, "--data-dir"@, g.len() as int) == Some(self.data_dir@)
        &&& last_given(g, "--wal-dir"@, g.len() as int) == text_view(self.wal_dir)
        &&& last_given(g, "--hours"@, g.len() as int) == text_view(self.hours)
        &&& self.ops_per_sec == number_given(g, "--ops-per-sec"@, 1000, u32::MAX as u64)
        &&& self.put_pct == number_given(g, "--put-pct"@, 70, u8::MAX as u64)
        &&& self.get_pct == number_given(g, "--get-pct"@, 25, u8::MAX as u64)
        &&& self.scan_pct == number_given(g, "--scan-pct"@, 0, u8::MAX as u64)
        &&& self.scan_range_keys == number_given(g, "--scan-range-keys"@, 100, u32::MAX as u64)
        &&& self.snapshot_every_secs == number_given(g, "--snapshot-every-secs"@, 0, u64::MAX)
        &&& self.hot_key_count == number_given(g, "--hot-key-count"@, 200_000, u32::MAX as u64)
        &&& self.cold_key_count == number_given(g, "--cold-key-count"@, 800_000, u32::MAX as u64)
        &&& self.hot_pct == number_given(g, "--hot-pct"@, 80, u8::MAX as u64)
        &&& self.val_min == number_given(g, "--val-min"@, 64, usize::MAX as u64)
        &&& self.val_max == number_given(g, "--val-max"@, 1024, usize::MAX as u64)
        &&& self.seed == number_given(g, "--seed"@, 0xDEAD_BEEF_CAFE_BABE, u64::MAX)
        &&& last_given(g, "--metrics-out"@, g.len() as int) == text_view(self.metrics_out)
        &&& self.sample_every_secs == number_given(g, "--sample-every-secs"@, 60, u64::MAX)
        &&& self.poll_compaction_ms == number_given(g, "--poll-compaction-ms"@, 50, u64::MAX)
        &&& self.block_cache_mb == number_given(g, "--block-cache-mb"@, 640, usize::MAX as u64)
        &&& self.result_cache_mb == number_given(g, "--result-cache-mb"@, 0, usize::MAX as u64)
        &&& self.max_open_readers == number_given(g, "--max-open-readers"@, 128, usize::MAX as u64)
    }
}

/// Reads the arguments.
pub fn parse_soak_args(tokens: &Vec<String>) -> (r: Result<SoakArgs, ArgFault>)
    ensures
        match read_from(token_views(tokens@), soak_table(), 0, Seq::empty()) {
            Err(f) => r matches Err(e) && e@ == f,
            Ok(g) => match r {
                Ok(a) => {
                    &&& a.given_by(g)
                    &&& a.put_pct + a.get_pct + a.scan_pct <= 100
                    &&& a.val_min <= a.val_max
                    &&& a.hot_pct <= 100
                },
                Err(e) => if last_given(g, "--data-dir"@, g.len() as int) is None {
                    e@ == FaultView::Missing("--data-dir"@)
                } else {
                    soak_fault(g, e@)
                },
            },
        },
{
    let table: Vec<Flag> = soak_flags();
    let given: Vec<Given> = match read_flags(tokens, &table) {
        Ok(g) => g,
        Err(e) => {
            return Err(e);
        },
    };
    let data_dir: String = match find_text(&given, "--data-dir") {
        Some(t) => t,
        None => {
            return Err(ArgFault::Missing(text_of("--data-dir")));
        },
    };
    let wal_dir: Option<String> = find_text(&given, "--wal-dir");
    let hours: Option<String> = find_text(&given, "--hours");
    let ops_per_sec: u32 = find_number(&given, "--ops-per-sec", 1000, u32::MAX as u64) as u32;
    let put_pct: u8 = find_number(&given, "--put-pct", 70, u8::MAX as u64) as u8;
    let get_pct: u8 = find_number(&given, "--get-pct", 25, u8::MAX as u64) as u8;
    let scan_pct: u8 = find_number(&given, "--scan-pct", 0, u8::MAX as u64) as u8;
    let scan_range_keys: u32 = find_number(&given, "--scan-range-keys", 100, u32::MAX as u64) as u32;
    let snapshot_every_secs: u64 = find_number(&given, "--snapshot-every-secs", 0, u64::MAX);
    let hot_key_count: u32 = find_number(&given, "--hot-key-count", 200_000, u32::MAX as u64) as u32;
    let cold_key_count: u32 = find_number(&given, "--cold-key-count", 800_000, u32::MAX as u64) as u32;
    let hot_pct: u8 = find_number(&given, "--hot-pct", 80, u8::MAX as u64) as u8;
    let val_min: usize = find_number(&given, "--val-min", 64, usize::MAX as u64) as usize;
    let val_max: usize = find_number(&given, "--val-max", 1024, usize::MAX as u64) as usize;
    let seed: u64 = find_number(&given, "--seed", 0xDEAD_BEEF_CAFE_BABE, u64::MAX);
    let metrics_out: Option<String> = find_text(&given, "--metrics-out");
    let sample_every_secs: u64 = find_number(&given, "--sample-every-secs", 60, u64::MAX);
    let poll_compaction_ms: u64 = find_number(&given, "--poll-compaction-ms", 50, u64::MAX);
    let block_cache_mb: usize = find_number(&given, "--block-cache-mb", 640, usize::MAX as u64) as usize;
    let result_cache_mb: usize = find_number(&given, "--result-cache-mb", 0, usize::MAX as u64) as usize;
    let max_open_readers: usize = find_number(&given, "--max-open-readers", 128, usize::MAX as u64) as usize;
    if put_pct as u16 + get_pct as u16 + scan_pct as u16 > 100 {
        return Err(
            ArgFault::Bad(
                text_of("put-pct + get-pct + scan-pct must be <= 100 (rest is delete)"),
            ),
        );
    }
    if val_min > val_max {
        return Err(ArgFault::Bad(text_of("--val-min must be <= --val-max")));
    }
    if hot_pct > 100 {
        return Err(ArgFault::Bad(text_of("--hot-pct must be 0-100")));
    }
    Ok(
        SoakArgs {
            data_dir,
            wal_dir,
            hours,
            ops_per_sec,
            put_pct,
            get_pct,
            scan_pct,
            scan_range_keys,
            snapshot_every_secs,
            hot_key_count,
            cold_key_count,
            hot_pct,
            val_min,
            val_max,
            seed,
            metrics_out,
            sample_every_secs,
            poll_compaction_ms,
            block_cache_mb,
            result_cache_mb,
            max_open_readers,
        },
    )
}

/// Numbers that are each in range but not together.
pub open spec fn soak_fault(g: Seq<(Seq<char>, Seq<char>)>, f: FaultView) -> bool {
    if number_given(g, "--put-pct"@, 70, u8::MAX as u64) + number_given(g, "--get-pct"@, 25, u8::MAX as u64) + number_given(
        g,
        "--scan-pct"@,
        0,
        u8::MAX as u64,
    ) > 100 {
        f == FaultView::Bad("put-pct + get-pct + scan-pct must be <= 100 (rest is delete)"@)
    } else if number_given(g, "--val-min"@, 64, usize::MAX as u64) > number_given(g, "--val-max"@, 1024, usize::MAX as u64) {
        f == FaultView::Bad("--val-min must be <= --val-max"@)
    } else {
        number_given(g, "--hot-pct"@, 80, u8::MAX as u64) > 100 && f == FaultView::Bad("--hot-pct must be 0-100"@)
    }
}

/// The phases of an isolation run.
#[derive(Debug, Clone, Copy, PartialEq, Eq, Structural)]
pub enum Mode {
    Steady,
    Rampup,
    Both,
}

/// The phases that a text names; all where it is not given.
pub open spec fn mode_given(t: Option<Seq<char>>) -> Option<Mode> {
    match t {
        None => Some(Mode::Both),
        Some(t) => if t == "steady"@ {
            Some(Mode::Steady)
        } else if t == "rampup"@ {
            Some(Mode::Rampup)
        } else if t == "both"@ {
            Some(Mode::Both)
        } else {
            None
        },
    }
}

fn named_mode(t: &str) -> (r: Option<Mode>)
    ensures
        r == mode_given(Some(t@)),
{
    if same_text(t, "steady") {
        Some(Mode::Steady)
    } else if same_text(t, "rampup") {
        Some(Mode::Rampup)
    } else if same_text(t, "both") {
        Some(Mode::Both)
    } else {
        None
    }
}

/// The flags of the isolation run.
pub open spec fn tenant_table() -> Seq<(Seq<char>, FlagKind)> {
    seq![
        ("--data-root"@, FlagKind::Text),
        ("--mode"@, FlagKind::Phases),
        ("--seconds"@, FlagKind::Number(u64::MAX)),
        ("--victim-ops-per-sec"@, FlagKind::Number(u32::MAX as u64)),
        ("--noisy-writers"@, FlagKind::Number(u32::MAX as u64)),
        ("--noisy-readers"@, FlagKind::Number(u32::MAX as u64)),
        ("--memtable-mb"@, FlagKind::Number(usize::MAX as u64)),
        ("--block-cache-mb"@, FlagKind::Number(usize::MAX as u64)),
        ("--retry-budget-ms"@, FlagKind::Number(u64::MAX)),
        ("--fail-delta-ms"@, FlagKind::Real),
        ("--ship-delta-ms"@, FlagKind::Real),
        ("--rampup-idle-secs"@, FlagKind::Number(u64::MAX)),
        ("--rampup-fail-delta-ms"@, FlagKind::Real),
        ("--min-success-ratio"@, FlagKind::Real),
        ("--skip-fair-off"@, FlagKind::Switch),
        ("--json-out"@, FlagKind::Text),
        ("--help"@, FlagKind::Help),
        ("-h"@, FlagKind::Help),
    ]
}

fn tenant_flags() -> (v: Vec<Flag>)
    ensures
        flag_views(v@) == tenant_table(),
{
    let mut v: Vec<Flag> = Vec::new();
    v.push(Flag { name: "--data-root", kind: FlagKind::Text });
    v.push(Flag { name: "--mode", kind: FlagKind::Phases });
    v.push(Flag { name: "--seconds", kind: FlagKind::Number(u64::MAX) });
    v.push(Flag { name: "--victim-ops-per-sec", kind: FlagKind::Number(u32::MAX as u64) });
    v.push(Flag { name: "--noisy-writers", kind: FlagKind::Number(u32::MAX as u64) });
    v.push(Flag { name: "--noisy-readers", kind: FlagKind::Number(u32::MAX as u64) });
    v.push(Flag { name: "--memtable-mb", kind: FlagKind::Number(usize::MAX as u64) });
    v.push(Flag { name: "--block-cache-mb", kind: FlagKind::Number(usize::MAX as u64) });
    v.push(Flag { name: "--retry-budget-ms", kind: FlagKind::Number(u64::MAX) });
    v.push(Flag { name: "--fail-delta-ms", kind: FlagKind::Real });
    v.push(Flag { name: "--ship-delta-ms", kind: FlagKind::Real });
    v.push(Flag { name: "--rampup-idle-secs", kind: FlagKind::Number(u64::MAX) });
    v.push(Flag { name: "--rampup-fail-delta-ms", kind: FlagKind::Real });
    v.push(Flag { name: "--min-success-ratio", kind: FlagKind::Real });
    v.push(Flag { name: "--skip-fair-off", kind: FlagKind::Switch });
    v.push(Flag { name: "--json-out", kind: FlagKind::Text });
    v.push(Flag { name: "--help", kind: FlagKind::Help });
    v.push(Flag { name: "-h", kind: FlagKind::Help });
    assert(flag_views(v@) =~= tenant_table());
    v
}

/// The arguments of an isolation run. What is not given and has no number is the
/// program's default.
#[derive(Debug)]
pub struct TenantArgs {
    pub data_root: Option<String>,
    pub mode: Mode,
    pub seconds: u64,
    pub victim_ops_per_sec: u32,
    pub noisy_writers: u32,
    pub noisy_readers: u32,
    pub memtable_mb: usize,
    pub block_cache_mb: usize,
    pub retry_budget_ms: u64,
    pub fail_delta_ms: Option<String>,
    pub ship_delta_ms: Option<String>,
    pub rampup_idle_secs: u64,
    pub rampup_fail_delta_ms: Option<String>,
    pub min_success_ratio: Option<String>,
    pub skip_fair_off: bool,
    pub json_out: Option<String>,
}

impl TenantArgs {
    /// The arguments are what the flags give.
    pub open spec fn given_by(&self, g: Seq<(Seq<char>, Seq<char>)>) -> bool {
        &&& last_given(g, "--data-root"@, g.len() as int) == text_view(self.data_root)
        &&& mode_given(last_given(g, "--mode"@, g.len() as int)) == Some(self.mode)
        &&& self.seconds == number_given(g, "--seconds"@, 30, u64::MAX)
        &&& self.victim_ops_per_sec == number_given(g, "--victim-ops-per-sec"@, 50, u32::MAX as u64)
        &&& self.noisy_writers == number_given(g, "--noisy-writers"@, 1, u32::MAX as u64)
        &&& self.noisy_readers == number_given(g, "--noisy-readers"@, 1, u32::MAX as u64)
        &&& self.memtable_mb == number_given(g, "--memtable-mb"@, 8, usize::MAX as u64)
        &&& self.block_cache_mb == number_given(g, "--block-cache-mb"@, 16, usize::MAX as u64)
        &&& self.retry_budget_ms == number_given(g, "--retry-budget-ms"@, 500, u64::MAX)
        &&& last_given(g, "--fail-delta-ms"@, g.len() as int) == text_view(self.fail_delta_ms)
        &&& last_given(g, "--ship-delta-ms"@, g.len() as int) == text_view(self.ship_delta_ms)
        &&& self.rampup_idle_secs == number_given(g, "--rampup-idle-secs"@, 10, u64::MAX)
        &&& last_given(g, "--rampup-fail-delta-ms"@, g.len() as int) == text_view(self.rampup_fail_delta_ms)
        &&& last_given(g, "--min-success-ratio"@, g.len() as int) == text_view(self.min_success_ratio)
        &&& self.skip_fair_off == (last_given(g, "--skip-fair-off"@, g.len() as int) is Some)
        &&& last_given(g, "--json-out"@, g.len() as int) == text_view(self.json_out)
    }
}

/// Reads the arguments.
pub fn parse_tenant_args(tokens: &Vec<String>) -> (r: Result<TenantArgs, ArgFault>)
    ensures
        match read_from(token_views(tokens@), tenant_table(), 0, Seq::empty()) {
            Err(f) => r matches Err(e) && e@ == f,
            Ok(g) => r matches Ok(a) && a.given_by(g),
        },
{
    let table: Vec<Flag> = tenant_flags();
    let given: Vec<Given> = match read_flags(tokens, &table) {
        Ok(g) => g,
        Err(e) => {
            return Err(e);
        },
    };
    let data_root: Option<String> = find_text(&given, "--data-root");
    proof {
        let g = given_views(given@);
        read_values_fit(token_views(tokens@), tenant_table(), 0, Seq::empty());
        last_given_fits(g, tenant_table(), "--mode"@, g.len() as int);
        reveal_strlit("--data-root");
        reveal_strlit("--mode");
        assert("--data-root"@.len() != "--mode"@.len());
        reveal_with_fuel(kind_of, 3);
    }
    let mode: Mode = match find_text(&given, "--mode") {
        Some(t) => match named_mode(t.as_str()) {
            Some(m) => m,
            None => Mode::Both,
        },
        None => Mode::Both,
    };
    let seconds: u64 = find_number(&given, "--seconds", 30, u64::MAX);
    let victim_ops_per_sec: u32 = find_number(&given, "--victim-ops-per-sec", 50, u32::MAX as u64) as u32;
    let noisy_writers: u32 = find_number(&given, "--noisy-writers", 1, u32::MAX as u64) as u32;
    let noisy_readers: u32 = find_number(&given, "--noisy-readers", 1, u32::MAX as u64) as u32;
    let memtable_mb: usize = find_number(&given, "--memtable-mb", 8, usize::MAX as u64) as usize;
    let block_cache_mb: usize = find_number(&given, "--block-cache-mb", 16, usize::MAX as u64) as usize;
    let retry_budget_ms: u64 = find_number(&given, "--retry-budget-ms", 500, u64::MAX);
    let fail_delta_ms: Option<String> = find_text(&given, "--fail-delta-ms");
    let ship_delta_ms: Option<String> = find_text(&given, "--ship-delta-ms");
    let rampup_idle_secs: u64 = find_number(&given, "--rampup-idle-secs", 10, u64::MAX);
    let rampup_fail_delta_ms: Option<String> = find_text(&given, "--rampup-fail-delta-ms");
    let min_success_ratio: Option<String> = find_text(&given, "--min-success-ratio");
    let skip_fair_off: bool = find_text(&given, "--skip-fair-off").is_some();
    let json_out: Option<String> = find_text(&given, "--json-out");
    Ok(
        TenantArgs {
            data_root,
            mode,
            seconds,
            victim_ops_per_sec,
            noisy_writers,
            noisy_readers,
            memtable_mb,
            block_cache_mb,
            retry_budget_ms,
            fail_delta_ms,
            ship_delta_ms,
            rampup_idle_secs,
            rampup_fail_delta_ms,
            min_success_ratio,
            skip_fair_off,
            json_out,
        },
    )
}

} // verus!
