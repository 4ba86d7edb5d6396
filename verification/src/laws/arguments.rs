//! Arguments of the programs around the library, and the texts that they report.

use vstd::prelude::*;
use crate::harness::args::{
    digits_len, is_decimal, is_exponent, is_real, kind_of, last_given, mode_given, number_given,
    of_kind, read_from, unsigned, FaultView, FlagKind, Mode, ModelArgs, SoakArgs, TenantArgs,
};
use crate::harness::report::{
    bytes_text, described, difference, escaped, fields_text, first_difference, listed_bytes,
    position_of,
};
use crate::harness::tenants::class_of;
use crate::text::{decimal, has_part, hex_byte, lowered, number};

verus! {

/// Whether the flag stands alone.
pub open spec fn stands_alone(table: Seq<(Seq<char>, FlagKind)>, name: Seq<char>) -> bool {
    kind_of(table, name, 0) matches Some(FlagKind::Switch)
}

/// The arguments that a list of flags and values is spelled with: the flag, and the value
/// after it but for a flag that stands alone.
pub open spec fn spelled(
    g: Seq<(Seq<char>, Seq<char>)>,
    table: Seq<(Seq<char>, FlagKind)>,
) -> Seq<Seq<char>>
    decreases g.len(),
{
    if g.len() == 0 {
        Seq::empty()
    } else if stands_alone(table, g[0].0) {
        seq![g[0].0] + spelled(g.skip(1), table)
    } else {
        seq![g[0].0, g[0].1] + spelled(g.skip(1), table)
    }
}

/// A flag of the table with a value that it may have.
pub open spec fn is_proper(p: (Seq<char>, Seq<char>), table: Seq<(Seq<char>, FlagKind)>) -> bool {
    match kind_of(table, p.0, 0) {
        Some(FlagKind::Switch) => p.1.len() == 0,
        Some(FlagKind::Number(max)) => number(p.1) is Some && number(p.1)->0 <= max,
        Some(FlagKind::Text) => true,
        Some(FlagKind::Real) => is_real(p.1),
        Some(FlagKind::Phases) => p.1 == "steady"@ || p.1 == "rampup"@ || p.1 == "both"@,
        Some(FlagKind::Help) => false,
        None => false,
    }
}

proof fn reads_on(
    tokens: Seq<Seq<char>>,
    g: Seq<(Seq<char>, Seq<char>)>,
    table: Seq<(Seq<char>, FlagKind)>,
    i: int,
    done: Seq<(Seq<char>, Seq<char>)>,
)
    requires
        0 <= i <= tokens.len(),
        tokens.skip(i) == spelled(g, table),
        forall|k: int| 0 <= k < g.len() ==> is_proper(#[trigger] g[k], table),
    ensures
        read_from(tokens, table, i, done) == Ok::<Seq<(Seq<char>, Seq<char>)>, FaultView>(done + g),
    decreases g.len(),
{
    if g.len() == 0 {
        assert(tokens.skip(i).len() == 0);
        assert(done + g =~= done);
    } else {
        let rest = g.skip(1);
        assert(is_proper(g[0], table));
        assert forall|k: int| 0 <= k < rest.len() implies is_proper(#[trigger] rest[k], table) by {
            assert(rest[k] == g[k + 1]);
        }
        let left = tokens.skip(i);
        assert(left.len() == tokens.len() - i && left.len() > 0);
        assert(left[0] == g[0].0);
        assert(tokens[i] == left[0]);
        if stands_alone(table, g[0].0) {
            assert(g[0].1 =~= Seq::<char>::empty());
            assert(tokens.skip(i + 1) =~= spelled(rest, table)) by {
                assert((seq![g[0].0] + spelled(rest, table)).skip(1) =~= spelled(rest, table));
                assert(tokens.skip(i + 1) =~= tokens.skip(i).skip(1));
            }
            reads_on(tokens, rest, table, i + 1, done.push(g[0]));
            assert(g[0] == (tokens[i], Seq::<char>::empty()));
        } else {
            assert(left.len() > 1);
            assert(left[1] == g[0].1);
            assert(tokens[i + 1] == left[1]);
            assert(tokens.skip(i + 2) =~= spelled(rest, table)) by {
                assert((seq![g[0].0, g[0].1] + spelled(rest, table)).skip(2) =~= spelled(
                    rest,
                    table,
                ));
                assert(tokens.skip(i + 2) =~= tokens.skip(i).skip(2));
            }
            reads_on(tokens, rest, table, i + 2, done.push(g[0]));
        }
        assert(done.push(g[0]) + rest =~= done + g);
    }
}

/// Flags and values are read as they are spelled, in their order.
pub proof fn what_is_spelled_is_read(
    g: Seq<(Seq<char>, Seq<char>)>,
    table: Seq<(Seq<char>, FlagKind)>,
)
    requires
        forall|k: int| 0 <= k < g.len() ==> is_proper(#[trigger] g[k], table),
    ensures
        read_from(spelled(g, table), table, 0, Seq::empty()) == Ok::<
            Seq<(Seq<char>, Seq<char>)>,
            FaultView,
        >(g),
{
    let t = spelled(g, table);
    assert(t.skip(0) =~= t);
    reads_on(t, g, table, 0, Seq::empty());
    assert(Seq::empty() + g =~= g);
}

proof fn comes_from(
    tokens: Seq<Seq<char>>,
    table: Seq<(Seq<char>, FlagKind)>,
    i: int,
    done: Seq<(Seq<char>, Seq<char>)>,
)
    requires
        0 <= i <= tokens.len(),
    ensures
        match read_from(tokens, table, i, done) {
            Ok(g) => {
                &&& g.len() >= done.len()
                &&& g.take(done.len() as int) == done
                &&& tokens.skip(i) == spelled(g.skip(done.len() as int), table)
                &&& forall|k: int| done.len() <= k < g.len() ==> is_proper(#[trigger] g[k], table)
            },
            Err(FaultView::Unknown(n)) => tokens.contains(n) && kind_of(table, n, 0) is None,
            Err(FaultView::Missing(n)) => tokens.len() > 0 && n == tokens.last(),
            Err(FaultView::Bad(n)) => exists|k: int|
                0 <= k < tokens.len() - 1 && #[trigger] tokens[k] == n && !is_proper(
                    (n, tokens[k + 1]),
                    table,
                ),
            Err(FaultView::Help) => exists|k: int|
                0 <= k < tokens.len() && kind_of(table, #[trigger] tokens[k], 0) == Some(
                    FlagKind::Help,
                ),
        },
    decreases tokens.len() - i,
{
    if i == tokens.len() {
        assert(done.take(done.len() as int) =~= done);
        assert(tokens.skip(i) =~= spelled(done.skip(done.len() as int), table));
    } else {
        let name = tokens[i];
        let n = done.len() as int;
        if kind_of(table, name, 0) is Some && !(kind_of(table, name, 0) == Some(FlagKind::Help)) {
            let alone = stands_alone(table, name);
            if alone || (i + 1 < tokens.len() && of_kind(
                tokens[i + 1],
                kind_of(table, name, 0)->0,
            )) {
                let p = (
                    name,
                    if alone {
                        Seq::<char>::empty()
                    } else {
                        tokens[i + 1]
                    },
                );
                let next = if alone {
                    i + 1
                } else {
                    i + 2
                };
                assert(is_proper(p, table));
                comes_from(tokens, table, next, done.push(p));
                if let Ok(g) = read_from(tokens, table, next, done.push(p)) {
                    assert(g[n] == p) by {
                        assert(g.take(n + 1)[n] == done.push(p)[n]);
                    }
                    assert(g.take(n) =~= done) by {
                        assert(g.take(n) =~= g.take(n + 1).take(n));
                        assert(done.push(p).take(n) =~= done);
                    }
                    let tail = g.skip(n);
                    assert(tail[0] == p);
                    assert(tail.skip(1) =~= g.skip(n + 1));
                    if alone {
                        assert(tokens.skip(i) =~= seq![name] + tokens.skip(i + 1));
                    } else {
                        assert(tokens.skip(i) =~= seq![name, tokens[i + 1]] + tokens.skip(i + 2));
                    }
                }
            } else if i + 1 < tokens.len() {
                assert(tokens[i] == name && !is_proper((name, tokens[i + 1]), table));
            }
        }
    }
}

/// What was read was spelled so, and is proper. An unknown flag, one at the end that lacks
/// its value, one with a value that it may not have, and a call for help are named as such.
pub proof fn what_is_read_was_spelled(
    tokens: Seq<Seq<char>>,
    table: Seq<(Seq<char>, FlagKind)>,
)
    ensures
        match read_from(tokens, table, 0, Seq::empty()) {
            Ok(g) => tokens == spelled(g, table) && forall|k: int|
                0 <= k < g.len() ==> is_proper(#[trigger] g[k], table),
            Err(FaultView::Unknown(n)) => tokens.contains(n) && kind_of(table, n, 0) is None,
            Err(FaultView::Missing(n)) => tokens.len() > 0 && n == tokens.last(),
            Err(FaultView::Bad(n)) => exists|k: int|
                0 <= k < tokens.len() - 1 && #[trigger] tokens[k] == n && !is_proper(
                    (n, tokens[k + 1]),
                    table,
                ),
            Err(FaultView::Help) => exists|k: int|
                0 <= k < tokens.len() && kind_of(table, #[trigger] tokens[k], 0) == Some(
                    FlagKind::Help,
                ),
        },
{
    comes_from(tokens, table, 0, Seq::empty());
    assert(tokens.skip(0) =~= tokens);
    if let Ok(g) = read_from(tokens, table, 0, Seq::empty()) {
        assert(g.skip(0) =~= g);
    }
}

/// A flag is of the kind that the table's first entry for it gives.
pub proof fn flags_have_their_kinds(
    table: Seq<(Seq<char>, FlagKind)>,
    name: Seq<char>,
    i: int,
)
    requires
        0 <= i <= table.len(),
    ensures
        match kind_of(table, name, i) {
            Some(kind) => exists|k: int|
                {
                    &&& i <= k < table.len()
                    &&& #[trigger] table[k] == (name, kind)
                    &&& forall|j: int| i <= j < k ==> (#[trigger] table[j]).0 != name
                },
            None => forall|j: int| i <= j < table.len() ==> (#[trigger] table[j]).0 != name,
        },
    decreases table.len() - i,
{
    if i < table.len() && table[i].0 != name {
        flags_have_their_kinds(table, name, i + 1);
    } else if i < table.len() {
        assert(table[i] == (name, table[i].1));
    }
}

/// Of several values of a flag the last counts.
pub proof fn the_last_value_counts(g: Seq<(Seq<char>, Seq<char>)>, name: Seq<char>, n: int)
    requires
        0 <= n <= g.len(),
    ensures
        match last_given(g, name, n) {
            Some(t) => exists|k: int|
                {
                    &&& 0 <= k < n
                    &&& #[trigger] g[k] == (name, t)
                    &&& forall|j: int| k < j < n ==> (#[trigger] g[j]).0 != name
                },
            None => forall|j: int| 0 <= j < n ==> (#[trigger] g[j]).0 != name,
        },
    decreases n,
{
    if n > 0 {
        if g[n - 1].0 == name {
            assert(g[n - 1] == (name, g[n - 1].1));
        } else {
            the_last_value_counts(g, name, n - 1);
        }
    }
}

/// An isolation run's phases: one of the two by name, or both, which is what is run where
/// nothing is said. Another name is none.
pub proof fn phases_have_their_names(t: Seq<char>)
    ensures
        mode_given(None) == Some(Mode::Both),
        mode_given(Some(t)) == Some(Mode::Steady) <==> t == "steady"@,
        mode_given(Some(t)) == Some(Mode::Rampup) <==> t == "rampup"@,
        mode_given(Some(t)) == Some(Mode::Both) <==> t == "both"@,
        mode_given(Some(t)) is None <==> t != "steady"@ && t != "rampup"@ && t != "both"@,
{
    reveal_strlit("steady");
    reveal_strlit("rampup");
    reveal_strlit("both");
    assert("both"@.len() == 4 && "steady"@.len() == 6 && "rampup"@.len() == 6);
    if "steady"@ == "rampup"@ {
        assert("steady"@[0] == "rampup"@[0]);
    }
}

/// No value is given.
pub open spec fn lacks(g: Seq<(Seq<char>, Seq<char>)>, name: Seq<char>) -> bool {
    forall|j: int| 0 <= j < g.len() ==> (#[trigger] g[j]).0 != name
}

/// A number that is given is taken, up to the greatest allowed; without one the default is.
pub proof fn given_numbers_are_taken(
    g: Seq<(Seq<char>, Seq<char>)>,
    name: Seq<char>,
    default: u64,
    max: u64,
    k: int,
)
    ensures
        lacks(g, name) ==> number_given(g, name, default, max) == default,
        0 <= k < g.len() && g[k].0 == name && (forall|j: int|
            k < j < g.len() ==> (#[trigger] g[j]).0 != name) && number(g[k].1) is Some && number(
            g[k].1,
        )->0 <= max ==> number_given(g, name, default, max) == number(g[k].1)->0,
{
    the_last_value_counts(g, name, g.len() as int);
}

/// What a model run has where it is told no more than its directories.
pub proof fn defaults_of_model_runs(a: ModelArgs, g: Seq<(Seq<char>, Seq<char>)>)
    requires
        a.given_by(g),
    ensures
        lacks(g, "--seed"@) ==> a.seed == 1,
        lacks(g, "--steps"@) ==> a.steps == 100_000,
        lacks(g, "--keyspace"@) ==> a.keyspace == 50_000,
        lacks(g, "--val-min"@) ==> a.val_min == 8,
        lacks(g, "--val-max"@) ==> a.val_max == 64,
        lacks(g, "--checkpoint-every"@) ==> a.checkpoint_every == 1_000,
        lacks(g, "--flush-threshold"@) ==> a.flush_threshold == 1_048_576,
        lacks(g, "--out"@) ==> a.out is None,
{
    let n = g.len() as int;
    the_last_value_counts(g, "--seed"@, n);
    the_last_value_counts(g, "--steps"@, n);
    the_last_value_counts(g, "--keyspace"@, n);
    the_last_value_counts(g, "--val-min"@, n);
    the_last_value_counts(g, "--val-max"@, n);
    the_last_value_counts(g, "--checkpoint-every"@, n);
    the_last_value_counts(g, "--flush-threshold"@, n);
    the_last_value_counts(g, "--out"@, n);
}

/// What a soak run has where it is told no more than its directory.
pub proof fn defaults_of_soak_runs(a: SoakArgs, g: Seq<(Seq<char>, Seq<char>)>)
    requires
        a.given_by(g),
    ensures
        lacks(g, "--wal-dir"@) ==> a.wal_dir is None,
        lacks(g, "--hours"@) ==> a.hours is None,
        lacks(g, "--ops-per-sec"@) ==> a.ops_per_sec == 1000,
        lacks(g, "--put-pct"@) ==> a.put_pct == 70,
        lacks(g, "--get-pct"@) ==> a.get_pct == 25,
        lacks(g, "--scan-pct"@) ==> a.scan_pct == 0,
        lacks(g, "--scan-range-keys"@) ==> a.scan_range_keys == 100,
        lacks(g, "--snapshot-every-secs"@) ==> a.snapshot_every_secs == 0,
        lacks(g, "--hot-key-count"@) ==> a.hot_key_count == 200_000,
        lacks(g, "--cold-key-count"@) ==> a.cold_key_count == 800_000,
        lacks(g, "--hot-pct"@) ==> a.hot_pct == 80,
        lacks(g, "--val-min"@) ==> a.val_min == 64,
        lacks(g, "--val-max"@) ==> a.val_max == 1024,
        lacks(g, "--seed"@) ==> a.seed == 0xDEAD_BEEF_CAFE_BABE,
        lacks(g, "--metrics-out"@) ==> a.metrics_out is None,
        lacks(g, "--sample-every-secs"@) ==> a.sample_every_secs == 60,
        lacks(g, "--poll-compaction-ms"@) ==> a.poll_compaction_ms == 50,
        lacks(g, "--block-cache-mb"@) ==> a.block_cache_mb == 640,
        lacks(g, "--result-cache-mb"@) ==> a.result_cache_mb == 0,
        lacks(g, "--max-open-readers"@) ==> a.max_open_readers == 128,
{
    let n = g.len() as int;
    the_last_value_counts(g, "--wal-dir"@, n);
    the_last_value_counts(g, "--hours"@, n);
    the_last_value_counts(g, "--metrics-out"@, n);
    given_numbers_are_taken(g, "--ops-per-sec"@, 1000, u32::MAX as u64, 0);
    given_numbers_are_taken(g, "--put-pct"@, 70, u8::MAX as u64, 0);
    given_numbers_are_taken(g, "--get-pct"@, 25, u8::MAX as u64, 0);
    given_numbers_are_taken(g, "--scan-pct"@, 0, u8::MAX as u64, 0);
    given_numbers_are_taken(g, "--scan-range-keys"@, 100, u32::MAX as u64, 0);
    given_numbers_are_taken(g, "--snapshot-every-secs"@, 0, u64::MAX, 0);
    given_numbers_are_taken(g, "--hot-key-count"@, 200_000, u32::MAX as u64, 0);
    given_numbers_are_taken(g, "--cold-key-count"@, 800_000, u32::MAX as u64, 0);
    given_numbers_are_taken(g, "--hot-pct"@, 80, u8::MAX as u64, 0);
    given_numbers_are_taken(g, "--val-min"@, 64, usize::MAX as u64, 0);
    given_numbers_are_taken(g, "--val-max"@, 1024, usize::MAX as u64, 0);
    given_numbers_are_taken(g, "--seed"@, 0xDEAD_BEEF_CAFE_BABE, u64::MAX, 0);
    given_numbers_are_taken(g, "--sample-every-secs"@, 60, u64::MAX, 0);
    given_numbers_are_taken(g, "--poll-compaction-ms"@, 50, u64::MAX, 0);
    given_numbers_are_taken(g, "--block-cache-mb"@, 640, usize::MAX as u64, 0);
    given_numbers_are_taken(g, "--result-cache-mb"@, 0, usize::MAX as u64, 0);
    given_numbers_are_taken(g, "--max-open-readers"@, 128, usize::MAX as u64, 0);
}

/// What an isolation run has where it is told nothing.
pub proof fn defaults_of_isolation_runs(a: TenantArgs, g: Seq<(Seq<char>, Seq<char>)>)
    requires
        a.given_by(g),
    ensures
        lacks(g, "--data-root"@) ==> a.data_root is None,
        lacks(g, "--mode"@) ==> a.mode == Mode::Both,
        lacks(g, "--seconds"@) ==> a.seconds == 30,
        lacks(g, "--victim-ops-per-sec"@) ==> a.victim_ops_per_sec == 50,
        lacks(g, "--noisy-writers"@) ==> a.noisy_writers == 1,
        lacks(g, "--noisy-readers"@) ==> a.noisy_readers == 1,
        lacks(g, "--memtable-mb"@) ==> a.memtable_mb == 8,
        lacks(g, "--block-cache-mb"@) ==> a.block_cache_mb == 16,
        lacks(g, "--retry-budget-ms"@) ==> a.retry_budget_ms == 500,
        lacks(g, "--rampup-idle-secs"@) ==> a.rampup_idle_secs == 10,
        lacks(g, "--skip-fair-off"@) <==> !a.skip_fair_off,
        lacks(g, "--json-out"@) ==> a.json_out is None,
{
    let n = g.len() as int;
    the_last_value_counts(g, "--data-root"@, n);
    the_last_value_counts(g, "--mode"@, n);
    the_last_value_counts(g, "--skip-fair-off"@, n);
    the_last_value_counts(g, "--json-out"@, n);
    given_numbers_are_taken(g, "--seconds"@, 30, u64::MAX, 0);
    given_numbers_are_taken(g, "--victim-ops-per-sec"@, 50, u32::MAX as u64, 0);
    given_numbers_are_taken(g, "--noisy-writers"@, 1, u32::MAX as u64, 0);
    given_numbers_are_taken(g, "--noisy-readers"@, 1, u32::MAX as u64, 0);
    given_numbers_are_taken(g, "--memtable-mb"@, 8, usize::MAX as u64, 0);
    given_numbers_are_taken(g, "--block-cache-mb"@, 16, usize::MAX as u64, 0);
    given_numbers_are_taken(g, "--retry-budget-ms"@, 500, u64::MAX, 0);
    given_numbers_are_taken(g, "--rampup-idle-secs"@, 10, u64::MAX, 0);
}

/// The text up to a place consists of decimal digits, and what stands there is none.
pub open spec fn digits_end_at(s: Seq<char>, n: int) -> bool {
    &&& 0 <= n <= s.len()
    &&& forall|i: int| 0 <= i < n ==> '0' <= #[trigger] s[i] <= '9'
    &&& n < s.len() ==> !('0' <= s[n] <= '9')
}

/// Digits are counted up to the first other character.
pub proof fn digits_are_counted(s: Seq<char>)
    ensures
        digits_end_at(s, digits_len(s) as int),
    decreases s.len(),
{
    if s.len() > 0 && '0' <= s[0] <= '9' {
        let t = s.skip(1);
        digits_are_counted(t);
        let n = digits_len(t) as int;
        assert forall|i: int| 0 <= i < n + 1 implies '0' <= #[trigger] s[i] <= '9' by {
            if i > 0 {
                assert(t[i - 1] == s[i]);
            }
        }
        if n + 1 < s.len() {
            assert(t[n] == s[n + 1]);
        }
    }
}

/// A decimal notation has digits before or after the point, or before an end without a
/// point. What follows may be an exponent: the letter, a sign where there is one, and
/// digits to the end.
pub proof fn decimal_notation(s: Seq<char>, n: int, m: int)
    requires
        digits_end_at(s, n),
    ensures
        n == s.len() ==> (is_decimal(s) <==> n > 0),
        n < s.len() && s[n] == '.' && digits_end_at(s.skip(n + 1), m) ==> (is_decimal(s) <==> n + m
            > 0 && is_exponent(s.skip(n + 1 + m))),
        n < s.len() && s[n] != '.' ==> (is_decimal(s) <==> n > 0 && is_exponent(s.skip(n))),
{
    digits_are_counted(s);
    digits_end_once(s, n, digits_len(s) as int);
    if n < s.len() && s[n] == '.' && digits_end_at(s.skip(n + 1), m) {
        let t = s.skip(n);
        assert(t.skip(1) =~= s.skip(n + 1));
        digits_are_counted(s.skip(n + 1));
        digits_end_once(s.skip(n + 1), m, digits_len(s.skip(n + 1)) as int);
        assert(t.skip(1 + m) =~= s.skip(n + 1 + m));
    }
}

/// An exponent is nothing at all, or an `e` and at least one digit, with a sign or none in
/// between.
pub proof fn exponents(s: Seq<char>)
    ensures
        s.len() == 0 ==> is_exponent(s),
        s.len() > 0 && s[0] != 'e' && s[0] != 'E' ==> !is_exponent(s),
        s.len() > 0 && (s[0] == 'e' || s[0] == 'E') ==> {
            let from: int = if s.len() > 1 && (s[1] == '+' || s[1] == '-') {
                2
            } else {
                1
            };
            is_exponent(s) <==> s.len() > from && forall|i: int|
                from <= i < s.len() ==> '0' <= #[trigger] s[i] <= '9'
        },
{
    if s.len() > 0 && (s[0] == 'e' || s[0] == 'E') {
        let from: int = if s.len() > 1 && (s[1] == '+' || s[1] == '-') {
            2
        } else {
            1
        };
        let t = unsigned(s.skip(1));
        assert(t =~= s.skip(from));
        digits_are_counted(t);
        let n = digits_len(t) as int;
        if n == t.len() {
            assert forall|i: int| from <= i < s.len() implies '0' <= #[trigger] s[i] <= '9' by {
                assert(t[i - from] == s[i]);
            }
        } else {
            assert(s[n + from] == t[n]);
        }
    }
}

proof fn digits_end_once(s: Seq<char>, a: int, b: int)
    requires
        digits_end_at(s, a),
        digits_end_at(s, b),
    ensures
        a == b,
{
    if a < b {
        assert('0' <= s[a] <= '9');
    } else if b < a {
        assert('0' <= s[b] <= '9');
    }
}

/// A text escaped: quotes, backslashes and line feeds behind a backslash, other control
/// characters as four digits, and the rest as they are, one after the other.
pub proof fn texts_are_escaped(s: Seq<char>, c: char)
    ensures
        escaped(Seq::empty()) == Seq::<char>::empty(),
        c == '"' ==> escaped(s.push(c)) == escaped(s) + seq!['\\', '"'],
        c == '\\' ==> escaped(s.push(c)) == escaped(s) + seq!['\\', '\\'],
        c == '\n' ==> escaped(s.push(c)) == escaped(s) + seq!['\\', 'n'],
        c < ' ' && c != '\n' ==> escaped(s.push(c)) == escaped(s) + seq!['\\', 'u', '0', '0']
            + hex_byte(c as u8),
        c >= ' ' && c != '"' && c != '\\' ==> escaped(s.push(c)) == escaped(s) + seq![c],
{
    reveal_strlit("\\\"");
    reveal_strlit("\\\\");
    reveal_strlit("\\n");
    reveal_strlit("\\u00");
    assert(s.push(c).drop_last() =~= s);
    assert(s.push(c).last() == c);
    assert("\\\""@ =~= seq!['\\', '"']);
    assert("\\\\"@ =~= seq!['\\', '\\']);
    assert("\\n"@ =~= seq!['\\', 'n']);
    assert("\\u00"@ =~= seq!['\\', 'u', '0', '0']);
    assert(escaped(s) + (seq!['\\', 'u', '0', '0'] + hex_byte(c as u8)) =~= escaped(s) + seq![
        '\\',
        'u',
        '0',
        '0',
    ] + hex_byte(c as u8));
}

/// Fields are written as quoted names with their values, with commas between them.
pub proof fn fields_are_separated_by_commas(s: Seq<(Seq<char>, Seq<char>)>, n: int)
    requires
        0 < n < s.len(),
    ensures
        fields_text(s, 0) == Seq::<char>::empty(),
        fields_text(s, 1) == seq!['"'] + s[0].0 + seq!['"', ':'] + s[0].1,
        fields_text(s, n + 1) == fields_text(s, n) + seq![',', '"'] + s[n].0 + seq!['"', ':']
            + s[n].1,
{
    reveal_strlit("\"");
    reveal_strlit("\":");
    reveal_strlit(",");
    assert("\""@ =~= seq!['"']);
    assert("\":"@ =~= seq!['"', ':']);
    assert(","@ =~= seq![',']);
    assert(fields_text(s, 0) =~= Seq::<char>::empty());
    assert(fields_text(s, 1) =~= seq!['"'] + s[0].0 + seq!['"', ':'] + s[0].1);
    assert(fields_text(s, n + 1) =~= fields_text(s, n) + seq![',', '"'] + s[n].0 + seq!['"', ':']
        + s[n].1);
}

/// Bytes are written as decimal numbers in square brackets, with a comma and a blank
/// between them.
pub proof fn bytes_are_listed(s: Seq<u8>, n: int)
    requires
        0 < n < s.len(),
    ensures
        bytes_text(s) == seq!['['] + listed_bytes(s, s.len() as int) + seq![']'],
        listed_bytes(s, 0) == Seq::<char>::empty(),
        listed_bytes(s, 1) == decimal(s[0] as nat),
        listed_bytes(s, n + 1) == listed_bytes(s, n) + seq![',', ' '] + decimal(s[n] as nat),
{
    reveal_strlit("[");
    reveal_strlit("]");
    reveal_strlit(", ");
    assert("["@ =~= seq!['[']);
    assert("]"@ =~= seq![']']);
    assert(", "@ =~= seq![',', ' ']);
}

/// What is said of a value: nothing is there, or so many bytes, and at most the first
/// twelve.
pub proof fn values_are_described_by_their_start(b: Seq<u8>)
    ensures
        described(None) == "None"@,
        b.len() <= 12 ==> described(Some(b)) == "Some("@ + decimal(b.len()) + " bytes, prefix "@
            + bytes_text(b) + ")"@,
        b.len() > 12 ==> described(Some(b)) == "Some("@ + decimal(b.len()) + " bytes, prefix "@
            + bytes_text(b.subrange(0, 12)) + ")"@,
{
    assert(b.take(b.len() as int) =~= b);
    if b.len() > 12 {
        assert(b.take(12) =~= b.subrange(0, 12));
    }
}

proof fn positions(s: Seq<(Seq<u8>, Seq<u8>)>, key: Seq<u8>, n: int)
    requires
        0 <= n <= s.len(),
    ensures
        position_of(s, key, n) < n,
        position_of(s, key, n) >= 0 ==> s[position_of(s, key, n)].0 == key,
        position_of(s, key, n) < 0 ==> forall|i: int| 0 <= i < n ==> (#[trigger] s[i]).0 != key,
    decreases n,
{
    if n > 0 {
        positions(s, key, n - 1);
    }
}

proof fn differs_from(a: Seq<(Seq<u8>, Seq<u8>)>, b: Seq<(Seq<u8>, Seq<u8>)>, i: int)
    requires
        0 <= i <= a.len(),
    ensures
        match first_difference(a, b, i) {
            None => forall|k: int| i <= k < a.len() ==> #[trigger] b.contains(a[k]),
            Some(t) => exists|k: int|
                {
                    &&& i <= k < a.len()
                    &&& forall|j: int| i <= j < k ==> #[trigger] b.contains(a[j])
                    &&& #[trigger] tells_of(a[k], b, t)
                },
        },
    decreases a.len() - i,
{
    if i < a.len() {
        let j = position_of(b, a[i].0, b.len() as int);
        positions(b, a[i].0, b.len() as int);
        if j >= 0 && b[j].1 == a[i].1 {
            assert(b[j] == a[i]);
            assert(b.contains(a[i]));
            differs_from(a, b, i + 1);
            if let Some(t) = first_difference(a, b, i + 1) {
                let k = choose|k: int|
                    {
                        &&& i + 1 <= k < a.len()
                        &&& forall|j: int| i + 1 <= j < k ==> #[trigger] b.contains(a[j])
                        &&& #[trigger] tells_of(a[k], b, t)
                    };
                assert(tells_of(a[k], b, t));
            }
        } else {
            if j >= 0 {
                assert(b.contains(b[j]));
            }
            assert(tells_of(a[i], b, first_difference(a, b, i)->0));
        }
    }
}

/// The text names the pair: its key is missing, or stands with another value.
pub open spec fn tells_of(p: (Seq<u8>, Seq<u8>), b: Seq<(Seq<u8>, Seq<u8>)>, t: Seq<char>) -> bool {
    ||| (forall|i: int| 0 <= i < b.len() ==> (#[trigger] b[i]).0 != p.0) && t == "missing key "@
        + bytes_text(p.0)
    ||| exists|i: int|
        {
            &&& 0 <= i < b.len()
            &&& (#[trigger] b[i]).0 == p.0
            &&& b[i].1 != p.1
            &&& t == "key "@ + bytes_text(p.0) + ": expected "@ + decimal(p.1.len())
                + " bytes, got "@ + decimal(b[i].1.len()) + " bytes"@
        }
}

/// A difference is told by the number of keys, or else by the first pair that is missing or
/// has another value. The second list has no key twice.
pub proof fn differences_are_told(a: Seq<(Seq<u8>, Seq<u8>)>, b: Seq<(Seq<u8>, Seq<u8>)>, k: int)
    requires
        forall|i: int, j: int| 0 <= i < j < b.len() ==> (#[trigger] b[i]).0 != (#[trigger] b[j]).0,
    ensures
        a.len() != b.len() ==> difference(a, b) == "key count: expected "@ + decimal(a.len())
            + ", got "@ + decimal(b.len()),
        a.len() == b.len() && 0 <= k < a.len() && !b.contains(a[k]) && (forall|j: int|
            0 <= j < k ==> #[trigger] b.contains(a[j])) ==> tells_of(a[k], b, difference(a, b)),
{
    differs_from(a, b, 0);
    if a.len() == b.len() && 0 <= k < a.len() && !b.contains(a[k]) && (forall|j: int|
        0 <= j < k ==> #[trigger] b.contains(a[j])) {
        let t = first_difference(a, b, 0)->0;
        let q = choose|q: int|
            {
                &&& 0 <= q < a.len()
                &&& forall|j: int| 0 <= j < q ==> #[trigger] b.contains(a[j])
                &&& #[trigger] tells_of(a[q], b, t)
            };
        if k < q {
            assert(b.contains(a[k]));
        } else if q < k {
            assert(b.contains(a[q]));
            let x = choose|x: int| 0 <= x < b.len() && b[x] == a[q];
            assert(b[x].0 == a[q].0);
        }
    }
}

/// The class of a refusal goes by what its message says, in letters of either case; of
/// several the first of these counts.
pub proof fn refusals_have_their_class(err: Seq<char>)
    ensures
        ({
            let e = lowered(err);
            let pace = has_part(e, "pacing over-share"@);
            let table = has_part(e, "fair memtable"@);
            let queue = has_part(e, "flush queue"@);
            let zero = has_part(e, "l0 compaction"@);
            let work = has_part(e, "compaction backlog"@);
            let log = has_part(e, "wal in-flight"@);
            let ice = has_part(e, "writes frozen"@);
            &&& pace ==> class_of(err) == "fair_pace"@
            &&& !pace && table ==> class_of(err) == "fair_memtable"@
            &&& !pace && !table && queue ==> class_of(err) == "flush_queue"@
            &&& !pace && !table && !queue && zero ==> class_of(err) == "l0_stall"@
            &&& !pace && !table && !queue && !zero && work ==> class_of(err)
                == "compaction_backlog"@
            &&& !pace && !table && !queue && !zero && !work && log ==> class_of(err)
                == "wal_inflight"@
            &&& !pace && !table && !queue && !zero && !work && !log && ice ==> class_of(err)
                == "frozen"@
            &&& !pace && !table && !queue && !zero && !work && !log && !ice ==> class_of(err)
                == "other"@
        }),
{
}

} // verus!
