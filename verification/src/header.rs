//! The `Range` header grammar: `sp* "bytes=" unit ("," unit?)* sp*`, where a
//! unit is `digits "-" digits` (explicit start and end, dropped when start
//! exceeds end), `digits "-"` (start only) or `"-" digits` (suffix length),
//! with spaces allowed between tokens but not inside a digit run. A header
//! that does not match the grammar, or holds a number too large for `u64`,
//! yields no units at all.

use vstd::prelude::*;

verus! {

pub open spec fn is_digit(c: u8) -> bool {
    48 <= c <= 57
}

/// Index of the first non-space byte at or after `i`.
pub open spec fn spec_skip(s: Seq<u8>, i: int) -> int
    decreases s.len() - i,
{
    if i < s.len() && s[i] == 32 {
        spec_skip(s, i + 1)
    } else {
        i
    }
}

/// Parser state between two bytes, with exact (unbounded) digit values.
pub enum HeaderState {
    /// At the first unit, which must be present.
    Unit0,
    /// Inside the run of start digits.
    FromRun { acc: nat },
    /// The start run ended at a space; a dash must follow.
    FromEnd { from: nat },
    /// After the dash of a `start-` unit.
    Dash { from: nat },
    /// Inside the run of end digits.
    ToRun { from: nat, acc: nat },
    /// After the dash of a suffix unit.
    SufStart,
    /// Inside the run of suffix digits.
    SufRun { acc: nat },
    /// A unit just ended at a space; a comma or the end must follow.
    AfterUnit,
    /// After a comma; another unit may follow but need not.
    Comma,
}

/// Finishes one unit: numbers beyond `u64` make the whole header invalid,
/// an explicit pair whose start exceeds its end is dropped, anything else
/// is prepended to what the rest of the header yields.
pub open spec fn emit_unit(
    from: Option<nat>,
    to: Option<nat>,
    rest: Option<Seq<(Option<u64>, Option<u64>)>>,
) -> Option<Seq<(Option<u64>, Option<u64>)>> {
    if (from matches Some(f) && f > u64::MAX) || (to matches Some(t) && t > u64::MAX) {
        None
    } else if from matches Some(f) && to matches Some(t) && f > t {
        rest
    } else {
        match rest {
            None => None,
            Some(us) => Some(
                seq![
                    (
                        match from {
                            Some(f) => Some(f as u64),
                            None => None,
                        },
                        match to {
                            Some(t) => Some(t as u64),
                            None => None,
                        },
                    )
                ] + us,
            ),
        }
    }
}

/// One step per byte: the units produced from position `i` on, in state
/// `st`, or `None` when the rest of the header cannot be parsed.
pub open spec fn spec_units(s: Seq<u8>, i: int, st: HeaderState) -> Option<
    Seq<(Option<u64>, Option<u64>)>,
>
    decreases s.len() - i,
{
    if i < 0 {
        None
    } else if i >= s.len() {
        match st {
            HeaderState::Unit0 => None,
            HeaderState::FromRun { acc } => None,
            HeaderState::FromEnd { from } => None,
            HeaderState::Dash { from } => emit_unit(Some(from), None, Some(Seq::empty())),
            HeaderState::ToRun { from, acc } => emit_unit(
                Some(from),
                Some(acc),
                Some(Seq::empty()),
            ),
            HeaderState::SufStart => None,
            HeaderState::SufRun { acc } => emit_unit(None, Some(acc), Some(Seq::empty())),
            HeaderState::AfterUnit => Some(Seq::empty()),
            HeaderState::Comma => Some(Seq::empty()),
        }
    } else {
        let c = s[i];
        match st {
            HeaderState::Unit0 => if c == 32 {
                spec_units(s, i + 1, HeaderState::Unit0)
            } else if is_digit(c) {
                spec_units(s, i + 1, HeaderState::FromRun { acc: (c - 48) as nat })
            } else if c == 45 {
                spec_units(s, i + 1, HeaderState::SufStart)
            } else {
                None
            },
            HeaderState::FromRun { acc } => if is_digit(c) {
                spec_units(s, i + 1, HeaderState::FromRun { acc: (acc * 10 + (c - 48)) as nat })
            } else if c == 32 {
                spec_units(s, i + 1, HeaderState::FromEnd { from: acc })
            } else if c == 45 {
                spec_units(s, i + 1, HeaderState::Dash { from: acc })
            } else {
                None
            },
            HeaderState::FromEnd { from } => if c == 32 {
                spec_units(s, i + 1, HeaderState::FromEnd { from })
            } else if c == 45 {
                spec_units(s, i + 1, HeaderState::Dash { from })
            } else {
                None
            },
            HeaderState::Dash { from } => if c == 32 {
                spec_units(s, i + 1, HeaderState::Dash { from })
            } else if is_digit(c) {
                spec_units(s, i + 1, HeaderState::ToRun { from, acc: (c - 48) as nat })
            } else if c == 44 {
                emit_unit(Some(from), None, spec_units(s, i + 1, HeaderState::Comma))
            } else {
                None
            },
            HeaderState::ToRun { from, acc } => if is_digit(c) {
                spec_units(s, i + 1, HeaderState::ToRun { from, acc: (acc * 10 + (c - 48)) as nat })
            } else if c == 32 {
                emit_unit(Some(from), Some(acc), spec_units(s, i + 1, HeaderState::AfterUnit))
            } else if c == 44 {
                emit_unit(Some(from), Some(acc), spec_units(s, i + 1, HeaderState::Comma))
            } else {
                None
            },
            HeaderState::SufStart => if c == 32 {
                spec_units(s, i + 1, HeaderState::SufStart)
            } else if is_digit(c) {
                spec_units(s, i + 1, HeaderState::SufRun { acc: (c - 48) as nat })
            } else {
                None
            },
            HeaderState::SufRun { acc } => if is_digit(c) {
                spec_units(s, i + 1, HeaderState::SufRun { acc: (acc * 10 + (c - 48)) as nat })
            } else if c == 32 {
                emit_unit(None, Some(acc), spec_units(s, i + 1, HeaderState::AfterUnit))
            } else if c == 44 {
                emit_unit(None, Some(acc), spec_units(s, i + 1, HeaderState::Comma))
            } else {
                None
            },
            HeaderState::AfterUnit => if c == 32 {
                spec_units(s, i + 1, HeaderState::AfterUnit)
            } else if c == 44 {
                spec_units(s, i + 1, HeaderState::Comma)
            } else {
                None
            },
            HeaderState::Comma => if c == 32 {
                spec_units(s, i + 1, HeaderState::Comma)
            } else if c == 44 {
                spec_units(s, i + 1, HeaderState::Comma)
            } else if is_digit(c) {
                spec_units(s, i + 1, HeaderState::FromRun { acc: (c - 48) as nat })
            } else if c == 45 {
                spec_units(s, i + 1, HeaderState::SufStart)
            } else {
                None
            },
        }
    }
}

/// `"bytes="`.
pub open spec fn bytes_eq_prefix() -> Seq<u8> {
    seq![98u8, 121u8, 116u8, 101u8, 115u8, 61u8]
}

/// Every unit of the header, in order, or the empty list when the header
/// does not match the grammar (or holds an oversized number).
pub open spec fn spec_parse_range_header(s: Seq<u8>) -> Seq<(Option<u64>, Option<u64>)> {
    let j = spec_skip(s, 0);
    if j + 6 <= s.len() && s.subrange(j, j + 6) == bytes_eq_prefix() {
        match spec_units(s, j + 6, HeaderState::Unit0) {
            None => Seq::empty(),
            Some(us) => us,
        }
    } else {
        Seq::empty()
    }
}

/// A state whose pending number already exceeds `u64` can only end in an
/// invalid header: digit runs only grow, and every exit checks the value.
pub open spec fn state_overflowed(st: HeaderState) -> bool {
    match st {
        HeaderState::FromRun { acc } => acc > u64::MAX,
        HeaderState::FromEnd { from } => from > u64::MAX,
        HeaderState::Dash { from } => from > u64::MAX,
        HeaderState::ToRun { from, acc } => from > u64::MAX || acc > u64::MAX,
        HeaderState::SufRun { acc } => acc > u64::MAX,
        _ => false,
    }
}

pub proof fn lemma_overflow_sinks(s: Seq<u8>, i: int, st: HeaderState)
    requires
        state_overflowed(st),
    ensures
        spec_units(s, i, st) is None,
    decreases s.len() - i,
{
    if 0 <= i < s.len() {
        let c = s[i];
        match st {
            HeaderState::FromRun { acc } => {
                if is_digit(c) {
                    assert(acc * 10 + (c - 48) > u64::MAX) by (nonlinear_arith)
                        requires
                            acc > u64::MAX,
                            c >= 48,
                    ;
                    lemma_overflow_sinks(s, i + 1, HeaderState::FromRun { acc: (acc * 10 + (c - 48)) as nat });
                } else if c == 32 {
                    lemma_overflow_sinks(s, i + 1, HeaderState::FromEnd { from: acc });
                } else if c == 45 {
                    lemma_overflow_sinks(s, i + 1, HeaderState::Dash { from: acc });
                }
            },
            HeaderState::FromEnd { from } => {
                if c == 32 {
                    lemma_overflow_sinks(s, i + 1, HeaderState::FromEnd { from });
                } else if c == 45 {
                    lemma_overflow_sinks(s, i + 1, HeaderState::Dash { from });
                }
            },
            HeaderState::Dash { from } => {
                if c == 32 {
                    lemma_overflow_sinks(s, i + 1, HeaderState::Dash { from });
                } else if is_digit(c) {
                    lemma_overflow_sinks(
                        s,
                        i + 1,
                        HeaderState::ToRun { from, acc: (c - 48) as nat },
                    );
                }
            },
            HeaderState::ToRun { from, acc } => {
                if is_digit(c) {
                    if acc > u64::MAX {
                        assert(acc * 10 + (c - 48) > u64::MAX) by (nonlinear_arith)
                            requires
                                acc > u64::MAX,
                                c >= 48,
                        ;
                    }
                    lemma_overflow_sinks(
                        s,
                        i + 1,
                        HeaderState::ToRun { from, acc: (acc * 10 + (c - 48)) as nat },
                    );
                }
            },
            HeaderState::SufRun { acc } => {
                if is_digit(c) {
                    assert(acc * 10 + (c - 48) > u64::MAX) by (nonlinear_arith)
                        requires
                            acc > u64::MAX,
                            c >= 48,
                    ;
                    lemma_overflow_sinks(s, i + 1, HeaderState::SufRun { acc: (acc * 10 + (c - 48)) as nat });
                }
            },
            _ => (),
        }
    }
}

/// A `Range` value of `"bytes="` with no byte-range-spec after it is
/// invalid: it yields no units at all, whatever the stream length, so any
/// request carrying it is unsatisfiable.
pub proof fn lemma_empty_range_set_invalid(s: Seq<u8>)
    requires
        s == bytes_eq_prefix(),
    ensures
        spec_parse_range_header(s).len() == 0,
        spec_units(s, 6, HeaderState::Unit0) is None,
{
    assert(spec_skip(s, 0) == 0);
    assert(s.subrange(0, 6) =~= bytes_eq_prefix());
}

/// Executable parser state, with the pending numbers as machine words.
enum RunState {
    Unit0,
    FromRun(u64),
    FromEnd(u64),
    Dash(u64),
    ToRun(u64, u64),
    SufStart,
    SufRun(u64),
    AfterUnit,
    Comma,
}

/// The exact state a `RunState` stands for.
spec fn view_state(st: RunState) -> HeaderState {
    match st {
        RunState::Unit0 => HeaderState::Unit0,
        RunState::FromRun(a) => HeaderState::FromRun { acc: a as nat },
        RunState::FromEnd(f) => HeaderState::FromEnd { from: f as nat },
        RunState::Dash(f) => HeaderState::Dash { from: f as nat },
        RunState::ToRun(f, a) => HeaderState::ToRun { from: f as nat, acc: a as nat },
        RunState::SufStart => HeaderState::SufStart,
        RunState::SufRun(a) => HeaderState::SufRun { acc: a as nat },
        RunState::AfterUnit => HeaderState::AfterUnit,
        RunState::Comma => HeaderState::Comma,
    }
}

/// Appends one more digit to a pending number, or reports that the number
/// has outgrown `u64`.
fn push_digit(acc: u64, c: u8) -> (r: Option<u64>)
    requires
        48 <= c <= 57,
    ensures
        r matches Some(v) ==> v as nat == acc as nat * 10 + (c - 48),
        r is None ==> acc as nat * 10 + (c - 48) > u64::MAX,
{
    if acc > u64::MAX / 10 {
        proof {
            assert(acc as nat * 10 + (c - 48) > u64::MAX) by (nonlinear_arith)
                requires
                    acc > u64::MAX / 10,
                    c >= 48,
            ;
        }
        None
    } else {
        proof {
            assert(acc as nat * 10 <= (u64::MAX / 10) as nat * 10) by (nonlinear_arith)
                requires
                    acc <= u64::MAX / 10,
            ;
        }
        let shifted = acc * 10;
        if shifted > u64::MAX - ((c - 48) as u64) {
            None
        } else {
            Some(shifted + (c - 48) as u64)
        }
    }
}

/// Runs the unit grammar from position `i` in state `st`.
fn run_units(s: &[u8], i: usize, st: RunState) -> (r: Option<Vec<(Option<u64>, Option<u64>)>>)
    requires
        i <= s@.len(),
    ensures
        match r {
            Some(v) => spec_units(s@, i as int, view_state(st)) == Some(v@),
            None => spec_units(s@, i as int, view_state(st)) is None,
        },
    decreases s@.len() - i,
{
    if i == s.len() {
        match st {
            RunState::Dash(f) => {
                let mut v: Vec<(Option<u64>, Option<u64>)> = Vec::new();
                v.push((Some(f), None));
                proof {
                    assert(v@ =~= seq![(Some(f), Option::<u64>::None)]);
                }
                Some(v)
            },
            RunState::ToRun(f, a) => {
                if f > a {
                    Some(Vec::new())
                } else {
                    let mut v: Vec<(Option<u64>, Option<u64>)> = Vec::new();
                    v.push((Some(f), Some(a)));
                    proof {
                        assert(v@ =~= seq![(Some(f), Some(a))]);
                    }
                    Some(v)
                }
            },
            RunState::SufRun(a) => {
                let mut v: Vec<(Option<u64>, Option<u64>)> = Vec::new();
                v.push((None, Some(a)));
                proof {
                    assert(v@ =~= seq![(Option::<u64>::None, Some(a))]);
                }
                Some(v)
            },
            RunState::AfterUnit => Some(Vec::new()),
            RunState::Comma => Some(Vec::new()),
            _ => None,
        }
    } else {
        let c = s[i];
        let digit = c >= 48 && c <= 57;
        match st {
            RunState::Unit0 => {
                if c == 32 {
                    run_units(s, i + 1, RunState::Unit0)
                } else if digit {
                    run_units(s, i + 1, RunState::FromRun((c - 48) as u64))
                } else if c == 45 {
                    run_units(s, i + 1, RunState::SufStart)
                } else {
                    None
                }
            },
            RunState::FromRun(acc) => {
                if digit {
                    match push_digit(acc, c) {
                        Some(acc2) => run_units(s, i + 1, RunState::FromRun(acc2)),
                        None => {
                            proof {
                                lemma_overflow_sinks(
                                    s@,
                                    i + 1,
                                    HeaderState::FromRun { acc: (acc as nat * 10 + (c - 48)) as nat },
                                );
                            }
                            None
                        },
                    }
                } else if c == 32 {
                    run_units(s, i + 1, RunState::FromEnd(acc))
                } else if c == 45 {
                    run_units(s, i + 1, RunState::Dash(acc))
                } else {
                    None
                }
            },
            RunState::FromEnd(f) => {
                if c == 32 {
                    run_units(s, i + 1, RunState::FromEnd(f))
                } else if c == 45 {
                    run_units(s, i + 1, RunState::Dash(f))
                } else {
                    None
                }
            },
            RunState::Dash(f) => {
                if c == 32 {
                    run_units(s, i + 1, RunState::Dash(f))
                } else if digit {
                    run_units(s, i + 1, RunState::ToRun(f, (c - 48) as u64))
                } else if c == 44 {
                    match run_units(s, i + 1, RunState::Comma) {
                        Some(mut v) => {
                            let ghost tail = v@;
                            v.insert(0, (Some(f), None));
                            proof {
                                assert(v@ =~= seq![(Some(f), Option::<u64>::None)] + tail);
                            }
                            Some(v)
                        },
                        None => None,
                    }
                } else {
                    None
                }
            },
            RunState::ToRun(f, acc) => {
                if digit {
                    match push_digit(acc, c) {
                        Some(acc2) => run_units(s, i + 1, RunState::ToRun(f, acc2)),
                        None => {
                            proof {
                                lemma_overflow_sinks(
                                    s@,
                                    i + 1,
                                    HeaderState::ToRun {
                                        from: f as nat,
                                        acc: (acc as nat * 10 + (c - 48)) as nat,
                                    },
                                );
                            }
                            None
                        },
                    }
                } else if c == 32 || c == 44 {
                    let next = if c == 32 {
                        RunState::AfterUnit
                    } else {
                        RunState::Comma
                    };
                    match run_units(s, i + 1, next) {
                        Some(mut v) => {
                            if f > acc {
                                Some(v)
                            } else {
                                let ghost tail = v@;
                                v.insert(0, (Some(f), Some(acc)));
                                proof {
                                    assert(v@ =~= seq![(Some(f), Some(acc))] + tail);
                                }
                                Some(v)
                            }
                        },
                        None => None,
                    }
                } else {
                    None
                }
            },
            RunState::SufStart => {
                if c == 32 {
                    run_units(s, i + 1, RunState::SufStart)
                } else if digit {
                    run_units(s, i + 1, RunState::SufRun((c - 48) as u64))
                } else {
                    None
                }
            },
            RunState::SufRun(acc) => {
                if digit {
                    match push_digit(acc, c) {
                        Some(acc2) => run_units(s, i + 1, RunState::SufRun(acc2)),
                        None => {
                            proof {
                                lemma_overflow_sinks(
                                    s@,
                                    i + 1,
                                    HeaderState::SufRun { acc: (acc as nat * 10 + (c - 48)) as nat },
                                );
                            }
                            None
                        },
                    }
                } else if c == 32 || c == 44 {
                    let next = if c == 32 {
                        RunState::AfterUnit
                    } else {
                        RunState::Comma
                    };
                    match run_units(s, i + 1, next) {
                        Some(mut v) => {
                            let ghost tail = v@;
                            v.insert(0, (None, Some(acc)));
                            proof {
                                assert(v@ =~= seq![(Option::<u64>::None, Some(acc))] + tail);
                            }
                            Some(v)
                        },
                        None => None,
                    }
                } else {
                    None
                }
            },
            RunState::AfterUnit => {
                if c == 32 {
                    run_units(s, i + 1, RunState::AfterUnit)
                } else if c == 44 {
                    run_units(s, i + 1, RunState::Comma)
                } else {
                    None
                }
            },
            RunState::Comma => {
                if c == 32 || c == 44 {
                    run_units(s, i + 1, RunState::Comma)
                } else if digit {
                    run_units(s, i + 1, RunState::FromRun((c - 48) as u64))
                } else if c == 45 {
                    run_units(s, i + 1, RunState::SufStart)
                } else {
                    None
                }
            },
        }
    }
}

/// Parses a raw `Range` header value into its requested units, in order.
/// A header that does not match the grammar yields an empty list.
pub fn parse_range_header(s: &[u8]) -> (r: Vec<(Option<u64>, Option<u64>)>)
    ensures
        r@ == spec_parse_range_header(s@),
{
    let mut j: usize = 0;
    while j < s.len() && s[j] == 32
        invariant
            j <= s@.len(),
            spec_skip(s@, 0) == spec_skip(s@, j as int),
        decreases s@.len() - j,
    {
        j = j + 1;
    }
    proof {
        assert(spec_skip(s@, j as int) == j);
    }
    if s.len() - j < 6 {
        return Vec::new();
    }
    if !(s[j] == 98 && s[j + 1] == 121 && s[j + 2] == 116 && s[j + 3] == 101 && s[j + 4] == 115
        && s[j + 5] == 61) {
        proof {
            assert(s@.subrange(j as int, j + 6) != bytes_eq_prefix());
        }
        return Vec::new();
    }
    proof {
        assert(s@.subrange(j as int, j + 6) =~= bytes_eq_prefix());
    }
    match run_units(s, j + 6, RunState::Unit0) {
        Some(v) => v,
        None => Vec::new(),
    }
}

} // verus!
