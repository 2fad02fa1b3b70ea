//! Validated byte ranges: resolving the three request shapes against a known
//! stream length, and normalizing the resulting list (sort ascending, drop
//! exact duplicates).

use vstd::prelude::*;

verus! {

broadcast use vstd::seq_lib::lemma_seq_contains_after_push;

/// An inclusive byte-offset interval into a stream, produced only by
/// validation against the declared stream length.
#[derive(Clone, Copy, PartialEq, Eq, Structural, Debug)]
pub struct ByteRange {
    pub start: u64,
    pub end: u64,
}

impl ByteRange {
    /// Satisfiable against a stream of `length` bytes. The upper clamp is
    /// `length` itself, not `length - 1`, so `end == length` is admitted.
    pub open spec fn valid(self, length: u64) -> bool {
        self.start <= self.end <= length
    }
}

/// What `to_satisfiable_range` resolves a `(from, to)` request shape to,
/// or `None` when the shape is rejected.
pub open spec fn spec_satisfiable_range(from: Option<u64>, to: Option<u64>, length: u64) -> Option<
    (u64, u64),
> {
    match (from, to) {
        (Some(x), Some(z)) => if z < x {
            None
        } else if z > length {
            if x > length {
                None
            } else {
                Some((x, length))
            }
        } else {
            Some((x, z))
        },
        (Some(x), None) => if length == 0 || length - 1 < x {
            None
        } else {
            Some((x, (length - 1) as u64))
        },
        (None, Some(z)) => if z == 0 || z > length {
            None
        } else {
            Some(((length - z) as u64, (length - 1) as u64))
        },
        (None, None) => None,
    }
}

/// Resolves one requested unit against the total stream length.
///
/// The three accepted shapes are explicit start+end, start-only (end becomes
/// `length - 1`) and suffix-only (`length - suffix` up to `length - 1`).
/// A unit whose resolved end would precede its start is rejected, and an
/// explicit end beyond the stream is clamped down to `length` (not
/// `length - 1`).
pub fn to_satisfiable_range(from: Option<u64>, to: Option<u64>, length: u64) -> (r: Result<
    (u64, u64),
    &'static str,
>)
    ensures
        r matches Ok(p) ==> spec_satisfiable_range(from, to, length) == Some(p),
        r is Err <==> spec_satisfiable_range(from, to, length) is None,
        r matches Ok(p) ==> p.0 <= p.1 <= length,
{
    let (start, end): (u64, u64) = match (from, to) {
        (Some(x), Some(z)) => (x, z),
        (Some(x), None) => {
            if length == 0 {
                return Err(
                    "A byte-range-spec is invalid if the last-byte-pos value is present and less than the first-byte-pos.",
                );
            }
            (x, length - 1)
        },
        (None, Some(z)) => {
            if z == 0 || z > length {
                return Err(
                    "A byte-range-spec is invalid if the last-byte-pos value is present and less than the first-byte-pos.",
                );
            }
            (length - z, length - 1)
        },
        (None, None) => {
            return Err("You need at least one value to satisfy a range request");
        },
    };
    if end < start || (end > length && start > length) {
        return Err(
            "A byte-range-spec is invalid if the last-byte-pos value is present and less than the first-byte-pos.",
        );
    }
    if end > length {
        Ok((start, length))
    } else {
        Ok((start, end))
    }
}

/// The satisfiable ranges among the units from index `i` on, in order.
pub open spec fn valid_units_from(
    units: Seq<(Option<u64>, Option<u64>)>,
    length: u64,
    i: int,
) -> Seq<ByteRange>
    decreases units.len() - i,
{
    if i < 0 || i >= units.len() {
        Seq::empty()
    } else {
        match spec_satisfiable_range(units[i].0, units[i].1, length) {
            Some(p) => seq![ByteRange { start: p.0, end: p.1 }] + valid_units_from(
                units,
                length,
                i + 1,
            ),
            None => valid_units_from(units, length, i + 1),
        }
    }
}

/// The satisfiable ranges among all the units, in request order.
pub open spec fn spec_valid_units(units: Seq<(Option<u64>, Option<u64>)>, length: u64) -> Seq<
    ByteRange,
> {
    valid_units_from(units, length, 0)
}

/// Whether any requested unit is rejected by validation.
pub open spec fn spec_any_invalid(units: Seq<(Option<u64>, Option<u64>)>, length: u64) -> bool {
    exists|i: int|
        0 <= i < units.len() && spec_satisfiable_range(units[i].0, units[i].1, length) is None
}

/// Validates every unit against the stream length: the satisfiable ranges
/// in order, and whether any unit was rejected.
pub fn validate_units(units: &Vec<(Option<u64>, Option<u64>)>, length: u64) -> (r: (
    Vec<ByteRange>,
    bool,
))
    ensures
        r.0@ == spec_valid_units(units@, length),
        r.1 == spec_any_invalid(units@, length),
        forall|i: int| 0 <= i < r.0@.len() ==> (#[trigger] r.0@[i]).valid(length),
{
    let mut oks: Vec<ByteRange> = Vec::new();
    let mut had_err = false;
    let mut i: usize = 0;
    while i < units.len()
        invariant
            i <= units@.len(),
            spec_valid_units(units@, length) =~= oks@ + valid_units_from(
                units@,
                length,
                i as int,
            ),
            had_err == exists|k: int|
                0 <= k < i && spec_satisfiable_range(units@[k].0, units@[k].1, length) is None,
            forall|k: int| 0 <= k < oks@.len() ==> (#[trigger] oks@[k]).valid(length),
        decreases units@.len() - i,
    {
        let u = units[i];
        match to_satisfiable_range(u.0, u.1, length) {
            Ok(p) => {
                let ghost prev = oks@;
                oks.push(ByteRange { start: p.0, end: p.1 });
                proof {
                    assert(valid_units_from(units@, length, i as int) =~= seq![
                        ByteRange { start: p.0, end: p.1 },
                    ] + valid_units_from(units@, length, i + 1));
                    assert(prev + valid_units_from(units@, length, i as int) =~= oks@
                        + valid_units_from(units@, length, i + 1));
                    assert(!(spec_satisfiable_range(units@[i as int].0, units@[i as int].1, length)
                        is None));
                }
            },
            Err(_) => {
                had_err = true;
                proof {
                    assert(spec_satisfiable_range(units@[i as int].0, units@[i as int].1, length)
                        is None);
                }
            },
        }
        i = i + 1;
        proof {
            if had_err {
                assert(exists|k: int|
                    0 <= k < i && spec_satisfiable_range(units@[k].0, units@[k].1, length) is None);
            }
        }
    }
    proof {
        assert(valid_units_from(units@, length, units@.len() as int) =~= Seq::<ByteRange>::empty());
        assert(oks@ + Seq::<ByteRange>::empty() =~= oks@);
    }
    (oks, had_err)
}

/// Ascending order on ranges: by start, then by end.
pub open spec fn range_le(a: ByteRange, b: ByteRange) -> bool {
    a.start < b.start || (a.start == b.start && a.end <= b.end)
}

pub open spec fn sorted_ranges(s: Seq<ByteRange>) -> bool {
    forall|i: int, j: int| 0 <= i < j < s.len() ==> range_le(s[i], s[j])
}

pub open spec fn distinct_ranges(s: Seq<ByteRange>) -> bool {
    forall|i: int, j: int| 0 <= i < j < s.len() ==> s[i] != s[j]
}

proof fn lemma_swap_multiset(s: Seq<ByteRange>, i: int, j: int)
    requires
        0 <= i < j < s.len(),
    ensures
        s.update(i, s[j]).update(j, s[i]).to_multiset() =~= s.to_multiset(),
{
    broadcast use vstd::seq_lib::lemma_multiset_commutative;
    broadcast use vstd::multiset::group_multiset_axioms;

    let t = s.update(i, s[j]).update(j, s[i]);
    let a = s.subrange(0, i);
    let b = s.subrange(i + 1, j);
    let c = s.subrange(j + 1, s.len() as int);
    let x = seq![s[i]];
    let y = seq![s[j]];
    assert(s =~= a + x + b + y + c);
    assert(t =~= a + y + b + x + c);
    assert((a + x + b + y + c).to_multiset() =~= a.to_multiset().add(x.to_multiset()).add(
        b.to_multiset(),
    ).add(y.to_multiset()).add(c.to_multiset()));
    assert((a + y + b + x + c).to_multiset() =~= a.to_multiset().add(y.to_multiset()).add(
        b.to_multiset(),
    ).add(x.to_multiset()).add(c.to_multiset()));
}

proof fn lemma_swap_contains(s: Seq<ByteRange>, i: int, j: int)
    requires
        0 <= i < s.len(),
        0 <= j < s.len(),
    ensures
        forall|x: ByteRange|
            #[trigger] s.update(i, s[j]).update(j, s[i]).contains(x) <==> s.contains(x),
{
    let t = s.update(i, s[j]).update(j, s[i]);
    assert forall|x: ByteRange| t.contains(x) implies s.contains(x) by {
        let k = choose|k: int| 0 <= k < t.len() && t[k] == x;
        if k == j {
            assert(s[i] == x);
        } else if k == i {
            assert(s[j] == x);
        } else {
            assert(s[k] == x);
        }
    }
    assert forall|x: ByteRange| s.contains(x) implies t.contains(x) by {
        let k = choose|k: int| 0 <= k < s.len() && s[k] == x;
        if k == i {
            assert(t[j] == x);
        } else if k == j {
            assert(t[i] == x);
        } else {
            assert(t[k] == x);
        }
    }
}

/// Sorts the ranges ascending by `(start, end)` (insertion sort), keeping
/// exactly the same multiset of elements.
pub fn sort_ranges(v: &mut Vec<ByteRange>)
    ensures
        sorted_ranges(final(v)@),
        final(v)@.to_multiset() == old(v)@.to_multiset(),
        forall|x: ByteRange| final(v)@.contains(x) <==> old(v)@.contains(x),
        final(v)@.len() == old(v)@.len(),
{
    if v.len() < 2 {
        return ;
    }
    let mut i: usize = 1;
    while i < v.len()
        invariant
            v@.len() == old(v)@.len(),
            1 <= i <= v@.len(),
            forall|a: int, b: int| 0 <= a < b < i ==> range_le(v@[a], v@[b]),
            v@.to_multiset() == old(v)@.to_multiset(),
            forall|x: ByteRange| v@.contains(x) <==> old(v)@.contains(x),
        decreases v@.len() - i,
    {
        let mut j: usize = i;
        while j > 0
            invariant
                j <= i < v@.len(),
                v@.len() == old(v)@.len(),
                v@.to_multiset() == old(v)@.to_multiset(),
                forall|x: ByteRange| v@.contains(x) <==> old(v)@.contains(x),
                forall|a: int, b: int|
                    0 <= a < b < i + 1 && b != j ==> range_le(v@[a], v@[b]),
            ensures
                j <= i < v@.len(),
                v@.len() == old(v)@.len(),
                v@.to_multiset() == old(v)@.to_multiset(),
                forall|x: ByteRange| v@.contains(x) <==> old(v)@.contains(x),
                forall|a: int, b: int|
                    0 <= a < b < i + 1 && b != j ==> range_le(v@[a], v@[b]),
                j == 0 || range_le(v@[j - 1], v@[j as int]),
            decreases j,
        {
            let prev = v[j - 1];
            let cur = v[j];
            if prev.start < cur.start || (prev.start == cur.start && prev.end <= cur.end) {
                break ;
            } else {
                let ghost before = v@;
                v.set(j - 1, cur);
                v.set(j, prev);
                proof {
                    assert(v@ =~= before.update(j - 1, before[j as int]).update(
                        j as int,
                        before[j - 1],
                    ));
                    lemma_swap_contains(before, j - 1, j as int);
                    lemma_swap_multiset(before, j - 1, j as int);
                }
                j = j - 1;
            }
        }
        proof {
            assert forall|a: int, b: int| 0 <= a < b < i + 1 implies range_le(v@[a], v@[b]) by {
                if b == j && j > 0 {
                    assert(range_le(v@[j - 1], v@[j as int]));
                    if a < j - 1 {
                        assert(range_le(v@[a], v@[j - 1]));
                    }
                }
            }
        }
        i = i + 1;
    }
}

/// Removes adjacent exact duplicates from a sorted list, leaving a sorted
/// list with no duplicates at all that holds exactly the same values.
pub fn dedup_ranges(v: &Vec<ByteRange>) -> (out: Vec<ByteRange>)
    requires
        sorted_ranges(v@),
    ensures
        sorted_ranges(out@),
        distinct_ranges(out@),
        forall|x: ByteRange| out@.contains(x) <==> v@.contains(x),
        out@.len() <= v@.len(),
        v@.len() > 0 ==> out@.len() > 0,
{
    let mut out: Vec<ByteRange> = Vec::new();
    let mut i: usize = 0;
    while i < v.len()
        invariant
            sorted_ranges(v@),
            i <= v@.len(),
            out@.len() <= i,
            i > 0 ==> out@.len() > 0 && out@.last() == v@[i - 1],
            forall|a: int, b: int| 0 <= a < b < out@.len() ==> range_le(out@[a], out@[b]),
            forall|a: int, b: int| 0 <= a < b < out@.len() ==> out@[a] != out@[b],
            forall|x: ByteRange| out@.contains(x) <==> v@.subrange(0, i as int).contains(x),
        decreases v@.len() - i,
    {
        let cur = v[i];
        proof {
            assert(v@.subrange(0, i as int + 1) =~= v@.subrange(0, i as int).push(v@[i as int]));
        }
        let keep = if out.len() == 0 {
            true
        } else {
            let last = out[out.len() - 1];
            !(last.start == cur.start && last.end == cur.end)
        };
        if keep {
            let ghost old_out = out@;
            out.push(cur);
            proof {
                assert forall|a: int| 0 <= a < old_out.len() implies range_le(
                    old_out[a],
                    cur,
                ) && old_out[a] != cur by {
                    let last = old_out[old_out.len() - 1];
                    assert(last == v@[i - 1]);
                    assert(range_le(v@[i - 1], v@[i as int]));
                    if a < old_out.len() - 1 {
                        assert(range_le(old_out[a], last));
                        assert(old_out[a] != last);
                        if old_out[a] == cur {
                            assert(range_le(cur, last) && range_le(last, cur));
                            assert(cur == last);
                        }
                    } else {
                        assert(old_out[a] == last);
                        assert(!(last.start == cur.start && last.end == cur.end));
                    }
                }
            }
        } else {
            proof {
                let last = out@[out@.len() - 1];
                assert(last.start == cur.start && last.end == cur.end);
                assert(last == cur);
                assert(out@.contains(cur));
            }
        }
        i = i + 1;
    }
    proof {
        assert(v@.subrange(0, v@.len() as int) =~= v@);
    }
    out
}

} // verus!
