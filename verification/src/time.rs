use vstd::prelude::*;

verus! {

pub const NANOS_PER_MICRO: i32 = 1_000;
pub const NANOS_PER_MILLI: i32 = 1_000_000;
pub const NANOS_PER_SEC: i32 = 1_000_000_000;

/// A span of time: whole seconds plus a nanosecond part.  The parts are not
/// forced to share a sign; `new` moves whole seconds between them until the
/// nanosecond part is below a second and the signs agree where it can make
/// them agree.
#[derive(Clone, Copy, Debug)]
pub struct Duration {
    pub secs: i64,
    pub nanos: i32,
}

/// One carry step of `new`: while the nanosecond part holds a whole second,
/// or is positive while the seconds are negative, move one second up.
pub open spec fn carry_up(secs: int, nanos: int) -> (int, int)
    decreases (if nanos > 0 { nanos } else { 0 }),
{
    if nanos >= NANOS_PER_SEC || (nanos > 0 && secs < 0) {
        carry_up(secs + 1, nanos - NANOS_PER_SEC)
    } else {
        (secs, nanos)
    }
}

/// The borrow step of `new`: while the nanosecond part is negative and
/// seconds remain positive, move one second down.
pub open spec fn carry_down(secs: int, nanos: int) -> (int, int)
    decreases (if nanos < 0 { -nanos } else { 0 }),
{
    if nanos < 0 && secs > 0 {
        carry_down(secs - 1, nanos + NANOS_PER_SEC)
    } else {
        (secs, nanos)
    }
}

/// What `Duration::new` returns for the given parts.
pub open spec fn spec_normalize(secs: int, nanos: int) -> (int, int) {
    carry_down(carry_up(secs, nanos).0, carry_up(secs, nanos).1)
}

/// The span in whole nanoseconds; normalization keeps it unchanged.
pub open spec fn spec_total_nanos(d: Duration) -> int {
    d.secs * NANOS_PER_SEC + d.nanos
}

impl Duration {
    /// Create a new duration, carrying whole seconds out of the nanosecond
    /// part.  The seconds must leave room for at most three carried seconds.
    pub fn new(init_secs: i64, init_nanos: i32) -> (r: Duration)
        requires
            i64::MIN + 3 <= init_secs <= i64::MAX - 3,
        ensures
            (r.secs as int, r.nanos as int) == spec_normalize(init_secs as int, init_nanos as int),
            spec_total_nanos(r) == init_secs * NANOS_PER_SEC + init_nanos,
    {
        let mut secs: i64 = init_secs;
        let mut nanos: i32 = init_nanos;
        let ghost secs0: int = secs as int;
        let ghost nanos0: int = nanos as int;
        while nanos >= NANOS_PER_SEC || (nanos > 0 && secs < 0)
            invariant
                carry_up(secs as int, nanos as int) == carry_up(secs0, nanos0),
                (secs as int - secs0) * NANOS_PER_SEC == nanos0 - nanos,
                secs0 <= secs as int <= secs0 + 3,
                i64::MIN + 3 <= secs0 <= i64::MAX - 3,
                i32::MIN <= nanos0 <= i32::MAX,
            decreases (if nanos > 0 { nanos as int } else { 0 }),
        {
            proof {
                assert((secs as int - secs0) * NANOS_PER_SEC < 3 * NANOS_PER_SEC) by (nonlinear_arith)
                    requires
                        (secs as int - secs0) * NANOS_PER_SEC == nanos0 - nanos,
                        nanos > 0,
                        nanos0 < 3 * NANOS_PER_SEC,
                ;
                assert((secs as int) - secs0 < 3) by (nonlinear_arith)
                    requires
                        (secs as int - secs0) * NANOS_PER_SEC < 3 * NANOS_PER_SEC,
                ;
            }
            secs = secs + 1;
            nanos = nanos - NANOS_PER_SEC;
        }
        let ghost secs1: int = secs as int;
        let ghost nanos1: int = nanos as int;
        while nanos < 0 && secs > 0
            invariant
                carry_down(secs as int, nanos as int) == carry_down(secs1, nanos1),
                (secs1 - secs as int) * NANOS_PER_SEC == nanos as int - nanos1,
                secs as int <= secs1,
                secs1 - 3 <= secs as int,
                i64::MIN <= secs1 - 3,
                i32::MIN <= nanos1 <= i32::MAX,
            decreases (if nanos < 0 { -nanos as int } else { 0 }),
        {
            proof {
                assert((secs1 - secs as int) * NANOS_PER_SEC < 3 * NANOS_PER_SEC) by (nonlinear_arith)
                    requires
                        (secs1 - secs as int) * NANOS_PER_SEC == nanos as int - nanos1,
                        nanos < 0,
                        nanos1 > (-3) * NANOS_PER_SEC,
                ;
                assert(secs1 - (secs as int) < 3) by (nonlinear_arith)
                    requires
                        (secs1 - secs as int) * NANOS_PER_SEC < 3 * NANOS_PER_SEC,
                ;
            }
            secs = secs - 1;
            nanos = nanos + NANOS_PER_SEC;
        }
        proof {
            lemma_carry_up_total(secs0, nanos0);
            lemma_carry_down_total(secs1, nanos1);
        }
        Duration { secs, nanos }
    }

    /// Sum of two durations, normalized as by `new`.
    pub fn add(self, other: Duration) -> (r: Duration)
        requires
            i64::MIN + 3 <= self.secs + other.secs <= i64::MAX - 3,
            i32::MIN <= self.nanos + other.nanos <= i32::MAX,
        ensures
            (r.secs as int, r.nanos as int) == spec_normalize(
                self.secs + other.secs,
                self.nanos + other.nanos,
            ),
            spec_total_nanos(r) == spec_total_nanos(self) + spec_total_nanos(other),
    {
        Duration::new(self.secs + other.secs, self.nanos + other.nanos)
    }

    /// The exact span in whole nanoseconds; wide enough that it never
    /// overflows.
    pub fn total_nanos(&self) -> (r: i128)
        ensures
            r as int == spec_total_nanos(*self),
    {
        proof {
            assert((i64::MIN as int) * (NANOS_PER_SEC as int) <= (self.secs as int) * (
            NANOS_PER_SEC as int) <= (i64::MAX as int) * (NANOS_PER_SEC as int))
                by (nonlinear_arith)
                requires
                    i64::MIN <= self.secs <= i64::MAX,
            ;
        }
        (self.secs as i128) * (NANOS_PER_SEC as i128) + (self.nanos as i128)
    }

    /// Difference of two durations, normalized as by `new`.
    pub fn sub(self, other: Duration) -> (r: Duration)
        requires
            i64::MIN + 3 <= self.secs - other.secs <= i64::MAX - 3,
            i32::MIN <= self.nanos - other.nanos <= i32::MAX,
        ensures
            (r.secs as int, r.nanos as int) == spec_normalize(
                self.secs - other.secs,
                self.nanos - other.nanos,
            ),
            spec_total_nanos(r) == spec_total_nanos(self) - spec_total_nanos(other),
    {
        Duration::new(self.secs - other.secs, self.nanos - other.nanos)
    }
}

/// Carrying seconds out of the nanosecond part keeps the total span.
proof fn lemma_carry_up_total(secs: int, nanos: int)
    ensures
        carry_up(secs, nanos).0 * NANOS_PER_SEC + carry_up(secs, nanos).1 == secs * NANOS_PER_SEC
            + nanos,
    decreases (if nanos > 0 { nanos } else { 0 }),
{
    if nanos >= NANOS_PER_SEC || (nanos > 0 && secs < 0) {
        lemma_carry_up_total(secs + 1, nanos - NANOS_PER_SEC);
        assert((secs + 1) * NANOS_PER_SEC == secs * NANOS_PER_SEC + NANOS_PER_SEC)
            by (nonlinear_arith);
    }
}

/// Borrowing seconds into the nanosecond part keeps the total span.
proof fn lemma_carry_down_total(secs: int, nanos: int)
    ensures
        carry_down(secs, nanos).0 * NANOS_PER_SEC + carry_down(secs, nanos).1 == secs
            * NANOS_PER_SEC + nanos,
    decreases (if nanos < 0 { -nanos } else { 0 }),
{
    if nanos < 0 && secs > 0 {
        lemma_carry_down_total(secs - 1, nanos + NANOS_PER_SEC);
        assert((secs - 1) * NANOS_PER_SEC == secs * NANOS_PER_SEC - NANOS_PER_SEC)
            by (nonlinear_arith);
    }
}

/// With the whole span at zero, carrying up drives the nanosecond part to
/// zero or below.
proof fn lemma_carry_up_zero(secs: int, nanos: int)
    requires
        secs * NANOS_PER_SEC + nanos == 0,
    ensures
        carry_up(secs, nanos).1 <= 0,
        carry_up(secs, nanos).0 * NANOS_PER_SEC + carry_up(secs, nanos).1 == 0,
    decreases (if nanos > 0 { nanos } else { 0 }),
{
    lemma_carry_up_total(secs, nanos);
    if nanos >= NANOS_PER_SEC || (nanos > 0 && secs < 0) {
        assert((secs + 1) * NANOS_PER_SEC == secs * NANOS_PER_SEC + NANOS_PER_SEC)
            by (nonlinear_arith);
        lemma_carry_up_zero(secs + 1, nanos - NANOS_PER_SEC);
    }
}

/// With the whole span at zero and no positive nanosecond part, borrowing
/// down lands exactly on the zero duration.
proof fn lemma_carry_down_zero(secs: int, nanos: int)
    requires
        secs * NANOS_PER_SEC + nanos == 0,
        nanos <= 0,
    ensures
        carry_down(secs, nanos) == (0int, 0int),
    decreases (if nanos < 0 { -nanos } else { 0 }),
{
    if nanos < 0 && secs > 0 {
        assert((secs - 1) * NANOS_PER_SEC == secs * NANOS_PER_SEC - NANOS_PER_SEC)
            by (nonlinear_arith);
        lemma_carry_down_zero(secs - 1, nanos + NANOS_PER_SEC);
    } else {
        if nanos < 0 {
            assert(secs * NANOS_PER_SEC > 0);
            assert(secs > 0) by (nonlinear_arith)
                requires
                    secs * NANOS_PER_SEC > 0,
            ;
        } else {
            assert(nanos == 0);
            assert(secs == 0) by (nonlinear_arith)
                requires
                    secs * NANOS_PER_SEC == 0,
            ;
        }
    }
}

/// Carrying up always stops with the nanosecond part below one second, and
/// never leaves a positive part beside negative seconds.
proof fn lemma_carry_up_stop(secs: int, nanos: int)
    ensures
        carry_up(secs, nanos).1 < NANOS_PER_SEC,
        carry_up(secs, nanos).1 <= 0 || carry_up(secs, nanos).0 >= 0,
    decreases (if nanos > 0 { nanos } else { 0 }),
{
    if nanos >= NANOS_PER_SEC || (nanos > 0 && secs < 0) {
        lemma_carry_up_stop(secs + 1, nanos - NANOS_PER_SEC);
    }
}

/// Borrowing down, from a state carrying up left behind, lands where the
/// nanosecond part shares the seconds' sign.
proof fn lemma_carry_down_signs(secs: int, nanos: int)
    requires
        nanos < NANOS_PER_SEC,
        nanos <= 0 || secs >= 0,
    ensures
        carry_down(secs, nanos).0 > 0 ==> carry_down(secs, nanos).1 >= 0,
        carry_down(secs, nanos).0 < 0 ==> carry_down(secs, nanos).1 <= 0,
    decreases (if nanos < 0 { -nanos } else { 0 }),
{
    if nanos < 0 && secs > 0 {
        lemma_carry_down_signs(secs - 1, nanos + NANOS_PER_SEC);
    }
}

/// Ordering durations by the sign of their normalized difference — seconds
/// first, then nanoseconds — agrees with ordering by total span.
pub proof fn lemma_cmp_is_difference_sign(a: Duration, b: Duration)
    ensures
        ({
            let d = spec_normalize(a.secs - b.secs, a.nanos - b.nanos);
            &&& (d.0 > 0 ==> spec_total_nanos(a) > spec_total_nanos(b))
            &&& (d.0 < 0 ==> spec_total_nanos(a) < spec_total_nanos(b))
            &&& (d.0 == 0 ==> spec_total_nanos(a) - spec_total_nanos(b) == d.1)
        }),
{
    let ds = a.secs - b.secs;
    let dn = a.nanos - b.nanos;
    lemma_carry_up_total(ds, dn);
    lemma_carry_up_stop(ds, dn);
    let up = carry_up(ds, dn);
    lemma_carry_down_total(up.0, up.1);
    lemma_carry_down_signs(up.0, up.1);
    let d = spec_normalize(ds, dn);
    assert(d.0 * NANOS_PER_SEC + d.1 == ds * NANOS_PER_SEC + dn);
    assert(ds * NANOS_PER_SEC == a.secs * NANOS_PER_SEC - b.secs * NANOS_PER_SEC)
        by (nonlinear_arith)
        requires
            ds == a.secs - b.secs,
    ;
    if d.0 > 0 {
        assert(d.0 * NANOS_PER_SEC >= NANOS_PER_SEC) by (nonlinear_arith)
            requires
                d.0 >= 1,
        ;
    }
    if d.0 < 0 {
        assert(d.0 * NANOS_PER_SEC <= -NANOS_PER_SEC) by (nonlinear_arith)
            requires
                d.0 <= -1,
        ;
    }
}

/// Two durations are equal exactly when their difference normalizes to the
/// zero duration; equality of total spans says the same thing.
pub proof fn lemma_eq_is_zero_difference(a: Duration, b: Duration)
    ensures
        (spec_normalize(a.secs - b.secs, a.nanos - b.nanos) == (0int, 0int)) <==> (spec_total_nanos(
            a,
        ) == spec_total_nanos(b)),
{
    let ds = a.secs - b.secs;
    let dn = a.nanos - b.nanos;
    lemma_carry_up_total(ds, dn);
    lemma_carry_down_total(carry_up(ds, dn).0, carry_up(ds, dn).1);
    assert(ds * NANOS_PER_SEC == a.secs * NANOS_PER_SEC - b.secs * NANOS_PER_SEC)
        by (nonlinear_arith)
        requires
            ds == a.secs - b.secs,
    ;
    if spec_total_nanos(a) == spec_total_nanos(b) {
        lemma_carry_up_zero(ds, dn);
        lemma_carry_down_zero(carry_up(ds, dn).0, carry_up(ds, dn).1);
    }
}

impl PartialEq for Duration {
    /// Two durations are equal when their difference normalizes to zero,
    /// that is, when they span the same number of nanoseconds.
    fn eq(&self, other: &Duration) -> (r: bool) {
        self.total_nanos() == other.total_nanos()
    }
}

impl vstd::std_specs::cmp::PartialEqSpecImpl for Duration {
    open spec fn obeys_eq_spec() -> bool {
        true
    }

    open spec fn eq_spec(&self, other: &Duration) -> bool {
        spec_total_nanos(*self) == spec_total_nanos(*other)
    }
}

impl PartialOrd for Duration {
    /// Durations are ordered by their total span in nanoseconds.
    fn partial_cmp(&self, other: &Duration) -> (r: Option<core::cmp::Ordering>) {
        let a: i128 = self.total_nanos();
        let b: i128 = other.total_nanos();
        if a < b {
            Some(core::cmp::Ordering::Less)
        } else if a > b {
            Some(core::cmp::Ordering::Greater)
        } else {
            Some(core::cmp::Ordering::Equal)
        }
    }
}

impl vstd::std_specs::cmp::PartialOrdSpecImpl for Duration {
    open spec fn obeys_partial_cmp_spec() -> bool {
        true
    }

    open spec fn partial_cmp_spec(&self, other: &Duration) -> Option<core::cmp::Ordering> {
        if spec_total_nanos(*self) < spec_total_nanos(*other) {
            Some(core::cmp::Ordering::Less)
        } else if spec_total_nanos(*self) > spec_total_nanos(*other) {
            Some(core::cmp::Ordering::Greater)
        } else {
            Some(core::cmp::Ordering::Equal)
        }
    }
}

} // verus!
