use vstd::prelude::*;
use vstd::arithmetic::div_mod::{
    lemma_fundamental_div_mod,
    lemma_fundamental_div_mod_converse_div,
    lemma_fundamental_div_mod_converse_mod,
};

use crate::parsers::{
    all_ascii_digits,
    decimal,
    decimal_value,
    first_match,
    lemma_decimal,
    lemma_first_match_is_prefix,
    lemma_uint_reads_numeric_prefix,
    numeric_char,
    numeric_prefix_len,
    map_one_of,
    uint,
    Combine,
    Ended,
    FollowedBy,
    Mapped,
    OneOf,
    ParseError,
    Parser,
    Transform,
    UInt,
};

verus! {

/// Nanoseconds in one second.
pub const NANOS_PER_SEC: u64 = 1_000_000_000;

/// A span of time: whole seconds and the nanoseconds beyond them.
#[derive(Clone, Copy, Debug, PartialEq, Eq, Structural)]
pub struct Duration {
    pub secs: u64,
    pub nanos: u32,
}

/// The duration of `total` nanoseconds.
pub open spec fn duration_from_nanos(total: nat) -> Duration {
    Duration {
        secs: (total / NANOS_PER_SEC as nat) as u64,
        nanos: (total % NANOS_PER_SEC as nat) as u32,
    }
}

impl DeepView for Duration {
    type V = Duration;

    open spec fn deep_view(&self) -> Duration {
        *self
    }
}

impl Duration {
    /// The nanoseconds part is under one second.
    pub open spec fn wf(self) -> bool {
        self.nanos < NANOS_PER_SEC
    }

    /// The whole span in nanoseconds.
    pub open spec fn total_nanos(self) -> nat {
        self.secs as nat * NANOS_PER_SEC as nat + self.nanos as nat
    }

    pub fn from_secs(secs: u64) -> (r: Duration)
        ensures
            r == TimeUnit::Seconds.spec_duration_of(secs as nat),
    {
        TimeUnit::Seconds.duration_of(secs)
    }

    pub fn from_millis(millis: u64) -> (r: Duration)
        ensures
            r == TimeUnit::Millis.spec_duration_of(millis as nat),
    {
        TimeUnit::Millis.duration_of(millis)
    }

    pub fn from_micros(micros: u64) -> (r: Duration)
        ensures
            r == TimeUnit::Micros.spec_duration_of(micros as nat),
    {
        TimeUnit::Micros.duration_of(micros)
    }

    pub fn from_nanos(nanos: u64) -> (r: Duration)
        ensures
            r == TimeUnit::Nanos.spec_duration_of(nanos as nat),
    {
        TimeUnit::Nanos.duration_of(nanos)
    }

    pub fn as_secs(&self) -> (r: u64)
        ensures
            r == self.secs,
    {
        self.secs
    }

    pub fn subsec_nanos(&self) -> (r: u32)
        ensures
            r == self.nanos,
    {
        self.nanos
    }

    /// The whole span in nanoseconds.
    pub fn as_nanos(&self) -> (r: u128)
        ensures
            r == self.total_nanos(),
    {
        assert(self.secs as nat * NANOS_PER_SEC as nat <= u64::MAX as nat * NANOS_PER_SEC as nat)
            by (nonlinear_arith);
        self.secs as u128 * NANOS_PER_SEC as u128 + self.nanos as u128
    }
}

/// A well-formed duration is the one of its total nanoseconds.
pub proof fn lemma_duration_from_total(d: Duration)
    requires
        d.wf(),
    ensures
        duration_from_nanos(d.total_nanos()) == d,
        duration_from_nanos(d.total_nanos()).wf(),
{
    lemma_fundamental_div_mod_converse_div(
        d.total_nanos() as int,
        NANOS_PER_SEC as int,
        d.secs as int,
        d.nanos as int,
    );
    lemma_fundamental_div_mod_converse_mod(
        d.total_nanos() as int,
        NANOS_PER_SEC as int,
        d.secs as int,
        d.nanos as int,
    );
}

/// A unit of time that a duration is written in.
#[derive(Clone, Copy, Debug, PartialEq, Eq, Structural)]
pub enum TimeUnit {
    Seconds,
    Millis,
    Micros,
    Nanos,
}

impl DeepView for TimeUnit {
    type V = TimeUnit;

    open spec fn deep_view(&self) -> TimeUnit {
        *self
    }
}

proof fn lemma_split_nanos(amount: int, per: int, m: int)
    requires
        amount >= 0,
        per > 0,
        m > 0,
        per * m == NANOS_PER_SEC,
    ensures
        (amount * per) / (NANOS_PER_SEC as int) == amount / m,
        (amount * per) % (NANOS_PER_SEC as int) == (amount % m) * per,
{
    let q = amount / m;
    let rem = amount % m;
    lemma_fundamental_div_mod(amount, m);
    assert(amount * per == q * (per * m) + rem * per) by (nonlinear_arith)
        requires
            amount == m * q + rem,
    ;
    assert(0 <= rem * per < per * m) by (nonlinear_arith)
        requires
            0 <= rem < m,
            per > 0,
    ;
    lemma_fundamental_div_mod_converse_div(amount * per, NANOS_PER_SEC as int, q, rem * per);
    lemma_fundamental_div_mod_converse_mod(amount * per, NANOS_PER_SEC as int, q, rem * per);
}

impl TimeUnit {
    /// Nanoseconds in one of this unit.
    pub open spec fn nanos_per(self) -> nat {
        match self {
            TimeUnit::Seconds => 1_000_000_000,
            TimeUnit::Millis => 1_000_000,
            TimeUnit::Micros => 1_000,
            TimeUnit::Nanos => 1,
        }
    }

    /// The suffix that writes this unit.
    pub open spec fn suffix(self) -> Seq<char> {
        match self {
            TimeUnit::Seconds => seq!['s'],
            TimeUnit::Millis => seq!['m', 's'],
            TimeUnit::Micros => seq!['u', 's'],
            TimeUnit::Nanos => seq!['n', 's'],
        }
    }

    /// `amount` of this unit.
    pub open spec fn spec_duration_of(self, amount: nat) -> Duration {
        duration_from_nanos(amount * self.nanos_per())
    }

    /// `amount` of this unit, as a duration.
    pub fn duration_of(self, amount: u64) -> (r: Duration)
        ensures
            r == self.spec_duration_of(amount as nat),
            r.wf(),
    {
        proof {
            lemma_split_nanos(amount as int, self.nanos_per() as int, NANOS_PER_SEC as int / self.nanos_per() as int);
        }
        match self {
            TimeUnit::Seconds => Duration { secs: amount, nanos: 0 },
            TimeUnit::Millis => Duration {
                secs: amount / 1_000,
                nanos: ((amount % 1_000) * 1_000_000) as u32,
            },
            TimeUnit::Micros => Duration {
                secs: amount / 1_000_000,
                nanos: ((amount % 1_000_000) * 1_000) as u32,
            },
            TimeUnit::Nanos => Duration {
                secs: amount / NANOS_PER_SEC,
                nanos: (amount % NANOS_PER_SEC) as u32,
            },
        }
    }
}

/// Turns an amount and its unit into a duration.
pub struct ToDuration;

impl Transform<(u64, TimeUnit)> for ToDuration {
    type Output = Duration;

    open spec fn spec_apply(&self, input: (u64, TimeUnit)) -> Duration {
        input.1.spec_duration_of(input.0 as nat)
    }

    fn apply(&self, input: (u64, TimeUnit)) -> (r: Duration) {
        input.1.duration_of(input.0)
    }
}

/// An amount followed by the suffix of its unit, read as a duration.
pub type DurationParser = Mapped<FollowedBy<UInt, OneOf<TimeUnit>>, ToDuration>;

/// The unit suffixes that a duration may carry, in the order they are tried.
pub open spec fn unit_options() -> Seq<(&'static str, TimeUnit)> {
    seq![
        ("s", TimeUnit::Seconds),
        ("ms", TimeUnit::Millis),
        ("ns", TimeUnit::Nanos),
        ("us", TimeUnit::Micros),
    ]
}

/// `p` is the duration parser: its unit suffixes are those of `unit_options`.
pub open spec fn is_duration_parser(p: DurationParser) -> bool {
    p.parser.second.options@ == unit_options()
}

/// A parser of an unsigned integer followed by one of the unit suffixes `s`, `ms`,
/// `ns`, `us`, yielding the duration they write.
pub fn duration() -> (r: DurationParser)
    ensures
        is_duration_parser(r),
{
    let r = uint().followed_by(
        map_one_of(
            vec![
                ("s", TimeUnit::Seconds),
                ("ms", TimeUnit::Millis),
                ("ns", TimeUnit::Nanos),
                ("us", TimeUnit::Micros),
            ],
        ),
    ).map(ToDuration);
    assert(r.parser.second.options@ =~= unit_options());
    r
}

/// The unit that the whole of `t` writes, if any.
pub open spec fn unit_of_suffix(t: Seq<char>) -> Option<TimeUnit> {
    if t == seq!['s'] {
        Some(TimeUnit::Seconds)
    } else if t == seq!['m', 's'] {
        Some(TimeUnit::Millis)
    } else if t == seq!['n', 's'] {
        Some(TimeUnit::Nanos)
    } else if t == seq!['u', 's'] {
        Some(TimeUnit::Micros)
    } else {
        None
    }
}

/// The duration that the text `s` writes: a non-empty run of numeric characters, all
/// of them ASCII decimal digits whose number fits a `u64`, then exactly the suffix of
/// a unit.
pub open spec fn duration_text(s: Seq<char>) -> Option<Duration> {
    let k = numeric_prefix_len(s);
    let digits = s.take(k as int);
    if k > 0 && all_ascii_digits(digits) && decimal_value(digits) <= u64::MAX {
        match unit_of_suffix(s.skip(k as int)) {
            Some(u) => Some(u.spec_duration_of(decimal_value(digits))),
            None => None,
        }
    } else {
        None
    }
}

proof fn lemma_unit_suffix(t: Seq<char>)
    ensures
        match first_match(unit_options(), t) {
            Some((lit, u)) => if t.len() == lit@.len() {
                unit_of_suffix(t) == Some(u)
            } else {
                unit_of_suffix(t) is None
            },
            None => unit_of_suffix(t) is None,
        },
{
    reveal_strlit("s");
    reveal_strlit("ms");
    reveal_strlit("ns");
    reveal_strlit("us");
    assert("s"@ =~= seq!['s']);
    assert("ms"@ =~= seq!['m', 's']);
    assert("ns"@ =~= seq!['n', 's']);
    assert("us"@ =~= seq!['u', 's']);
    let o0 = unit_options();
    let o1 = o0.drop_first();
    let o2 = o1.drop_first();
    let o3 = o2.drop_first();
    let o4 = o3.drop_first();
    assert(o1 =~= seq![("ms", TimeUnit::Millis), ("ns", TimeUnit::Nanos), ("us", TimeUnit::Micros)]);
    assert(o2 =~= seq![("ns", TimeUnit::Nanos), ("us", TimeUnit::Micros)]);
    assert(o3 =~= seq![("us", TimeUnit::Micros)]);
    assert(o4.len() == 0);
    assert(first_match(o4, t) is None);
    let s_pre = t.len() >= 1 && t[0] == 's';
    let ms_pre = t.len() >= 2 && t[0] == 'm' && t[1] == 's';
    let ns_pre = t.len() >= 2 && t[0] == 'n' && t[1] == 's';
    let us_pre = t.len() >= 2 && t[0] == 'u' && t[1] == 's';
    assert("s"@.is_prefix_of(t) <==> s_pre) by {
        if s_pre {
            assert(t.subrange(0, 1) =~= seq!['s']);
        }
        if "s"@.is_prefix_of(t) {
            assert(t.subrange(0, 1)[0] == t[0]);
        }
    }
    assert("ms"@.is_prefix_of(t) <==> ms_pre) by {
        if ms_pre {
            assert(t.subrange(0, 2) =~= seq!['m', 's']);
        }
        if "ms"@.is_prefix_of(t) {
            assert(t.subrange(0, 2)[0] == t[0]);
            assert(t.subrange(0, 2)[1] == t[1]);
        }
    }
    assert("ns"@.is_prefix_of(t) <==> ns_pre) by {
        if ns_pre {
            assert(t.subrange(0, 2) =~= seq!['n', 's']);
        }
        if "ns"@.is_prefix_of(t) {
            assert(t.subrange(0, 2)[0] == t[0]);
            assert(t.subrange(0, 2)[1] == t[1]);
        }
    }
    assert("us"@.is_prefix_of(t) <==> us_pre) by {
        if us_pre {
            assert(t.subrange(0, 2) =~= seq!['u', 's']);
        }
        if "us"@.is_prefix_of(t) {
            assert(t.subrange(0, 2)[0] == t[0]);
            assert(t.subrange(0, 2)[1] == t[1]);
        }
    }
    assert(first_match(o3, t) == if us_pre {
        Some(("us", TimeUnit::Micros))
    } else {
        None
    });
    assert(first_match(o2, t) == if ns_pre {
        Some(("ns", TimeUnit::Nanos))
    } else {
        first_match(o3, t)
    });
    assert(first_match(o1, t) == if ms_pre {
        Some(("ms", TimeUnit::Millis))
    } else {
        first_match(o2, t)
    });
    assert(first_match(o0, t) == if s_pre {
        Some(("s", TimeUnit::Seconds))
    } else {
        first_match(o1, t)
    });
    if t.len() == 1 && s_pre {
        assert(t =~= seq!['s']);
    }
    if t.len() == 2 && ms_pre {
        assert(t =~= seq!['m', 's']);
    }
    if t.len() == 2 && ns_pre {
        assert(t =~= seq!['n', 's']);
    }
    if t.len() == 2 && us_pre {
        assert(t =~= seq!['u', 's']);
    }
}

/// The duration parser, made to end the input, succeeds on `s` exactly where
/// `duration_text(s)` gives a duration, and then yields that duration.
pub proof fn lemma_duration_text(p: DurationParser, s: Seq<char>)
    requires
        is_duration_parser(p),
    ensures
        duration_result(p, s) is Ok <==> duration_text(s) is Some,
        duration_result(p, s) matches Ok(d) ==> duration_text(s) == Some(d),
{
    lemma_uint_reads_numeric_prefix(s);
    let k = numeric_prefix_len(s);
    lemma_unit_suffix(s.skip(k as int));
    lemma_first_match_is_prefix(unit_options(), s.skip(k as int));
}

/// What `parse_duration` gives for `s`, as the duration parser `p`, made to end the
/// input, decides it.
pub open spec fn duration_result(p: DurationParser, s: Seq<char>) -> Result<Duration, ParseError> {
    match (Ended { parser: p }).spec_parse(s) {
        Ok((_, d)) => Ok(d),
        Err(e) => Err(ParseError::NotADuration(Box::new(e))),
    }
}

/// Reads the whole of `s` as a duration: decimal digits, then one of the unit
/// suffixes `s`, `ms`, `ns`, `us`, and nothing after it.
pub fn parse_duration(s: &str) -> (r: Result<Duration, ParseError>)
    ensures
        forall|p: DurationParser| is_duration_parser(p) ==> r == #[trigger] duration_result(p, s@),
        r is Ok <==> duration_text(s@) is Some,
        r matches Ok(d) ==> duration_text(s@) == Some(d),
        r matches Err(e) ==> e is NotADuration,
{
    let p = duration().end();
    proof {
        lemma_duration_text(p.parser, s@);
    }
    match p.parse(s) {
        Ok((_, d)) => Ok(d),
        Err(e) => Err(ParseError::NotADuration(Box::new(e))),
    }
}

proof fn lemma_numeric_prefix_len(a: Seq<char>, b: Seq<char>)
    requires
        all_ascii_digits(a),
        b.len() > 0,
        !numeric_char(b[0]),
    ensures
        numeric_prefix_len(a + b) == a.len(),
        (a + b).take(a.len() as int) == a,
        (a + b).skip(a.len() as int) == b,
    decreases a.len(),
{
    assert((a + b).take(a.len() as int) =~= a);
    assert((a + b).skip(a.len() as int) =~= b);
    if a.len() > 0 {
        let rest = a.drop_first();
        assert forall|i: int| 0 <= i < rest.len() implies crate::parsers::is_ascii_digit(
            #[trigger] rest[i],
        ) by {
            assert(rest[i] == a[i + 1]);
        }
        lemma_numeric_prefix_len(rest, b);
        assert((a + b).drop_first() =~= rest + b);
        assert(crate::parsers::is_ascii_digit(a[0]));
    } else {
        assert(a + b =~= b);
    }
}

proof fn lemma_suffix_not_numeric(u: TimeUnit, x: Seq<char>)
    ensures
        (u.suffix() + x).len() > 0,
        !numeric_char((u.suffix() + x)[0]),
{
}

/// Every amount that fits a `u64`, written in decimal and followed by the suffix of a
/// unit, reads as that amount of that unit.
pub proof fn lemma_amount_with_unit_reads_back(n: u64, u: TimeUnit)
    ensures
        duration_text(decimal(n as nat) + u.suffix()) == Some(u.spec_duration_of(n as nat)),
{
    lemma_decimal(n as nat);
    lemma_suffix_not_numeric(u, Seq::empty());
    assert(u.suffix() + Seq::empty() =~= u.suffix());
    lemma_numeric_prefix_len(decimal(n as nat), u.suffix());
}

/// A duration followed by anything more is not a duration.
pub proof fn lemma_trailing_text_rejected(n: u64, u: TimeUnit, extra: Seq<char>)
    requires
        extra.len() > 0,
    ensures
        duration_text(decimal(n as nat) + u.suffix() + extra) is None,
{
    lemma_decimal(n as nat);
    lemma_suffix_not_numeric(u, extra);
    let a = decimal(n as nat);
    let b = u.suffix() + extra;
    assert(a + u.suffix() + extra =~= a + b);
    lemma_numeric_prefix_len(a, b);
    assert(b != seq!['s'] && b != seq!['m', 's'] && b != seq!['n', 's'] && b != seq!['u', 's']) by {
        if b.len() == 2 {
            assert(b[0] == 's');
        }
    }
}

/// Text that lacks the amount, lacks the unit, or carries a suffix that is no unit is
/// not a duration: the empty text, a unit suffix alone, an amount alone, and an amount
/// followed by text that starts with no digit and is no unit suffix.
pub proof fn lemma_incomplete_text_rejected(n: u64, u: TimeUnit, other: Seq<char>)
    requires
        other.len() > 0,
        !numeric_char(other[0]),
        unit_of_suffix(other) is None,
    ensures
        duration_text(Seq::empty()) is None,
        duration_text(u.suffix()) is None,
        duration_text(decimal(n as nat)) is None,
        duration_text(decimal(n as nat) + other) is None,
{
    lemma_decimal(n as nat);
    lemma_suffix_not_numeric(u, Seq::empty());
    assert(u.suffix() + Seq::empty() =~= u.suffix());
    lemma_numeric_prefix_len(decimal(n as nat), other);
    let d = decimal(n as nat);
    lemma_numeric_prefix_all(d);
    assert(d.skip(d.len() as int) =~= Seq::<char>::empty());
}

proof fn lemma_numeric_prefix_all(a: Seq<char>)
    requires
        all_ascii_digits(a),
    ensures
        numeric_prefix_len(a) == a.len(),
    decreases a.len(),
{
    if a.len() > 0 {
        let rest = a.drop_first();
        assert forall|i: int| 0 <= i < rest.len() implies crate::parsers::is_ascii_digit(
            #[trigger] rest[i],
        ) by {
            assert(rest[i] == a[i + 1]);
        }
        lemma_numeric_prefix_all(rest);
        assert(crate::parsers::is_ascii_digit(a[0]));
    }
}

} // verus!
