use vstd::prelude::*;
use vstd::string::StringSliceAdditionalSpecFns;

use crate::time::{ce_days_of, Date, Time, TimeInterval, WeekdaySet, MAX_DAYS, MIN_DAYS};
use crate::utils::{bit_set, ExclusiveRange};

verus! {

/// Whether `c` is an ASCII digit.
pub open spec fn is_digit(c: u8) -> bool {
    48 <= c <= 57
}

pub open spec fn all_digits(b: Seq<u8>) -> bool {
    forall|i: int| 0 <= i < b.len() ==> is_digit(#[trigger] b[i])
}

/// The number written by the decimal digits `b`.
pub open spec fn digits_value(b: Seq<u8>) -> nat
    decreases b.len(),
{
    if b.len() == 0 {
        0
    } else {
        digits_value(b.drop_last()) * 10 + (b.last() - 48) as nat
    }
}

/// The number written by `b` when `b` is one or more decimal digits and the number is at most
/// `max`.
pub open spec fn number_text(b: Seq<u8>, max: nat) -> Option<nat> {
    if b.len() > 0 && all_digits(b) && digits_value(b) <= max {
        Some(digits_value(b))
    } else {
        None
    }
}

/// The decimal digits of `n`, without leading zeros.
pub open spec fn decimal(n: nat) -> Seq<u8>
    decreases n,
{
    if n < 10 {
        seq![(48 + n) as u8]
    } else {
        decimal(n / 10).push((48 + n % 10) as u8)
    }
}

/// The decimal digits of `n`, with a leading zero below ten.
pub open spec fn pad2(n: nat) -> Seq<u8> {
    if n < 10 {
        seq![48u8, (48 + n) as u8]
    } else {
        decimal(n)
    }
}

/// The fields found so far after reading `n` bytes of `b`, and the field being read.
pub open spec fn split_state(b: Seq<u8>, sep: u8, n: int) -> (Seq<Seq<u8>>, Seq<u8>)
    decreases n,
{
    if n <= 0 {
        (Seq::empty(), Seq::empty())
    } else {
        let (done, cur) = split_state(b, sep, n - 1);
        if b[n - 1] == sep {
            (done.push(cur), Seq::empty())
        } else {
            (done, cur.push(b[n - 1]))
        }
    }
}

/// The parts of `b` between the separators `sep` (one part more than there are separators).
pub open spec fn fields(b: Seq<u8>, sep: u8) -> Seq<Seq<u8>> {
    let (done, cur) = split_state(b, sep, b.len() as int);
    done.push(cur)
}

pub proof fn lemma_decimal(n: nat)
    ensures
        decimal(n).len() >= 1,
        all_digits(decimal(n)),
        digits_value(decimal(n)) == n,
    decreases n,
{
    if n >= 10 {
        lemma_decimal(n / 10);
        let d = decimal(n);
        assert(d.drop_last() =~= decimal(n / 10));
        assert(d.last() == (48 + n % 10) as u8);
        assert(((48 + n % 10) as u8) - 48 == n % 10);
        assert(n == (n / 10) * 10 + n % 10);
        assert forall|i: int| 0 <= i < d.len() implies is_digit(#[trigger] d[i]) by {
            if i < d.len() - 1 {
                assert(d[i] == decimal(n / 10)[i]);
            }
        }
    } else {
        let d = decimal(n);
        assert(d.drop_last() =~= Seq::<u8>::empty());
        assert(d.last() == (48 + n) as u8);
        assert(digits_value(d.drop_last()) == 0);
    }
}

pub proof fn lemma_pad2(n: nat)
    ensures
        pad2(n).len() >= 1,
        all_digits(pad2(n)),
        digits_value(pad2(n)) == n,
{
    lemma_decimal(n);
    if n < 10 {
        let p = pad2(n);
        assert(p.drop_last() =~= seq![48u8]);
        assert(seq![48u8].drop_last() =~= Seq::<u8>::empty());
        assert(digits_value(Seq::<u8>::empty()) == 0);
        assert(digits_value(seq![48u8]) == 0);
        assert(p.last() == (48 + n) as u8);
    }
}

/// Reading bytes without a separator extends the field being read.
pub proof fn lemma_split_plain(b: Seq<u8>, sep: u8, m: int, n: int)
    requires
        0 <= m <= n <= b.len(),
        forall|i: int| m <= i < n ==> b[i] != sep,
    ensures
        split_state(b, sep, n).0 == split_state(b, sep, m).0,
        split_state(b, sep, n).1 == split_state(b, sep, m).1 + b.subrange(m, n),
    decreases n - m,
{
    if n > m {
        lemma_split_plain(b, sep, m, n - 1);
        assert(split_state(b, sep, m).1 + b.subrange(m, n) =~= (split_state(b, sep, m).1 + b.subrange(m, n - 1)).push(b[n - 1]));
    } else {
        assert(split_state(b, sep, m).1 + b.subrange(m, n) =~= split_state(b, sep, m).1);
    }
}

/// Digits hold no separator of the formats here.
pub open spec fn no_byte(b: Seq<u8>, c: u8) -> bool {
    forall|i: int| 0 <= i < b.len() ==> b[i] != c
}

/// The fields of `x` followed by `sep` and `y`, where `x` holds no `sep`, are `x` and then the
/// fields of `y`.
pub proof fn lemma_fields_cons(x: Seq<u8>, sep: u8, y: Seq<u8>)
    requires
        no_byte(x, sep),
    ensures
        fields(x.push(sep) + y, sep) == seq![x] + fields(y, sep),
    decreases y.len(),
{
    let b = x.push(sep) + y;
    let k = x.len() as int;
    lemma_split_plain(b, sep, 0, k);
    assert(b.subrange(0, k) =~= x);
    assert(split_state(b, sep, 0).1 + x =~= x);
    assert(split_state(b, sep, k + 1) == (seq![x], Seq::<u8>::empty()));
    assert(b.subrange(k + 1, b.len() as int) =~= y);
    lemma_split_rest(b, sep, y, k + 1);
    let (d1, c1) = split_state(y, sep, y.len() as int);
    assert(fields(b, sep) =~= seq![x] + fields(y, sep));
}

/// Once a prefix ending in a separator has been read, the rest is split as it would be alone.
proof fn lemma_split_rest(b: Seq<u8>, sep: u8, y: Seq<u8>, start: int)
    requires
        0 < start <= b.len(),
        b[start - 1] == sep,
        b.subrange(start, b.len() as int) == y,
    ensures
        split_state(b, sep, b.len() as int).0 == split_state(b, sep, start).0 + split_state(y, sep, y.len() as int).0,
        split_state(b, sep, b.len() as int).1 == split_state(y, sep, y.len() as int).1,
{
    lemma_split_shift(b, sep, y, start, y.len() as int);
}

proof fn lemma_split_shift(b: Seq<u8>, sep: u8, y: Seq<u8>, start: int, n: int)
    requires
        0 < start <= b.len(),
        b[start - 1] == sep,
        b.subrange(start, b.len() as int) == y,
        0 <= n <= y.len(),
    ensures
        split_state(b, sep, start + n).0 == split_state(b, sep, start).0 + split_state(y, sep, n).0,
        split_state(b, sep, start + n).1 == split_state(y, sep, n).1,
    decreases n,
{
    if n == 0 {
        assert(split_state(b, sep, start).0 + Seq::<Seq<u8>>::empty() =~= split_state(b, sep, start).0);
        assert(split_state(b, sep, start).1 =~= Seq::<u8>::empty());
    } else {
        lemma_split_shift(b, sep, y, start, n - 1);
        assert(b[start + n - 1] == y[n - 1]);
        let (d0, _) = split_state(b, sep, start);
        let (dy, cy) = split_state(y, sep, n - 1);
        assert((d0 + dy).push(cy) =~= d0 + dy.push(cy));
    }
}

/// A field without a separator is split into itself alone.
pub proof fn lemma_fields_one(x: Seq<u8>, sep: u8)
    requires
        no_byte(x, sep),
    ensures
        fields(x, sep) == seq![x],
{
    lemma_split_plain(x, sep, 0, x.len() as int);
    assert(x.subrange(0, x.len() as int) =~= x);
    assert(Seq::<u8>::empty() + x =~= x);
    assert(Seq::<Seq<u8>>::empty().push(x) =~= seq![x]);
}

/// Splits `b` at each byte `sep`.
pub fn split_fields(b: &[u8], sep: u8) -> (r: Vec<Vec<u8>>)
    ensures
        r@.len() == fields(b@, sep).len(),
        forall|i: int| 0 <= i < r@.len() ==> (#[trigger] r@[i])@ == fields(b@, sep)[i],
{
    let mut done: Vec<Vec<u8>> = Vec::new();
    let mut cur: Vec<u8> = Vec::new();
    let mut i: usize = 0;
    while i < b.len()
        invariant
            i <= b@.len(),
            done@.len() == split_state(b@, sep, i as int).0.len(),
            forall|k: int| 0 <= k < done@.len() ==> (#[trigger] done@[k])@ == split_state(b@, sep, i as int).0[k],
            cur@ == split_state(b@, sep, i as int).1,
        decreases b@.len() - i,
    {
        if b[i] == sep {
            let field = cur;
            cur = Vec::new();
            done.push(field);
        } else {
            cur.push(b[i]);
        }
        i = i + 1;
    }
    done.push(cur);
    done
}

proof fn lemma_digits_prefix(b: Seq<u8>, i: int)
    requires
        0 <= i <= b.len(),
        all_digits(b),
    ensures
        digits_value(b.subrange(0, i)) <= digits_value(b),
    decreases b.len() - i,
{
    if i < b.len() {
        lemma_digits_prefix(b, i + 1);
        assert(b.subrange(0, i + 1).drop_last() =~= b.subrange(0, i));
    } else {
        assert(b.subrange(0, i) =~= b);
    }
}

/// The number written by `b` if it is one or more digits and at most `max`.
pub fn parse_number(b: &[u8], max: u64) -> (r: Option<u64>)
    requires
        max <= u32::MAX,
    ensures
        match number_text(b@, max as nat) {
            Some(n) => r == Some(n as u64),
            None => r is None,
        },
{
    if b.len() == 0 {
        return None;
    }
    let mut acc: u64 = 0;
    let mut i: usize = 0;
    while i < b.len()
        invariant
            i <= b@.len(),
            b@.len() > 0,
            max <= u32::MAX,
            acc <= max,
            acc == digits_value(b@.subrange(0, i as int)),
            all_digits(b@.subrange(0, i as int)),
        decreases b@.len() - i,
    {
        let c = b[i];
        if c < 48 || c > 57 {
            assert(!is_digit(b@[i as int]));
            return None;
        }
        assert(b@.subrange(0, i + 1).drop_last() =~= b@.subrange(0, i as int));
        let next = acc * 10 + (c - 48) as u64;
        assert(all_digits(b@.subrange(0, i + 1))) by {
            assert forall|k: int| 0 <= k < i + 1 implies is_digit(#[trigger] b@.subrange(0, i + 1)[k]) by {
                if k < i {
                    assert(b@.subrange(0, i + 1)[k] == b@.subrange(0, i as int)[k]);
                }
            }
        }
        if next > max {
            proof {
                if all_digits(b@) {
                    lemma_digits_prefix(b@, i + 1);
                }
            }
            return None;
        }
        acc = next;
        i = i + 1;
    }
    assert(b@.subrange(0, b@.len() as int) =~= b@);
    Some(acc)
}

/// Appends the decimal digits of `n`.
pub fn push_decimal(out: &mut Vec<u8>, n: u64)
    ensures
        final(out)@ == old(out)@ + decimal(n as nat),
    decreases n,
{
    if n >= 10 {
        push_decimal(out, n / 10);
    }
    let ghost mid = out@;
    out.push((48 + n % 10) as u8);
    proof {
        if n >= 10 {
            assert(out@ =~= old(out)@ + decimal(n as nat));
        } else {
            assert(out@ =~= old(out)@ + decimal(n as nat));
        }
    }
}

/// Appends the decimal digits of `n`, with a leading zero below ten.
pub fn push_pad2(out: &mut Vec<u8>, n: u64)
    ensures
        final(out)@ == old(out)@ + pad2(n as nat),
{
    if n < 10 {
        out.push(48);
        out.push((48 + n) as u8);
        assert(out@ =~= old(out)@ + pad2(n as nat));
    } else {
        push_decimal(out, n);
    }
}

/// The values written as `a:b:...` with exactly `expected_num` parts, each a number (a leading
/// `+` allowed) that fits in `u32`.
pub open spec fn colon_values(b: Seq<u8>, expected_num: nat) -> Option<Seq<u32>> {
    let f = fields(b, 58);
    if f.len() == expected_num && forall|i: int| 0 <= i < f.len() ==> (#[trigger] u32_text(f[i])) is Some {
        Some(Seq::new(f.len(), |i: int| u32_text(f[i])->0))
    } else {
        None
    }
}

/// A `u32` written in decimal, a leading `+` allowed.
pub open spec fn u32_text(b: Seq<u8>) -> Option<u32> {
    let digits = if b.len() > 0 && b[0] == 43 {
        b.drop_first()
    } else {
        b
    };
    match number_text(digits, u32::MAX as nat) {
        Some(n) => Some(n as u32),
        None => None,
    }
}

/// Reads a `u32` written in decimal, a leading `+` allowed.
pub fn parse_u32(b: &[u8]) -> (r: Option<u32>)
    ensures
        r == u32_text(b@),
{
    let n = if b.len() > 0 && b[0] == 43 {
        let (_, rest) = b.split_at(1);
        assert(rest@ =~= b@.drop_first());
        parse_number(rest, u32::MAX as u64)
    } else {
        parse_number(b, u32::MAX as u64)
    };
    match n {
        Some(v) => Some(v as u32),
        None => None,
    }
}

/// Reads `expected_num` IDs written as `a:b:...`.
pub fn parse_colon_specifier(s: &str, expected_num: usize) -> (r: Option<Vec<u32>>)
    ensures
        match colon_values(s.spec_bytes(), expected_num as nat) {
            Some(v) => r matches Some(w) && w@ == v,
            None => r is None,
        },
{
    let parts = split_fields(s.as_bytes(), 58);
    if parts.len() != expected_num {
        return None;
    }
    let ghost f = fields(s.spec_bytes(), 58);
    let mut vals: Vec<u32> = Vec::new();
    let mut i: usize = 0;
    while i < parts.len()
        invariant
            i <= parts@.len(),
            parts@.len() == f.len(),
            f == fields(s.spec_bytes(), 58),
            forall|k: int| 0 <= k < parts@.len() ==> (#[trigger] parts@[k])@ == f[k],
            vals@.len() == i,
            forall|k: int| 0 <= k < i ==> u32_text(f[k]) == Some(#[trigger] vals@[k]),
        decreases parts@.len() - i,
    {
        match parse_u32(parts[i].as_slice()) {
            Some(v) => vals.push(v),
            None => {
                assert(u32_text(f[i as int]) is None);
                return None;
            },
        }
        i = i + 1;
    }
    assert forall|k: int| 0 <= k < f.len() implies (#[trigger] u32_text(f[k])) is Some by {
        assert(u32_text(f[k]) == Some(vals@[k]));
    }
    assert(vals@ =~= Seq::new(f.len(), |k: int| u32_text(f[k])->0));
    Some(vals)
}

} // verus!

verus! {

/// A time written `h:m`, each part one or more digits that fit in a byte.
pub open spec fn time_text(b: Seq<u8>) -> Option<Time> {
    let f = fields(b, 58);
    if f.len() == 2 && number_text(f[0], 255) is Some && number_text(f[1], 255) is Some {
        Some(Time { hour: number_text(f[0], 255)->0 as u8, minute: number_text(f[1], 255)->0 as u8 })
    } else {
        None
    }
}

/// A time interval written `h:m-h:m`.
pub open spec fn interval_text(b: Seq<u8>) -> Option<TimeInterval> {
    let f = fields(b, 45);
    if f.len() == 2 && time_text(f[0]) is Some && time_text(f[1]) is Some {
        Some(TimeInterval { start: time_text(f[0])->0, end: time_text(f[1])->0 })
    } else {
        None
    }
}

/// A time as `hh:mm`.
pub open spec fn time_format(t: Time) -> Seq<u8> {
    pad2(t.hour as nat).push(58u8) + pad2(t.minute as nat)
}

/// An interval as `hh:mm-hh:mm`.
pub open spec fn interval_format(iv: TimeInterval) -> Seq<u8> {
    time_format(iv.start).push(45u8) + time_format(iv.end)
}

proof fn lemma_digits_free(b: Seq<u8>, c: u8)
    requires
        all_digits(b),
        !is_digit(c),
    ensures
        no_byte(b, c),
{
    assert forall|i: int| 0 <= i < b.len() implies b[i] != c by {
        assert(is_digit(b[i]));
    }
}

/// Reading back the text of a time gives the same time.
pub proof fn lemma_time_round_trip(t: Time)
    ensures
        time_text(time_format(t)) == Some(t),
        no_byte(time_format(t), 45),
{
    lemma_pad2(t.hour as nat);
    lemma_pad2(t.minute as nat);
    lemma_digits_free(pad2(t.hour as nat), 58);
    lemma_digits_free(pad2(t.minute as nat), 58);
    lemma_fields_cons(pad2(t.hour as nat), 58, pad2(t.minute as nat));
    lemma_fields_one(pad2(t.minute as nat), 58);
    let f = fields(time_format(t), 58);
    assert(f =~= seq![pad2(t.hour as nat), pad2(t.minute as nat)]);
    lemma_digits_free(pad2(t.hour as nat), 45);
    lemma_digits_free(pad2(t.minute as nat), 45);
    let x = time_format(t);
    assert forall|i: int| 0 <= i < x.len() implies x[i] != 45 by {
        let h = pad2(t.hour as nat);
        if i < h.len() {
            assert(x[i] == h[i]);
        } else if i > h.len() {
            assert(x[i] == pad2(t.minute as nat)[i - h.len() - 1]);
        }
    }
}

/// Reading back the text of a time interval gives the same interval.
pub proof fn lemma_interval_round_trip(iv: TimeInterval)
    ensures
        interval_text(interval_format(iv)) == Some(iv),
{
    lemma_time_round_trip(iv.start);
    lemma_time_round_trip(iv.end);
    lemma_fields_cons(time_format(iv.start), 45, time_format(iv.end));
    lemma_fields_one(time_format(iv.end), 45);
    assert(fields(interval_format(iv), 45) =~= seq![time_format(iv.start), time_format(iv.end)]);
}

/// Appends a time as `hh:mm`.
pub fn push_time(out: &mut Vec<u8>, t: Time)
    ensures
        final(out)@ == old(out)@ + time_format(t),
{
    push_pad2(out, t.hour as u64);
    out.push(58);
    push_pad2(out, t.minute as u64);
    assert(out@ =~= old(out)@ + time_format(t));
}

impl Time {
    /// Reads a time written `h:m`.
    pub fn parse(s: &str) -> (r: Option<Time>)
        ensures
            r == time_text(s.spec_bytes()),
    {
        parse_time_bytes(s.as_bytes())
    }

    /// The time as `hh:mm`; reading it back gives the same time.
    pub fn format(&self) -> (r: Vec<u8>)
        ensures
            r@ == time_format(*self),
            time_text(r@) == Some(*self),
    {
        let mut out: Vec<u8> = Vec::new();
        push_time(&mut out, *self);
        proof {
            assert(out@ =~= time_format(*self));
            lemma_time_round_trip(*self);
        }
        out
    }
}

fn parse_time_bytes(b: &[u8]) -> (r: Option<Time>)
    ensures
        r == time_text(b@),
{
    let f = split_fields(b, 58);
    if f.len() != 2 {
        return None;
    }
    let h = parse_number(f[0].as_slice(), 255);
    let m = parse_number(f[1].as_slice(), 255);
    match (h, m) {
        (Some(h), Some(m)) => Some(Time { hour: h as u8, minute: m as u8 }),
        _ => None,
    }
}

impl ExclusiveRange<Time> {
    /// Reads a time interval written `h:m-h:m`.
    pub fn parse(s: &str) -> (r: Option<TimeInterval>)
        ensures
            r == interval_text(s.spec_bytes()),
    {
        let f = split_fields(s.as_bytes(), 45);
        if f.len() != 2 {
            return None;
        }
        let a = parse_time_bytes(f[0].as_slice());
        let b = parse_time_bytes(f[1].as_slice());
        match (a, b) {
            (Some(start), Some(end)) => Some(TimeInterval { start, end }),
            _ => None,
        }
    }

    /// The interval as `hh:mm-hh:mm`; reading it back gives the same interval.
    pub fn format(&self) -> (r: Vec<u8>)
        ensures
            r@ == interval_format(*self),
            interval_text(r@) == Some(*self),
    {
        let mut out: Vec<u8> = Vec::new();
        push_time(&mut out, self.start);
        out.push(45);
        push_time(&mut out, self.end);
        proof {
            assert(out@ =~= interval_format(*self));
            lemma_interval_round_trip(*self);
        }
        out
    }
}

/// The letter that stands for the weekday of index `i` (Monday 0).
pub open spec fn day_letter(i: int) -> u8 {
    if i == 0 {
        77u8
    } else if i == 1 || i == 3 {
        84u8
    } else if i == 2 {
        87u8
    } else if i == 4 {
        70u8
    } else {
        83u8
    }
}

/// Whether `b` is a mask of seven bytes, each the day's letter or `-`, and `w` the set it marks.
pub open spec fn marks(b: Seq<u8>, w: WeekdaySet) -> bool {
    &&& b.len() == 7
    &&& w.is_well_formed()
    &&& forall|i: int| 0 <= i < 7 ==> (b[i] == day_letter(i) || b[i] == 45u8)
    &&& forall|i: int| 0 <= i < 7 ==> (#[trigger] w.has_day(i) <==> b[i] == day_letter(i))
}

/// The set of weekdays marked by a mask such as `M----S-`.
pub open spec fn weekdays_text(b: Seq<u8>) -> Option<WeekdaySet> {
    if exists|w: WeekdaySet| marks(b, w) {
        Some(choose|w: WeekdaySet| marks(b, w))
    } else {
        None
    }
}

/// The mask of a set of weekdays.
pub open spec fn weekdays_format(w: WeekdaySet) -> Seq<u8> {
    Seq::new(7, |i: int| if w.has_day(i) { day_letter(i) } else { 45u8 })
}

proof fn lemma_same_days(a: WeekdaySet, b: WeekdaySet)
    requires
        a.is_well_formed(),
        b.is_well_formed(),
        forall|i: int| 0 <= i < 7 ==> (#[trigger] a.has_day(i) <==> b.has_day(i)),
    ensures
        a == b,
{
    assert(a.has_day(0) <==> b.has_day(0));
    assert(a.has_day(1) <==> b.has_day(1));
    assert(a.has_day(2) <==> b.has_day(2));
    assert(a.has_day(3) <==> b.has_day(3));
    assert(a.has_day(4) <==> b.has_day(4));
    assert(a.has_day(5) <==> b.has_day(5));
    assert(a.has_day(6) <==> b.has_day(6));
    let x = a.bits;
    let y = b.bits;
    assert(x < 128u8 && y < 128u8 && ((x >> 0u8) & 1u8 == 1u8 <==> (y >> 0u8) & 1u8 == 1u8) && ((x >> 1u8) & 1u8
        == 1u8 <==> (y >> 1u8) & 1u8 == 1u8) && ((x >> 2u8) & 1u8 == 1u8 <==> (y >> 2u8) & 1u8 == 1u8) && ((x
        >> 3u8) & 1u8 == 1u8 <==> (y >> 3u8) & 1u8 == 1u8) && ((x >> 4u8) & 1u8 == 1u8 <==> (y >> 4u8) & 1u8
        == 1u8) && ((x >> 5u8) & 1u8 == 1u8 <==> (y >> 5u8) & 1u8 == 1u8) && ((x >> 6u8) & 1u8 == 1u8 <==> (y
        >> 6u8) & 1u8 == 1u8) ==> x == y) by (bit_vector);
}

proof fn lemma_marks_unique(b: Seq<u8>, w: WeekdaySet)
    requires
        marks(b, w),
    ensures
        weekdays_text(b) == Some(w),
{
    let c = choose|v: WeekdaySet| marks(b, v);
    assert forall|i: int| 0 <= i < 7 implies (#[trigger] c.has_day(i) <==> w.has_day(i)) by {
        assert(c.has_day(i) <==> b[i] == day_letter(i));
        assert(w.has_day(i) <==> b[i] == day_letter(i));
    }
    lemma_same_days(c, w);
}

/// The mask of a set of weekdays reads back as that set; and a mask of seven bytes, each the
/// day's letter or `-`, reads as a set whose mask is that text again.
pub proof fn lemma_weekdays_round_trip(w: WeekdaySet, b: Seq<u8>)
    ensures
        w.is_well_formed() ==> weekdays_text(weekdays_format(w)) == Some(w),
        b.len() == 7 && (forall|i: int| 0 <= i < 7 ==> (b[i] == day_letter(i) || b[i] == 45u8)) ==> (
        weekdays_text(b) matches Some(v) && weekdays_format(v) == b),
{
    if w.is_well_formed() {
        assert(marks(weekdays_format(w), w));
        lemma_marks_unique(weekdays_format(w), w);
    }
    if b.len() == 7 && (forall|i: int| 0 <= i < 7 ==> (b[i] == day_letter(i) || b[i] == 45u8)) {
        let v = mask_set(b);
        lemma_mask_set(b);
        lemma_marks_unique(b, v);
        assert(weekdays_format(v) =~= b);
    }
}

/// The set whose days are those that `b` marks with their letter.
pub open spec fn mask_set(b: Seq<u8>) -> WeekdaySet {
    let c0: u8 = if b[0] == day_letter(0) { 1 } else { 0 };
    let c1: u8 = if b[1] == day_letter(1) { 1 } else { 0 };
    let c2: u8 = if b[2] == day_letter(2) { 1 } else { 0 };
    let c3: u8 = if b[3] == day_letter(3) { 1 } else { 0 };
    let c4: u8 = if b[4] == day_letter(4) { 1 } else { 0 };
    let c5: u8 = if b[5] == day_letter(5) { 1 } else { 0 };
    let c6: u8 = if b[6] == day_letter(6) { 1 } else { 0 };
    WeekdaySet { bits: c0 | (c1 << 1u8) | (c2 << 2u8) | (c3 << 3u8) | (c4 << 4u8) | (c5 << 5u8) | (c6 << 6u8) }
}

proof fn lemma_mask_set(b: Seq<u8>)
    requires
        b.len() == 7,
        forall|i: int| 0 <= i < 7 ==> (b[i] == day_letter(i) || b[i] == 45u8),
    ensures
        marks(b, mask_set(b)),
{
    let c0: u8 = if b[0] == day_letter(0) { 1 } else { 0 };
    let c1: u8 = if b[1] == day_letter(1) { 1 } else { 0 };
    let c2: u8 = if b[2] == day_letter(2) { 1 } else { 0 };
    let c3: u8 = if b[3] == day_letter(3) { 1 } else { 0 };
    let c4: u8 = if b[4] == day_letter(4) { 1 } else { 0 };
    let c5: u8 = if b[5] == day_letter(5) { 1 } else { 0 };
    let c6: u8 = if b[6] == day_letter(6) { 1 } else { 0 };
    let x = c0 | (c1 << 1u8) | (c2 << 2u8) | (c3 << 3u8) | (c4 << 4u8) | (c5 << 5u8) | (c6 << 6u8);
    assert(mask_set(b).bits == x);
    assert((c0 | (c1 << 1u8) | (c2 << 2u8) | (c3 << 3u8) | (c4 << 4u8) | (c5 << 5u8) | (c6 << 6u8)) < 128u8 && (((c0 | (c1 << 1u8) | (c2 << 2u8) | (c3 << 3u8) | (c4 << 4u8) | (c5 << 5u8) | (c6 << 6u8)) >> 0u8) & 1u8 == 1u8 <==> c0 == 1u8) && (((c0 | (c1 << 1u8) | (c2 << 2u8) | (c3 << 3u8) | (c4 << 4u8) | (c5 << 5u8) | (c6 << 6u8)) >> 1u8) & 1u8 == 1u8 <==> c1 == 1u8) && (((c0 | (c1 << 1u8) | (c2 << 2u8) | (c3 << 3u8) | (c4 << 4u8) | (c5 << 5u8) | (c6 << 6u8)) >> 2u8) & 1u8 == 1u8 <==> c2 == 1u8) && (((c0 | (c1 << 1u8) | (c2 << 2u8) | (c3 << 3u8) | (c4 << 4u8) | (c5 << 5u8) | (c6 << 6u8)) >> 3u8) & 1u8 == 1u8 <==> c3 == 1u8) && (((c0 | (c1 << 1u8) | (c2 << 2u8) | (c3 << 3u8) | (c4 << 4u8) | (c5 << 5u8) | (c6 << 6u8)) >> 4u8) & 1u8 == 1u8 <==> c4 == 1u8) && (((c0 | (c1 << 1u8) | (c2 << 2u8) | (c3 << 3u8) | (c4 << 4u8) | (c5 << 5u8) | (c6 << 6u8)) >> 5u8) & 1u8 == 1u8 <==> c5 == 1u8) && (((c0 | (c1 << 1u8) | (c2 << 2u8) | (c3 << 3u8) | (c4 << 4u8) | (c5 << 5u8) | (c6 << 6u8)) >> 6u8) & 1u8 == 1u8 <==> c6 == 1u8)) by (bit_vector)
        requires c0 <= 1u8, c1 <= 1u8, c2 <= 1u8, c3 <= 1u8, c4 <= 1u8, c5 <= 1u8, c6 <= 1u8;
    let w = mask_set(b);
    assert forall|i: int| 0 <= i < 7 implies (#[trigger] w.has_day(i) <==> b[i] == day_letter(i)) by {
        if i == 0 {
        } else if i == 1 {
        } else if i == 2 {
        } else if i == 3 {
        } else if i == 4 {
        } else if i == 5 {
        } else {
        }
    }
}

impl WeekdaySet {
    /// Reads a mask such as `M----S-`: seven bytes, each the day's letter or `-`.
    pub fn parse(s: &str) -> (r: Option<WeekdaySet>)
        ensures
            r == weekdays_text(s.spec_bytes()),
    {
        let b = s.as_bytes();
        if b.len() != 7 {
            return None;
        }
        let letters: [u8; 7] = [77, 84, 87, 84, 70, 83, 83];
        let mut bits: u8 = 0;
        let mut i: usize = 0;
        proof {
            assert forall|k: int| 0 <= k < 8 implies !bit_set(0u8, k) by {
                let kb = k as u8;
                assert((0u8 >> kb) & 1u8 == 0u8) by (bit_vector);
            }
        }
        while i < 7
            invariant
                i <= 7,
                b@.len() == 7,
                b@ == s.spec_bytes(),
                letters@ == seq![77u8, 84u8, 87u8, 84u8, 70u8, 83u8, 83u8],
                bits < 128,
                forall|k: int| 0 <= k < i ==> (b@[k] == day_letter(k) || b@[k] == 45u8),
                forall|k: int| 0 <= k < 8 ==> (#[trigger] bit_set(bits, k) <==> (k < i && b@[k] == day_letter(k))),
            decreases 7 - i,
        {
            assert(letters@[i as int] == day_letter(i as int));
            let c = b[i];
            let l = letters[i];
            assert(c == b@[i as int] && l == letters@[i as int]);
            if c == l {
                let ib = i as u8;
                let old_bits = bits;
                bits = bits | (1u8 << ib);
                assert(old_bits | (1u8 << ib) < 128u8) by (bit_vector)
                    requires old_bits < 128u8, ib < 7u8;
                assert forall|k: int| 0 <= k < 8 implies (bit_set(bits, k) <==> (bit_set(old_bits, k) || k == i)) by {
                    let kb = k as u8;
                    assert(((old_bits | (1u8 << ib)) >> kb) & 1u8 == 1u8 <==> ((old_bits >> kb) & 1u8 == 1u8 || kb == ib)) by (bit_vector)
                        requires ib < 8u8, kb < 8u8;
                }
            } else if c == 45 {
                assert forall|k: int| 0 <= k < 8 implies (bit_set(bits, k) <==> (k < i + 1 && b@[k] == day_letter(k))) by {
                    if k == i {
                        assert(!bit_set(bits, k));
                        assert(b@[k] == 45u8);
                        assert(day_letter(k) != 45u8);
                    } else if k < i {
                        assert(bit_set(bits, k) <==> (k < i && b@[k] == day_letter(k)));
                    } else {
                        assert(!bit_set(bits, k));
                    }
                }
            } else {
                proof {
                    if exists|w: WeekdaySet| marks(b@, w) {
                        let w = choose|w: WeekdaySet| marks(b@, w);
                        assert(b@[i as int] == day_letter(i as int) || b@[i as int] == 45u8);
                    }
                }
                return None;
            }
            i = i + 1;
        }
        let w = WeekdaySet { bits };
        proof {
            assert(marks(b@, w));
            lemma_marks_unique(b@, w);
        }
        Some(w)
    }

    /// The mask of the set, such as `M----S-`; reading it back gives the same set.
    pub fn format(&self) -> (r: Vec<u8>)
        requires
            self.is_well_formed(),
        ensures
            r@ == weekdays_format(*self),
            weekdays_text(r@) == Some(*self),
    {
        let letters: [u8; 7] = [77, 84, 87, 84, 70, 83, 83];
        let mut out: Vec<u8> = Vec::new();
        let mut i: u32 = 0;
        while i < 7
            invariant
                i <= 7,
                letters@ == seq![77u8, 84u8, 87u8, 84u8, 70u8, 83u8, 83u8],
                out@ == weekdays_format(*self).subrange(0, i as int),
            decreases 7 - i,
        {
            assert(letters@[i as int] == day_letter(i as int));
            if self.has(i) {
                out.push(letters[i as usize]);
            } else {
                out.push(45);
            }
            i = i + 1;
            assert(out@ =~= weekdays_format(*self).subrange(0, i as int));
        }
        assert(out@ =~= weekdays_format(*self));
        proof {
            assert(marks(out@, *self));
            lemma_marks_unique(out@, *self);
        }
        out
    }
}

/// A year written in decimal, with a minus sign before a year before year 0, whose magnitude
/// fits in `i32`.
pub open spec fn year_text(b: Seq<u8>) -> Option<int> {
    if b.len() > 0 && b[0] == 45 {
        match number_text(b.drop_first(), i32::MAX as nat) {
            Some(v) => Some(-v),
            None => None,
        }
    } else {
        match number_text(b, i32::MAX as nat) {
            Some(v) => Some(v as int),
            None => None,
        }
    }
}

/// A date written `D/M/Y` or `D/M` (then in `default_year`): day and month one or more digits,
/// the year as `year_text` reads it.
pub open spec fn date_text(b: Seq<u8>, default_year: i32) -> Option<Date> {
    let f = fields(b, 47);
    let year = if f.len() == 3 {
        year_text(f[2])
    } else {
        Some(default_year as int)
    };
    if (f.len() == 2 || f.len() == 3) && year is Some && number_text(f[1], u32::MAX as nat) is Some
        && number_text(f[0], u32::MAX as nat) is Some {
        match ce_days_of(year->0, number_text(f[1], u32::MAX as nat)->0 as int, number_text(f[0], u32::MAX as nat)->0 as int) {
            Some(n) => Some(Date { days: n as i32 }),
            None => None,
        }
    } else {
        None
    }
}

/// A year in decimal, with a minus sign before a year before year 0.
pub open spec fn year_format(y: int) -> Seq<u8> {
    if y < 0 {
        seq![45u8] + decimal((-y) as nat)
    } else {
        decimal(y as nat)
    }
}

/// A day, month and year as `DD/MM/Y`.
pub open spec fn ymd_format(ymd: (int, int, int)) -> Seq<u8> {
    pad2(ymd.2 as nat).push(47u8) + (pad2(ymd.1 as nat).push(47u8) + year_format(ymd.0))
}

impl Date {
    /// Reads a date written `D/M/Y`, or `D/M` for a date in `default_year`.
    pub fn parse(s: &str, default_year: i32) -> (r: Option<Date>)
        ensures
            r == date_text(s.spec_bytes(), default_year),
    {
        let f = split_fields(s.as_bytes(), 47);
        if f.len() != 2 && f.len() != 3 {
            return None;
        }
        let year = if f.len() == 3 {
            match parse_year(f[2].as_slice()) {
                Some(y) => y,
                None => {
                    return None;
                },
            }
        } else {
            default_year
        };
        let month = parse_number(f[1].as_slice(), u32::MAX as u64);
        let day = parse_number(f[0].as_slice(), u32::MAX as u64);
        match (month, day) {
            (Some(m), Some(d)) => Date::from_ymd(year, m as u32, d as u32),
            _ => None,
        }
    }

    /// The date as `DD/MM/Y` (a minus sign before a year before year 0), or `-` for the earliest
    /// and latest dates. Reading it back gives the same date, but for those two.
    pub fn format(&self) -> (r: Vec<u8>)
        requires
            MIN_DAYS <= self.days <= MAX_DAYS,
        ensures
            self.days == MIN_DAYS || self.days == MAX_DAYS ==> r@ == seq![45u8],
            self.days != MIN_DAYS && self.days != MAX_DAYS ==> exists|y: int, m: int, d: int|
                ce_days_of(y, m, d) == Some(self.days as int) && r@ == ymd_format((y, m, d)),
            self.days != MIN_DAYS && self.days != MAX_DAYS
                ==> forall|y: i32| #[trigger] date_text(r@, y) == Some(*self),
    {
        let mut out: Vec<u8> = Vec::new();
        if self.days == MIN_DAYS || self.days == MAX_DAYS {
            out.push(45);
            assert(out@ =~= seq![45u8]);
            return out;
        }
        let (year, month, day) = self.ymd();
        push_pad2(&mut out, day as u64);
        out.push(47);
        push_pad2(&mut out, month as u64);
        out.push(47);
        if year < 0 {
            out.push(45);
            push_decimal(&mut out, (-(year as i64)) as u64);
        } else {
            push_decimal(&mut out, year as u64);
        }
        proof {
            let ymd = (year as int, month as int, day as int);
            assert(out@ =~= ymd_format(ymd));
            lemma_date_round_trip(ymd.0, ymd.1, ymd.2, self.days as int);
        }
        out
    }
}

/// Reads a year as `year_text` says.
pub fn parse_year(b: &[u8]) -> (r: Option<i32>)
    ensures
        match year_text(b@) {
            Some(y) => r == Some(y as i32),
            None => r is None,
        },
{
    if b.len() > 0 && b[0] == 45 {
        let (_, rest) = b.split_at(1);
        assert(rest@ =~= b@.drop_first());
        match parse_number(rest, i32::MAX as u64) {
            Some(v) => Some(-(v as i32)),
            None => None,
        }
    } else {
        match parse_number(b, i32::MAX as u64) {
            Some(v) => Some(v as i32),
            None => None,
        }
    }
}

proof fn lemma_year_round_trip(y: int)
    requires
        -(i32::MAX as int) <= y <= i32::MAX,
    ensures
        year_text(year_format(y)) == Some(y),
        no_byte(year_format(y), 47),
{
    if y < 0 {
        let v = (-y) as nat;
        lemma_decimal(v);
        let b = year_format(y);
        assert(b.drop_first() =~= decimal(v));
        assert(b[0] == 45);
        lemma_digits_free(decimal(v), 47);
        assert forall|i: int| 0 <= i < b.len() implies b[i] != 47 by {
            if i > 0 {
                assert(b[i] == decimal(v)[i - 1]);
            }
        }
    } else {
        lemma_decimal(y as nat);
        lemma_digits_free(decimal(y as nat), 47);
        assert(is_digit(decimal(y as nat)[0]));
    }
}

/// The text of a day, month and year that chrono turns into day `n` reads back as that date,
/// whatever the default year.
pub proof fn lemma_date_round_trip(y: int, m: int, d: int, n: int)
    requires
        -(i32::MAX as int) <= y <= i32::MAX,
        1 <= m <= 12,
        1 <= d <= 31,
        ce_days_of(y, m, d) == Some(n),
        MIN_DAYS <= n <= MAX_DAYS,
    ensures
        forall|dy: i32| #[trigger] date_text(ymd_format((y, m, d)), dy) == Some(Date { days: n as i32 }),
{
    lemma_pad2(d as nat);
    lemma_pad2(m as nat);
    lemma_year_round_trip(y);
    lemma_digits_free(pad2(d as nat), 47);
    lemma_digits_free(pad2(m as nat), 47);
    lemma_fields_cons(pad2(d as nat), 47, pad2(m as nat).push(47u8) + year_format(y));
    lemma_fields_cons(pad2(m as nat), 47, year_format(y));
    lemma_fields_one(year_format(y), 47);
    let f = fields(ymd_format((y, m, d)), 47);
    assert(f =~= seq![pad2(d as nat), pad2(m as nat), year_format(y)]);
}

} // verus!
