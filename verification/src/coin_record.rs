//! The text form in which a Redis pool stores a gas coin:
//! `balance,object_id,version,digest`, with the balance and version in
//! decimal, and the identifier and digest in their own text forms. Expired
//! coins come back as comma-separated identifiers.

use vstd::prelude::*;

verus! {

/// The comma that separates fields.
pub const COMMA: u8 = 44;

/// The digit zero.
pub const ZERO: u8 = 48;

/// The plus sign a number may start with.
pub const PLUS: u8 = 43;

pub open spec fn is_digit(b: u8) -> bool {
    ZERO <= b <= ZERO + 9
}

/// The bytes are all decimal digits.
pub open spec fn all_digits(s: Seq<u8>) -> bool {
    forall|i: int| 0 <= i < s.len() ==> is_digit(#[trigger] s[i])
}

/// The number decimal digits spell.
pub open spec fn digits_value(s: Seq<u8>) -> nat
    decreases s.len(),
{
    if s.len() == 0 {
        0
    } else {
        digits_value(s.drop_last()) * 10 + (s.last() - ZERO) as nat
    }
}

/// The decimal digits of `n`, without leading zeros.
pub open spec fn decimal(n: nat) -> Seq<u8>
    decreases n,
{
    if n < 10 {
        seq![(ZERO + n) as u8]
    } else {
        decimal(n / 10).push((ZERO + n % 10) as u8)
    }
}

/// What reading a `u64` from the bytes gives: an optional plus sign, then one
/// or more digits whose value fits.
pub open spec fn spec_parse_u64(s: Seq<u8>) -> Option<u64> {
    let d = if s.len() > 0 && s[0] == PLUS { s.drop_first() } else { s };
    if d.len() == 0 || !all_digits(d) || digits_value(d) > u64::MAX {
        None
    } else {
        Some(digits_value(d) as u64)
    }
}

/// The index of the first comma from `i` on, or the length when there is none.
pub open spec fn comma_from(s: Seq<u8>, i: int) -> int
    decreases s.len() - i,
{
    if i >= s.len() || i < 0 {
        s.len() as int
    } else if s[i] == COMMA {
        i
    } else {
        comma_from(s, i + 1)
    }
}

/// The field before the first comma, and what follows the comma, if any.
pub open spec fn split_once(s: Seq<u8>) -> (Seq<u8>, Option<Seq<u8>>) {
    let c = comma_from(s, 0);
    if c < s.len() {
        (s.take(c), Some(s.skip(c + 1)))
    } else {
        (s, None)
    }
}

/// The comma-separated fields.
pub open spec fn fields(s: Seq<u8>) -> Seq<Seq<u8>>
    decreases s.len(),
{
    match split_once(s) {
        (h, None) => seq![h],
        (h, Some(rest)) => {
            if rest.len() < s.len() {
                seq![h] + fields(rest)
            } else {
                seq![h]
            }
        },
    }
}

/// A stored coin read back: its balance, identifier text, version and digest text.
#[derive(Debug, PartialEq, Eq)]
pub struct CoinRecord {
    pub balance: u64,
    pub object_id: Vec<u8>,
    pub version: u64,
    pub digest: Vec<u8>,
}

/// What reading a stored coin gives: the first four fields, the first and
/// third read as numbers; nothing when a field is missing or a number does
/// not read.
pub open spec fn spec_parse_coin_record(s: Seq<u8>) -> Option<(u64, Seq<u8>, u64, Seq<u8>)> {
    let (f1, r1) = split_once(s);
    match r1 {
        None => None,
        Some(r1) => {
            let (f2, r2) = split_once(r1);
            match r2 {
                None => None,
                Some(r2) => {
                    let (f3, r3) = split_once(r2);
                    match r3 {
                        None => None,
                        Some(r3) => {
                            let f4 = split_once(r3).0;
                            match (spec_parse_u64(f1), spec_parse_u64(f3)) {
                                (Some(b), Some(v)) => Some((b, f2, v, f4)),
                                _ => None,
                            }
                        },
                    }
                },
            }
        },
    }
}

/// The bytes hold no comma.
pub open spec fn no_comma(s: Seq<u8>) -> bool {
    forall|i: int| 0 <= i < s.len() ==> s[i] != COMMA
}

/// The stored form of a coin.
pub open spec fn spec_format_coin_record(balance: u64, object_id: Seq<u8>, version: u64, digest: Seq<u8>) -> Seq<u8> {
    decimal(balance as nat) + seq![COMMA] + object_id + seq![COMMA] + decimal(version as nat) + seq![COMMA] + digest
}

proof fn lemma_comma_from_bounds(s: Seq<u8>, i: int)
    requires
        0 <= i <= s.len(),
    ensures
        i <= comma_from(s, i) <= s.len(),
        comma_from(s, i) < s.len() ==> s[comma_from(s, i)] == COMMA,
        forall|j: int| i <= j < comma_from(s, i) ==> s[j] != COMMA,
    decreases s.len() - i,
{
    if i < s.len() && s[i] != COMMA {
        lemma_comma_from_bounds(s, i + 1);
    }
}

/// The first comma of `x + [COMMA] + y`, when `x` has none, ends `x`.
proof fn lemma_split_once_joined(x: Seq<u8>, y: Seq<u8>)
    requires
        no_comma(x),
    ensures
        split_once(x + seq![COMMA] + y) == (x, Some(y)),
{
    let s = x + seq![COMMA] + y;
    lemma_comma_from_bounds(s, 0);
    let c = comma_from(s, 0);
    assert(s[x.len() as int] == COMMA);
    if c < x.len() {
        assert(s[c] == x[c]);
    }
    assert(c == x.len());
    assert(s.take(c) =~= x);
    assert(s.skip(c + 1) =~= y);
}

/// A field with no comma is read whole.
proof fn lemma_split_once_whole(x: Seq<u8>)
    requires
        no_comma(x),
    ensures
        split_once(x) == (x, Option::<Seq<u8>>::None),
{
    lemma_comma_from_bounds(x, 0);
}

proof fn lemma_decimal_digits(n: nat)
    ensures
        decimal(n).len() > 0,
        all_digits(decimal(n)),
        no_comma(decimal(n)),
        decimal(n)[0] != PLUS,
        digits_value(decimal(n)) == n,
    decreases n,
{
    if n >= 10 {
        lemma_decimal_digits(n / 10);
        let d = decimal(n / 10);
        let last = (ZERO + n % 10) as u8;
        let s = d.push(last);
        assert(s.drop_last() =~= d);
        assert(s[0] == d[0]);
        assert(last - ZERO == n % 10);
        assert(digits_value(s) == digits_value(d) * 10 + (last - ZERO) as nat);
        assert((n / 10) * 10 + n % 10 == n);
    } else {
        let s = decimal(n);
        assert(s.drop_last() =~= Seq::<u8>::empty());
        assert(digits_value(s) == digits_value(s.drop_last()) * 10 + (s.last() - ZERO) as nat);
    }
}

/// Decimal digits read back as the number they came from.
pub proof fn law_decimal_round_trip(n: u64)
    ensures
        spec_parse_u64(decimal(n as nat)) == Some(n),
{
    lemma_decimal_digits(n as nat);
}

/// A coin read back from its stored form is the coin stored, when the
/// identifier and digest texts hold no comma.
pub proof fn law_coin_record_round_trip(balance: u64, object_id: Seq<u8>, version: u64, digest: Seq<u8>)
    requires
        no_comma(object_id),
        no_comma(digest),
    ensures
        spec_parse_coin_record(spec_format_coin_record(balance, object_id, version, digest))
            == Some((balance, object_id, version, digest)),
{
    let db = decimal(balance as nat);
    let dv = decimal(version as nat);
    lemma_decimal_digits(balance as nat);
    lemma_decimal_digits(version as nat);
    let r1 = object_id + seq![COMMA] + dv + seq![COMMA] + digest;
    let r2 = dv + seq![COMMA] + digest;
    assert(spec_format_coin_record(balance, object_id, version, digest) =~= db + seq![COMMA] + r1);
    lemma_split_once_joined(db, r1);
    assert(r1 =~= object_id + seq![COMMA] + r2);
    lemma_split_once_joined(object_id, r2);
    lemma_split_once_joined(dv, digest);
    lemma_split_once_whole(digest);
    law_decimal_round_trip(balance);
    law_decimal_round_trip(version);
}

/// The index of the first comma of `s` from `i` on, or its length.
fn find_comma(s: &[u8], i: usize) -> (r: usize)
    requires
        i <= s@.len(),
    ensures
        r == comma_from(s@, i as int),
{
    proof {
        lemma_comma_from_bounds(s@, i as int);
    }
    let mut j: usize = i;
    while j < s.len() && s[j] != COMMA
        invariant
            i <= j <= s@.len(),
            comma_from(s@, j as int) == comma_from(s@, i as int),
        decreases s.len() - j,
    {
        j = j + 1;
    }
    j
}

/// The bytes from `from` to `to`.
fn slice_bytes(s: &[u8], from: usize, to: usize) -> (r: Vec<u8>)
    requires
        from <= to <= s@.len(),
    ensures
        r@ == s@.subrange(from as int, to as int),
{
    let mut r: Vec<u8> = Vec::new();
    let mut k: usize = from;
    while k < to
        invariant
            from <= k <= to <= s@.len(),
            r@ == s@.subrange(from as int, k as int),
        decreases to - k,
    {
        r.push(s[k]);
        proof {
            assert(s@.subrange(from as int, k + 1) =~= r@);
        }
        k = k + 1;
    }
    r
}

proof fn lemma_digits_value_step(s: Seq<u8>, i: int)
    requires
        0 <= i < s.len(),
    ensures
        digits_value(s.take(i + 1)) == digits_value(s.take(i)) * 10 + (s[i] - ZERO) as nat,
{
    assert(s.take(i + 1).drop_last() =~= s.take(i));
}

proof fn lemma_digits_value_grows(s: Seq<u8>, i: int)
    requires
        0 <= i <= s.len(),
        all_digits(s),
    ensures
        digits_value(s.take(i)) <= digits_value(s),
    decreases s.len() - i,
{
    if i < s.len() {
        lemma_digits_value_step(s, i);
        lemma_digits_value_grows(s, i + 1);
    }
    assert(s.take(s.len() as int) =~= s);
}

/// Reads a `u64` from the bytes from `from` to `to`: an optional plus sign,
/// then one or more digits whose value fits.
fn parse_u64(s: &[u8], from: usize, to: usize) -> (r: Option<u64>)
    requires
        from <= to <= s@.len(),
    ensures
        r == spec_parse_u64(s@.subrange(from as int, to as int)),
{
    let ghost f = s@.subrange(from as int, to as int);
    let start: usize = if from < to && s[from] == PLUS { from + 1 } else { from };
    let ghost d = s@.subrange(start as int, to as int);
    proof {
        if from < to && s@[from as int] == PLUS {
            assert(f.drop_first() =~= d);
        } else {
            assert(f =~= d);
        }
        assert((if f.len() > 0 && f[0] == PLUS { f.drop_first() } else { f }) == d);
    }
    if start == to {
        return None;
    }
    let mut value: u64 = 0;
    let mut i: usize = start;
    while i < to
        invariant
            start <= i <= to <= s@.len(),
            start < to,
            d == s@.subrange(start as int, to as int),
            f == s@.subrange(from as int, to as int),
            (if f.len() > 0 && f[0] == PLUS { f.drop_first() } else { f }) == d,
            all_digits(d.take(i - start)),
            value == digits_value(d.take(i - start)),
        decreases to - i,
    {
        let b = s[i];
        proof {
            assert(d[i - start] == b);
            assert(d.take(i - start + 1).drop_last() =~= d.take(i - start));
        }
        if b < ZERO || b > ZERO + 9 {
            proof {
                assert(!is_digit(d[i - start]));
                assert(!all_digits(d));
            }
            return None;
        }
        proof {
            lemma_digits_value_step(d, i - start);
        }
        let digit: u64 = (b - ZERO) as u64;
        if value > (u64::MAX - digit) / 10 {
            proof {
                assert(value * 10 + digit > u64::MAX) by (nonlinear_arith)
                    requires
                        value > (u64::MAX - digit) / 10,
                        digit <= 9,
                ;
                let all = d.take(i - start + 1);
                assert forall|k: int| 0 <= k < all.len() implies is_digit(#[trigger] all[k]) by {
                    if k < i - start {
                        assert(all[k] == d.take(i - start)[k]);
                    }
                }
                if all_digits(d) {
                    lemma_digits_value_grows(d, i - start + 1);
                }
            }
            return None;
        }
        proof {
            assert(value * 10 + digit <= u64::MAX) by (nonlinear_arith)
                requires
                    value <= (u64::MAX - digit) / 10,
                    digit <= 9,
            ;
            let all = d.take(i - start + 1);
            assert forall|k: int| 0 <= k < all.len() implies is_digit(#[trigger] all[k]) by {
                if k < i - start {
                    assert(all[k] == d.take(i - start)[k]);
                }
            }
        }
        value = value * 10 + digit;
        i = i + 1;
    }
    proof {
        assert(d.take(i - start) =~= d);
    }
    Some(value)
}

/// Reads a stored coin: the first four comma-separated fields, the first and
/// third as numbers.
pub fn parse_coin_record(s: &[u8]) -> (r: Option<CoinRecord>)
    ensures
        match spec_parse_coin_record(s@) {
            Some((b, id, v, dg)) => r matches Some(c) && c.balance == b && c.object_id@ == id
                && c.version == v && c.digest@ == dg,
            None => r is None,
        },
{
    let n = s.len();
    let c1 = find_comma(s, 0);
    proof {
        lemma_comma_from_bounds(s@, 0);
    }
    if c1 >= n {
        return None;
    }
    let c2 = find_comma(s, c1 + 1);
    proof {
        lemma_comma_from_bounds(s@, c1 + 1);
        lemma_comma_from_shift(s@, c1 + 1);
    }
    if c2 >= n {
        return None;
    }
    let c3 = find_comma(s, c2 + 1);
    proof {
        lemma_comma_from_bounds(s@, c2 + 1);
        lemma_comma_from_shift(s@, c2 + 1);
        assert(s@.skip(c1 + 1).skip(c2 - c1) =~= s@.skip(c2 + 1));
    }
    if c3 >= n {
        return None;
    }
    let c4 = find_comma(s, c3 + 1);
    proof {
        lemma_comma_from_bounds(s@, c3 + 1);
        lemma_comma_from_shift(s@, c3 + 1);
        let r1 = s@.skip(c1 + 1);
        let r2 = r1.skip(c2 - c1);
        let r3 = r2.skip(c3 - c2);
        assert(s@.take(c1 as int) =~= s@.subrange(0, c1 as int));
        assert(r1.take(c2 - c1 - 1) =~= s@.subrange(c1 + 1, c2 as int));
        assert(r1.skip(c2 - c1) =~= s@.skip(c2 + 1));
        assert(s@.skip(c2 + 1).take(c3 - c2 - 1) =~= s@.subrange(c2 + 1, c3 as int));
        assert(s@.skip(c2 + 1).skip(c3 - c2) =~= s@.skip(c3 + 1));
        if c4 < n {
            assert(s@.skip(c3 + 1).take(c4 - c3 - 1) =~= s@.subrange(c3 + 1, c4 as int));
        } else {
            assert(s@.skip(c3 + 1) =~= s@.subrange(c3 + 1, c4 as int));
        }
    }
    let balance = parse_u64(s, 0, c1);
    let version = parse_u64(s, c2 + 1, c3);
    match (balance, version) {
        (Some(balance), Some(version)) => Some(CoinRecord {
            balance,
            object_id: slice_bytes(s, c1 + 1, c2),
            version,
            digest: slice_bytes(s, c3 + 1, c4),
        }),
        _ => None,
    }
}

/// The first comma after position `i` of `s` is found the same way in what
/// follows `i`.
proof fn lemma_comma_from_shift(s: Seq<u8>, i: int)
    requires
        0 <= i <= s.len(),
    ensures
        comma_from(s.skip(i), 0) == comma_from(s, i) - i,
{
    lemma_comma_from_shift_at(s, i, 0);
}

proof fn lemma_comma_from_shift_at(s: Seq<u8>, i: int, j: int)
    requires
        0 <= i <= s.len(),
        0 <= j <= s.len() - i,
    ensures
        comma_from(s.skip(i), j) == comma_from(s, i + j) - i,
    decreases s.len() - i - j,
{
    if j < s.len() - i {
        assert(s.skip(i)[j] == s[i + j]);
        if s[i + j] != COMMA {
            lemma_comma_from_shift_at(s, i, j + 1);
        }
    }
}

/// Writes the decimal digits of `n` at the end of `out`.
fn push_decimal(out: &mut Vec<u8>, n: u64)
    ensures
        final(out)@ == old(out)@ + decimal(n as nat),
    decreases n,
{
    if n < 10 {
        out.push(ZERO + n as u8);
        proof {
            assert(old(out)@.push((ZERO + n) as u8) =~= old(out)@ + decimal(n as nat));
        }
    } else {
        push_decimal(out, n / 10);
        out.push(ZERO + (n % 10) as u8);
        proof {
            assert(old(out)@ + decimal((n / 10) as nat) + seq![(ZERO + n % 10) as u8]
                =~= old(out)@ + decimal(n as nat));
        }
    }
}

/// Writes `bytes` at the end of `out`.
fn push_bytes(out: &mut Vec<u8>, bytes: &[u8])
    ensures
        final(out)@ == old(out)@ + bytes@,
{
    let mut i: usize = 0;
    while i < bytes.len()
        invariant
            i <= bytes@.len(),
            out@ == old(out)@ + bytes@.take(i as int),
        decreases bytes.len() - i,
    {
        out.push(bytes[i]);
        proof {
            assert(old(out)@ + bytes@.take(i as int + 1) =~= out@);
        }
        i = i + 1;
    }
    proof {
        assert(bytes@.take(i as int) =~= bytes@);
    }
}

/// The stored form of a coin: `balance,object_id,version,digest`.
pub fn format_coin_record(balance: u64, object_id: &[u8], version: u64, digest: &[u8]) -> (r: Vec<u8>)
    ensures
        r@ == spec_format_coin_record(balance, object_id@, version, digest@),
{
    let mut out: Vec<u8> = Vec::new();
    push_decimal(&mut out, balance);
    out.push(COMMA);
    push_bytes(&mut out, object_id);
    out.push(COMMA);
    push_decimal(&mut out, version);
    out.push(COMMA);
    push_bytes(&mut out, digest);
    proof {
        assert(out@ =~= spec_format_coin_record(balance, object_id@, version, digest@));
    }
    out
}

/// The comma-separated fields of a list of expired coin identifiers.
pub fn split_fields(s: &[u8]) -> (r: Vec<Vec<u8>>)
    ensures
        r@.len() == fields(s@).len(),
        forall|i: int| 0 <= i < r@.len() ==> (#[trigger] r@[i])@ == fields(s@)[i],
    decreases s@.len(),
{
    let mut r: Vec<Vec<u8>> = Vec::new();
    let mut start: usize = 0;
    let ghost mut done: Seq<Seq<u8>> = Seq::empty();
    proof {
        assert(s@.skip(0) =~= s@);
    }
    loop
        invariant
            start <= s@.len(),
            r@.len() == done.len(),
            forall|i: int| 0 <= i < r@.len() ==> (#[trigger] r@[i])@ == done[i],
            done + fields(s@.skip(start as int)) == fields(s@),
        decreases s@.len() - start,
    {
        let ghost rest = s@.skip(start as int);
        let c = find_comma(s, start);
        proof {
            lemma_comma_from_bounds(s@, start as int);
            lemma_comma_from_shift(s@, start as int);
            assert(rest.take(c - start) =~= s@.subrange(start as int, c as int));
        }
        let field = slice_bytes(s, start, c);
        let ghost r0 = r@;
        r.push(field);
        proof {
            assert forall|i: int| 0 <= i < r@.len() implies (#[trigger] r@[i])@ == done.push(s@.subrange(start as int, c as int))[i] by {
                if i < r0.len() {
                    assert(r@[i] == r0[i]);
                }
            }
        }
        if c >= s.len() {
            proof {
                assert(split_once(rest) == (rest, Option::<Seq<u8>>::None));
                assert(rest =~= s@.subrange(start as int, c as int));
                assert(fields(rest) == seq![rest]);
                assert(done.push(rest) =~= done + fields(rest));
            }
            return r;
        }
        proof {
            assert(rest.skip(c - start + 1) =~= s@.skip(c + 1));
            let h = s@.subrange(start as int, c as int);
            assert(split_once(rest) == (h, Some(s@.skip(c + 1))));
            assert(fields(rest) == seq![h] + fields(s@.skip(c + 1)));
            assert(done + fields(rest) =~= done.push(h) + fields(s@.skip(c + 1)));
            done = done.push(h);
        }
        start = c + 1;
    }
}

} // verus!
