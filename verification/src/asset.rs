//! Fixed-point asset amounts: a signed 64-bit integer holding a quantity of
//! the chain's token with exactly five decimal places.
use vstd::prelude::*;
use crate::bigint::big_div;
use crate::bigint::big_from_i64;
use crate::bigint::big_int_value;
use crate::bigint::big_mul;
use crate::bigint::big_pow10;
use crate::bigint::big_to_i64;
use vstd::arithmetic::div_mod::lemma_fundamental_div_mod;
use vstd::arithmetic::mul::lemma_mul_upper_bound;
use vstd::arithmetic::power::lemma_pow0;
use vstd::arithmetic::power::lemma_pow1;
use vstd::arithmetic::power::lemma_pow_adds;
use vstd::arithmetic::power::lemma_pow_multiplies;
use vstd::arithmetic::power::lemma_pow_positive;
use vstd::arithmetic::power::lemma_square_is_pow2;
use vstd::arithmetic::power::pow;
use vstd::math::abs;
use vstd::string::StringSliceAdditionalSpecFns;

verus! {

/// One whole token is `SCALE` raw units: amounts carry five decimal places.
pub const SCALE: u64 = 100_000;

/// Number of decimal places carried by every amount.
pub const MAX_PRECISION: u8 = 5;

/// Longest accepted textual form of an amount, in bytes.
pub const MAX_STR_LEN: usize = 26;

#[derive(Clone, Copy, Debug, PartialEq, Eq, Structural)]
pub enum AssetErrorKind {
    StrTooLarge,
    InvalidFormat,
    InvalidAmount,
    InvalidAssetType,
}

#[derive(Clone, Copy, Debug, PartialEq, Eq, Structural)]
pub struct AssetError {
    pub kind: AssetErrorKind,
}

/// Division that truncates toward zero, as machine division does.
pub open spec fn trunc_div(a: int, b: int) -> int
    recommends
        b != 0,
{
    if (a >= 0) == (b >= 0) {
        (abs(a) as int) / (abs(b) as int)
    } else {
        -((abs(a) as int) / (abs(b) as int))
    }
}

/// The magnitude of a product is the product of the magnitudes.
pub proof fn lemma_abs_mul(a: int, b: int)
    by (nonlinear_arith)
    ensures
        abs(a * b) == abs(a) * abs(b),
{
}

#[derive(Clone, Copy, Debug, PartialEq, Eq, Structural)]
pub struct Asset {
    pub amount: i64,
}

impl Asset {
    pub fn new(amount: i64) -> (r: Asset)
        ensures
            r.amount == amount,
    {
        Asset { amount }
    }

    /// Sum of the two amounts; fails when the sum leaves the 64-bit range.
    pub fn checked_add(self, other: Self) -> (r: Option<Self>)
        ensures
            i64::MIN <= self.amount + other.amount <= i64::MAX ==> r == Some(
                (Asset { amount: (self.amount + other.amount) as i64 }),
            ),
            !(i64::MIN <= self.amount + other.amount <= i64::MAX) ==> r is None,
    {
        Some(Asset { amount: self.amount.checked_add(other.amount)? })
    }

    /// Difference of the two amounts; fails when it leaves the 64-bit range.
    pub fn checked_sub(self, other: Self) -> (r: Option<Self>)
        ensures
            i64::MIN <= self.amount - other.amount <= i64::MAX ==> r == Some(
                (Asset { amount: (self.amount - other.amount) as i64 }),
            ),
            !(i64::MIN <= self.amount - other.amount <= i64::MAX) ==> r is None,
    {
        Some(Asset { amount: self.amount.checked_sub(other.amount)? })
    }

    /// Product of the two fixed-point values. The raw amounts are multiplied
    /// in 128-bit arithmetic and scaled back down, truncating toward zero;
    /// the call fails when the scaled product leaves the 64-bit range.
    pub fn checked_mul(self, other: Self) -> (r: Option<Self>)
        ensures
            ({
                let p = trunc_div((self.amount as int) * (other.amount as int), SCALE as int);
                &&& (i64::MIN <= p <= i64::MAX) ==> r == Some((Asset { amount: p as i64 }))
                &&& !(i64::MIN <= p <= i64::MAX) ==> r is None
            }),
    {
        let a = self.amount;
        let b = other.amount;
        let neg: bool = (a < 0) != (b < 0);
        let ma: u64 = if a >= 0 {
            a as u64
        } else {
            proof {
                assert(-(a as int) <= 0x8000_0000_0000_0000);
            }
            (-(a as i128)) as u64
        };
        let mb: u64 = if b >= 0 {
            b as u64
        } else {
            (-(b as i128)) as u64
        };
        proof {
            assert(ma == abs(a as int));
            assert(mb == abs(b as int));
            lemma_mul_upper_bound(ma as int, 0x8000_0000_0000_0000, mb as int, 0x8000_0000_0000_0000);
            lemma_abs_mul(a as int, b as int);
        }
        let p: u128 = (ma as u128) * (mb as u128);
        let q: u128 = p / (SCALE as u128);
        proof {
            assert(q == (abs((a as int) * (b as int)) as int) / (SCALE as int));
            if q == 0 {
                assert(trunc_div((a as int) * (b as int), SCALE as int) == 0);
            } else {
                assert(abs((a as int) * (b as int)) > 0);
                if neg {
                    assert(a * b != 0);
                    assert(!((a * b >= 0) == (SCALE as int >= 0))) by (nonlinear_arith)
                        requires
                            (a < 0) != (b < 0),
                            a * b != 0,
                    ;
                    assert(trunc_div((a as int) * (b as int), SCALE as int) == -(q as int));
                } else {
                    assert(a * b >= 0) by (nonlinear_arith)
                        requires
                            (a < 0) == (b < 0),
                    ;
                    assert(trunc_div((a as int) * (b as int), SCALE as int) == q as int);
                }
            }
        }
        if neg {
            if q > 0x8000_0000_0000_0000u128 {
                None
            } else if q == 0x8000_0000_0000_0000u128 {
                Some(Asset { amount: i64::MIN })
            } else {
                Some(Asset { amount: -(q as i64) })
            }
        } else {
            if q > i64::MAX as u128 {
                None
            } else {
                Some(Asset { amount: q as i64 })
            }
        }
    }

    /// Quotient of the two fixed-point values, truncated toward zero. The
    /// dividend is first scaled up by `SCALE`; the call fails on a zero
    /// divisor or when that scaling leaves the 64-bit range.
    pub fn checked_div(self, other: Self) -> (r: Option<Self>)
        ensures
            other.amount == 0 ==> r is None,
            other.amount != 0 && !(i64::MIN <= (self.amount as int) * (SCALE as int) <= i64::MAX)
                ==> r is None,
            other.amount != 0 && i64::MIN <= (self.amount as int) * (SCALE as int) <= i64::MAX
                ==> r == Some(
                (Asset {
                    amount: trunc_div((self.amount as int) * (SCALE as int), other.amount as int) as i64,
                }),
            ),
    {
        if other.amount == 0 {
            return None;
        }
        let scaled = self.amount.checked_mul(SCALE as i64)?;
        let neg: bool = (scaled < 0) != (other.amount < 0);
        let ms: u64 = if scaled >= 0 {
            scaled as u64
        } else {
            (-(scaled as i128)) as u64
        };
        let mo: u64 = if other.amount >= 0 {
            other.amount as u64
        } else {
            (-(other.amount as i128)) as u64
        };
        let q: u64 = ms / mo;
        proof {
            assert(ms == abs(scaled as int));
            assert(mo == abs(other.amount as int));
            assert((abs(scaled as int) as int) / (abs(other.amount as int) as int) <= abs(
                scaled as int,
            )) by {
                vstd::arithmetic::div_mod::lemma_div_is_ordered_by_denominator(
                    abs(scaled as int) as int,
                    1,
                    abs(other.amount as int) as int,
                );
            }
            if q == 0 {
                assert(trunc_div(scaled as int, other.amount as int) == 0);
            } else if neg {
                assert(trunc_div(scaled as int, other.amount as int) == -(q as int));
            } else {
                assert(trunc_div(scaled as int, other.amount as int) == q as int);
            }
        }
        if neg {
            if q == 0x8000_0000_0000_0000u64 {
                Some(Asset { amount: i64::MIN })
            } else {
                Some(Asset { amount: -(q as i64) })
            }
        } else {
            Some(Asset { amount: q as i64 })
        }
    }
}

impl Default for Asset {
    /// The zero amount.
    fn default() -> (r: Asset)
        ensures
            r.amount == 0,
    {
        Asset { amount: 0 }
    }
}


/// The truncating division behind `checked_div` leaves a remainder smaller in
/// magnitude than the divisor: whenever `a.checked_div(b)` returns a quotient
/// `q`, the product `q * b` differs from the scaled dividend `a * SCALE` by
/// less than `|b|` raw units. In particular, for divisors of at most one
/// whole token the error is below one raw unit (10^-5 tokens).
pub proof fn lemma_div_truncation(a: Asset, b: Asset, q: Asset)
    requires
        b.amount != 0,
        i64::MIN <= (a.amount as int) * (SCALE as int) <= i64::MAX,
        q.amount == trunc_div((a.amount as int) * (SCALE as int), b.amount as int),
    ensures
        abs((q.amount as int) * (b.amount as int) - (a.amount as int) * (SCALE as int)) < abs(
            b.amount as int,
        ),
        abs(b.amount as int) <= SCALE ==> abs(
            (q.amount as int) * (b.amount as int) - (a.amount as int) * (SCALE as int),
        ) < SCALE,
{
    let s = (a.amount as int) * (SCALE as int);
    let d = b.amount as int;
    let m = abs(s) as int;
    let n = abs(d) as int;
    let k = m / n;
    let r = m % n;
    lemma_fundamental_div_mod(m, n);
    assert(0 <= r < n);
    assert(m == n * k + r);
    assert(k * n == m - r) by (nonlinear_arith)
        requires
            m == n * k + r,
    ;
    if (s >= 0) == (d >= 0) {
        assert(q.amount == k);
        if s >= 0 && d >= 0 {
            assert(q.amount * d == k * n);
            assert(q.amount * d - s == -r);
        } else {
            assert(q.amount * d == -(k * n)) by (nonlinear_arith)
                requires
                    q.amount == k,
                    d == -n,
            ;
            assert(s == -m);
            assert(q.amount * d - s == r);
        }
    } else {
        assert(q.amount == -k);
        if s >= 0 {
            assert(q.amount * d == k * n) by (nonlinear_arith)
                requires
                    q.amount == -k,
                    d == -n,
            ;
            assert(q.amount * d - s == -r);
        } else {
            assert(q.amount * d == -(k * n)) by (nonlinear_arith)
                requires
                    q.amount == -k,
                    d == n,
            ;
            assert(s == -m);
            assert(q.amount * d - s == r);
        }
    }
    assert(abs(q.amount * d - s) == r);
}

// ---------------------------------------------------------------------------
// Textual form
// ---------------------------------------------------------------------------
/// Decimal digits of `n`, most significant first, as ASCII bytes.
pub open spec fn dec_digits(n: nat) -> Seq<u8>
    decreases n,
{
    if n < 10 {
        seq![(48 + n) as u8]
    } else {
        dec_digits(n / 10).push((48 + n % 10) as u8)
    }
}

/// The five fractional digits of `f`, zero padded, as ASCII bytes.
pub open spec fn frac_digits(f: nat) -> Seq<u8>
    recommends
        f < SCALE,
{
    seq![
        (48 + f / 10000) as u8,
        (48 + f / 1000 % 10) as u8,
        (48 + f / 100 % 10) as u8,
        (48 + f / 10 % 10) as u8,
        (48 + f % 10) as u8,
    ]
}

/// The canonical text of a raw amount: an optional minus sign, the whole
/// part, a dot, exactly five fractional digits, and the unit tag " GRAEL".
pub open spec fn asset_bytes(amount: int) -> Seq<u8> {
    let mag = abs(amount);
    let sign: Seq<u8> = if amount < 0 {
        seq![45u8]
    } else {
        Seq::empty()
    };
    sign + dec_digits(mag / (SCALE as nat)) + seq![46u8] + frac_digits(mag % (SCALE as nat))
        + seq![32u8, 71u8, 82u8, 65u8, 69u8, 76u8]
}

/// ASCII bytes read as characters.
pub open spec fn bytes_as_chars(s: Seq<u8>) -> Seq<char> {
    s.map_values(|b: u8| b as char)
}

proof fn lemma_dec_digits_ascii(n: nat)
    ensures
        forall|i: int| 0 <= i < dec_digits(n).len() ==> 48 <= #[trigger] dec_digits(n)[i] <= 57,
    decreases n,
{
    if n < 10 {
        assert(dec_digits(n)[0] == (48 + n) as u8);
    } else {
        lemma_dec_digits_ascii(n / 10);
        let prev = dec_digits(n / 10);
        assert forall|i: int| 0 <= i < dec_digits(n).len() implies 48 <= #[trigger] dec_digits(n)[i]
            <= 57 by {
            if i < prev.len() {
                assert(dec_digits(n)[i] == prev[i]);
            } else {
                assert(dec_digits(n)[i] == (48 + n % 10) as u8);
            }
        }
    }
}

/// Relies on String::from_utf8: a buffer of ASCII bytes decodes to the string
/// whose characters are exactly those bytes.
#[verifier::external_body]
fn ascii_to_string(v: Vec<u8>) -> (r: String)
    requires
        forall|i: int| 0 <= i < v@.len() ==> v@[i] < 128,
    ensures
        r@ == bytes_as_chars(v@),
{
    String::from_utf8(v).unwrap_or_default()
}

/// Appends the decimal digits of `n`, most significant first.
fn push_dec_digits(n: u64, out: &mut Vec<u8>)
    ensures
        final(out)@ == old(out)@ + dec_digits(n as nat),
    decreases n,
{
    if n >= 10 {
        push_dec_digits(n / 10, out);
    }
    out.push((n % 10) as u8 + 48);
    proof {
        if n >= 10 {
            assert(out@ =~= old(out)@ + dec_digits(n as nat));
        } else {
            assert(out@ =~= old(out)@ + dec_digits(n as nat));
        }
    }
}

// ---------------------------------------------------------------------------
// Parsing
// ---------------------------------------------------------------------------
/// ASCII whitespace, as trimmed from the ends of an amount string.
pub open spec fn is_ws(b: u8) -> bool {
    b == 32 || (9 <= b <= 13)
}

pub open spec fn trim_front(s: Seq<u8>) -> Seq<u8>
    decreases s.len(),
{
    if s.len() > 0 && is_ws(s[0]) {
        trim_front(s.drop_first())
    } else {
        s
    }
}

pub open spec fn trim_back(s: Seq<u8>) -> Seq<u8>
    decreases s.len(),
{
    if s.len() > 0 && is_ws(s[s.len() - 1]) {
        trim_back(s.drop_last())
    } else {
        s
    }
}

/// The input with leading and trailing whitespace removed.
pub open spec fn trim_bytes(s: Seq<u8>) -> Seq<u8> {
    trim_back(trim_front(s))
}

/// Index of the first occurrence of `b`, if any.
pub open spec fn find_byte(s: Seq<u8>, b: u8) -> Option<int>
    decreases s.len(),
{
    if s.len() == 0 {
        None
    } else if s[0] == b {
        Some(0)
    } else {
        match find_byte(s.drop_first(), b) {
            Some(i) => Some(i + 1),
            None => None,
        }
    }
}

pub proof fn lemma_find_byte(s: Seq<u8>, b: u8)
    ensures
        match find_byte(s, b) {
            Some(i) => 0 <= i < s.len() && s[i] == b && forall|j: int| 0 <= j < i ==> s[j] != b,
            None => forall|j: int| 0 <= j < s.len() ==> s[j] != b,
        },
    decreases s.len(),
{
    if s.len() > 0 && s[0] != b {
        let t = s.drop_first();
        lemma_find_byte(t, b);
        match find_byte(t, b) {
            Some(i) => {
                assert(s[i + 1] == t[i]);
                assert forall|j: int| 0 <= j < i + 1 implies s[j] != b by {
                    if j > 0 {
                        assert(s[j] == t[j - 1]);
                    }
                }
            },
            None => {
                assert forall|j: int| 0 <= j < s.len() implies s[j] != b by {
                    if j > 0 {
                        assert(s[j] == t[j - 1]);
                    }
                }
            },
        }
    }
}

/// All bytes are ASCII digits.
pub open spec fn all_digits(d: Seq<u8>) -> bool {
    forall|i: int| 0 <= i < d.len() ==> 48 <= #[trigger] d[i] <= 57
}

/// Value of a string of decimal digits, most significant first.
pub open spec fn digits_val(d: Seq<u8>) -> int
    decreases d.len(),
{
    if d.len() == 0 {
        0
    } else {
        digits_val(d.drop_last()) * 10 + (d[d.len() - 1] - 48)
    }
}

/// Outcome of parsing the amount part of an asset string: the digit run must
/// contain exactly one dot followed by five digits, an optional sign, and
/// denote a value in the 64-bit range.
pub open spec fn spec_parse_amount(a: Seq<u8>) -> Result<int, AssetErrorKind> {
    match find_byte(a, 46) {
        None => Err(AssetErrorKind::InvalidFormat),
        Some(dot) => {
            let decimals: int = if dot > 0 {
                a.len() - 1 - dot
            } else {
                a.len() - 1
            };
            if decimals != 5 {
                Err(AssetErrorKind::InvalidFormat)
            } else {
                let d_all = a.take(dot) + a.skip(dot + 1);
                let has_sign = d_all[0] == 43 || d_all[0] == 45;
                let neg = d_all[0] == 45;
                let digits = if has_sign {
                    d_all.drop_first()
                } else {
                    d_all
                };
                if digits.len() == 0 || !all_digits(digits) {
                    Err(AssetErrorKind::InvalidAmount)
                } else {
                    let v = if neg {
                        -digits_val(digits)
                    } else {
                        digits_val(digits)
                    };
                    if i64::MIN <= v <= i64::MAX {
                        Ok(v)
                    } else {
                        Err(AssetErrorKind::InvalidAmount)
                    }
                }
            }
        },
    }
}

/// Outcome of parsing a full asset string: at most `MAX_STR_LEN` bytes, then
/// after trimming whitespace an amount, one space, and the unit tag "GRAEL".
/// Only ASCII whitespace is trimmed; other whitespace is rejected.
pub open spec fn spec_parse(s: Seq<u8>) -> Result<int, AssetErrorKind> {
    if s.len() > MAX_STR_LEN {
        Err(AssetErrorKind::StrTooLarge)
    } else {
        let t = trim_bytes(s);
        let amt = match find_byte(t, 32) {
            Some(i) => t.take(i),
            None => t,
        };
        match spec_parse_amount(amt) {
            Err(k) => Err(k),
            Ok(v) => match find_byte(t, 32) {
                None => Err(AssetErrorKind::InvalidFormat),
                Some(i) => if t.skip(i + 1) == seq![71u8, 82u8, 65u8, 69u8, 76u8] {
                    Ok(v)
                } else {
                    Err(AssetErrorKind::InvalidAssetType)
                },
            },
        }
    }
}


impl Asset {
    /// Renders the amount in its canonical text form, e.g. "1.00000 GRAEL".
    pub fn to_string(&self) -> (r: String)
        ensures
            r@ == bytes_as_chars(asset_bytes(self.amount as int)),
    {
        let neg = self.amount < 0;
        let mag: u64 = if neg {
            (-(self.amount as i128)) as u64
        } else {
            self.amount as u64
        };
        proof {
            assert(mag == abs(self.amount as int));
        }
        let mut out: Vec<u8> = Vec::new();
        if neg {
            out.push(45);
        }
        push_dec_digits(mag / SCALE, &mut out);
        out.push(46);
        let f = mag % SCALE;
        out.push((f / 10000) as u8 + 48);
        out.push((f / 1000 % 10) as u8 + 48);
        out.push((f / 100 % 10) as u8 + 48);
        out.push((f / 10 % 10) as u8 + 48);
        out.push((f % 10) as u8 + 48);
        out.push(32);
        out.push(71);
        out.push(82);
        out.push(65);
        out.push(69);
        out.push(76);
        proof {
            lemma_dec_digits_ascii((mag / SCALE) as nat);
            assert(out@ =~= asset_bytes(self.amount as int));
        }
        ascii_to_string(out)
    }

    /// Parses the canonical text form back into an amount, reporting exactly
    /// which rule an ill-formed input breaks.
    #[verifier::rlimit(100)]
    #[verifier::spinoff_prover]
    pub fn from_str(s: &str) -> (r: Result<Asset, AssetError>)
        ensures
            match r {
                Ok(a) => spec_parse(s.spec_bytes()) == Ok::<int, AssetErrorKind>(a.amount as int),
                Err(e) => spec_parse(s.spec_bytes()) == Err::<int, AssetErrorKind>(e.kind),
            },
    {
        let b: &[u8] = s.as_bytes();
        if b.len() > MAX_STR_LEN {
            return Err(AssetError { kind: AssetErrorKind::StrTooLarge });
        }
        // Trim ASCII whitespace from both ends.
        proof {
            assert(b@.skip(0) =~= b@);
        }
        let mut ts: usize = 0;
        while ts < b.len() && is_ws_byte(b[ts])
            invariant
                ts <= b@.len(),
                trim_front(b@) == trim_front(b@.skip(ts as int)),
            decreases b@.len() - ts,
        {
            proof {
                assert(b@.skip(ts as int).drop_first() =~= b@.skip(ts + 1));
            }
            ts += 1;
        }
        proof {
            assert(trim_front(b@) == b@.skip(ts as int));
        }
        let mut te: usize = b.len();
        while te > ts && is_ws_byte(b[te - 1])
            invariant
                ts <= te <= b@.len(),
                trim_front(b@) == b@.skip(ts as int),
                trim_back(b@.skip(ts as int)) == trim_back(b@.subrange(ts as int, te as int)),
            decreases te,
        {
            proof {
                assert(b@.subrange(ts as int, te as int).drop_last() =~= b@.subrange(
                    ts as int,
                    te - 1,
                ));
            }
            te -= 1;
        }
        let t: &[u8] = vstd::slice::slice_subrange(b, ts, te);
        proof {
            assert(t@ =~= trim_bytes(b@));
        }
        // Split at the first space: amount text, then the unit tag.
        let sp = find_first(t, 32);
        proof {
            lemma_find_byte(t@, 32);
        }
        let amt: &[u8] = match sp {
            Some(i) => vstd::slice::slice_subrange(t, 0, i),
            None => t,
        };
        proof {
            match find_byte(t@, 32) {
                Some(i) => {
                    assert(amt@ =~= t@.take(i));
                },
                None => {},
            }
        }
        let amount = match Self::parse_amount(amt) {
            Ok(v) => v,
            Err(e) => {
                return Err(e);
            },
        };
        match sp {
            None => Err(AssetError { kind: AssetErrorKind::InvalidFormat }),
            Some(i) => {
                let unit: &[u8] = vstd::slice::slice_subrange(t, i + 1, t.len());
                proof {
                    assert(unit@ =~= t@.skip(i + 1));
                }
                if unit.len() == 5 && unit[0] == 71 && unit[1] == 82 && unit[2] == 65 && unit[3]
                    == 69 && unit[4] == 76 {
                    proof {
                        assert(unit@ =~= seq![71u8, 82u8, 65u8, 69u8, 76u8]);
                    }
                    Ok(Asset { amount })
                } else {
                    proof {
                        assert(unit@ != seq![71u8, 82u8, 65u8, 69u8, 76u8]);
                    }
                    Err(AssetError { kind: AssetErrorKind::InvalidAssetType })
                }
            },
        }
    }

    /// Parses the amount part of an asset string: an optional sign, the whole
    /// digits, a dot, and exactly five fractional digits.
    #[verifier::rlimit(100)]
    #[verifier::spinoff_prover]
    fn parse_amount(a: &[u8]) -> (r: Result<i64, AssetError>)
        ensures
            match r {
                Ok(v) => spec_parse_amount(a@) == Ok::<int, AssetErrorKind>(v as int),
                Err(e) => spec_parse_amount(a@) == Err::<int, AssetErrorKind>(e.kind),
            },
    {
        let dot = match find_first(a, 46) {
            Some(i) => i,
            None => {
                return Err(AssetError { kind: AssetErrorKind::InvalidFormat });
            },
        };
        proof {
            lemma_find_byte(a@, 46);
        }
        let decimals: usize = if dot > 0 {
            a.len() - 1 - dot
        } else {
            a.len() - 1
        };
        if decimals != 5 {
            return Err(AssetError { kind: AssetErrorKind::InvalidFormat });
        }
        // Collect every byte but the dot; the result is at least five long.
        let mut dv: Vec<u8> = Vec::new();
        let mut i: usize = 0;
        while i < a.len()
            invariant
                i <= a@.len(),
                dot < a@.len(),
                a@[dot as int] == 46,
                dv@ == if i <= dot {
                    a@.take(i as int)
                } else {
                    a@.take(dot as int) + a@.subrange(dot + 1, i as int)
                },
            decreases a@.len() - i,
        {
            if i != dot {
                dv.push(a[i]);
            }
            proof {
                if i < dot {
                    assert(dv@ =~= a@.take(i + 1));
                } else if i == dot {
                    assert(dv@ =~= a@.take(dot as int) + a@.subrange(dot + 1, i + 1).take(0));
                    assert(dv@ =~= a@.take(dot as int) + a@.subrange(dot + 1, i + 1));
                } else {
                    assert(dv@ =~= a@.take(dot as int) + a@.subrange(dot + 1, i + 1));
                }
            }
            i += 1;
        }
        let ghost d_all = a@.take(dot as int) + a@.skip(dot + 1);
        proof {
            assert(dv@ =~= d_all);
        }
        let has_sign = dv[0] == 43 || dv[0] == 45;
        let neg = dv[0] == 45;
        let dstart: usize = if has_sign {
            1
        } else {
            0
        };
        let ghost digits = if has_sign {
            d_all.drop_first()
        } else {
            d_all
        };
        proof {
            assert(digits =~= dv@.skip(dstart as int));
            assert(digits.len() > 0);
        }
        let mut acc: u128 = 0;
        let mut k: usize = dstart;
        while k < dv.len()
            invariant
                dstart <= k <= dv@.len(),
                dstart <= 1,
                find_byte(a@, 46) == Some(dot as int),
                dot < a@.len(),
                (if dot > 0 {
                    a@.len() - 1 - dot
                } else {
                    a@.len() - 1
                }) == 5,
                dv@ == a@.take(dot as int) + a@.skip(dot + 1),
                dv@.len() >= 5,
                has_sign == (dv@[0] == 43 || dv@[0] == 45),
                neg == (dv@[0] == 45),
                dstart == (if has_sign {
                    1usize
                } else {
                    0usize
                }),
                digits == (if has_sign {
                    dv@.drop_first()
                } else {
                    dv@
                }),
                digits == dv@.skip(dstart as int),
                digits.len() > 0,
                all_digits(digits.take(k - dstart)),
                acc == digits_val(digits.take(k - dstart)),
                acc <= 0x8000_0000_0000_0000u128,
            decreases dv@.len() - k,
        {
            let c = dv[k];
            if c < 48 || c > 57 {
                proof {
                    assert(digits[k - dstart] == c);
                    assert(!all_digits(digits));
                }
                return Err(AssetError { kind: AssetErrorKind::InvalidAmount });
            }
            acc = acc * 10 + ((c - 48) as u128);
            proof {
                let j = (k - dstart) as int;
                assert(digits.take(j + 1).drop_last() =~= digits.take(j));
                assert(digits.take(j + 1).last() == digits[j]);
                assert(acc == digits_val(digits.take(j + 1)));
                assert(all_digits(digits.take(j + 1)));
            }
            if acc > 0x8000_0000_0000_0000u128 {
                // Too many significant digits already: whatever follows, the
                // value cannot lie in the 64-bit range.
                proof {
                    if all_digits(digits) {
                        lemma_digits_val_prefix(digits, k + 1 - dstart);
                        assert(digits_val(digits) > 0x8000_0000_0000_0000);
                    }
                }
                return Err(AssetError { kind: AssetErrorKind::InvalidAmount });
            }
            k += 1;
        }
        proof {
            assert(digits.take(digits.len() as int) =~= digits);
            assert(all_digits(digits));
            assert(acc == digits_val(digits));
        }
        if neg {
            if acc > 0x8000_0000_0000_0000u128 {
                Err(AssetError { kind: AssetErrorKind::InvalidAmount })
            } else if acc == 0x8000_0000_0000_0000u128 {
                Ok(i64::MIN)
            } else {
                Ok(-(acc as i64))
            }
        } else {
            if acc > i64::MAX as u128 {
                Err(AssetError { kind: AssetErrorKind::InvalidAmount })
            } else {
                Ok(acc as i64)
            }
        }
    }
}


proof fn lemma_digits_val_nonneg(d: Seq<u8>)
    requires
        all_digits(d),
    ensures
        digits_val(d) >= 0,
    decreases d.len(),
{
    if d.len() > 0 {
        assert(all_digits(d.drop_last()));
        lemma_digits_val_nonneg(d.drop_last());
    }
}

proof fn lemma_digits_val_prefix(d: Seq<u8>, j: int)
    requires
        all_digits(d),
        0 <= j <= d.len(),
    ensures
        digits_val(d) >= digits_val(d.take(j)),
    decreases d.len() - j,
{
    if j < d.len() {
        assert(all_digits(d.take(j)));
        lemma_digits_val_nonneg(d.take(j));
        assert(d.take(j + 1).drop_last() =~= d.take(j));
        assert(digits_val(d.take(j + 1)) >= digits_val(d.take(j)));
        lemma_digits_val_prefix(d, j + 1);
    } else {
        assert(d.take(j) =~= d);
    }
}

/// ASCII whitespace test used while trimming.
fn is_ws_byte(c: u8) -> (r: bool)
    ensures
        r == is_ws(c),
{
    c == 32 || (9 <= c && c <= 13)
}

/// First index holding `b`, if any.
fn find_first(a: &[u8], b: u8) -> (r: Option<usize>)
    ensures
        match r {
            Some(i) => find_byte(a@, b) == Some(i as int),
            None => find_byte(a@, b) is None,
        },
{
    let mut i: usize = 0;
    while i < a.len()
        invariant
            i <= a@.len(),
            forall|j: int| 0 <= j < i ==> a@[j] != b,
        decreases a@.len() - i,
    {
        if a[i] == b {
            proof {
                lemma_find_byte(a@, b);
                match find_byte(a@, b) {
                    Some(f) => {
                        assert(f == i);
                    },
                    None => {
                        assert(false);
                    },
                }
            }
            return Some(i);
        }
        i += 1;
    }
    proof {
        lemma_find_byte(a@, b);
        match find_byte(a@, b) {
            Some(f) => {
                assert(a@[f] != b);
                assert(false);
            },
            None => {},
        }
    }
    None
}


impl Asset {
    /// Raises the fixed-point value to an integral power. The computation
    /// runs over arbitrary-precision integers and is scaled back to five
    /// decimal places, truncating toward zero; the call fails when the
    /// decimal bookkeeping overflows or the result leaves the 64-bit range.
    pub fn checked_pow(self, num: u16) -> (r: Option<Self>)
        ensures
            num == 0 ==> r == Some((Asset { amount: 100_000i64 })),
            num > 0 && 5 * num > 65535 ==> r is None,
            num > 0 && 5 * num <= 65535 ==> ({
                let v = trunc_div(
                    pow(self.amount as int, num as nat),
                    pow(10, (5 * (num as nat) - 5) as nat),
                );
                &&& (i64::MIN <= v <= i64::MAX) ==> r == Some((Asset { amount: v as i64 }))
                &&& !(i64::MIN <= v <= i64::MAX) ==> r is None
            }),
    {
        if num == 0 {
            return Some(Asset { amount: 100_000 });
        }
        let decimals = match 5u16.checked_mul(num) {
            Some(d) => d,
            None => {
                return None;
            },
        };
        let a = self.amount;
        let mut res = big_from_i64(1);
        let mut base = big_from_i64(a);
        let mut exp: u16 = num;
        loop
            invariant_except_break
                1 <= exp <= num,
                big_int_value(&res) * pow(big_int_value(&base), exp as nat) == pow(
                    a as int,
                    num as nat,
                ),
            ensures
                big_int_value(&res) == pow(a as int, num as nat),
            decreases exp,
        {
            let ghost r0 = big_int_value(&res);
            let ghost b0 = big_int_value(&base);
            let ghost e0 = exp as nat;
            if exp % 2 == 1 {
                res = big_mul(&res, &base);
            }
            exp = exp / 2;
            if exp == 0 {
                proof {
                    assert(e0 == 1);
                    lemma_pow1(b0);
                    assert(big_int_value(&res) == pow(a as int, num as nat)) by (nonlinear_arith)
                        requires
                            big_int_value(&res) == r0 * b0,
                            r0 * pow(b0, 1) == pow(a as int, num as nat),
                            pow(b0, 1) == b0,
                    ;
                }
                break;
            }
            base = big_mul(&base, &base);
            proof {
                let e1 = exp as nat;
                lemma_pow_multiplies(b0, 2, e1);
                lemma_square_is_pow2(b0);
                assert(big_int_value(&base) == pow(b0, 2));
                assert(pow(big_int_value(&base), e1) == pow(pow(b0, 2), e1));
                if e0 % 2 == 1 {
                    assert(e0 == 2 * e1 + 1);
                    lemma_pow1(b0);
                    lemma_pow_adds(b0, (e0 - 1) as nat, 1);
                    assert(pow(b0, e0) == pow(b0, (e0 - 1) as nat) * b0);
                    assert(pow(b0, (e0 - 1) as nat) == pow(pow(b0, 2), e1));
                    assert((r0 * b0) * pow(pow(b0, 2), e1) == pow(a as int, num as nat))
                        by (nonlinear_arith)
                        requires
                            pow(b0, e0) == pow(pow(b0, 2), e1) * b0,
                            r0 * pow(b0, e0) == pow(a as int, num as nat),
                    ;
                    assert(big_int_value(&res) == r0 * b0);
                } else {
                    assert(e0 == 2 * e1);
                    assert(pow(b0, e0) == pow(pow(b0, 2), e1));
                    assert(big_int_value(&res) == r0);
                }
            }
        }
        let scaled = if decimals > 5 {
            let p10 = big_pow10(decimals - 5);
            proof {
                lemma_pow_positive(10, (decimals - 5) as nat);
            }
            big_div(&res, &p10)
        } else {
            proof {
                assert(decimals == 5);
                lemma_pow0(10);
                assert(pow(10, (5 * (num as nat) - 5) as nat) == 1);
                let x = big_int_value(&res);
                vstd::arithmetic::div_mod::lemma_div_basics(abs(x) as int);
                if x >= 0 {
                    assert(abs(x) == x);
                } else {
                    assert(abs(x) == -x);
                }
                assert(trunc_div(x, 1) == x);
            }
            res
        };
        match big_to_i64(&scaled) {
            Some(v) => Some(Asset { amount: v }),
            None => None,
        }
    }
}

} // verus!
