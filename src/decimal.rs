use vstd::prelude::*;

verus! {

/// Most significant digits a coordinate may carry.
pub const MAX_DIGITS: usize = 18;

/// An exact decimal number `mantissa / 10^scale`.
#[derive(Debug, Clone, Copy, PartialEq, Eq, Structural)]
pub struct Decimal {
    pub mantissa: i64,
    pub scale: u32,
}

/// `10^k`.
pub open spec fn pow10(k: nat) -> int
    decreases k,
{
    if k == 0 {
        1
    } else {
        10 * pow10((k - 1) as nat)
    }
}

impl Decimal {
    /// Within the digit budget: `|mantissa| < 10^18` and `scale <= 18`.
    pub open spec fn wf(self) -> bool {
        &&& self.scale <= MAX_DIGITS
        &&& -pow10(MAX_DIGITS as nat) < self.mantissa < pow10(MAX_DIGITS as nat)
    }

    /// The denominator `10^scale`.
    pub open spec fn den(self) -> int {
        pow10(self.scale as nat)
    }

    /// `self >= num / den`, for `den > 0`.
    pub open spec fn at_least(self, num: int, den: int) -> bool {
        self.mantissa * den >= num * self.den()
    }

    /// `self <= num / den`, for `den > 0`.
    pub open spec fn at_most(self, num: int, den: int) -> bool {
        self.mantissa * den <= num * self.den()
    }

    /// `self <= other` as numbers.
    pub open spec fn le(self, other: Decimal) -> bool {
        self.mantissa * other.den() <= other.mantissa * self.den()
    }
}

pub proof fn lemma_pow10_positive(k: nat)
    ensures
        pow10(k) >= 1,
    decreases k,
{
    if k > 0 {
        lemma_pow10_positive((k - 1) as nat);
    }
}

pub proof fn lemma_pow10_monotone(a: nat, b: nat)
    requires
        a <= b,
    ensures
        pow10(a) <= pow10(b),
    decreases b,
{
    if a < b {
        lemma_pow10_monotone(a, (b - 1) as nat);
        lemma_pow10_positive((b - 1) as nat);
    }
}

pub proof fn lemma_pow10_max()
    ensures
        pow10(MAX_DIGITS as nat) == 1_000_000_000_000_000_000,
{
    reveal_with_fuel(pow10, 19);
}

/// `10^k` for `k <= 18`.
pub fn pow10_exec(k: u32) -> (r: i64)
    requires
        k <= MAX_DIGITS,
    ensures
        r == pow10(k as nat),
{
    let mut r: i64 = 1;
    let mut i: u32 = 0;
    while i < k
        invariant
            i <= k <= MAX_DIGITS,
            r == pow10(i as nat),
        decreases k - i,
    {
        proof {
            lemma_pow10_monotone((i + 1) as nat, MAX_DIGITS as nat);
            lemma_pow10_max();
            assert(pow10((i + 1) as nat) == 10 * pow10(i as nat));
            lemma_pow10_positive(i as nat);
        }
        r = r * 10;
        i = i + 1;
    }
    r
}

/// An ASCII digit `0`..`9`.
pub open spec fn is_digit(b: u8) -> bool {
    48 <= b <= 57
}

pub open spec fn all_digits(s: Seq<u8>) -> bool {
    forall|i: int| 0 <= i < s.len() ==> is_digit(#[trigger] s[i])
}

/// The value of a run of decimal digits, most significant first.
pub open spec fn digits_value(s: Seq<u8>) -> int
    decreases s.len(),
{
    if s.len() == 0 {
        0
    } else {
        digits_value(s.drop_last()) * 10 + (s.last() - 48)
    }
}

/// Index of the first `.` in `s`, or its length if there is none.
pub open spec fn dot_pos(s: Seq<u8>) -> int
    decreases s.len(),
{
    if s.len() == 0 {
        0
    } else if s[0] == 46 {
        0
    } else {
        1 + dot_pos(s.drop_first())
    }
}

pub open spec fn is_negative(b: Seq<u8>) -> bool {
    b.len() > 0 && b[0] == 45
}

/// The text after an optional leading `-`.
pub open spec fn unsigned_text(b: Seq<u8>) -> Seq<u8> {
    if is_negative(b) {
        b.drop_first()
    } else {
        b
    }
}

pub open spec fn int_digits(t: Seq<u8>) -> Seq<u8> {
    t.take(dot_pos(t))
}

pub open spec fn frac_digits(t: Seq<u8>) -> Seq<u8> {
    if dot_pos(t) < t.len() {
        t.skip(dot_pos(t) + 1)
    } else {
        Seq::empty()
    }
}

/// Text of the form `-?D+(.D+)?` with at most 18 digits in all.
pub open spec fn valid_decimal_text(b: Seq<u8>) -> bool {
    let t = unsigned_text(b);
    &&& int_digits(t).len() >= 1
    &&& all_digits(int_digits(t))
    &&& all_digits(frac_digits(t))
    &&& (dot_pos(t) == t.len() || frac_digits(t).len() >= 1)
    &&& int_digits(t).len() + frac_digits(t).len() <= MAX_DIGITS
}

/// The number that valid decimal text denotes.
pub open spec fn decimal_of_text(b: Seq<u8>) -> Decimal {
    let t = unsigned_text(b);
    let v = digits_value(int_digits(t) + frac_digits(t));
    Decimal {
        mantissa: (if is_negative(b) {
            -v
        } else {
            v
        }) as i64,
        scale: frac_digits(t).len() as u32,
    }
}

proof fn lemma_dot_pos(t: Seq<u8>, m: int)
    requires
        0 <= m <= t.len(),
        forall|k: int| 0 <= k < m ==> t[k] != 46,
        m == t.len() || t[m] == 46,
    ensures
        dot_pos(t) == m,
    decreases t.len(),
{
    if t.len() > 0 && t[0] != 46 {
        lemma_dot_pos(t.drop_first(), m - 1);
    }
}

proof fn lemma_digits_push(s: Seq<u8>, c: u8)
    ensures
        digits_value(s.push(c)) == digits_value(s) * 10 + (c - 48),
{
    assert(s.push(c).drop_last() =~= s);
}

/// Reads the digits `b[lo..hi]` onto `acc`, which holds the value of `done`.
fn read_digits(b: &[u8], lo: usize, hi: usize, acc: i64, done: Ghost<Seq<u8>>) -> (r: Option<i64>)
    requires
        lo <= hi <= b@.len(),
        acc == digits_value(done@),
        0 <= acc < pow10(done@.len()),
        done@.len() + (hi - lo) <= MAX_DIGITS,
    ensures
        r is Some <==> all_digits(b@.subrange(lo as int, hi as int)),
        r matches Some(v) ==> v == digits_value(done@ + b@.subrange(lo as int, hi as int)) && 0 <= v
            < pow10((done@.len() + (hi - lo)) as nat),
{
    let mut acc = acc;
    let mut i = lo;
    while i < hi
        invariant
            lo <= i <= hi <= b@.len(),
            done@.len() + (hi - lo) <= MAX_DIGITS,
            all_digits(b@.subrange(lo as int, i as int)),
            acc == digits_value(done@ + b@.subrange(lo as int, i as int)),
            0 <= acc < pow10((done@.len() + (i - lo)) as nat),
        decreases hi - i,
    {
        let c = b[i];
        if c < 48 || c > 57 {
            proof {
                let s = b@.subrange(lo as int, hi as int);
                assert(!is_digit(s[i - lo]));
            }
            return None;
        }
        proof {
            let k = (done@.len() + (i - lo)) as nat;
            lemma_pow10_monotone(k + 1, MAX_DIGITS as nat);
            lemma_pow10_max();
            assert(acc * 10 + (c - 48) < pow10(k + 1)) by (nonlinear_arith)
                requires
                    0 <= acc < pow10(k),
                    pow10(k + 1) == 10 * pow10(k),
                    0 <= c - 48 <= 9,
            ;
            lemma_digits_push(done@ + b@.subrange(lo as int, i as int), c);
            assert(done@ + b@.subrange(lo as int, i + 1) =~= (done@ + b@.subrange(
                lo as int,
                i as int,
            )).push(c));
            assert(b@.subrange(lo as int, i + 1) =~= b@.subrange(lo as int, i as int).push(c));
        }
        acc = acc * 10 + (c - 48) as i64;
        i = i + 1;
    }
    Some(acc)
}

/// Reads a coordinate written `-?D+(.D+)?` with at most 18 digits; other text
/// gives `None`.
#[verifier::rlimit(60)]
pub fn parse_decimal(b: &[u8]) -> (r: Option<Decimal>)
    ensures
        r is Some <==> valid_decimal_text(b@),
        r matches Some(d) ==> d == decimal_of_text(b@) && d.wf(),
{
    let neg = b.len() > 0 && b[0] == 45;
    let start: usize = if neg {
        1
    } else {
        0
    };
    let ghost t = unsigned_text(b@);
    assert(t =~= b@.skip(start as int));
    let mut d = start;
    while d < b.len() && b[d] != 46
        invariant
            start <= d <= b@.len(),
            forall|k: int| start <= k < d ==> b@[k] != 46,
        decreases b@.len() - d,
    {
        d = d + 1;
    }
    proof {
        lemma_dot_pos(t, d - start);
        assert(int_digits(t) =~= b@.subrange(start as int, d as int));
    }
    let has_dot = d < b.len();
    let frac_start: usize = if has_dot {
        d + 1
    } else {
        d
    };
    proof {
        assert(frac_digits(t) =~= b@.subrange(frac_start as int, b@.len() as int));
    }
    if d == start || (has_dot && frac_start == b.len()) || (d - start) + (b.len() - frac_start)
        > MAX_DIGITS {
        return None;
    }
    proof {
        reveal_with_fuel(pow10, 1);
        assert(Seq::<u8>::empty() + b@.subrange(start as int, d as int) =~= b@.subrange(
            start as int,
            d as int,
        ));
    }
    let int_value = match read_digits(b, start, d, 0, Ghost(Seq::empty())) {
        Some(v) => v,
        None => {
            return None;
        },
    };
    let value = match read_digits(
        b,
        frac_start,
        b.len(),
        int_value,
        Ghost(b@.subrange(start as int, d as int)),
    ) {
        Some(v) => v,
        None => {
            return None;
        },
    };
    proof {
        lemma_pow10_monotone(((d - start) + (b.len() - frac_start)) as nat, MAX_DIGITS as nat);
        lemma_pow10_max();
    }
    let mantissa = if neg {
        -value
    } else {
        value
    };
    let scale = (b.len() - frac_start) as u32;
    Some(Decimal { mantissa, scale })
}

} // verus!
