use vstd::prelude::*;

verus! {

/// The width and signedness a number was created with.
#[derive(Clone, Copy, Debug, PartialEq, Eq, Structural)]
pub enum NumberType {
    I8,
    I16,
    I32,
    I64,
    I128,
    U8,
    U16,
    U32,
    U64,
    U128,
    F32,
    F64,
    /// A number whose kind is not known.
    Unknown,
}

/// A floating-point quantity held as a decimal: `(-1)^negative * mantissa * 10^exponent`
/// for finite values, plus the IEEE special values.
#[derive(Clone, Copy, Debug)]
pub enum Float {
    Finite { negative: bool, mantissa: u128, exponent: i32 },
    Infinite { negative: bool },
    NaN,
}

pub open spec fn pow10(n: nat) -> nat
    decreases n,
{
    if n == 0 {
        1
    } else {
        10 * pow10((n - 1) as nat)
    }
}

/// Removes trailing decimal zeros from a mantissa, moving them into the exponent.
pub open spec fn strip_zeros(m: nat, e: int) -> (nat, int)
    decreases m,
{
    if m == 0 {
        (0, 0)
    } else if m % 10 == 0 {
        strip_zeros(m / 10, e + 1)
    } else {
        (m, e)
    }
}

pub proof fn lemma_pow10_positive(n: nat)
    ensures
        pow10(n) >= 1,
    decreases n,
{
    if n > 0 {
        lemma_pow10_positive((n - 1) as nat);
    }
}

/// `pow10` grows by at least a factor of ten per step.
pub proof fn lemma_pow10_grows(k: nat, n: nat)
    requires
        k < n,
    ensures
        pow10(n) >= 10 * pow10(k),
    decreases n,
{
    lemma_pow10_positive(k);
    if n > k + 1 {
        lemma_pow10_grows(k, (n - 1) as nat);
    }
}

pub proof fn lemma_pow10_mono(a: nat, b: nat)
    requires
        a <= b,
    ensures
        pow10(a) <= pow10(b),
{
    lemma_pow10_positive(a);
    if a < b {
        lemma_pow10_grows(a, b);
    }
}

proof fn lemma_pow10_39()
    ensures
        pow10(39) == 1000000000000000000000000000000000000000,
{
    reveal_with_fuel(pow10, 40);
}

impl Float {
    /// The canonical form of a finite float: sign (never set on zero), mantissa
    /// without trailing zeros, exponent.
    pub open spec fn parts(self) -> (bool, nat, int) {
        match self {
            Float::Finite { negative, mantissa, exponent } => {
                let (m, e) = strip_zeros(mantissa as nat, exponent as int);
                if m == 0 {
                    (false, 0, 0)
                } else {
                    (negative, m, e)
                }
            },
            _ => (false, 0, 0),
        }
    }

    /// Numeric equality of two floats; NaN equals nothing, and `-0.0 == 0.0`.
    pub open spec fn same_value(self, other: Float) -> bool {
        match (self, other) {
            (Float::Finite { .. }, Float::Finite { .. }) => self.parts() == other.parts(),
            (Float::Infinite { negative: a }, Float::Infinite { negative: b }) => a == b,
            _ => false,
        }
    }

    /// The float is finite and equals the integer `x`.
    pub open spec fn equals_int(self, x: int) -> bool {
        &&& self is Finite
        &&& self.parts().2 >= 0
        &&& {
            let mag = self.parts().1 * pow10(self.parts().2 as nat);
            x == if self.parts().0 {
                -mag
            } else {
                mag as int
            }
        }
    }

    /// Builds a finite float from its decimal parts.
    pub fn finite(negative: bool, mantissa: u128, exponent: i32) -> (r: Float)
        ensures
            r == (Float::Finite { negative, mantissa, exponent }),
    {
        Float::Finite { negative, mantissa, exponent }
    }

    /// The canonical parts of a finite float, computed.
    pub fn canonical(&self) -> (r: (bool, u128, i64))
        requires
            self is Finite,
        ensures
            r.0 == self.parts().0,
            r.1 as nat == self.parts().1,
            r.2 as int == self.parts().2,
            i32::MIN <= r.2 <= i32::MAX as int + 38,
    {
        match *self {
            Float::Finite { negative, mantissa, exponent } => {
                let mut m: u128 = mantissa;
                let mut e: i64 = exponent as i64;
                assert(pow10(0) == 1);
                assert((e - exponent) as nat == 0);
                assert(m as nat * pow10(0) == mantissa as nat);
                while m != 0 && m % 10 == 0
                    invariant
                        strip_zeros(m as nat, e as int) == strip_zeros(
                            mantissa as nat,
                            exponent as int,
                        ),
                        exponent as int <= e <= exponent as int + 38,
                        m as nat * pow10((e - exponent) as nat) == mantissa as nat,
                    decreases m,
                {
                    let ghost k = (e - exponent) as nat;
                    proof {
                        let m2 = (m / 10) as nat;
                        assert(m as nat == 10 * m2);
                        assert(pow10(k + 1) == 10 * pow10(k));
                        assert(m2 * pow10(k + 1) == m as nat * pow10(k)) by (nonlinear_arith)
                            requires
                                m as nat == 10 * m2,
                                pow10(k + 1) == 10 * pow10(k),
                        ;
                        lemma_pow10_positive(k + 1);
                        assert(m2 >= 1);
                        assert(pow10(k + 1) <= m2 * pow10(k + 1)) by (nonlinear_arith)
                            requires
                                m2 >= 1,
                        ;
                        if k + 1 >= 39 {
                            lemma_pow10_mono(39, k + 1);
                            lemma_pow10_39();
                        }
                    }
                    m = m / 10;
                    e = e + 1;
                }
                proof {
                    if m != 0 {
                        assert(strip_zeros(m as nat, e as int) == (m as nat, e as int));
                    }
                }
                if m == 0 {
                    (false, 0, 0)
                } else {
                    (negative, m, e)
                }
            },
            _ => (false, 0, 0),
        }
    }
}

/// A number that remembers the width and signedness (or float precision) it was
/// created with.
#[derive(Clone, Copy, Debug)]
pub enum Number {
    I8(i8),
    I16(i16),
    I32(i32),
    I64(i64),
    I128(i128),
    U8(u8),
    U16(u16),
    U32(u32),
    U64(u64),
    U128(u128),
    F32(Float),
    F64(Float),
    /// A number of unknown kind; it equals nothing.
    Unknown,
}

impl Number {
    /// The integer a number holds, or `None` for a float.
    pub open spec fn int_value(self) -> Option<int> {
        match self {
            Number::I8(v) => Some(v as int),
            Number::I16(v) => Some(v as int),
            Number::I32(v) => Some(v as int),
            Number::I64(v) => Some(v as int),
            Number::I128(v) => Some(v as int),
            Number::U8(v) => Some(v as int),
            Number::U16(v) => Some(v as int),
            Number::U32(v) => Some(v as int),
            Number::U64(v) => Some(v as int),
            Number::U128(v) => Some(v as int),
            Number::F32(_) => None,
            Number::F64(_) => None,
            Number::Unknown => None,
        }
    }

    /// The float a number holds, for the float kinds.
    pub open spec fn float_value(self) -> Float {
        match self {
            Number::F32(f) => f,
            Number::F64(f) => f,
            _ => Float::NaN,
        }
    }

    pub open spec fn kind(self) -> NumberType {
        match self {
            Number::I8(_) => NumberType::I8,
            Number::I16(_) => NumberType::I16,
            Number::I32(_) => NumberType::I32,
            Number::I64(_) => NumberType::I64,
            Number::I128(_) => NumberType::I128,
            Number::U8(_) => NumberType::U8,
            Number::U16(_) => NumberType::U16,
            Number::U32(_) => NumberType::U32,
            Number::U64(_) => NumberType::U64,
            Number::U128(_) => NumberType::U128,
            Number::F32(_) => NumberType::F32,
            Number::F64(_) => NumberType::F64,
            Number::Unknown => NumberType::Unknown,
        }
    }

    /// Numeric equality: integers of any width compare by value, floats by
    /// decimal value, and an integer equals a float of the same value.
    pub open spec fn same_value(self, other: Number) -> bool {
        match (self.int_value(), other.int_value()) {
            (Some(x), Some(y)) => x == y,
            (Some(x), None) => other.float_value().equals_int(x),
            (None, Some(y)) => self.float_value().equals_int(y),
            (None, None) => self.float_value().same_value(other.float_value()),
        }
    }

    pub open spec fn fits(self, lo: int, hi: int) -> bool {
        self.int_value() matches Some(x) && lo <= x <= hi
    }

    /// The discriminant the number was created with.
    pub fn number_type(&self) -> (r: NumberType)
        ensures
            r == self.kind(),
    {
        match self {
            Number::I8(_) => NumberType::I8,
            Number::I16(_) => NumberType::I16,
            Number::I32(_) => NumberType::I32,
            Number::I64(_) => NumberType::I64,
            Number::I128(_) => NumberType::I128,
            Number::U8(_) => NumberType::U8,
            Number::U16(_) => NumberType::U16,
            Number::U32(_) => NumberType::U32,
            Number::U64(_) => NumberType::U64,
            Number::U128(_) => NumberType::U128,
            Number::F32(_) => NumberType::F32,
            Number::F64(_) => NumberType::F64,
            Number::Unknown => NumberType::Unknown,
        }
    }

    pub fn is_integer(&self) -> (r: bool)
        ensures
            r == (self.int_value() is Some),
    {
        !matches!(self, Number::F32(_) | Number::F64(_) | Number::Unknown)
    }

    /// Sign and magnitude of an integer; zero is never negative.
    pub fn magnitude(&self) -> (r: (bool, u128))
        requires
            self.int_value() is Some,
        ensures
            self.int_value() == Some(if r.0 { -(r.1 as int) } else { r.1 as int }),
            r.0 ==> r.1 > 0,
    {
        match *self {
            Number::I8(v) => Self::signed_magnitude(v as i128),
            Number::I16(v) => Self::signed_magnitude(v as i128),
            Number::I32(v) => Self::signed_magnitude(v as i128),
            Number::I64(v) => Self::signed_magnitude(v as i128),
            Number::I128(v) => Self::signed_magnitude(v),
            Number::U8(v) => (false, v as u128),
            Number::U16(v) => (false, v as u128),
            Number::U32(v) => (false, v as u128),
            Number::U64(v) => (false, v as u128),
            Number::U128(v) => (false, v),
            _ => (false, 0),
        }
    }

    fn signed_magnitude(v: i128) -> (r: (bool, u128))
        ensures
            v as int == if r.0 { -(r.1 as int) } else { r.1 as int },
            r.0 ==> r.1 > 0,
    {
        if v >= 0 {
            (false, v as u128)
        } else if v == i128::MIN {
            (true, 0x8000_0000_0000_0000_0000_0000_0000_0000u128)
        } else {
            (true, (-v) as u128)
        }
    }

    /// The value as an `i64`, when it is an integer in that range.
    pub fn to_i64(&self) -> (r: Option<i64>)
        ensures
            r == (if self.fits(i64::MIN as int, i64::MAX as int) {
                Some(self.int_value()->0 as i64)
            } else {
                None::<i64>
            }),
    {
        if !self.is_integer() {
            return None;
        }
        let (neg, mag) = self.magnitude();
        if neg {
            if mag <= 0x8000_0000_0000_0000u128 {
                Some((0i128 - mag as i128) as i64)
            } else {
                None
            }
        } else if mag <= i64::MAX as u128 {
            Some(mag as i64)
        } else {
            None
        }
    }

    /// The value as a `u64`, when it is an integer in that range.
    pub fn to_u64(&self) -> (r: Option<u64>)
        ensures
            r == (if self.fits(0, u64::MAX as int) {
                Some(self.int_value()->0 as u64)
            } else {
                None::<u64>
            }),
    {
        if !self.is_integer() {
            return None;
        }
        let (neg, mag) = self.magnitude();
        if !neg && mag <= u64::MAX as u128 {
            Some(mag as u64)
        } else {
            None
        }
    }

    /// The value as an `i128`, when it is an integer in that range.
    pub fn to_i128(&self) -> (r: Option<i128>)
        ensures
            r == (if self.fits(i128::MIN as int, i128::MAX as int) {
                Some(self.int_value()->0 as i128)
            } else {
                None::<i128>
            }),
    {
        if !self.is_integer() {
            return None;
        }
        let (neg, mag) = self.magnitude();
        if neg {
            if mag == 0x8000_0000_0000_0000_0000_0000_0000_0000u128 {
                Some(i128::MIN)
            } else if mag < 0x8000_0000_0000_0000_0000_0000_0000_0000u128 {
                Some(0i128 - mag as i128)
            } else {
                None
            }
        } else if mag <= i128::MAX as u128 {
            Some(mag as i128)
        } else {
            None
        }
    }

    /// The value as a `u128`, when it is a non-negative integer.
    pub fn to_u128(&self) -> (r: Option<u128>)
        ensures
            r == (if self.fits(0, u128::MAX as int) {
                Some(self.int_value()->0 as u128)
            } else {
                None::<u128>
            }),
    {
        if !self.is_integer() {
            return None;
        }
        let (neg, mag) = self.magnitude();
        if !neg {
            Some(mag)
        } else {
            None
        }
    }

    pub fn is_i128(&self) -> (r: bool)
        ensures
            r == self.fits(i128::MIN as int, i128::MAX as int),
    {
        self.to_i128().is_some()
    }

    pub fn is_u128(&self) -> (r: bool)
        ensures
            r == self.fits(0, u128::MAX as int),
    {
        self.to_u128().is_some()
    }

    /// The full-width signed value; the caller has checked `is_i128`.
    pub fn get_i128(&self) -> (r: i128)
        requires
            self.fits(i128::MIN as int, i128::MAX as int),
        ensures
            r as int == self.int_value()->0,
    {
        match self.to_i128() {
            Some(v) => v,
            None => 0,
        }
    }

    /// The full-width unsigned value; the caller has checked `is_u128`.
    pub fn get_u128(&self) -> (r: u128)
        requires
            self.fits(0, u128::MAX as int),
        ensures
            r as int == self.int_value()->0,
    {
        match self.to_u128() {
            Some(v) => v,
            None => 0,
        }
    }

    /// The float a float number holds.
    pub fn to_float(&self) -> (r: Option<Float>)
        ensures
            r == (if self is F32 || self is F64 {
                Some(self.float_value())
            } else {
                None::<Float>
            }),
    {
        match *self {
            Number::F32(f) => Some(f),
            Number::F64(f) => Some(f),
            _ => None,
        }
    }
}

impl Float {
    /// Numeric equality of two floats, computed.
    pub fn same_as(&self, other: &Float) -> (r: bool)
        ensures
            r == self.same_value(*other),
    {
        match (self, other) {
            (Float::Finite { .. }, Float::Finite { .. }) => {
                let a = self.canonical();
                let b = other.canonical();
                a.0 == b.0 && a.1 == b.1 && a.2 == b.2
            },
            (Float::Infinite { negative: a }, Float::Infinite { negative: b }) => *a == *b,
            _ => false,
        }
    }

    /// Whether the float equals the integer with the given sign and magnitude.
    pub fn equals_signed(&self, neg: bool, mag: u128) -> (r: bool)
        requires
            neg ==> mag > 0,
        ensures
            r == self.equals_int(if neg { -(mag as int) } else { mag as int }),
    {
        if !matches!(self, Float::Finite { .. }) {
            return false;
        }
        let (fneg, m, e) = self.canonical();
        if e < 0 {
            return false;
        }
        proof {
            lemma_pow10_positive(e as nat);
            if m > 0 {
                assert(m as nat * pow10(e as nat) >= m as nat) by (nonlinear_arith)
                    requires
                        pow10(e as nat) >= 1,
                ;
            }
        }
        if fneg != neg {
            return false;
        }
        let mut p: u128 = m;
        let mut k: i64 = 0;
        assert(pow10(0) == 1);
        assert(m as nat * pow10(0) == m as nat);
        while k < e
            invariant
                0 <= k <= e,
                p as nat == m as nat * pow10(k as nat),
                m as nat == self.parts().1,
                e as int == self.parts().2,
                fneg == self.parts().0,
                fneg == neg,
                neg ==> mag > 0,
                self is Finite,
            decreases e - k,
        {
            proof {
                assert(pow10((k + 1) as nat) == 10 * pow10(k as nat));
                assert(m as nat * pow10((k + 1) as nat) == 10 * (m as nat * pow10(k as nat)))
                    by (nonlinear_arith)
                    requires
                        pow10((k + 1) as nat) == 10 * pow10(k as nat),
                ;
            }
            if p > u128::MAX / 10 {
                proof {
                    lemma_pow10_grows(k as nat, e as nat);
                    assert(m as nat * pow10(e as nat) >= 10 * (m as nat * pow10(k as nat)))
                        by (nonlinear_arith)
                        requires
                            pow10(e as nat) >= 10 * pow10(k as nat),
                    ;
                    assert(10 * (p as nat) > u128::MAX);
                    assert(m as nat * pow10(e as nat) > mag as nat);
                    assert(self.parts().1 * pow10(self.parts().2 as nat) == m as nat * pow10(
                        e as nat,
                    ));
                }
                return false;
            }
            p = p * 10;
            k = k + 1;
        }
        p == mag
    }
}

impl Number {
    /// Numeric equality, computed.
    pub fn same_as(&self, other: &Number) -> (r: bool)
        ensures
            r == self.same_value(*other),
    {
        match (!self.is_integer(), !other.is_integer()) {
            (false, false) => {
                let (an, am) = self.magnitude();
                let (bn, bm) = other.magnitude();
                an == bn && am == bm
            },
            (false, true) => {
                let (an, am) = self.magnitude();
                other.float_value_exec().equals_signed(an, am)
            },
            (true, false) => {
                let (bn, bm) = other.magnitude();
                self.float_value_exec().equals_signed(bn, bm)
            },
            (true, true) => self.float_value_exec().same_as(&other.float_value_exec()),
        }
    }

    fn float_value_exec(&self) -> (r: Float)
        ensures
            r == self.float_value(),
    {
        match *self {
            Number::F32(f) => f,
            Number::F64(f) => f,
            _ => Float::NaN,
        }
    }
}

impl PartialEq for Number {
    fn eq(&self, other: &Number) -> (r: bool) {
        self.same_as(other)
    }
}

impl vstd::std_specs::cmp::PartialEqSpecImpl for Number {
    open spec fn obeys_eq_spec() -> bool {
        true
    }

    open spec fn eq_spec(&self, other: &Number) -> bool {
        self.same_value(*other)
    }
}

/// How two naturals compare.
pub open spec fn nat_cmp(a: nat, b: nat) -> core::cmp::Ordering {
    if a < b {
        core::cmp::Ordering::Less
    } else if a == b {
        core::cmp::Ordering::Equal
    } else {
        core::cmp::Ordering::Greater
    }
}

/// How `m1 * 10^e1` compares with `m2 * 10^e2`: both scaled to the smaller
/// exponent.
pub open spec fn magnitude_cmp(m1: nat, e1: int, m2: nat, e2: int) -> core::cmp::Ordering {
    if e1 >= e2 {
        nat_cmp(m1 * pow10((e1 - e2) as nat), m2)
    } else {
        nat_cmp(m1, m2 * pow10((e2 - e1) as nat))
    }
}

pub open spec fn reverse(o: core::cmp::Ordering) -> core::cmp::Ordering {
    match o {
        core::cmp::Ordering::Less => core::cmp::Ordering::Greater,
        core::cmp::Ordering::Equal => core::cmp::Ordering::Equal,
        core::cmp::Ordering::Greater => core::cmp::Ordering::Less,
    }
}

/// Where a number stands for ordering: its rank (0 for negative infinity, 1
/// for a finite value, 2 for positive infinity), then sign, magnitude and
/// exponent of a finite value. NaN and numbers of unknown kind have none.
pub open spec fn order_key(n: Number) -> Option<(int, bool, nat, int)> {
    match n.int_value() {
        Some(x) => Some(
            (
                1,
                x < 0,
                if x < 0 {
                    (-x) as nat
                } else {
                    x as nat
                },
                0,
            ),
        ),
        None => if n is Unknown {
            None
        } else {
            match n.float_value() {
                Float::Finite { .. } => Some(
                    (1, n.float_value().parts().0, n.float_value().parts().1, n.float_value().parts().2),
                ),
                Float::Infinite { negative } => Some(
                    (
                        if negative {
                            0
                        } else {
                            2
                        },
                        negative,
                        0,
                        0,
                    ),
                ),
                Float::NaN => None,
            }
        },
    }
}

/// Numeric order of two keys.
pub open spec fn key_cmp(a: (int, bool, nat, int), b: (int, bool, nat, int)) -> core::cmp::Ordering {
    if a.0 != b.0 {
        if a.0 < b.0 {
            core::cmp::Ordering::Less
        } else {
            core::cmp::Ordering::Greater
        }
    } else if a.0 != 1 {
        core::cmp::Ordering::Equal
    } else if !a.1 && !b.1 {
        magnitude_cmp(a.2, a.3, b.2, b.3)
    } else if a.1 && b.1 {
        reverse(magnitude_cmp(a.2, a.3, b.2, b.3))
    } else if a.1 {
        core::cmp::Ordering::Less
    } else {
        core::cmp::Ordering::Greater
    }
}

impl Number {
    /// Numeric order; `None` when either side is NaN or of unknown kind.
    pub open spec fn numeric_cmp(self, other: Number) -> Option<core::cmp::Ordering> {
        match (order_key(self), order_key(other)) {
            (Some(a), Some(b)) => Some(key_cmp(a, b)),
            _ => None,
        }
    }

    /// The ordering key, computed.
    fn order_key_exec(&self) -> (r: Option<(u8, bool, u128, i64)>)
        ensures
            match order_key(*self) {
                Some(k) => r matches Some(x) && x.0 as int == k.0 && x.1 == k.1 && x.2 as nat
                    == k.2 && x.3 as int == k.3,
                None => r is None,
            },
            r matches Some(x) ==> -0x1_0000_0000 <= x.3 <= 0x1_0000_0000,
    {
        if self.is_integer() {
            let (neg, mag) = self.magnitude();
            return Some((1, neg, mag, 0));
        }
        match self.to_float() {
            Some(f) => match f {
                Float::Finite { .. } => {
                    let (neg, m, e) = f.canonical();
                    Some((1, neg, m, e))
                },
                Float::Infinite { negative } => Some(
                    (
                        if negative {
                            0
                        } else {
                            2
                        },
                        negative,
                        0,
                        0,
                    ),
                ),
                Float::NaN => None,
            },
            None => None,
        }
    }
}

/// Scales `m` by `10^d`; `None` once the result exceeds 128 bits.
fn scale(m: u128, d: i64) -> (r: Option<u128>)
    requires
        d >= 0,
    ensures
        m as nat * pow10(d as nat) <= u128::MAX ==> r == Some((m as nat * pow10(d as nat)) as u128),
        m as nat * pow10(d as nat) > u128::MAX ==> r is None,
{
    let mut p: u128 = m;
    let mut k: i64 = 0;
    assert(pow10(0) == 1);
    assert(m as nat * pow10(0) == m as nat);
    while k < d
        invariant
            0 <= k <= d,
            p as nat == m as nat * pow10(k as nat),
        decreases d - k,
    {
        proof {
            assert(pow10((k + 1) as nat) == 10 * pow10(k as nat));
            assert(m as nat * pow10((k + 1) as nat) == 10 * (m as nat * pow10(k as nat)))
                by (nonlinear_arith)
                requires
                    pow10((k + 1) as nat) == 10 * pow10(k as nat),
            ;
        }
        if p > u128::MAX / 10 {
            proof {
                lemma_pow10_grows(k as nat, d as nat);
                assert(m as nat * pow10(d as nat) >= 10 * (m as nat * pow10(k as nat)))
                    by (nonlinear_arith)
                    requires
                        pow10(d as nat) >= 10 * pow10(k as nat),
                ;
            }
            return None;
        }
        p = p * 10;
        k = k + 1;
    }
    Some(p)
}

fn cmp_u128(a: u128, b: u128) -> (r: core::cmp::Ordering)
    ensures
        r == nat_cmp(a as nat, b as nat),
{
    if a < b {
        core::cmp::Ordering::Less
    } else if a == b {
        core::cmp::Ordering::Equal
    } else {
        core::cmp::Ordering::Greater
    }
}

/// How `m1 * 10^e1` compares with `m2 * 10^e2`, computed.
fn magnitude_cmp_exec(m1: u128, e1: i64, m2: u128, e2: i64) -> (r: core::cmp::Ordering)
    requires
        -0x1_0000_0000 <= e1 <= 0x1_0000_0000,
        -0x1_0000_0000 <= e2 <= 0x1_0000_0000,
    ensures
        r == magnitude_cmp(m1 as nat, e1 as int, m2 as nat, e2 as int),
{
    if e1 >= e2 {
        match scale(m1, e1 - e2) {
            Some(p) => cmp_u128(p, m2),
            None => core::cmp::Ordering::Greater,
        }
    } else {
        match scale(m2, e2 - e1) {
            Some(p) => cmp_u128(m1, p),
            None => core::cmp::Ordering::Less,
        }
    }
}

impl PartialOrd for Number {
    fn partial_cmp(&self, other: &Number) -> (r: Option<core::cmp::Ordering>) {
        let a = match self.order_key_exec() {
            Some(k) => k,
            None => {
                return None;
            },
        };
        let b = match other.order_key_exec() {
            Some(k) => k,
            None => {
                return None;
            },
        };
        if a.0 != b.0 {
            if a.0 < b.0 {
                Some(core::cmp::Ordering::Less)
            } else {
                Some(core::cmp::Ordering::Greater)
            }
        } else if a.0 != 1 {
            Some(core::cmp::Ordering::Equal)
        } else if !a.1 && !b.1 {
            Some(magnitude_cmp_exec(a.2, a.3, b.2, b.3))
        } else if a.1 && b.1 {
            Some(
                match magnitude_cmp_exec(a.2, a.3, b.2, b.3) {
                    core::cmp::Ordering::Less => core::cmp::Ordering::Greater,
                    core::cmp::Ordering::Equal => core::cmp::Ordering::Equal,
                    core::cmp::Ordering::Greater => core::cmp::Ordering::Less,
                },
            )
        } else if a.1 {
            Some(core::cmp::Ordering::Less)
        } else {
            Some(core::cmp::Ordering::Greater)
        }
    }
}

impl vstd::std_specs::cmp::PartialOrdSpecImpl for Number {
    open spec fn obeys_partial_cmp_spec() -> bool {
        true
    }

    open spec fn partial_cmp_spec(&self, other: &Number) -> Option<core::cmp::Ordering> {
        self.numeric_cmp(*other)
    }
}

impl From<i8> for Number {
    fn from(v: i8) -> (r: Number) {
        Number::I8(v)
    }
}

impl vstd::std_specs::convert::FromSpecImpl<i8> for Number {
    open spec fn obeys_from_spec() -> bool {
        true
    }

    open spec fn from_spec(v: i8) -> Number {
        Number::I8(v)
    }
}

impl From<i16> for Number {
    fn from(v: i16) -> (r: Number) {
        Number::I16(v)
    }
}

impl vstd::std_specs::convert::FromSpecImpl<i16> for Number {
    open spec fn obeys_from_spec() -> bool {
        true
    }

    open spec fn from_spec(v: i16) -> Number {
        Number::I16(v)
    }
}

impl From<i32> for Number {
    fn from(v: i32) -> (r: Number) {
        Number::I32(v)
    }
}

impl vstd::std_specs::convert::FromSpecImpl<i32> for Number {
    open spec fn obeys_from_spec() -> bool {
        true
    }

    open spec fn from_spec(v: i32) -> Number {
        Number::I32(v)
    }
}

impl From<i64> for Number {
    fn from(v: i64) -> (r: Number) {
        Number::I64(v)
    }
}

impl vstd::std_specs::convert::FromSpecImpl<i64> for Number {
    open spec fn obeys_from_spec() -> bool {
        true
    }

    open spec fn from_spec(v: i64) -> Number {
        Number::I64(v)
    }
}

impl From<i128> for Number {
    fn from(v: i128) -> (r: Number) {
        Number::I128(v)
    }
}

impl vstd::std_specs::convert::FromSpecImpl<i128> for Number {
    open spec fn obeys_from_spec() -> bool {
        true
    }

    open spec fn from_spec(v: i128) -> Number {
        Number::I128(v)
    }
}

impl From<u8> for Number {
    fn from(v: u8) -> (r: Number) {
        Number::U8(v)
    }
}

impl vstd::std_specs::convert::FromSpecImpl<u8> for Number {
    open spec fn obeys_from_spec() -> bool {
        true
    }

    open spec fn from_spec(v: u8) -> Number {
        Number::U8(v)
    }
}

impl From<u16> for Number {
    fn from(v: u16) -> (r: Number) {
        Number::U16(v)
    }
}

impl vstd::std_specs::convert::FromSpecImpl<u16> for Number {
    open spec fn obeys_from_spec() -> bool {
        true
    }

    open spec fn from_spec(v: u16) -> Number {
        Number::U16(v)
    }
}

impl From<u32> for Number {
    fn from(v: u32) -> (r: Number) {
        Number::U32(v)
    }
}

impl vstd::std_specs::convert::FromSpecImpl<u32> for Number {
    open spec fn obeys_from_spec() -> bool {
        true
    }

    open spec fn from_spec(v: u32) -> Number {
        Number::U32(v)
    }
}

impl From<u64> for Number {
    fn from(v: u64) -> (r: Number) {
        Number::U64(v)
    }
}

impl vstd::std_specs::convert::FromSpecImpl<u64> for Number {
    open spec fn obeys_from_spec() -> bool {
        true
    }

    open spec fn from_spec(v: u64) -> Number {
        Number::U64(v)
    }
}

impl From<u128> for Number {
    fn from(v: u128) -> (r: Number) {
        Number::U128(v)
    }
}

impl vstd::std_specs::convert::FromSpecImpl<u128> for Number {
    open spec fn obeys_from_spec() -> bool {
        true
    }

    open spec fn from_spec(v: u128) -> Number {
        Number::U128(v)
    }
}

/// A native integer held as a number keeps its width, and the accessor of
/// that width (`to_i64` for signed widths up to 64 bits, `to_u64` for unsigned
/// ones, `get_i128` and `get_u128` for the 128-bit widths) gives it back.
pub proof fn law_integer_round_trip(
    a: i8,
    b: i16,
    c: i32,
    d: i64,
    e: i128,
    f: u8,
    g: u16,
    h: u32,
    k: u64,
    l: u128,
)
    ensures
        Number::I8(a).kind() == NumberType::I8 && Number::I8(a).fits(i64::MIN as int, i64::MAX as int)
            && Number::I8(a).int_value()->0 as i64 == a as i64,
        Number::I16(b).kind() == NumberType::I16 && Number::I16(b).fits(
            i64::MIN as int,
            i64::MAX as int,
        ) && Number::I16(b).int_value()->0 as i64 == b as i64,
        Number::I32(c).kind() == NumberType::I32 && Number::I32(c).fits(
            i64::MIN as int,
            i64::MAX as int,
        ) && Number::I32(c).int_value()->0 as i64 == c as i64,
        Number::I64(d).kind() == NumberType::I64 && Number::I64(d).fits(
            i64::MIN as int,
            i64::MAX as int,
        ) && Number::I64(d).int_value()->0 as i64 == d,
        Number::I128(e).kind() == NumberType::I128 && Number::I128(e).fits(
            i128::MIN as int,
            i128::MAX as int,
        ) && Number::I128(e).int_value()->0 == e as int,
        Number::U8(f).kind() == NumberType::U8 && Number::U8(f).fits(0, u64::MAX as int)
            && Number::U8(f).int_value()->0 as u64 == f as u64,
        Number::U16(g).kind() == NumberType::U16 && Number::U16(g).fits(0, u64::MAX as int)
            && Number::U16(g).int_value()->0 as u64 == g as u64,
        Number::U32(h).kind() == NumberType::U32 && Number::U32(h).fits(0, u64::MAX as int)
            && Number::U32(h).int_value()->0 as u64 == h as u64,
        Number::U64(k).kind() == NumberType::U64 && Number::U64(k).fits(0, u64::MAX as int)
            && Number::U64(k).int_value()->0 as u64 == k,
        Number::U128(l).kind() == NumberType::U128 && Number::U128(l).fits(0, u128::MAX as int)
            && Number::U128(l).int_value()->0 == l as int,
{
}

/// A float held as a number keeps its precision and its value.
pub proof fn law_float_round_trip(x: Float, y: Float)
    ensures
        Number::F64(x).kind() == NumberType::F64 && Number::F64(x).float_value() == x,
        Number::F32(y).kind() == NumberType::F32 && Number::F32(y).float_value() == y,
{
}

} // verus!
