//! Intervals and axis-aligned boxes whose bounds are ordered keys.
//!
//! A bound is held as the order key of a 32-bit floating-point coordinate:
//! the key of a non-NaN value is an `i32` such that a smaller value never has
//! a larger key, and the bit pattern is recovered exactly from the key. The
//! operations that only compare bounds (merge, containment, ordering of boxes
//! along an axis) are then exact integer operations.

use vstd::prelude::*;

verus! {

/// Key of positive infinity, the largest key of a non-NaN value.
pub const POS_INF_KEY: i32 = 2139095040;

/// Key of negative infinity, the smallest key of a non-NaN value.
pub const NEG_INF_KEY: i32 = -2139095041;

/// Bit pattern of positive infinity.
pub const POS_INF_BITS: u32 = 2139095040;

/// The sign bit of a 32-bit floating-point bit pattern.
pub const SIGN_BIT: u32 = 2147483648;

/// Whether a bit pattern is a NaN: all exponent bits set and a non-zero fraction.
pub open spec fn is_nan_bits(bits: u32) -> bool {
    let magnitude = if bits >= SIGN_BIT { bits - SIGN_BIT } else { bits as int };
    magnitude > POS_INF_BITS
}

/// The signed magnitude that orders non-NaN bit patterns as their values are
/// ordered (both zeros map to 0).
pub open spec fn signed_magnitude(bits: u32) -> int {
    if bits >= SIGN_BIT {
        -(bits - SIGN_BIT)
    } else {
        bits as int
    }
}

/// The order key of a bit pattern.
pub open spec fn spec_key_of_bits(bits: u32) -> int {
    if bits >= SIGN_BIT {
        -(bits - SIGN_BIT) - 1
    } else {
        bits as int
    }
}

/// The bit pattern of an order key.
pub open spec fn spec_bits_of_key(key: i32) -> int {
    if key < 0 {
        -(key + 1) + SIGN_BIT
    } else {
        key as int
    }
}

/// Whether a key is the key of a non-NaN value.
pub open spec fn is_value_key(key: int) -> bool {
    NEG_INF_KEY <= key <= POS_INF_KEY
}

/// The order key of a floating-point bit pattern.
pub fn key_of_bits(bits: u32) -> (r: i32)
    ensures
        r as int == spec_key_of_bits(bits),
        spec_bits_of_key(r) == bits as int,
        !is_nan_bits(bits) <==> is_value_key(r as int),
{
    if bits >= SIGN_BIT {
        -((bits - SIGN_BIT) as i32) - 1
    } else {
        bits as i32
    }
}

/// The floating-point bit pattern of an order key.
pub fn bits_of_key(key: i32) -> (r: u32)
    ensures
        r as int == spec_bits_of_key(key),
        spec_key_of_bits(r) == key as int,
{
    if key < 0 {
        (-(key + 1)) as u32 + SIGN_BIT
    } else {
        key as u32
    }
}

/// Keys refine the value order: a smaller value has a smaller key, and a key
/// that is not larger belongs to a value that is not larger.
pub proof fn lemma_key_order(a: u32, b: u32)
    ensures
        signed_magnitude(a) < signed_magnitude(b) ==> spec_key_of_bits(a) < spec_key_of_bits(b),
        spec_key_of_bits(a) <= spec_key_of_bits(b) ==> signed_magnitude(a) <= signed_magnitude(b),
{
}

/// A closed range `[min, max]` of keys. It is empty when `max < min`.
#[derive(Debug, Clone, Copy, PartialEq, Eq)]
pub struct KeyInterval {
    pub min: i32,
    pub max: i32,
}

pub open spec fn min_int(a: int, b: int) -> int {
    if a <= b {
        a
    } else {
        b
    }
}

pub open spec fn max_int(a: int, b: int) -> int {
    if a >= b {
        a
    } else {
        b
    }
}

impl KeyInterval {
    /// Both bounds are keys of non-NaN values.
    pub open spec fn wf(self) -> bool {
        is_value_key(self.min as int) && is_value_key(self.max as int)
    }

    pub open spec fn spec_contains(self, k: int) -> bool {
        self.min <= k <= self.max
    }

    /// `self` holds every key of `other`.
    pub open spec fn encloses(self, other: KeyInterval) -> bool {
        forall|k: int| #[trigger] other.spec_contains(k) ==> self.spec_contains(k)
    }

    pub open spec fn spec_merge(self, other: KeyInterval) -> KeyInterval {
        KeyInterval {
            min: min_int(self.min as int, other.min as int) as i32,
            max: max_int(self.max as int, other.max as int) as i32,
        }
    }

    pub open spec fn spec_empty() -> KeyInterval {
        KeyInterval { min: POS_INF_KEY, max: NEG_INF_KEY }
    }

    pub fn new(min: i32, max: i32) -> (r: KeyInterval)
        ensures
            r.min == min,
            r.max == max,
    {
        KeyInterval { min, max }
    }

    /// The interval `[+inf, -inf]`, which holds no key and leaves every
    /// well-formed interval unchanged under `merge`.
    pub fn empty() -> (r: KeyInterval)
        ensures
            r == KeyInterval::spec_empty(),
            r.wf(),
            forall|k: int| !r.spec_contains(k),
    {
        KeyInterval { min: POS_INF_KEY, max: NEG_INF_KEY }
    }

    /// The interval `[-inf, +inf]`, which holds every key of a non-NaN value.
    pub fn universe() -> (r: KeyInterval)
        ensures
            r.min == NEG_INF_KEY,
            r.max == POS_INF_KEY,
            r.wf(),
            forall|k: int| is_value_key(k) ==> r.spec_contains(k),
    {
        KeyInterval { min: NEG_INF_KEY, max: POS_INF_KEY }
    }

    /// The smallest interval whose bounds enclose both intervals.
    pub fn merge(&self, other: &KeyInterval) -> (r: KeyInterval)
        ensures
            r == self.spec_merge(*other),
    {
        KeyInterval {
            min: if self.min <= other.min { self.min } else { other.min },
            max: if self.max >= other.max { self.max } else { other.max },
        }
    }

    pub fn contains(&self, k: i32) -> (r: bool)
        ensures
            r == self.spec_contains(k as int),
    {
        self.min <= k && k <= self.max
    }

    pub fn surrounds(&self, k: i32) -> (r: bool)
        ensures
            r == (self.min < k && k < self.max),
    {
        self.min < k && k < self.max
    }
}

/// A box given by one key interval per axis.
#[derive(Debug, Clone, Copy, PartialEq, Eq)]
pub struct KeyBox {
    pub x: KeyInterval,
    pub y: KeyInterval,
    pub z: KeyInterval,
}

impl KeyBox {
    pub open spec fn wf(self) -> bool {
        self.x.wf() && self.y.wf() && self.z.wf()
    }

    /// The interval of axis `n`: 1 is y, 2 is z, any other index is x.
    pub open spec fn spec_axis(self, n: int) -> KeyInterval {
        if n == 1 {
            self.y
        } else if n == 2 {
            self.z
        } else {
            self.x
        }
    }

    pub open spec fn spec_merge(self, other: KeyBox) -> KeyBox {
        KeyBox {
            x: self.x.spec_merge(other.x),
            y: self.y.spec_merge(other.y),
            z: self.z.spec_merge(other.z),
        }
    }

    pub open spec fn spec_empty() -> KeyBox {
        KeyBox {
            x: KeyInterval::spec_empty(),
            y: KeyInterval::spec_empty(),
            z: KeyInterval::spec_empty(),
        }
    }

    /// `self` holds `other` on every axis.
    pub open spec fn encloses(self, other: KeyBox) -> bool {
        self.x.encloses(other.x) && self.y.encloses(other.y) && self.z.encloses(other.z)
    }

    pub fn new(x: KeyInterval, y: KeyInterval, z: KeyInterval) -> (r: KeyBox)
        ensures
            r == (KeyBox { x, y, z }),
    {
        KeyBox { x, y, z }
    }

    /// The box that holds no point.
    pub fn empty() -> (r: KeyBox)
        ensures
            r == KeyBox::spec_empty(),
            r.wf(),
    {
        KeyBox { x: KeyInterval::empty(), y: KeyInterval::empty(), z: KeyInterval::empty() }
    }

    /// The box spanned by two opposite corners, given as keys per axis.
    pub fn from_bounding_points(a: [i32; 3], b: [i32; 3]) -> (r: KeyBox)
        ensures
            r.x == (KeyInterval {
                min: min_int(a[0] as int, b[0] as int) as i32,
                max: max_int(a[0] as int, b[0] as int) as i32,
            }),
            r.y == (KeyInterval {
                min: min_int(a[1] as int, b[1] as int) as i32,
                max: max_int(a[1] as int, b[1] as int) as i32,
            }),
            r.z == (KeyInterval {
                min: min_int(a[2] as int, b[2] as int) as i32,
                max: max_int(a[2] as int, b[2] as int) as i32,
            }),
    {
        let ax = KeyInterval::new(a[0], a[0]);
        let ay = KeyInterval::new(a[1], a[1]);
        let az = KeyInterval::new(a[2], a[2]);
        let bx = KeyInterval::new(b[0], b[0]);
        let by = KeyInterval::new(b[1], b[1]);
        let bz = KeyInterval::new(b[2], b[2]);
        KeyBox { x: ax.merge(&bx), y: ay.merge(&by), z: az.merge(&bz) }
    }

    /// The interval of axis `n`: 1 is y, 2 is z, any other index is x.
    pub fn axis(&self, n: usize) -> (r: KeyInterval)
        ensures
            r == self.spec_axis(n as int),
    {
        if n == 1 {
            self.y
        } else if n == 2 {
            self.z
        } else {
            self.x
        }
    }

    /// The smallest box that encloses both boxes.
    pub fn merge(&self, other: &KeyBox) -> (r: KeyBox)
        ensures
            r == self.spec_merge(*other),
    {
        KeyBox { x: self.x.merge(&other.x), y: self.y.merge(&other.y), z: self.z.merge(&other.z) }
    }
}

/// Merging is a join: the merged box encloses both boxes, the empty box is
/// its identity on well-formed boxes, and it is commutative and associative.
pub proof fn lemma_merge_is_join(a: KeyBox, b: KeyBox, c: KeyBox)
    ensures
        a.spec_merge(b).encloses(a),
        a.spec_merge(b).encloses(b),
        a.wf() ==> a.spec_merge(KeyBox::spec_empty()) == a,
        a.wf() ==> KeyBox::spec_empty().spec_merge(a) == a,
        a.spec_merge(b) == b.spec_merge(a),
        a.spec_merge(b).spec_merge(c) == a.spec_merge(b.spec_merge(c)),
        a.wf() && b.wf() ==> a.spec_merge(b).wf(),
{
}

/// Enclosing is transitive.
pub proof fn lemma_encloses_trans(a: KeyBox, b: KeyBox, c: KeyBox)
    requires
        a.encloses(b),
        b.encloses(c),
    ensures
        a.encloses(c),
{
}

proof fn lemma_interval_least(a: KeyInterval, b: KeyInterval, u: KeyInterval)
    requires
        u.encloses(a),
        u.encloses(b),
        a.min <= a.max,
        b.min <= b.max,
    ensures
        u.encloses(a.spec_merge(b)),
{
    assert(a.spec_contains(a.min as int) && a.spec_contains(a.max as int));
    assert(b.spec_contains(b.min as int) && b.spec_contains(b.max as int));
}

/// Any box that encloses both boxes encloses their merge: the merge is the
/// least upper bound.
pub proof fn lemma_merge_is_least(a: KeyBox, b: KeyBox, u: KeyBox)
    requires
        u.encloses(a),
        u.encloses(b),
        a.x.min <= a.x.max && a.y.min <= a.y.max && a.z.min <= a.z.max,
        b.x.min <= b.x.max && b.y.min <= b.y.max && b.z.min <= b.z.max,
    ensures
        u.encloses(a.spec_merge(b)),
{
    lemma_interval_least(a.x, b.x, u.x);
    lemma_interval_least(a.y, b.y, u.y);
    lemma_interval_least(a.z, b.z, u.z);
}

} // verus!
