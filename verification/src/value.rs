//! The typed scalar that fills one fixed-width column slot.
use core::cmp::Ordering;
use vstd::prelude::*;

verus! {

/// A column value: absent, a signed 32-bit integer, or an unsigned byte.
///
/// Values have a total order with `NULL` strictly below every non-`NULL`
/// value; two non-`NULL` values only compare within the same tag.
#[derive(Debug, Clone, Copy, PartialEq, Eq, Structural)]
pub enum Value {
    NULL,
    I32(i32),
    U8(u8),
}

/// The unsigned 32-bit number with the same two's-complement bits as `x`.
pub open spec fn u32_of_i32(x: i32) -> u32 {
    if x >= 0 {
        x as u32
    } else {
        (x + 0x1_0000_0000) as u32
    }
}

/// The signed 32-bit number with the same two's-complement bits as `u`.
pub open spec fn i32_of_u32(u: u32) -> i32 {
    if u < 0x8000_0000 {
        u as i32
    } else {
        (u - 0x1_0000_0000) as i32
    }
}

pub proof fn lemma_i32_u32_round_trip(x: i32)
    ensures
        i32_of_u32(u32_of_i32(x)) == x,
{
}

pub proof fn lemma_u32_i32_round_trip(u: u32)
    ensures
        u32_of_i32(i32_of_u32(u)) == u,
{
}

impl Value {
    /// Whether the two values may be ordered: `NULL` compares with
    /// everything, non-`NULL` values only within the same tag.
    pub open spec fn comparable(self, other: Value) -> bool {
        match (self, other) {
            (Value::NULL, _) => true,
            (_, Value::NULL) => true,
            (Value::I32(_), Value::I32(_)) => true,
            (Value::U8(_), Value::U8(_)) => true,
            _ => false,
        }
    }

    /// The order of two comparable values.
    pub open spec fn spec_cmp(self, other: Value) -> Ordering
        recommends
            self.comparable(other),
    {
        match (self, other) {
            (Value::NULL, Value::NULL) => Ordering::Equal,
            (Value::NULL, _) => Ordering::Less,
            (_, Value::NULL) => Ordering::Greater,
            (Value::I32(a), Value::I32(b)) => if a < b {
                Ordering::Less
            } else if a == b {
                Ordering::Equal
            } else {
                Ordering::Greater
            },
            (Value::U8(a), Value::U8(b)) => if a < b {
                Ordering::Less
            } else if a == b {
                Ordering::Equal
            } else {
                Ordering::Greater
            },
            _ => Ordering::Equal,
        }
    }

    /// Orders two values; callers must not mix two non-`NULL` tags.
    pub fn compare(&self, other: &Value) -> (r: Ordering)
        requires
            self.comparable(*other),
        ensures
            r == self.spec_cmp(*other),
    {
        match (self, other) {
            (Value::NULL, Value::NULL) => Ordering::Equal,
            (Value::NULL, _) => Ordering::Less,
            (_, Value::NULL) => Ordering::Greater,
            (Value::I32(a), Value::I32(b)) => if a < b {
                Ordering::Less
            } else if a == b {
                Ordering::Equal
            } else {
                Ordering::Greater
            },
            (Value::U8(a), Value::U8(b)) => if a < b {
                Ordering::Less
            } else if a == b {
                Ordering::Equal
            } else {
                Ordering::Greater
            },
            _ => Ordering::Equal,
        }
    }

    /// How many bytes `copy_bytes_to` writes for this value.
    pub open spec fn spec_write_len(self) -> nat {
        match self {
            Value::NULL => 0,
            Value::I32(_) => 4,
            Value::U8(_) => 1,
        }
    }

    /// The little-endian byte image of the value; empty for `NULL`,
    /// which leaves its slot untouched.
    pub open spec fn spec_le_bytes(self) -> Seq<u8> {
        match self {
            Value::NULL => Seq::empty(),
            Value::I32(x) => vstd::bytes::spec_u32_to_le_bytes(u32_of_i32(x)),
            Value::U8(x) => seq![x],
        }
    }

    /// The byte image is exactly as long as `spec_write_len` says.
    pub proof fn lemma_le_bytes_len(self)
        ensures
            self.spec_le_bytes().len() == self.spec_write_len(),
    {
        match self {
            Value::I32(_) => {
                vstd::bytes::lemma_auto_spec_u32_to_from_le_bytes();
            },
            _ => {},
        }
    }

    /// Writes the value's byte image into `buf` at `pos`; `NULL` writes
    /// nothing, so a pre-zeroed slot stays zero.
    pub fn copy_bytes_to(&self, buf: &mut Vec<u8>, pos: usize)
        requires
            pos + self.spec_write_len() <= old(buf)@.len(),
        ensures
            final(buf)@ == seq_overwrite(old(buf)@, pos as int, self.spec_le_bytes()),
    {
        match self {
            Value::NULL => {
                proof {
                    assert(buf@ =~= seq_overwrite(buf@, pos as int, Seq::<u8>::empty()));
                }
            },
            Value::I32(v) => {
                let u: u32 = i32_to_u32_bits(*v);
                let bs = vstd::bytes::u32_to_le_bytes(u);
                let _n: usize = buf.len();
                buf[pos] = bs[0];
                buf[pos + 1] = bs[1];
                buf[pos + 2] = bs[2];
                buf[pos + 3] = bs[3];
                proof {
                    assert(buf@ =~= seq_overwrite(old(buf)@, pos as int, self.spec_le_bytes()));
                }
            },
            Value::U8(v) => {
                buf[pos] = *v;
                proof {
                    assert(buf@ =~= seq_overwrite(old(buf)@, pos as int, self.spec_le_bytes()));
                }
            },
        }
    }
}

/// `dst` with `src` written over its bytes starting at `pos`.
pub open spec fn seq_overwrite(dst: Seq<u8>, pos: int, src: Seq<u8>) -> Seq<u8>
    recommends
        0 <= pos,
        pos + src.len() <= dst.len(),
{
    dst.subrange(0, pos) + src + dst.subrange(pos + src.len(), dst.len() as int)
}

/// What each byte of an overwritten sequence reads.
pub proof fn lemma_seq_overwrite_index(dst: Seq<u8>, pos: int, src: Seq<u8>, j: int)
    requires
        0 <= pos,
        pos + src.len() <= dst.len(),
        0 <= j < dst.len(),
    ensures
        seq_overwrite(dst, pos, src).len() == dst.len(),
        seq_overwrite(dst, pos, src)[j] == if pos <= j < pos + src.len() {
            src[j - pos]
        } else {
            dst[j]
        },
{
}

/// Reinterprets the bits of a signed 32-bit number as unsigned.
pub fn i32_to_u32_bits(x: i32) -> (u: u32)
    ensures
        u == u32_of_i32(x),
{
    if x >= 0 {
        x as u32
    } else {
        let wide: i64 = x as i64 + 0x1_0000_0000i64;
        wide as u32
    }
}

/// Reinterprets the bits of an unsigned 32-bit number as signed.
pub fn u32_to_i32_bits(u: u32) -> (x: i32)
    ensures
        x == i32_of_u32(u),
{
    if u < 0x8000_0000 {
        u as i32
    } else {
        let wide: i64 = u as i64 - 0x1_0000_0000i64;
        wide as i32
    }
}

impl PartialOrd for Value {
    /// `NULL` is below every non-`NULL` value; values of distinct
    /// non-`NULL` tags are unordered.
    fn partial_cmp(&self, other: &Value) -> (r: Option<Ordering>) {
        match (self, other) {
            (Value::NULL, Value::NULL) => Some(Ordering::Equal),
            (Value::NULL, _) => Some(Ordering::Less),
            (_, Value::NULL) => Some(Ordering::Greater),
            (Value::I32(a), Value::I32(b)) => if a < b {
                Some(Ordering::Less)
            } else if a == b {
                Some(Ordering::Equal)
            } else {
                Some(Ordering::Greater)
            },
            (Value::U8(a), Value::U8(b)) => if a < b {
                Some(Ordering::Less)
            } else if a == b {
                Some(Ordering::Equal)
            } else {
                Some(Ordering::Greater)
            },
            _ => None,
        }
    }
}

impl vstd::std_specs::cmp::PartialOrdSpecImpl for Value {
    open spec fn obeys_partial_cmp_spec() -> bool {
        true
    }

    open spec fn partial_cmp_spec(&self, other: &Value) -> Option<Ordering> {
        if self.comparable(*other) {
            Some(self.spec_cmp(*other))
        } else {
            None
        }
    }
}

} // verus!
