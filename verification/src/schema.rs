//! Table schemas: field order, byte offsets, and the row and index codecs.
use vstd::prelude::*;

use crate::common::{str_eq, Selection};
use crate::value::{i32_of_u32, seq_overwrite, u32_to_i32_bits, Value};

verus! {

/// The row pointer stored at the tail of every index entry: an absolute
/// byte offset into the table's data image.
pub type TablePtrType = u64;

/// Width in bytes of a stored row pointer.
pub const TABLE_PTR_BYTE_SIZE: usize = 8;

/// The storage type of one column.
#[derive(Debug, Clone, Copy, PartialEq, Eq, Structural)]
pub enum FieldSchema {
    U8,
    I32,
}

impl FieldSchema {
    /// Width in bytes of a slot of this type.
    pub open spec fn spec_byte_size(self) -> nat {
        match self {
            FieldSchema::U8 => 1,
            FieldSchema::I32 => 4,
        }
    }

    pub fn byte_size(&self) -> (n: usize)
        ensures
            n == self.spec_byte_size(),
    {
        match self {
            FieldSchema::U8 => 1,
            FieldSchema::I32 => 4,
        }
    }

    /// The value a slot's leading bytes stand for.
    pub open spec fn spec_value_from_bytes(self, bytes: Seq<u8>) -> Value
        recommends
            bytes.len() >= self.spec_byte_size(),
    {
        match self {
            FieldSchema::U8 => Value::U8(bytes[0]),
            FieldSchema::I32 => Value::I32(
                i32_of_u32(vstd::bytes::spec_u32_from_le_bytes(bytes.subrange(0, 4))),
            ),
        }
    }

    pub fn value_from_bytes(&self, bytes: &[u8]) -> (v: Value)
        requires
            bytes@.len() >= self.spec_byte_size(),
        ensures
            v == self.spec_value_from_bytes(bytes@),
    {
        match self {
            FieldSchema::U8 => Value::U8(*vstd::slice::slice_index_get(bytes, 0)),
            FieldSchema::I32 => {
                let four = vstd::slice::slice_subrange(bytes, 0, 4);
                let u = vstd::bytes::u32_from_le_bytes(four);
                Value::I32(u32_to_i32_bits(u))
            },
        }
    }

    /// A decoded value always bears this slot's own tag, so writing it
    /// back fills exactly the slot.
    pub proof fn lemma_decode_tag(self, bytes: Seq<u8>)
        requires
            bytes.len() >= self.spec_byte_size(),
        ensures
            self.spec_value_from_bytes(bytes).spec_write_len() == self.spec_byte_size(),
            !(self.spec_value_from_bytes(bytes) is NULL),
    {
    }

    /// Decoding a full slot and encoding the value again restores the
    /// slot's bytes.
    pub proof fn lemma_field_round_trip(self, bytes: Seq<u8>)
        requires
            bytes.len() == self.spec_byte_size(),
        ensures
            self.spec_value_from_bytes(bytes).spec_le_bytes() == bytes,
    {
        match self {
            FieldSchema::U8 => {
                assert(self.spec_value_from_bytes(bytes).spec_le_bytes() =~= bytes);
            },
            FieldSchema::I32 => {
                let u = vstd::bytes::spec_u32_from_le_bytes(bytes.subrange(0, 4));
                crate::value::lemma_u32_i32_round_trip(u);
                vstd::bytes::lemma_auto_spec_u32_to_from_le_bytes();
                assert(bytes.subrange(0, 4) =~= bytes);
            },
        }
    }
}

/// The first position in `pairs` whose name reads `name`, or the length
/// of `pairs` when no entry bears it.
pub open spec fn spec_name_index<T>(pairs: Seq<(String, T)>, name: Seq<char>) -> int
    decreases pairs.len(),
{
    if pairs.len() == 0 {
        0
    } else if pairs[0].0@ == name {
        0
    } else {
        1 + spec_name_index(pairs.drop_first(), name)
    }
}

pub open spec fn spec_has_name<T>(pairs: Seq<(String, T)>, name: Seq<char>) -> bool {
    spec_name_index(pairs, name) < pairs.len()
}

pub proof fn lemma_name_index<T>(pairs: Seq<(String, T)>, name: Seq<char>)
    ensures
        0 <= spec_name_index(pairs, name) <= pairs.len(),
        spec_name_index(pairs, name) < pairs.len() ==> pairs[spec_name_index(pairs, name)].0@
            == name,
        forall|k: int|
            0 <= k < spec_name_index(pairs, name) ==> pairs[k].0@ != name,
    decreases pairs.len(),
{
    if pairs.len() > 0 && pairs[0].0@ != name {
        lemma_name_index(pairs.drop_first(), name);
        assert forall|k: int| 0 <= k < spec_name_index(pairs, name) implies pairs[k].0@
            != name by {
            if k > 0 {
                assert(pairs.drop_first()[k - 1] == pairs[k]);
            }
        }
    }
}

/// The first position in `names` reading `name`, or the length.
pub open spec fn spec_names_index(names: Seq<Seq<char>>, name: Seq<char>) -> int
    decreases names.len(),
{
    if names.len() == 0 {
        0
    } else if names[0] == name {
        0
    } else {
        1 + spec_names_index(names.drop_first(), name)
    }
}

pub proof fn lemma_names_index(names: Seq<Seq<char>>, name: Seq<char>)
    ensures
        0 <= spec_names_index(names, name) <= names.len(),
        spec_names_index(names, name) < names.len() ==> names[spec_names_index(names, name)]
            == name,
        forall|k: int| 0 <= k < spec_names_index(names, name) ==> names[k] != name,
    decreases names.len(),
{
    if names.len() > 0 && names[0] != name {
        lemma_names_index(names.drop_first(), name);
        assert forall|k: int| 0 <= k < spec_names_index(names, name) implies names[k] != name by {
            if k > 0 {
                assert(names.drop_first()[k - 1] == names[k]);
            }
        }
    }
}

/// Field values keyed by field name, as an insert supplies them and as a
/// decoded row hands them back.
#[derive(Debug, Clone)]
pub struct ValueMap {
    pairs: Vec<(String, Value)>,
}

impl ValueMap {
    /// The value stored under `name`: the most recent insert wins.
    pub closed spec fn spec_get(self, name: Seq<char>) -> Option<Value> {
        spec_assoc_get(self.pairs@, name)
    }

    pub fn new() -> (m: ValueMap)
        ensures
            forall|n: Seq<char>| m.spec_get(n) is None,
    {
        ValueMap { pairs: Vec::new() }
    }

    /// Binds `name` to `value`, shadowing any earlier binding.
    pub fn insert(&mut self, name: String, value: Value)
        ensures
            final(self).spec_get(name@) == Some(value),
            forall|n: Seq<char>|
                n != name@ ==> final(self).spec_get(n) == old(self).spec_get(n),
    {
        self.pairs.push((name, value));
        proof {
            assert(self.pairs@.drop_last() =~= old(self).pairs@);
        }
    }

    /// Looks the name up; `None` when the map does not bind it.
    pub fn get(&self, name: &str) -> (r: Option<Value>)
        ensures
            r == self.spec_get(name@),
    {
        let n = self.pairs.len();
        proof {
            assert(self.pairs@.take(n as int) =~= self.pairs@);
        }
        let mut i: usize = n;
        while i > 0
            invariant
                0 <= i <= n,
                n == self.pairs@.len(),
                spec_assoc_get(self.pairs@, name@) == spec_assoc_get(
                    self.pairs@.take(i as int),
                    name@,
                ),
            decreases i,
        {
            i = i - 1;
            let entry_name: &String = &self.pairs[i].0;
            proof {
                assert(self.pairs@.take(i as int + 1).last() == self.pairs@[i as int]);
                assert(self.pairs@.take(i as int + 1).drop_last() =~= self.pairs@.take(i as int));
            }
            if str_eq(entry_name.as_str(), name) {
                return Some(self.pairs[i].1);
            }
        }
        proof {
            assert(self.pairs@.take(0) =~= Seq::<(String, Value)>::empty());
        }
        None
    }
}

/// Total byte size of the first `k` declared fields.
pub open spec fn spec_fields_size(fields: Seq<(String, FieldSchema)>, k: int) -> int
    decreases k,
{
    if k <= 0 {
        0
    } else {
        spec_fields_size(fields, k - 1) + fields[k - 1].1.spec_byte_size()
    }
}

pub proof fn lemma_fields_size_monotone(fields: Seq<(String, FieldSchema)>, j: int, k: int)
    requires
        0 <= j <= k,
    ensures
        0 <= spec_fields_size(fields, j) <= spec_fields_size(fields, k),
    decreases j + k,
{
    if j > 0 {
        lemma_fields_size_monotone(fields, j - 1, j - 1);
    }
    if k > j {
        lemma_fields_size_monotone(fields, j, k - 1);
    }
}

/// A named table: its column order (which is the on-disk byte order)
/// and its secondary indices, each an ordered list of field names.
#[derive(Debug)]
pub struct TableSchema {
    pub name: String,
    pub fields: Vec<(String, FieldSchema)>,
    pub indices: Vec<(String, Vec<String>)>,
}

impl TableSchema {
    /// Byte size of one encoded row.
    pub open spec fn spec_row_size(self) -> int {
        spec_fields_size(self.fields@, self.fields@.len() as int)
    }

    pub open spec fn spec_field_index(self, name: Seq<char>) -> int {
        spec_name_index(self.fields@, name)
    }

    pub open spec fn spec_has_field(self, name: Seq<char>) -> bool {
        spec_has_name(self.fields@, name)
    }

    pub open spec fn spec_field_schema(self, name: Seq<char>) -> FieldSchema {
        self.fields@[self.spec_field_index(name)].1
    }

    /// Byte offset of a declared field inside a row image.
    pub open spec fn spec_field_pos(self, name: Seq<char>) -> int {
        spec_fields_size(self.fields@, self.spec_field_index(name))
    }

    pub open spec fn spec_index_index(self, index_name: Seq<char>) -> int {
        spec_name_index(self.indices@, index_name)
    }

    pub open spec fn spec_has_index(self, index_name: Seq<char>) -> bool {
        spec_has_name(self.indices@, index_name)
    }

    /// The field names of an index, in sort-key order.
    pub open spec fn spec_index_fields(self, index_name: Seq<char>) -> Seq<Seq<char>> {
        self.indices@[self.spec_index_index(index_name)].1@.map_values(|s: String| s@)
    }

    /// Total byte size of the first `k` fields named by `names`.
    pub open spec fn spec_names_size(self, names: Seq<Seq<char>>, k: int) -> int
        decreases k,
    {
        if k <= 0 {
            0
        } else {
            self.spec_names_size(names, k - 1) + self.spec_field_schema(
                names[k - 1],
            ).spec_byte_size()
        }
    }

    pub proof fn lemma_names_size_monotone(self, names: Seq<Seq<char>>, j: int, k: int)
        requires
            0 <= j <= k,
        ensures
            0 <= self.spec_names_size(names, j) <= self.spec_names_size(names, k),
        decreases j + k,
    {
        if j > 0 {
            self.lemma_names_size_monotone(names, j - 1, j - 1);
        }
        if k > j {
            self.lemma_names_size_monotone(names, j, k - 1);
        }
    }

    /// Every field takes at least one byte, so `k` fields take at
    /// least `k`.
    pub proof fn lemma_names_size_lower(self, names: Seq<Seq<char>>, k: int)
        requires
            0 <= k,
        ensures
            self.spec_names_size(names, k) >= k,
        decreases k,
    {
        if k > 0 {
            self.lemma_names_size_lower(names, k - 1);
        }
    }

    /// Byte size of one entry of the named index: its key fields
    /// followed by the 8-byte row pointer.
    pub open spec fn spec_index_entry_size(self, index_name: Seq<char>) -> int {
        let names = self.spec_index_fields(index_name);
        self.spec_names_size(names, names.len() as int) + 8
    }

    /// Byte offset of an index field inside an entry of that index.
    pub open spec fn spec_index_field_pos(self, index_name: Seq<char>, field: Seq<char>) -> int {
        let names = self.spec_index_fields(index_name);
        self.spec_names_size(names, spec_names_index(names, field))
    }

    /// The fields of one index are declared fields, named at most once.
    pub open spec fn spec_index_wf(self, names: Seq<Seq<char>>) -> bool {
        &&& forall|k: int| 0 <= k < names.len() ==> self.spec_has_field(#[trigger] names[k])
        &&& forall|k: int, l: int| 0 <= k < l < names.len() ==> names[k] != names[l]
    }

    /// Well-formedness: names unique, index fields declared, and byte
    /// sizes small enough for address arithmetic.
    pub open spec fn wf(self) -> bool {
        &&& forall|i: int, j: int|
            0 <= i < j < self.fields@.len() ==> self.fields@[i].0@ != self.fields@[j].0@
        &&& forall|i: int, j: int|
            0 <= i < j < self.indices@.len() ==> self.indices@[i].0@ != self.indices@[j].0@
        &&& forall|i: int|
            0 <= i < self.indices@.len() ==> self.spec_index_wf(
                (#[trigger] self.indices@[i]).1@.map_values(|s: String| s@),
            )
        &&& forall|i: int|
            0 <= i < self.indices@.len() ==> self.spec_index_entry_size(
                #[trigger] self.indices@[i].0@,
            ) <= 0x7FFF_FFFF
        &&& self.spec_row_size() <= 0xFFFF_FFFF
    }

    pub fn row_byte_size(&self) -> (n: usize)
        requires
            self.wf(),
        ensures
            n == self.spec_row_size(),
    {
        let len = self.fields.len();
        let mut pos: usize = 0;
        let mut i: usize = 0;
        while i < len
            invariant
                0 <= i <= len,
                len == self.fields@.len(),
                pos == spec_fields_size(self.fields@, i as int),
                self.wf(),
            decreases len - i,
        {
            proof {
                lemma_fields_size_monotone(self.fields@, i as int + 1, len as int);
            }
            pos = pos + self.fields[i].1.byte_size();
            i = i + 1;
        }
        pos
    }

    pub fn field_byte_pos(&self, field_name: &str) -> (pos: usize)
        requires
            self.wf(),
            self.spec_has_field(field_name@),
        ensures
            pos == self.spec_field_pos(field_name@),
    {
        proof {
            lemma_name_index(self.fields@, field_name@);
        }
        let len = self.fields.len();
        let mut pos: usize = 0;
        let mut i: usize = 0;
        while i < len
            invariant
                0 <= i <= len,
                len == self.fields@.len(),
                self.wf(),
                self.spec_has_field(field_name@),
                i <= self.spec_field_index(field_name@) < len,
                self.fields@[self.spec_field_index(field_name@)].0@ == field_name@,
                forall|k: int|
                    0 <= k < self.spec_field_index(field_name@) ==> self.fields@[k].0@
                        != field_name@,
                pos == spec_fields_size(self.fields@, i as int),
            decreases len - i,
        {
            if str_eq(self.fields[i].0.as_str(), field_name) {
                return pos;
            }
            proof {
                lemma_fields_size_monotone(self.fields@, i as int + 1, len as int);
            }
            pos = pos + self.fields[i].1.byte_size();
            i = i + 1;
        }
        proof {
            assert(false);
        }
        0
    }

    /// The storage type of a declared field.
    pub fn field_schema(&self, field_name: &str) -> (fs: FieldSchema)
        requires
            self.wf(),
            self.spec_has_field(field_name@),
        ensures
            fs == self.spec_field_schema(field_name@),
    {
        proof {
            lemma_name_index(self.fields@, field_name@);
        }
        let len = self.fields.len();
        let mut i: usize = 0;
        while i < len
            invariant
                0 <= i <= len,
                len == self.fields@.len(),
                self.wf(),
                i <= self.spec_field_index(field_name@) < len,
                self.fields@[self.spec_field_index(field_name@)].0@ == field_name@,
                forall|k: int|
                    0 <= k < self.spec_field_index(field_name@) ==> self.fields@[k].0@
                        != field_name@,
            decreases len - i,
        {
            if str_eq(self.fields[i].0.as_str(), field_name) {
                return self.fields[i].1;
            }
            i = i + 1;
        }
        proof {
            assert(false);
        }
        FieldSchema::U8
    }

    /// The position of a declared index in the schema's index list.
    pub fn index_position(&self, index_name: &str) -> (i: usize)
        requires
            self.wf(),
            self.spec_has_index(index_name@),
        ensures
            i == self.spec_index_index(index_name@),
            i < self.indices@.len(),
    {
        proof {
            lemma_name_index(self.indices@, index_name@);
        }
        let len = self.indices.len();
        let mut i: usize = 0;
        while i < len
            invariant
                0 <= i <= len,
                len == self.indices@.len(),
                self.wf(),
                i <= self.spec_index_index(index_name@) < len,
                self.indices@[self.spec_index_index(index_name@)].0@ == index_name@,
                forall|k: int|
                    0 <= k < self.spec_index_index(index_name@) ==> self.indices@[k].0@
                        != index_name@,
            decreases len - i,
        {
            if str_eq(self.indices[i].0.as_str(), index_name) {
                return i;
            }
            i = i + 1;
        }
        proof {
            assert(false);
        }
        0
    }

    /// The ordered field-name list of a declared index.
    pub fn index_fields(&self, index_name: &str) -> (fs: &Vec<String>)
        requires
            self.wf(),
            self.spec_has_index(index_name@),
        ensures
            fs@.map_values(|s: String| s@) == self.spec_index_fields(index_name@),
    {
        proof {
            lemma_name_index(self.indices@, index_name@);
        }
        let len = self.indices.len();
        let mut i: usize = 0;
        while i < len
            invariant
                0 <= i <= len,
                len == self.indices@.len(),
                self.wf(),
                i <= self.spec_index_index(index_name@) < len,
                self.indices@[self.spec_index_index(index_name@)].0@ == index_name@,
                forall|k: int|
                    0 <= k < self.spec_index_index(index_name@) ==> self.indices@[k].0@
                        != index_name@,
            decreases len - i,
        {
            if str_eq(self.indices[i].0.as_str(), index_name) {
                return &self.indices[i].1;
            }
            i = i + 1;
        }
        proof {
            assert(false);
        }
        &self.indices[0].1
    }

    pub fn index_row_byte_size(&self, index_name: &str) -> (n: usize)
        requires
            self.wf(),
            self.spec_has_index(index_name@),
        ensures
            n == self.spec_index_entry_size(index_name@),
    {
        proof {
            lemma_name_index(self.indices@, index_name@);
        }
        let ghost names = self.spec_index_fields(index_name@);
        let fields_list = self.index_fields(index_name);
        let len = fields_list.len();
        let mut total: usize = 0;
        let mut k: usize = 0;
        while k < len
            invariant
                0 <= k <= len,
                len == names.len(),
                names == fields_list@.map_values(|s: String| s@),
                self.wf(),
                self.spec_has_index(index_name@),
                names == self.spec_index_fields(index_name@),
                self.spec_index_entry_size(index_name@) <= 0xFFFF_FFFF,
                self.spec_index_wf(names),
                total == self.spec_names_size(names, k as int),
            decreases len - k,
        {
            proof {
                self.lemma_names_size_monotone(names, k as int + 1, len as int);
                assert(names[k as int] == fields_list@[k as int]@);
            }
            total = total + self.field_schema(fields_list[k].as_str()).byte_size();
            k = k + 1;
        }
        total + 8
    }

    pub fn index_field_byte_pos(&self, index_name: &str, index_field: &str) -> (pos: usize)
        requires
            self.wf(),
            self.spec_has_index(index_name@),
            spec_names_index(
                self.spec_index_fields(index_name@),
                index_field@,
            ) < self.spec_index_fields(index_name@).len(),
        ensures
            pos == self.spec_index_field_pos(index_name@, index_field@),
    {
        proof {
            lemma_name_index(self.indices@, index_name@);
            lemma_names_index(self.spec_index_fields(index_name@), index_field@);
        }
        let ghost names = self.spec_index_fields(index_name@);
        let fields_list = self.index_fields(index_name);
        let len = fields_list.len();
        let mut total: usize = 0;
        let mut k: usize = 0;
        while k < len
            invariant
                0 <= k <= len,
                len == names.len(),
                names == fields_list@.map_values(|s: String| s@),
                self.wf(),
                self.spec_has_index(index_name@),
                names == self.spec_index_fields(index_name@),
                self.spec_index_entry_size(index_name@) <= 0xFFFF_FFFF,
                self.spec_index_wf(names),
                k <= spec_names_index(names, index_field@) < len,
                names[spec_names_index(names, index_field@)] == index_field@,
                forall|j: int|
                    0 <= j < spec_names_index(names, index_field@) ==> names[j] != index_field@,
                total == self.spec_names_size(names, k as int),
            decreases len - k,
        {
            proof {
                assert(names[k as int] == fields_list@[k as int]@);
            }
            if str_eq(fields_list[k].as_str(), index_field) {
                return total;
            }
            proof {
                self.lemma_names_size_monotone(names, k as int + 1, len as int);
            }
            total = total + self.field_schema(fields_list[k].as_str()).byte_size();
            k = k + 1;
        }
        proof {
            assert(false);
        }
        0
    }

    /// Byte offset of the row pointer inside an entry of the named
    /// index: the last eight bytes.
    pub fn index_row_ptr_field_byte_pos(&self, index_name: &str) -> (pos: usize)
        requires
            self.wf(),
            self.spec_has_index(index_name@),
        ensures
            pos == self.spec_index_entry_size(index_name@) - 8,
    {
        let n = self.index_row_byte_size(index_name);
        proof {
            let names = self.spec_index_fields(index_name@);
            self.lemma_names_size_monotone(names, 0, names.len() as int);
        }
        n - 8
    }
}

impl TableSchema {
    /// Values suitable for this schema: every bound name is a declared
    /// field, and every non-`NULL` value fills its field's slot exactly.
    pub open spec fn spec_values_wf(self, values: ValueMap) -> bool {
        forall|n: Seq<char>|
            (#[trigger] values.spec_get(n)) is Some ==> self.spec_has_field(n) && (
            values.spec_get(n)->Some_0 is NULL || values.spec_get(n)->Some_0.spec_write_len()
                == self.spec_field_schema(n).spec_byte_size())
    }

    /// The row image after the first `k` fields have been written: a
    /// zero-filled buffer with each provided value at its offset.
    pub open spec fn spec_row_bytes_upto(self, values: ValueMap, k: int) -> Seq<u8>
        decreases k,
    {
        if k <= 0 {
            Seq::new(self.spec_row_size() as nat, |i: int| 0u8)
        } else {
            let prev = self.spec_row_bytes_upto(values, k - 1);
            match values.spec_get(self.fields@[k - 1].0@) {
                Some(v) => seq_overwrite(
                    prev,
                    spec_fields_size(self.fields@, k - 1),
                    v.spec_le_bytes(),
                ),
                None => prev,
            }
        }
    }

    /// The row image that an insert of `values` stores.
    pub open spec fn spec_row_bytes(self, values: ValueMap) -> Seq<u8> {
        self.spec_row_bytes_upto(values, self.fields@.len() as int)
    }

    pub proof fn lemma_row_bytes_len(self, values: ValueMap, k: int)
        requires
            self.wf(),
            self.spec_values_wf(values),
            0 <= k <= self.fields@.len(),
        ensures
            self.spec_row_bytes_upto(values, k).len() == self.spec_row_size(),
        decreases k,
    {
        lemma_fields_size_monotone(self.fields@, 0, self.fields@.len() as int);
        if k > 0 {
            self.lemma_row_bytes_len(values, k - 1);
            match values.spec_get(self.fields@[k - 1].0@) {
                Some(v) => {
                    v.lemma_le_bytes_len();
                    lemma_name_index(self.fields@, self.fields@[k - 1].0@);
                    assert(self.spec_field_index(self.fields@[k - 1].0@) == k - 1);
                    lemma_fields_size_monotone(self.fields@, k, self.fields@.len() as int);
                    lemma_fields_size_monotone(self.fields@, k - 1, k);
                },
                None => {},
            }
        }
    }

    /// Encodes `values` as one fixed-width row image; unprovided and
    /// `NULL` fields stay zero.
    pub fn data_row_to_bytes(&self, values: &ValueMap) -> (bytes: Vec<u8>)
        requires
            self.wf(),
            self.spec_values_wf(*values),
        ensures
            bytes@ == self.spec_row_bytes(*values),
    {
        let row_size = self.row_byte_size();
        let mut bytes: Vec<u8> = vec![0u8; row_size];
        proof {
            assert(bytes@ =~= self.spec_row_bytes_upto(*values, 0));
        }
        let len = self.fields.len();
        let mut pos: usize = 0;
        let mut i: usize = 0;
        while i < len
            invariant
                0 <= i <= len,
                len == self.fields@.len(),
                self.wf(),
                self.spec_values_wf(*values),
                pos == spec_fields_size(self.fields@, i as int),
                bytes@ == self.spec_row_bytes_upto(*values, i as int),
            decreases len - i,
        {
            proof {
                self.lemma_row_bytes_len(*values, i as int);
                lemma_fields_size_monotone(self.fields@, i as int + 1, len as int);
                lemma_name_index(self.fields@, self.fields@[i as int].0@);
                assert(self.spec_field_index(self.fields@[i as int].0@) == i as int);
            }
            let field_name: &String = &self.fields[i].0;
            match values.get(field_name.as_str()) {
                Some(v) => {
                    v.copy_bytes_to(&mut bytes, pos);
                },
                None => {},
            }
            pos = pos + self.fields[i].1.byte_size();
            i = i + 1;
        }
        bytes
    }

    /// The value a row image stores for a declared field.
    pub open spec fn spec_decoded_field(self, bytes: Seq<u8>, name: Seq<char>) -> Value {
        self.spec_field_schema(name).spec_value_from_bytes(bytes.skip(self.spec_field_pos(name)))
    }

    /// Decodes a row image into a value for every declared field.
    pub fn parse_row_bytes(&self, bytes: &[u8]) -> (out: ValueMap)
        requires
            self.wf(),
            bytes@.len() >= self.spec_row_size(),
        ensures
            forall|n: Seq<char>|
                #[trigger] out.spec_get(n) == (if self.spec_has_field(n) {
                    Some(self.spec_decoded_field(bytes@, n))
                } else {
                    None::<Value>
                }),
    {
        let mut out = ValueMap::new();
        let len = self.fields.len();
        let mut pos: usize = 0;
        let mut i: usize = 0;
        while i < len
            invariant
                0 <= i <= len,
                len == self.fields@.len(),
                self.wf(),
                bytes@.len() >= self.spec_row_size(),
                pos == spec_fields_size(self.fields@, i as int),
                forall|n: Seq<char>|
                    #[trigger] out.spec_get(n) == (if self.spec_has_field(n) && 0
                        <= self.spec_field_index(n) < i {
                        Some(self.spec_decoded_field(bytes@, n))
                    } else {
                        None::<Value>
                    }),
            decreases len - i,
        {
            let ghost out0 = out;
            proof {
                lemma_fields_size_monotone(self.fields@, i as int + 1, len as int);
                lemma_name_index(self.fields@, self.fields@[i as int].0@);
                assert(self.spec_field_index(self.fields@[i as int].0@) == i as int);
            }
            let field_name: String = self.fields[i].0.clone();
            let fs = self.fields[i].1;
            let rest = vstd::slice::slice_subrange(bytes, pos, bytes.len());
            let v = fs.value_from_bytes(rest);
            proof {
                assert(rest@ =~= bytes@.skip(pos as int));
            }
            out.insert(field_name, v);
            proof {
                let fi = i as int;
                assert forall|n: Seq<char>|
                    #[trigger] out.spec_get(n) == (if self.spec_has_field(n) && 0
                        <= self.spec_field_index(n) < fi + 1 {
                        Some(self.spec_decoded_field(bytes@, n))
                    } else {
                        None::<Value>
                    }) by {
                    lemma_name_index(self.fields@, n);
                    if n == self.fields@[fi].0@ {
                        assert(out.spec_get(n) == Some(v));
                    } else {
                        assert(out.spec_get(n) == out0.spec_get(n));
                        if self.spec_has_field(n) && self.spec_field_index(n) == fi {
                            assert(self.fields@[fi].0@ == n);
                        }
                    }
                }
            }
            pos = pos + fs.byte_size();
            i = i + 1;
        }
        proof {
            assert forall|n: Seq<char>|
                #[trigger] out.spec_get(n) == (if self.spec_has_field(n) {
                    Some(self.spec_decoded_field(bytes@, n))
                } else {
                    None::<Value>
                }) by {
                lemma_name_index(self.fields@, n);
            }
        }
        out
    }
}

/// The bytes one field slot holds once values are encoded: the value's
/// image when a non-`NULL` one was provided, zeros otherwise.
pub open spec fn spec_slot_bytes(ov: Option<Value>, fs: FieldSchema) -> Seq<u8> {
    match ov {
        Some(v) => if v is NULL {
            Seq::new(fs.spec_byte_size(), |i: int| 0u8)
        } else {
            v.spec_le_bytes()
        },
        None => Seq::new(fs.spec_byte_size(), |i: int| 0u8),
    }
}

/// Reading a decoded value out of a longer image only looks at the slot.
pub proof fn lemma_decode_at(fs: FieldSchema, s: Seq<u8>, p: int)
    requires
        0 <= p,
        p + fs.spec_byte_size() <= s.len(),
    ensures
        fs.spec_value_from_bytes(s.skip(p)) == fs.spec_value_from_bytes(
            s.subrange(p, p + fs.spec_byte_size()),
        ),
{
    let sub = s.subrange(p, p + fs.spec_byte_size());
    match fs {
        FieldSchema::U8 => {
            assert(s.skip(p)[0] == sub[0]);
        },
        FieldSchema::I32 => {
            assert(s.skip(p).subrange(0, 4) =~= sub.subrange(0, 4));
        },
    }
}

impl TableSchema {
    proof fn lemma_row_bytes_upto_slot(self, values: ValueMap, n: Seq<char>, k: int)
        requires
            self.wf(),
            self.spec_values_wf(values),
            self.spec_has_field(n),
            0 <= k <= self.fields@.len(),
        ensures
            forall|j: int|
                0 <= j < self.spec_field_schema(n).spec_byte_size()
                    ==> #[trigger] self.spec_row_bytes_upto(values, k)[self.spec_field_pos(n) + j]
                    == (if self.spec_field_index(n) < k {
                    spec_slot_bytes(values.spec_get(n), self.spec_field_schema(n))[j]
                } else {
                    0u8
                }),
        decreases k,
    {
        lemma_name_index(self.fields@, n);
        let nidx = self.spec_field_index(n);
        let npos = self.spec_field_pos(n);
        let nsize = self.spec_field_schema(n).spec_byte_size() as int;
        self.lemma_row_bytes_len(values, k);
        lemma_fields_size_monotone(self.fields@, nidx + 1, self.fields@.len() as int);
        lemma_fields_size_monotone(self.fields@, nidx, nidx + 1);
        lemma_fields_size_monotone(self.fields@, 0, nidx);
        if k <= 0 {
        } else {
            self.lemma_row_bytes_upto_slot(values, n, k - 1);
            self.lemma_row_bytes_len(values, k - 1);
            let m = k - 1;
            let nm = self.fields@[m].0@;
            lemma_name_index(self.fields@, nm);
            assert(self.spec_field_index(nm) == m);
            let prev = self.spec_row_bytes_upto(values, k - 1);
            let mpos = spec_fields_size(self.fields@, m);
            let msize = self.fields@[m].1.spec_byte_size() as int;
            lemma_fields_size_monotone(self.fields@, m, m + 1);
            lemma_fields_size_monotone(self.fields@, m + 1, self.fields@.len() as int);
            match values.spec_get(nm) {
                Some(v) => {
                    v.lemma_le_bytes_len();
                    let src = v.spec_le_bytes();
                    assert forall|j: int| 0 <= j < nsize implies #[trigger] self.spec_row_bytes_upto(
                        values,
                        k,
                    )[npos + j] == (if nidx < k {
                        spec_slot_bytes(values.spec_get(n), self.spec_field_schema(n))[j]
                    } else {
                        0u8
                    }) by {
                        crate::value::lemma_seq_overwrite_index(prev, mpos, src, npos + j);
                        if m == nidx {
                            assert(nm == n);
                        } else {
                            if m < nidx {
                                lemma_fields_size_monotone(self.fields@, m + 1, nidx);
                                assert(mpos + msize <= npos);
                            } else {
                                lemma_fields_size_monotone(self.fields@, nidx + 1, m);
                                assert(npos + nsize <= mpos);
                            }
                        }
                    }
                },
                None => {},
            }
        }
    }

    /// The slot of a declared field inside an encoded row image.
    pub proof fn lemma_row_slot(self, values: ValueMap, n: Seq<char>)
        requires
            self.wf(),
            self.spec_values_wf(values),
            self.spec_has_field(n),
        ensures
            self.spec_row_bytes(values).len() == self.spec_row_size(),
            0 <= self.spec_field_pos(n),
            self.spec_field_pos(n) + self.spec_field_schema(n).spec_byte_size()
                <= self.spec_row_size(),
            self.spec_row_bytes(values).subrange(
                self.spec_field_pos(n),
                self.spec_field_pos(n) + self.spec_field_schema(n).spec_byte_size(),
            ) == spec_slot_bytes(values.spec_get(n), self.spec_field_schema(n)),
    {
        let len = self.fields@.len() as int;
        lemma_name_index(self.fields@, n);
        let nidx = self.spec_field_index(n);
        lemma_fields_size_monotone(self.fields@, 0, nidx);
        lemma_fields_size_monotone(self.fields@, nidx, nidx + 1);
        lemma_fields_size_monotone(self.fields@, nidx + 1, len);
        self.lemma_row_bytes_len(values, len);
        self.lemma_row_bytes_upto_slot(values, n, len);
        match values.spec_get(n) {
            Some(v) => {
                v.lemma_le_bytes_len();
            },
            None => {},
        }
        let nsize = self.spec_field_schema(n).spec_byte_size() as int;
        let npos = self.spec_field_pos(n);
        let full = self.spec_row_bytes(values);
        let slot = spec_slot_bytes(values.spec_get(n), self.spec_field_schema(n));
        assert(slot.len() == nsize);
        assert forall|j: int| 0 <= j < nsize implies full[npos + j] == slot[j] by {
            assert(self.spec_row_bytes_upto(values, len)[npos + j] == (if nidx < len {
                slot[j]
            } else {
                0u8
            }));
        }
        assert(full.subrange(npos, npos + nsize) =~= slot);
    }
}

impl TableSchema {
    /// The key part of an index entry after the first `k` index fields
    /// have been written.
    pub open spec fn spec_index_entry_bytes_upto(
        self,
        index_name: Seq<char>,
        values: ValueMap,
        k: int,
    ) -> Seq<u8>
        decreases k,
    {
        if k <= 0 {
            Seq::new(self.spec_index_entry_size(index_name) as nat, |i: int| 0u8)
        } else {
            let names = self.spec_index_fields(index_name);
            let prev = self.spec_index_entry_bytes_upto(index_name, values, k - 1);
            match values.spec_get(names[k - 1]) {
                Some(v) => seq_overwrite(
                    prev,
                    self.spec_names_size(names, k - 1),
                    v.spec_le_bytes(),
                ),
                None => prev,
            }
        }
    }

    /// The index entry an insert stores: the key fields in index order,
    /// then the row pointer as its trailing eight bytes.
    pub open spec fn spec_index_entry_bytes(
        self,
        index_name: Seq<char>,
        values: ValueMap,
        ptr: u64,
    ) -> Seq<u8> {
        let names = self.spec_index_fields(index_name);
        seq_overwrite(
            self.spec_index_entry_bytes_upto(index_name, values, names.len() as int),
            self.spec_index_entry_size(index_name) - 8,
            vstd::bytes::spec_u64_to_le_bytes(ptr),
        )
    }

    pub proof fn lemma_index_entry_upto_len(self, index_name: Seq<char>, values: ValueMap, k: int)
        requires
            self.wf(),
            self.spec_has_index(index_name),
            self.spec_values_wf(values),
            0 <= k <= self.spec_index_fields(index_name).len(),
        ensures
            self.spec_index_entry_bytes_upto(index_name, values, k).len()
                == self.spec_index_entry_size(index_name),
        decreases k,
    {
        let names = self.spec_index_fields(index_name);
        let len = names.len() as int;
        lemma_name_index(self.indices@, index_name);
        self.lemma_names_size_monotone(names, 0, len);
        if k > 0 {
            self.lemma_index_entry_upto_len(index_name, values, k - 1);
            match values.spec_get(names[k - 1]) {
                Some(v) => {
                    v.lemma_le_bytes_len();
                    assert(self.spec_has_field(names[k - 1]));
                    self.lemma_names_size_monotone(names, k - 1, k);
                    self.lemma_names_size_monotone(names, k, len);
                    self.lemma_names_size_monotone(names, 0, k - 1);
                },
                None => {},
            }
        }
    }

    pub proof fn lemma_index_entry_bytes_len(
        self,
        index_name: Seq<char>,
        values: ValueMap,
        ptr: u64,
        k: int,
    )
        requires
            self.wf(),
            self.spec_has_index(index_name),
            self.spec_values_wf(values),
            0 <= k <= self.spec_index_fields(index_name).len(),
        ensures
            self.spec_index_entry_bytes_upto(index_name, values, k).len()
                == self.spec_index_entry_size(index_name),
            self.spec_index_entry_bytes(index_name, values, ptr).len()
                == self.spec_index_entry_size(index_name),
    {
        let names = self.spec_index_fields(index_name);
        let len = names.len() as int;
        lemma_name_index(self.indices@, index_name);
        self.lemma_names_size_monotone(names, 0, len);
        vstd::bytes::lemma_auto_spec_u64_to_from_le_bytes();
        self.lemma_index_entry_upto_len(index_name, values, k);
        self.lemma_index_entry_upto_len(index_name, values, len);
    }

    proof fn lemma_index_entry_upto_slot(
        self,
        index_name: Seq<char>,
        values: ValueMap,
        f: int,
        k: int,
    )
        requires
            self.wf(),
            self.spec_has_index(index_name),
            self.spec_values_wf(values),
            0 <= f < self.spec_index_fields(index_name).len(),
            0 <= k <= self.spec_index_fields(index_name).len(),
        ensures
            ({
                let names = self.spec_index_fields(index_name);
                let fpos = self.spec_names_size(names, f);
                let fs = self.spec_field_schema(names[f]);
                forall|j: int|
                    0 <= j < fs.spec_byte_size()
                        ==> #[trigger] self.spec_index_entry_bytes_upto(index_name, values, k)[fpos
                        + j] == (if f < k {
                        spec_slot_bytes(values.spec_get(names[f]), fs)[j]
                    } else {
                        0u8
                    })
            }),
        decreases k,
    {
        let names = self.spec_index_fields(index_name);
        let len = names.len() as int;
        let fpos = self.spec_names_size(names, f);
        let fs = self.spec_field_schema(names[f]);
        let fsize = fs.spec_byte_size() as int;
        lemma_name_index(self.indices@, index_name);
        self.lemma_names_size_monotone(names, 0, f);
        self.lemma_names_size_monotone(names, f, f + 1);
        self.lemma_names_size_monotone(names, f + 1, len);
        self.lemma_index_entry_bytes_len(index_name, values, 0u64, k);
        if k > 0 {
            self.lemma_index_entry_upto_slot(index_name, values, f, k - 1);
            self.lemma_index_entry_bytes_len(index_name, values, 0u64, k - 1);
            let m = k - 1;
            let prev = self.spec_index_entry_bytes_upto(index_name, values, k - 1);
            let mpos = self.spec_names_size(names, m);
            let msize = self.spec_field_schema(names[m]).spec_byte_size() as int;
            self.lemma_names_size_monotone(names, m, m + 1);
            self.lemma_names_size_monotone(names, m + 1, len);
            match values.spec_get(names[m]) {
                Some(v) => {
                    v.lemma_le_bytes_len();
                    let src = v.spec_le_bytes();
                    assert forall|j: int| 0 <= j < fsize implies #[trigger] self.spec_index_entry_bytes_upto(
                        index_name,
                        values,
                        k,
                    )[fpos + j] == (if f < k {
                        spec_slot_bytes(values.spec_get(names[f]), fs)[j]
                    } else {
                        0u8
                    }) by {
                        crate::value::lemma_seq_overwrite_index(prev, mpos, src, fpos + j);
                        if m != f {
                            if m < f {
                                self.lemma_names_size_monotone(names, m + 1, f);
                                assert(mpos + msize <= fpos);
                            } else {
                                self.lemma_names_size_monotone(names, f + 1, m);
                                assert(fpos + fsize <= mpos);
                            }
                        }
                    }
                },
                None => {},
            }
        }
    }

    /// The slot of an index field inside an encoded index entry, and
    /// the row pointer stored in its tail.
    pub proof fn lemma_index_entry_slots(
        self,
        index_name: Seq<char>,
        values: ValueMap,
        ptr: u64,
    )
        requires
            self.wf(),
            self.spec_has_index(index_name),
            self.spec_values_wf(values),
        ensures
            self.spec_index_entry_bytes(index_name, values, ptr).len()
                == self.spec_index_entry_size(index_name),
            vstd::bytes::spec_u64_from_le_bytes(
                self.spec_index_entry_bytes(index_name, values, ptr).subrange(
                    self.spec_index_entry_size(index_name) - 8,
                    self.spec_index_entry_size(index_name),
                ),
            ) == ptr,
            forall|f: int|
                0 <= f < self.spec_index_fields(index_name).len()
                    ==> #[trigger] self.spec_index_entry_bytes(index_name, values, ptr).subrange(
                    self.spec_index_field_pos(
                        index_name,
                        self.spec_index_fields(index_name)[f],
                    ),
                    self.spec_index_field_pos(index_name, self.spec_index_fields(index_name)[f])
                        + self.spec_field_schema(
                        self.spec_index_fields(index_name)[f],
                    ).spec_byte_size(),
                ) == spec_slot_bytes(
                    values.spec_get(self.spec_index_fields(index_name)[f]),
                    self.spec_field_schema(self.spec_index_fields(index_name)[f]),
                ),
    {
        let names = self.spec_index_fields(index_name);
        let len = names.len() as int;
        let esize = self.spec_index_entry_size(index_name);
        let upto = self.spec_index_entry_bytes_upto(index_name, values, len);
        let entry = self.spec_index_entry_bytes(index_name, values, ptr);
        let pbs = vstd::bytes::spec_u64_to_le_bytes(ptr);
        lemma_name_index(self.indices@, index_name);
        self.lemma_names_size_monotone(names, 0, len);
        vstd::bytes::lemma_auto_spec_u64_to_from_le_bytes();
        self.lemma_index_entry_bytes_len(index_name, values, ptr, len);
        assert forall|j: int| 0 <= j < 8 implies entry[esize - 8 + j] == pbs[j] by {
            crate::value::lemma_seq_overwrite_index(upto, esize - 8, pbs, esize - 8 + j);
        }
        assert(entry.subrange(esize - 8, esize) =~= pbs);
        assert forall|f: int| 0 <= f < len implies #[trigger] entry.subrange(
            self.spec_index_field_pos(index_name, names[f]),
            self.spec_index_field_pos(index_name, names[f]) + self.spec_field_schema(
                names[f],
            ).spec_byte_size(),
        ) == spec_slot_bytes(values.spec_get(names[f]), self.spec_field_schema(names[f])) by {
            lemma_names_index(names, names[f]);
            assert(spec_names_index(names, names[f]) == f);
            let fpos = self.spec_names_size(names, f);
            let fs = self.spec_field_schema(names[f]);
            let fsize = fs.spec_byte_size() as int;
            let slot = spec_slot_bytes(values.spec_get(names[f]), fs);
            self.lemma_names_size_monotone(names, 0, f);
            self.lemma_names_size_monotone(names, f, f + 1);
            self.lemma_names_size_monotone(names, f + 1, len);
            match values.spec_get(names[f]) {
                Some(v) => {
                    v.lemma_le_bytes_len();
                    assert(self.spec_has_field(names[f]));
                },
                None => {},
            }
            assert(slot.len() == fsize);
            self.lemma_index_entry_upto_slot(index_name, values, f, len);
            assert forall|j: int| 0 <= j < fsize implies entry[fpos + j] == slot[j] by {
                assert(upto[fpos + j] == (if f < len {
                    slot[j]
                } else {
                    0u8
                }));
                crate::value::lemma_seq_overwrite_index(upto, esize - 8, pbs, fpos + j);
            }
            assert(entry.subrange(fpos, fpos + fsize) =~= slot);
        }
    }

    /// Encodes the key fields of `values` and the row pointer as one
    /// index entry image.
    pub fn index_row_to_bytes(&self, index_name: &str, values: &ValueMap, row_ptr: u64) -> (out:
        Vec<u8>)
        requires
            self.wf(),
            self.spec_has_index(index_name@),
            self.spec_values_wf(*values),
        ensures
            out@ == self.spec_index_entry_bytes(index_name@, *values, row_ptr),
    {
        proof {
            lemma_name_index(self.indices@, index_name@);
        }
        let ghost names = self.spec_index_fields(index_name@);
        let entry_size = self.index_row_byte_size(index_name);
        let mut out: Vec<u8> = vec![0u8; entry_size];
        proof {
            assert(out@ =~= self.spec_index_entry_bytes_upto(index_name@, *values, 0));
        }
        let fields_list = self.index_fields(index_name);
        let len = fields_list.len();
        let mut pos: usize = 0;
        let mut k: usize = 0;
        while k < len
            invariant
                0 <= k <= len,
                len == names.len(),
                names == fields_list@.map_values(|s: String| s@),
                self.wf(),
                self.spec_has_index(index_name@),
                self.spec_values_wf(*values),
                names == self.spec_index_fields(index_name@),
                entry_size == self.spec_index_entry_size(index_name@),
                self.spec_index_wf(names),
                pos == self.spec_names_size(names, k as int),
                out@ == self.spec_index_entry_bytes_upto(index_name@, *values, k as int),
            decreases len - k,
        {
            proof {
                assert(names[k as int] == fields_list@[k as int]@);
                self.lemma_names_size_monotone(names, k as int, k as int + 1);
                self.lemma_names_size_monotone(names, k as int + 1, len as int);
                self.lemma_index_entry_bytes_len(index_name@, *values, row_ptr, k as int);
            }
            let field_name: &String = &fields_list[k];
            let fs = self.field_schema(field_name.as_str());
            match values.get(field_name.as_str()) {
                Some(v) => {
                    proof {
                        v.lemma_le_bytes_len();
                    }
                    v.copy_bytes_to(&mut out, pos);
                },
                None => {},
            }
            pos = pos + fs.byte_size();
            k = k + 1;
        }
        proof {
            self.lemma_index_entry_bytes_len(index_name@, *values, row_ptr, len as int);
            vstd::bytes::lemma_auto_spec_u64_to_from_le_bytes();
        }
        let pbs = vstd::bytes::u64_to_le_bytes(row_ptr);
        let base = entry_size - 8;
        let ghost upto_full = out@;
        out[base] = pbs[0];
        out[base + 1] = pbs[1];
        out[base + 2] = pbs[2];
        out[base + 3] = pbs[3];
        out[base + 4] = pbs[4];
        out[base + 5] = pbs[5];
        out[base + 6] = pbs[6];
        out[base + 7] = pbs[7];
        proof {
            assert(out@ =~= seq_overwrite(
                upto_full,
                base as int,
                vstd::bytes::spec_u64_to_le_bytes(row_ptr),
            ));
        }
        out
    }
}

impl TableSchema {
    proof fn lemma_row_round_trip_upto(self, bytes: Seq<u8>, values: ValueMap, k: int)
        requires
            self.wf(),
            self.spec_values_wf(values),
            bytes.len() == self.spec_row_size(),
            forall|n: Seq<char>|
                #[trigger] values.spec_get(n) == (if self.spec_has_field(n) {
                    Some(self.spec_decoded_field(bytes, n))
                } else {
                    None::<Value>
                }),
            0 <= k <= self.fields@.len(),
        ensures
            forall|j: int|
                0 <= j < spec_fields_size(self.fields@, k)
                    ==> #[trigger] self.spec_row_bytes_upto(values, k)[j] == bytes[j],
            forall|j: int|
                spec_fields_size(self.fields@, k) <= j < self.spec_row_size()
                    ==> #[trigger] self.spec_row_bytes_upto(values, k)[j] == 0u8,
        decreases k,
    {
        self.lemma_row_bytes_len(values, k);
        lemma_fields_size_monotone(self.fields@, k, self.fields@.len() as int);
        lemma_fields_size_monotone(self.fields@, 0, k);
        if k > 0 {
            self.lemma_row_round_trip_upto(bytes, values, k - 1);
            self.lemma_row_bytes_len(values, k - 1);
            let m = k - 1;
            let nm = self.fields@[m].0@;
            lemma_name_index(self.fields@, nm);
            assert(self.spec_field_index(nm) == m);
            let prev = self.spec_row_bytes_upto(values, k - 1);
            let mpos = spec_fields_size(self.fields@, m);
            let fs = self.fields@[m].1;
            let msize = fs.spec_byte_size() as int;
            lemma_fields_size_monotone(self.fields@, m, k);
            assert(self.spec_has_field(nm));
            let v = self.spec_decoded_field(bytes, nm);
            assert(values.spec_get(nm) == Some(v));
            fs.lemma_decode_tag(bytes.skip(mpos));
            v.lemma_le_bytes_len();
            // The decoded value writes back the very bytes it was read from.
            let sub = bytes.subrange(mpos, mpos + msize);
            lemma_decode_at(fs, bytes, mpos);
            fs.lemma_field_round_trip(sub);
            assert(v.spec_le_bytes() == sub);
            assert forall|j: int| 0 <= j < spec_fields_size(self.fields@, k) implies #[trigger] self.spec_row_bytes_upto(
                values,
                k,
            )[j] == bytes[j] by {
                crate::value::lemma_seq_overwrite_index(prev, mpos, sub, j);
            }
            assert forall|j: int|
                spec_fields_size(self.fields@, k) <= j
                    < self.spec_row_size() implies #[trigger] self.spec_row_bytes_upto(values, k)[j]
                == 0u8 by {
                crate::value::lemma_seq_overwrite_index(prev, mpos, sub, j);
            }
        }
    }

    /// Decoding a full row image and encoding the decoded values again
    /// restores the image byte for byte.
    pub proof fn lemma_row_codec_round_trip(self, bytes: Seq<u8>, values: ValueMap)
        requires
            self.wf(),
            bytes.len() == self.spec_row_size(),
            forall|n: Seq<char>|
                #[trigger] values.spec_get(n) == (if self.spec_has_field(n) {
                    Some(self.spec_decoded_field(bytes, n))
                } else {
                    None::<Value>
                }),
        ensures
            self.spec_row_bytes(values) == bytes,
    {
        assert forall|n: Seq<char>| (#[trigger] values.spec_get(n)) is Some implies self.spec_has_field(
            n,
        ) && (values.spec_get(n)->Some_0 is NULL || values.spec_get(n)->Some_0.spec_write_len()
            == self.spec_field_schema(n).spec_byte_size()) by {
            if values.spec_get(n) is Some {
                lemma_name_index(self.fields@, n);
                lemma_fields_size_monotone(self.fields@, 0, self.spec_field_index(n));
                lemma_fields_size_monotone(
                    self.fields@,
                    self.spec_field_index(n) + 1,
                    self.fields@.len() as int,
                );
                lemma_fields_size_monotone(
                    self.fields@,
                    self.spec_field_index(n),
                    self.spec_field_index(n) + 1,
                );
                self.spec_field_schema(n).lemma_decode_tag(bytes.skip(self.spec_field_pos(n)));
            }
        }
        let len = self.fields@.len() as int;
        self.lemma_row_round_trip_upto(bytes, values, len);
        self.lemma_row_bytes_len(values, len);
        assert(self.spec_row_bytes(values) =~= bytes);
    }

    /// Every index field of an encoded index entry decodes to the same
    /// value as the matching slot of the encoded row, and the entry's
    /// trailing eight bytes decode back to the row pointer.
    pub proof fn lemma_index_entry_round_trip(
        self,
        index_name: Seq<char>,
        values: ValueMap,
        ptr: u64,
    )
        requires
            self.wf(),
            self.spec_has_index(index_name),
            self.spec_values_wf(values),
        ensures
            ({
                let entry = self.spec_index_entry_bytes(index_name, values, ptr);
                let names = self.spec_index_fields(index_name);
                &&& vstd::bytes::spec_u64_from_le_bytes(
                    entry.subrange(entry.len() - 8, entry.len() as int),
                ) == ptr
                &&& forall|f: int|
                    0 <= f < names.len() ==> self.spec_field_schema(
                        #[trigger] names[f],
                    ).spec_value_from_bytes(
                        entry.skip(self.spec_index_field_pos(index_name, names[f])),
                    ) == self.spec_field_schema(names[f]).spec_value_from_bytes(
                        self.spec_row_bytes(values).skip(self.spec_field_pos(names[f])),
                    )
            }),
    {
        let entry = self.spec_index_entry_bytes(index_name, values, ptr);
        let names = self.spec_index_fields(index_name);
        let len = names.len() as int;
        lemma_name_index(self.indices@, index_name);
        self.lemma_index_entry_bytes_len(index_name, values, ptr, len);
        self.lemma_index_entry_slots(index_name, values, ptr);
        assert forall|f: int| 0 <= f < len implies self.spec_field_schema(
            #[trigger] names[f],
        ).spec_value_from_bytes(entry.skip(self.spec_index_field_pos(index_name, names[f])))
            == self.spec_field_schema(names[f]).spec_value_from_bytes(
            self.spec_row_bytes(values).skip(self.spec_field_pos(names[f])),
        ) by {
            let n = names[f];
            lemma_names_index(names, n);
            assert(spec_names_index(names, n) == f);
            let fs = self.spec_field_schema(n);
            let fsize = fs.spec_byte_size() as int;
            let ipos = self.spec_index_field_pos(index_name, n);
            self.lemma_names_size_monotone(names, 0, f);
            self.lemma_names_size_monotone(names, f, f + 1);
            self.lemma_names_size_monotone(names, f + 1, len);
            assert(self.spec_has_field(n));
            self.lemma_row_slot(values, n);
            lemma_decode_at(fs, entry, ipos);
            lemma_decode_at(fs, self.spec_row_bytes(values), self.spec_field_pos(n));
        }
    }
}

/// A decoded view over one row image together with the row's absolute
/// byte position in its table.
pub struct TableReader<'a> {
    pub table_schema: &'a TableSchema,
    pub row_bytes: &'a [u8],
    pub absolute_pos: usize,
}

impl<'a> TableReader<'a> {
    pub open spec fn spec_schema(self) -> TableSchema {
        *self.table_schema
    }

    pub open spec fn spec_row_bytes(self) -> Seq<u8> {
        self.row_bytes@
    }

    pub open spec fn wf(self) -> bool {
        &&& self.spec_schema().wf()
        &&& self.spec_row_bytes().len() >= self.spec_schema().spec_row_size()
    }

    pub fn new(table_schema: &'a TableSchema, row_bytes: &'a [u8], absolute_pos: usize) -> (r:
        TableReader<'a>)
        ensures
            r.spec_schema() == *table_schema,
            r.spec_row_bytes() == row_bytes@,
            r.absolute_pos == absolute_pos,
    {
        TableReader { table_schema, row_bytes, absolute_pos }
    }

    /// The value this row stores for a declared field.
    pub fn get_field_value(&self, field: &str) -> (v: Value)
        requires
            self.wf(),
            self.spec_schema().spec_has_field(field@),
        ensures
            v == self.spec_schema().spec_decoded_field(self.spec_row_bytes(), field@),
    {
        proof {
            let schema = *self.table_schema;
            lemma_name_index(schema.fields@, field@);
            let idx = schema.spec_field_index(field@);
            lemma_fields_size_monotone(schema.fields@, 0, idx);
            lemma_fields_size_monotone(schema.fields@, idx, idx + 1);
            lemma_fields_size_monotone(schema.fields@, idx + 1, schema.fields@.len() as int);
        }
        let field_pos = self.table_schema.field_byte_pos(field);
        let fs = self.table_schema.field_schema(field);
        let rest = vstd::slice::slice_subrange(self.row_bytes, field_pos, self.row_bytes.len());
        let v = fs.value_from_bytes(rest);
        proof {
            assert(rest@ =~= self.row_bytes@.skip(field_pos as int));
        }
        v
    }
}

/// Steps through the rows a `Selection` names, handing out a reader
/// over each row image in turn.
pub struct TableRowIterator<'a> {
    table_schema: &'a TableSchema,
    table_bytes: &'a [u8],
    selection: &'a Selection,
    current_pos: usize,
}

impl<'a> TableRowIterator<'a> {
    pub closed spec fn spec_schema(self) -> TableSchema {
        *self.table_schema
    }

    pub closed spec fn spec_table_bytes(self) -> Seq<u8> {
        self.table_bytes@
    }

    /// The row positions this iterator walks.
    pub closed spec fn spec_positions(self) -> Seq<usize> {
        (*self.selection).spec_positions(
            self.table_schema.spec_row_size() as nat,
            self.table_bytes@.len(),
        )
    }

    /// How many rows have been handed out so far.
    pub closed spec fn spec_emitted(self) -> int {
        match self.selection {
            Selection::All => self.current_pos as int / self.table_schema.spec_row_size(),
            Selection::List(_) => self.current_pos as int,
        }
    }

    pub closed spec fn wf(self) -> bool {
        &&& self.table_schema.wf()
        &&& self.table_schema.spec_row_size() >= 1
        &&& self.table_bytes@.len() as int % self.table_schema.spec_row_size() == 0
        &&& self.table_bytes@.len() + self.table_schema.spec_row_size() <= usize::MAX
        &&& match self.selection {
            Selection::All => self.current_pos as int % self.table_schema.spec_row_size() == 0
                && self.current_pos as int <= self.table_bytes@.len()
                + self.table_schema.spec_row_size(),
            Selection::List(ps) => self.current_pos <= ps@.len() && forall|k: int|
                0 <= k < ps@.len() ==> #[trigger] ps@[k] + self.table_schema.spec_row_size()
                    <= self.table_bytes@.len(),
        }
    }

    pub fn new(
        table_schema: &'a TableSchema,
        table_bytes: &'a [u8],
        selection: &'a Selection,
    ) -> (it: TableRowIterator<'a>)
        requires
            table_schema.wf(),
            table_schema.spec_row_size() >= 1,
            table_bytes@.len() as int % table_schema.spec_row_size() == 0,
            table_bytes@.len() + table_schema.spec_row_size() <= usize::MAX,
            (selection matches Selection::List(ps) ==> forall|k: int|
                0 <= k < ps@.len() ==> #[trigger] ps@[k] + table_schema.spec_row_size()
                    <= table_bytes@.len()),
        ensures
            it.wf(),
            it.spec_schema() == *table_schema,
            it.spec_table_bytes() == table_bytes@,
            it.spec_emitted() == 0,
            it.spec_positions() == selection.spec_positions(
                table_schema.spec_row_size() as nat,
                table_bytes@.len(),
            ),
    {
        proof {
            vstd::arithmetic::div_mod::lemma_small_mod(0nat, table_schema.spec_row_size() as nat);
        }
        TableRowIterator { table_schema, table_bytes, selection, current_pos: 0 }
    }

    /// Hands out a reader over the next selected row; its bytes are
    /// exactly the table image's bytes at that position.
    pub fn next(&mut self) -> (r: Option<TableReader<'a>>)
        requires
            old(self).wf(),
        ensures
            final(self).wf(),
            final(self).spec_schema() == old(self).spec_schema(),
            final(self).spec_table_bytes() == old(self).spec_table_bytes(),
            final(self).spec_positions() == old(self).spec_positions(),
            ({
                let ps = old(self).spec_positions();
                let k = old(self).spec_emitted();
                let schema = old(self).spec_schema();
                let table = old(self).spec_table_bytes();
                if 0 <= k < ps.len() {
                    &&& final(self).spec_emitted() == k + 1
                    &&& r is Some
                    &&& r->Some_0.spec_schema() == schema
                    &&& r->Some_0.absolute_pos == ps[k]
                    &&& ps[k] + schema.spec_row_size() <= table.len()
                    &&& r->Some_0.spec_row_bytes() == table.subrange(
                        ps[k] as int,
                        ps[k] + schema.spec_row_size(),
                    )
                    &&& r->Some_0.wf()
                } else {
                    r is None && final(self).spec_emitted() == k
                }
            }),
    {
        let row_size = self.table_schema.row_byte_size();
        let table_len = self.table_bytes.len();
        match self.selection {
            Selection::All => {
                if self.current_pos >= table_len {
                    proof {
                        vstd::arithmetic::div_mod::lemma_div_is_ordered(
                            table_len as int,
                            self.current_pos as int,
                            row_size as int,
                        );
                    }
                    None
                } else {
                    let pos = self.current_pos;
                    self.current_pos = self.current_pos + row_size;
                    proof {
                        let row = row_size as int;
                        let prev = pos as int;
                        let tab = table_len as int;
                        vstd::arithmetic::div_mod::lemma_fundamental_div_mod(prev, row);
                        vstd::arithmetic::div_mod::lemma_fundamental_div_mod(tab, row);
                        vstd::arithmetic::div_mod::lemma_div_plus_one(prev, row);
                        vstd::arithmetic::div_mod::lemma_mod_multiples_vanish(1, prev, row);
                        if prev / row >= tab / row {
                            vstd::arithmetic::mul::lemma_mul_inequality(
                                tab / row,
                                prev / row,
                                row,
                            );
                            vstd::arithmetic::mul::lemma_mul_is_commutative(tab / row, row);
                            vstd::arithmetic::mul::lemma_mul_is_commutative(prev / row, row);
                            assert(false);
                        }
                        vstd::arithmetic::mul::lemma_mul_inequality(
                            prev / row + 1,
                            tab / row,
                            row,
                        );
                        vstd::arithmetic::mul::lemma_mul_is_commutative(prev / row + 1, row);
                        vstd::arithmetic::mul::lemma_mul_is_commutative(tab / row, row);
                        vstd::arithmetic::mul::lemma_mul_is_distributive_add(
                            row,
                            prev / row,
                            1,
                        );
                        assert(prev + row <= tab);
                    }
                    let row_bytes = vstd::slice::slice_subrange(
                        self.table_bytes,
                        pos,
                        pos + row_size,
                    );
                    Some(TableReader::new(self.table_schema, row_bytes, pos))
                }
            },
            Selection::List(positions) => {
                if self.current_pos >= positions.len() {
                    None
                } else {
                    let pos = positions[self.current_pos];
                    self.current_pos = self.current_pos + 1;
                    let row_bytes = vstd::slice::slice_subrange(
                        self.table_bytes,
                        pos,
                        pos + row_size,
                    );
                    Some(TableReader::new(self.table_schema, row_bytes, pos))
                }
            },
        }
    }
}

/// Walks the row start positions `0, row_size, 2 * row_size, ...` up to
/// the table byte length.
pub struct TableRowPositionIterator {
    row_size: usize,
    table_size: usize,
    current_pos: usize,
}

impl TableRowPositionIterator {
    pub closed spec fn spec_positions(self) -> Seq<usize> {
        Seq::new(
            self.table_size as nat / self.row_size as nat,
            |k: int| (k * self.row_size) as usize,
        )
    }

    pub closed spec fn spec_emitted(self) -> int {
        self.current_pos as int / self.row_size as int
    }

    pub closed spec fn wf(self) -> bool {
        &&& self.row_size >= 1
        &&& self.table_size as int % self.row_size as int == 0
        &&& self.table_size + self.row_size <= usize::MAX
        &&& self.current_pos as int % self.row_size as int == 0
        &&& self.current_pos as int <= self.table_size + self.row_size
    }

    pub fn new(row_size: usize, table_size: usize) -> (it: TableRowPositionIterator)
        requires
            row_size >= 1,
            table_size as int % row_size as int == 0,
            table_size + row_size <= usize::MAX,
        ensures
            it.wf(),
            it.spec_emitted() == 0,
            it.spec_positions() == Seq::new(
                table_size as nat / row_size as nat,
                |k: int| (k * row_size) as usize,
            ),
    {
        proof {
            vstd::arithmetic::div_mod::lemma_small_mod(0nat, row_size as nat);
        }
        TableRowPositionIterator { row_size, table_size, current_pos: 0 }
    }

    /// Hands out the next row start position until the table is spent.
    pub fn next(&mut self) -> (r: Option<usize>)
        requires
            old(self).wf(),
        ensures
            final(self).wf(),
            final(self).spec_positions() == old(self).spec_positions(),
            ({
                let ps = old(self).spec_positions();
                let k = old(self).spec_emitted();
                if 0 <= k < ps.len() {
                    r == Some(ps[k]) && final(self).spec_emitted() == k + 1
                } else {
                    r is None && final(self).spec_emitted() == k
                }
            }),
    {
        if self.current_pos >= self.table_size {
            proof {
                vstd::arithmetic::div_mod::lemma_div_is_ordered(
                    self.table_size as int,
                    self.current_pos as int,
                    self.row_size as int,
                );
            }
            None
        } else {
            let pos = self.current_pos;
            self.current_pos = self.current_pos + self.row_size;
            proof {
                let row = self.row_size as int;
                let prev = pos as int;
                let tab = self.table_size as int;
                vstd::arithmetic::div_mod::lemma_fundamental_div_mod(prev, row);
                vstd::arithmetic::div_mod::lemma_fundamental_div_mod(tab, row);
                vstd::arithmetic::div_mod::lemma_div_plus_one(prev, row);
                vstd::arithmetic::div_mod::lemma_mod_multiples_vanish(1, prev, row);
                if prev / row >= tab / row {
                    vstd::arithmetic::mul::lemma_mul_inequality(tab / row, prev / row, row);
                    vstd::arithmetic::mul::lemma_mul_is_commutative(tab / row, row);
                    vstd::arithmetic::mul::lemma_mul_is_commutative(prev / row, row);
                    assert(false);
                }
                vstd::arithmetic::mul::lemma_mul_is_commutative(prev / row, row);
            }
            Some(pos)
        }
    }
}

/// The schemas of every table of one database directory.
pub struct DatabaseSchema {
    pub tables: Vec<TableSchema>,
}

impl TableSchema {
    /// Two images that agree on one whole row decode its fields alike.
    pub proof fn lemma_decoded_field_agree(self, b1: Seq<u8>, b2: Seq<u8>, name: Seq<char>)
        requires
            self.wf(),
            self.spec_has_field(name),
            b1.len() >= self.spec_row_size(),
            b2.len() >= self.spec_row_size(),
            forall|j: int| 0 <= j < self.spec_row_size() ==> b1[j] == b2[j],
        ensures
            self.spec_decoded_field(b1, name) == self.spec_decoded_field(b2, name),
    {
        lemma_name_index(self.fields@, name);
        let idx = self.spec_field_index(name);
        let pos = self.spec_field_pos(name);
        let fs = self.spec_field_schema(name);
        let fsize = fs.spec_byte_size() as int;
        lemma_fields_size_monotone(self.fields@, 0, idx);
        lemma_fields_size_monotone(self.fields@, idx, idx + 1);
        lemma_fields_size_monotone(self.fields@, idx + 1, self.fields@.len() as int);
        lemma_decode_at(fs, b1, pos);
        lemma_decode_at(fs, b2, pos);
        assert(b1.subrange(pos, pos + fsize) =~= b2.subrange(pos, pos + fsize));
    }
}

/// Association-list lookup where the last binding wins.
pub open spec fn spec_assoc_get(pairs: Seq<(String, Value)>, name: Seq<char>) -> Option<Value>
    decreases pairs.len(),
{
    if pairs.len() == 0 {
        None
    } else if pairs.last().0@ == name {
        Some(pairs.last().1)
    } else {
        spec_assoc_get(pairs.drop_last(), name)
    }
}

} // verus!
