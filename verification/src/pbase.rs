//! The storage facade: in-memory table images and the operations that
//! create tables, insert rows, and run queries.
use vstd::prelude::*;

use crate::schema::TableSchema;
use crate::value::Value;

verus! {

/// One table held in memory: its schema, its data image, and one index
/// image per declared index, aligned with the schema's index list.
pub struct TableStorage {
    pub schema: TableSchema,
    pub data: Vec<u8>,
    pub index_files: Vec<Vec<u8>>,
}

impl TableStorage {
    /// How many rows the data image holds.
    pub open spec fn spec_num_rows(self) -> int {
        self.data@.len() as int / self.schema.spec_row_size()
    }

    /// The invariant of one index image: entry-aligned, one entry per
    /// row, sorted by composite key, its row pointers exactly the data
    /// image's row offsets with no two entries sharing one, and each
    /// entry's key decoding to the pointed-at row's own field values.
    pub open spec fn spec_index_file_wf(self, i: int) -> bool {
        let iname = self.schema.indices@[i].0@;
        let ib = self.index_files@[i]@;
        let esize = self.schema.spec_index_entry_size(iname);
        let row = self.schema.spec_row_size();
        &&& ib.len() as int % esize == 0
        &&& ib.len() as int == self.spec_num_rows() * esize
        &&& self.schema.spec_index_sorted(iname, ib)
        &&& forall|e: int|
            0 <= e < self.spec_num_rows() ==> (#[trigger] self.schema.spec_entry_ptr(
                iname,
                ib,
                e,
            )) as int % row == 0 && self.schema.spec_entry_ptr(iname, ib, e) as int + row
                <= self.data@.len()
        &&& forall|k: int|
            0 <= k < self.spec_num_rows() ==> exists|e: int|
                0 <= e < self.spec_num_rows() && (self.schema.spec_entry_ptr(iname, ib, e) as int)
                    == #[trigger] (k * row)
        &&& forall|e1: int, e2: int|
            0 <= e1 < e2 < self.spec_num_rows() ==> self.schema.spec_entry_ptr(iname, ib, e1)
                != self.schema.spec_entry_ptr(iname, ib, e2)
        &&& forall|e: int, f: int|
            0 <= e < self.spec_num_rows() && 0 <= f < self.schema.spec_index_fields(iname).len()
                ==> #[trigger] self.schema.spec_entry_field_value(iname, ib, e, f)
                == crate::multi_table_view::spec_value_at(
                self.schema,
                self.data@,
                self.schema.spec_entry_ptr(iname, ib, e) as int,
                self.schema.spec_index_fields(iname)[f],
            )
    }

    /// What a query needs of a stored table; unlike `wf` it tolerates
    /// a data image that is not a whole number of rows, which a SELECT
    /// rejects with an error of its own.
    pub open spec fn query_wf(self) -> bool {
        &&& self.schema.wf()
        &&& self.schema.spec_row_size() >= 1
        &&& self.spec_num_rows() < 0x4000_0000
        &&& self.data@.len() + self.schema.spec_row_size() <= usize::MAX
        &&& self.index_files@.len() == self.schema.indices@.len()
        &&& forall|i: int| 0 <= i < self.index_files@.len() ==> self.spec_index_file_wf(i)
    }

    /// The table invariant: well-formed schema, whole rows only, and
    /// every index image well formed against the data image.
    pub open spec fn wf(self) -> bool {
        &&& self.schema.wf()
        &&& self.schema.spec_row_size() >= 1
        &&& self.data@.len() as int % self.schema.spec_row_size() == 0
        &&& self.spec_num_rows() < 0x4000_0000
        &&& self.index_files@.len() == self.schema.indices@.len()
        &&& forall|i: int| 0 <= i < self.index_files@.len() ==> self.spec_index_file_wf(i)
    }
}

/// An index image with `entry` spliced in before entry position `p`.
pub open spec fn spec_spliced(old_ib: Seq<u8>, entry: Seq<u8>, p: int, esize: int) -> Seq<u8> {
    old_ib.subrange(0, p * esize) + entry + old_ib.subrange(p * esize, old_ib.len() as int)
}

/// Where each entry of a spliced index image comes from.
pub proof fn lemma_splice_slices(old_ib: Seq<u8>, entry: Seq<u8>, p: int, esize: int)
    requires
        esize >= 1,
        entry.len() == esize,
        old_ib.len() as int % esize == 0,
        0 <= p,
        p * esize <= old_ib.len(),
    ensures
        spec_spliced(old_ib, entry, p, esize).len() == old_ib.len() + esize,
        forall|j: int|
            0 <= j && (j + 1) * esize <= p * esize ==> #[trigger] spec_spliced(
                old_ib,
                entry,
                p,
                esize,
            ).subrange(j * esize, (j + 1) * esize) == old_ib.subrange(j * esize, (j + 1) * esize),
        spec_spliced(old_ib, entry, p, esize).subrange(p * esize, (p + 1) * esize) == entry,
        forall|j: int|
            p < j && j * esize <= old_ib.len() ==> #[trigger] spec_spliced(
                old_ib,
                entry,
                p,
                esize,
            ).subrange(j * esize, (j + 1) * esize) == old_ib.subrange((j - 1) * esize, j * esize),
{
    let new_ib = spec_spliced(old_ib, entry, p, esize);
    assert forall|j: int|
        0 <= j && (j + 1) * esize <= p * esize implies #[trigger] new_ib.subrange(
        j * esize,
        (j + 1) * esize,
    ) == old_ib.subrange(j * esize, (j + 1) * esize) by {
        vstd::arithmetic::mul::lemma_mul_is_distributive_add_other_way(esize, j, 1);
        vstd::arithmetic::mul::lemma_mul_nonnegative(j, esize);
        assert(new_ib.subrange(j * esize, (j + 1) * esize) =~= old_ib.subrange(
            j * esize,
            (j + 1) * esize,
        ));
    }
    assert(new_ib.subrange(p * esize, (p + 1) * esize) =~= entry) by {
        vstd::arithmetic::mul::lemma_mul_is_distributive_add_other_way(esize, p, 1);
    }
    assert forall|j: int|
        p < j && j * esize <= old_ib.len() implies #[trigger] new_ib.subrange(
        j * esize,
        (j + 1) * esize,
    ) == old_ib.subrange((j - 1) * esize, j * esize) by {
        vstd::arithmetic::mul::lemma_mul_is_distributive_add_other_way(esize, j, 1);
        vstd::arithmetic::mul::lemma_mul_is_distributive_add_other_way(esize, j, -1);
        vstd::arithmetic::mul::lemma_mul_inequality(p + 1, j, esize);
        vstd::arithmetic::mul::lemma_mul_is_distributive_add_other_way(esize, p, 1);
        vstd::arithmetic::mul::lemma_mul_nonnegative(p, esize);
        assert(new_ib.subrange(j * esize, (j + 1) * esize) =~= old_ib.subrange(
            (j - 1) * esize,
            j * esize,
        ));
    }
}

/// Encoding a value that exactly fills a slot and decoding the slot
/// hands the value back.
pub proof fn lemma_value_decode_encode(fs: crate::schema::FieldSchema, v: crate::value::Value)
    requires
        v.spec_write_len() == fs.spec_byte_size(),
    ensures
        fs.spec_value_from_bytes(v.spec_le_bytes()) == v,
{
    v.lemma_le_bytes_len();
    match v {
        crate::value::Value::I32(x) => {
            vstd::bytes::lemma_auto_spec_u32_to_from_le_bytes();
            crate::value::lemma_i32_u32_round_trip(x);
            assert(v.spec_le_bytes().subrange(0, 4) =~= v.spec_le_bytes());
        },
        _ => {},
    }
}

impl TableSchema {
    /// Entries with identical byte slices decode identically.
    pub proof fn lemma_entry_same_slice(
        self,
        index_name: Seq<char>,
        b1: Seq<u8>,
        e1: int,
        b2: Seq<u8>,
        e2: int,
    )
        requires
            self.wf(),
            self.spec_has_index(index_name),
            0 <= e1,
            0 <= e2,
            (e1 + 1) * self.spec_index_entry_size(index_name) <= b1.len(),
            (e2 + 1) * self.spec_index_entry_size(index_name) <= b2.len(),
            b1.subrange(
                e1 * self.spec_index_entry_size(index_name),
                (e1 + 1) * self.spec_index_entry_size(index_name),
            ) == b2.subrange(
                e2 * self.spec_index_entry_size(index_name),
                (e2 + 1) * self.spec_index_entry_size(index_name),
            ),
        ensures
            forall|f: int|
                0 <= f < self.spec_index_fields(index_name).len()
                    ==> #[trigger] self.spec_entry_field_value(index_name, b1, e1, f)
                    == self.spec_entry_field_value(index_name, b2, e2, f),
            self.spec_entry_ptr(index_name, b1, e1) == self.spec_entry_ptr(index_name, b2, e2),
    {
        let esize = self.spec_index_entry_size(index_name);
        let names = self.spec_index_fields(index_name);
        let s1 = b1.subrange(e1 * esize, (e1 + 1) * esize);
        crate::schema::lemma_name_index(self.indices@, index_name);
        self.lemma_names_size_monotone(names, 0, names.len() as int);
        vstd::arithmetic::mul::lemma_mul_is_distributive_add_other_way(esize, e1, 1);
        vstd::arithmetic::mul::lemma_mul_is_distributive_add_other_way(esize, e2, 1);
        vstd::arithmetic::mul::lemma_mul_nonnegative(e1, esize);
        vstd::arithmetic::mul::lemma_mul_nonnegative(e2, esize);
        assert forall|f: int|
            0 <= f < names.len() implies #[trigger] self.spec_entry_field_value(
            index_name,
            b1,
            e1,
            f,
        ) == self.spec_entry_field_value(index_name, b2, e2, f) by {
            let off = self.spec_names_size(names, f);
            let fs = self.spec_field_schema(names[f]);
            let fsize = fs.spec_byte_size() as int;
            self.lemma_names_size_monotone(names, 0, f);
            self.lemma_names_size_monotone(names, f, f + 1);
            self.lemma_names_size_monotone(names, f + 1, names.len() as int);
            assert(self.spec_has_field(names[f]));
            crate::schema::lemma_decode_at(fs, b1, e1 * esize + off);
            crate::schema::lemma_decode_at(fs, b2, e2 * esize + off);
            assert(b1.subrange(e1 * esize + off, e1 * esize + off + fsize) =~= s1.subrange(
                off,
                off + fsize,
            ));
            assert(b2.subrange(e2 * esize + off, e2 * esize + off + fsize) =~= s1.subrange(
                off,
                off + fsize,
            ));
        }
        assert(b1.subrange(e1 * esize + esize - 8, (e1 + 1) * esize) =~= s1.subrange(
            esize - 8,
            esize,
        ));
        assert(b2.subrange(e2 * esize + esize - 8, (e2 + 1) * esize) =~= s1.subrange(
            esize - 8,
            esize,
        ));
    }

    /// A composite comparison only reads the decoded key, so equal
    /// keys compare alike against any probe values.
    pub proof fn lemma_cmp_same_values(
        self,
        index_name: Seq<char>,
        b1: Seq<u8>,
        e1: int,
        b2: Seq<u8>,
        e2: int,
        vals: Seq<Value>,
        f: int,
    )
        requires
            0 <= f <= self.spec_index_fields(index_name).len(),
            forall|g: int|
                0 <= g < self.spec_index_fields(index_name).len()
                    ==> #[trigger] self.spec_entry_field_value(index_name, b1, e1, g)
                    == self.spec_entry_field_value(index_name, b2, e2, g),
        ensures
            self.spec_entry_cmp_from(index_name, b1, e1, vals, f) == self.spec_entry_cmp_from(
                index_name,
                b2,
                e2,
                vals,
                f,
            ),
        decreases self.spec_index_fields(index_name).len() - f,
    {
        if f < self.spec_index_fields(index_name).len() {
            self.lemma_cmp_same_values(index_name, b1, e1, b2, e2, vals, f + 1);
        }
    }

    /// The pairwise key order likewise only reads the decoded keys.
    pub proof fn lemma_le_same_values(
        self,
        index_name: Seq<char>,
        b1: Seq<u8>,
        e1: int,
        e2: int,
        b2: Seq<u8>,
        d1: int,
        d2: int,
        f: int,
    )
        requires
            0 <= f <= self.spec_index_fields(index_name).len(),
            forall|g: int|
                0 <= g < self.spec_index_fields(index_name).len()
                    ==> #[trigger] self.spec_entry_field_value(index_name, b1, e1, g)
                    == self.spec_entry_field_value(index_name, b2, d1, g),
            forall|g: int|
                0 <= g < self.spec_index_fields(index_name).len()
                    ==> #[trigger] self.spec_entry_field_value(index_name, b1, e2, g)
                    == self.spec_entry_field_value(index_name, b2, d2, g),
        ensures
            self.spec_entries_le_from(index_name, b1, e1, e2, f) == self.spec_entries_le_from(
                index_name,
                b2,
                d1,
                d2,
                f,
            ),
        decreases self.spec_index_fields(index_name).len() - f,
    {
        if f < self.spec_index_fields(index_name).len() {
            self.lemma_le_same_values(index_name, b1, e1, e2, b2, d1, d2, f + 1);
        }
    }

    /// Against an entry whose key is exactly `vals`, the pairwise order
    /// coincides with comparing the other entry to `vals`.
    pub proof fn lemma_le_vs_cmp(
        self,
        index_name: Seq<char>,
        bytes: Seq<u8>,
        e1: int,
        e2: int,
        vals: Seq<Value>,
        f: int,
    )
        requires
            self.wf(),
            self.spec_has_index(index_name),
            0 <= f <= self.spec_index_fields(index_name).len(),
            vals.len() == self.spec_index_fields(index_name).len(),
        ensures
            (forall|g: int|
                0 <= g < vals.len() ==> #[trigger] self.spec_entry_field_value(
                    index_name,
                    bytes,
                    e2,
                    g,
                ) == vals[g]) ==> (self.spec_entries_le_from(index_name, bytes, e1, e2, f) == (
            self.spec_entry_cmp_from(index_name, bytes, e1, vals, f) != core::cmp::Ordering::Greater)),
            (forall|g: int|
                0 <= g < vals.len() ==> #[trigger] self.spec_entry_field_value(
                    index_name,
                    bytes,
                    e1,
                    g,
                ) == vals[g]) ==> (self.spec_entries_le_from(index_name, bytes, e1, e2, f) == (
            self.spec_entry_cmp_from(index_name, bytes, e2, vals, f) != core::cmp::Ordering::Less)),
        decreases self.spec_index_fields(index_name).len() - f,
    {
        if f < self.spec_index_fields(index_name).len() {
            self.lemma_le_vs_cmp(index_name, bytes, e1, e2, vals, f + 1);
            crate::query_tools::lemma_entry_field_comparable(self, index_name, bytes, e1, e2, f);
        }
    }
}

impl TableSchema {
    /// An entry's key never exceeds itself.
    pub proof fn lemma_entries_le_refl(self, index_name: Seq<char>, bytes: Seq<u8>, e: int, f: int)
        requires
            0 <= f <= self.spec_index_fields(index_name).len(),
        ensures
            self.spec_entries_le_from(index_name, bytes, e, e, f),
        decreases self.spec_index_fields(index_name).len() - f,
    {
        if f < self.spec_index_fields(index_name).len() {
            self.lemma_entries_le_refl(index_name, bytes, e, f + 1);
        }
    }

    /// Splicing an entry whose key is `vals` in at the found position
    /// keeps the index sorted, and tells where every entry of the new
    /// image comes from.
    pub proof fn lemma_splice_keeps_sorted(
        self,
        index_name: Seq<char>,
        old_ib: Seq<u8>,
        entry: Seq<u8>,
        vals: Seq<Value>,
        p: int,
    )
        requires
            self.wf(),
            self.spec_has_index(index_name),
            entry.len() == self.spec_index_entry_size(index_name),
            old_ib.len() as int % self.spec_index_entry_size(index_name) == 0,
            0 <= p <= self.spec_num_entries(index_name, old_ib),
            self.spec_index_sorted(index_name, old_ib),
            vals.len() == self.spec_index_fields(index_name).len(),
            forall|f: int|
                0 <= f < vals.len() ==> #[trigger] self.spec_entry_field_value(
                    index_name,
                    entry,
                    0,
                    f,
                ) == vals[f],
            forall|e: int|
                0 <= e < p ==> self.spec_entry_cmp(index_name, old_ib, e, vals)
                    != core::cmp::Ordering::Greater,
            forall|e: int|
                p <= e < self.spec_num_entries(index_name, old_ib) ==> self.spec_entry_cmp(
                    index_name,
                    old_ib,
                    e,
                    vals,
                ) == core::cmp::Ordering::Greater,
        ensures
            ({
                let esize = self.spec_index_entry_size(index_name);
                let new_ib = spec_spliced(old_ib, entry, p, esize);
                let n = self.spec_num_entries(index_name, old_ib);
                &&& new_ib.len() == old_ib.len() + esize
                &&& new_ib.len() as int % esize == 0
                &&& self.spec_num_entries(index_name, new_ib) == n + 1
                &&& self.spec_index_sorted(index_name, new_ib)
                &&& forall|j: int|
                    0 <= j < p ==> #[trigger] self.spec_entry_ptr(index_name, new_ib, j)
                        == self.spec_entry_ptr(index_name, old_ib, j)
                &&& self.spec_entry_ptr(index_name, new_ib, p) == self.spec_entry_ptr(
                    index_name,
                    entry,
                    0,
                )
                &&& forall|j: int|
                    p < j <= n ==> #[trigger] self.spec_entry_ptr(index_name, new_ib, j)
                        == self.spec_entry_ptr(index_name, old_ib, j - 1)
                &&& forall|j: int|
                    0 <= j < p ==> #[trigger] entry_values_match(
                        self,
                        index_name,
                        new_ib,
                        j,
                        old_ib,
                        j,
                    )
                &&& entry_values_match(self, index_name, new_ib, p, entry, 0)
                &&& forall|j: int|
                    p < j <= n ==> #[trigger] entry_values_match(
                        self,
                        index_name,
                        new_ib,
                        j,
                        old_ib,
                        j - 1,
                    )
            }),
    {
        let esize = self.spec_index_entry_size(index_name);
        let names = self.spec_index_fields(index_name);
        let new_ib = spec_spliced(old_ib, entry, p, esize);
        let n = self.spec_num_entries(index_name, old_ib);
        crate::schema::lemma_name_index(self.indices@, index_name);
        self.lemma_names_size_monotone(names, 0, names.len() as int);
        vstd::arithmetic::div_mod::lemma_fundamental_div_mod(old_ib.len() as int, esize);
        vstd::arithmetic::mul::lemma_mul_inequality(p, n, esize);
        vstd::arithmetic::mul::lemma_mul_is_commutative(p, esize);
        vstd::arithmetic::mul::lemma_mul_is_commutative(n, esize);
        vstd::arithmetic::mul::lemma_mul_nonnegative(p, esize);
        lemma_splice_slices(old_ib, entry, p, esize);
        vstd::arithmetic::div_mod::lemma_mod_multiples_vanish(1, old_ib.len() as int, esize);
        vstd::arithmetic::mul::lemma_mul_is_distributive_add(esize, n, 1);
        vstd::arithmetic::mul::lemma_mul_basics(esize);
        vstd::arithmetic::mul::lemma_mul_is_commutative(n + 1, esize);
        vstd::arithmetic::div_mod::lemma_fundamental_div_mod_converse(
            new_ib.len() as int,
            esize,
            n + 1,
            0,
        );
        // Where each entry of the new image comes from, value for value.
        assert forall|j: int| 0 <= j < p implies #[trigger] entry_values_match(
            self,
            index_name,
            new_ib,
            j,
            old_ib,
            j,
        ) by {
            vstd::arithmetic::mul::lemma_mul_is_distributive_add_other_way(esize, j, 1);
            vstd::arithmetic::mul::lemma_mul_nonnegative(j, esize);
            vstd::arithmetic::mul::lemma_mul_inequality(j + 1, p, esize);
            vstd::arithmetic::mul::lemma_mul_inequality(j + 1, n + 1, esize);
            self.lemma_entry_same_slice(index_name, new_ib, j, old_ib, j);
        }
        assert(entry_values_match(self, index_name, new_ib, p, entry, 0)) by {
            vstd::arithmetic::mul::lemma_mul_is_distributive_add_other_way(esize, p, 1);
            vstd::arithmetic::mul::lemma_mul_nonnegative(p, esize);
            vstd::arithmetic::mul::lemma_mul_inequality(p + 1, n + 1, esize);
            vstd::arithmetic::mul::lemma_mul_basics(esize);
            assert(entry.subrange(0 * esize, (0 + 1) * esize) =~= entry);
            assert(new_ib.subrange(p * esize, (p + 1) * esize) == entry.subrange(
                0 * esize,
                (0 + 1) * esize,
            ));
            self.lemma_entry_same_slice(index_name, new_ib, p, entry, 0);
        }
        assert forall|j: int| p < j <= n implies #[trigger] entry_values_match(
            self,
            index_name,
            new_ib,
            j,
            old_ib,
            j - 1,
        ) by {
            vstd::arithmetic::mul::lemma_mul_is_distributive_add_other_way(esize, j, 1);
            vstd::arithmetic::mul::lemma_mul_nonnegative(j, esize);
            vstd::arithmetic::mul::lemma_mul_inequality(j, n, esize);
            vstd::arithmetic::mul::lemma_mul_inequality(j + 1, n + 1, esize);
            vstd::arithmetic::mul::lemma_mul_is_distributive_add_other_way(esize, j, -1);
            self.lemma_entry_same_slice(index_name, new_ib, j, old_ib, j - 1);
        }
        // The pointer of each new entry, read off its source.
        assert forall|j: int| 0 <= j < p implies #[trigger] self.spec_entry_ptr(
            index_name,
            new_ib,
            j,
        ) == self.spec_entry_ptr(index_name, old_ib, j) by {
            assert(entry_values_match(self, index_name, new_ib, j, old_ib, j));
        }
        assert(self.spec_entry_ptr(index_name, new_ib, p) == self.spec_entry_ptr(
            index_name,
            entry,
            0,
        )) by {
            assert(entry_values_match(self, index_name, new_ib, p, entry, 0));
        }
        assert forall|j: int| p < j <= n implies #[trigger] self.spec_entry_ptr(
            index_name,
            new_ib,
            j,
        ) == self.spec_entry_ptr(index_name, old_ib, j - 1) by {
            assert(entry_values_match(self, index_name, new_ib, j, old_ib, j - 1));
        }
        // Sortedness of the spliced image.
        assert forall|e1: int, e2: int|
            0 <= e1 <= e2 < n + 1 implies self.spec_entries_le(index_name, new_ib, e1, e2) by {
            if e1 < p && e2 < p {
                assert(entry_values_match(self, index_name, new_ib, e1, old_ib, e1));
                assert(entry_values_match(self, index_name, new_ib, e2, old_ib, e2));
                assert(self.spec_entries_le(index_name, old_ib, e1, e2));
                self.lemma_le_same_values(index_name, old_ib, e1, e2, new_ib, e1, e2, 0);
                assert(self.spec_entries_le(index_name, new_ib, e1, e2));
            } else if e1 > p && e2 > p {
                assert(entry_values_match(self, index_name, new_ib, e1, old_ib, e1 - 1));
                assert(entry_values_match(self, index_name, new_ib, e2, old_ib, e2 - 1));
                assert(self.spec_entries_le(index_name, old_ib, e1 - 1, e2 - 1));
                self.lemma_le_same_values(index_name, old_ib, e1 - 1, e2 - 1, new_ib, e1, e2, 0);
                assert(self.spec_entries_le(index_name, new_ib, e1, e2));
            } else if e1 < p && e2 > p {
                assert(entry_values_match(self, index_name, new_ib, e1, old_ib, e1));
                assert(entry_values_match(self, index_name, new_ib, e2, old_ib, e2 - 1));
                assert(self.spec_entries_le(index_name, old_ib, e1, e2 - 1));
                self.lemma_le_same_values(index_name, old_ib, e1, e2 - 1, new_ib, e1, e2, 0);
                assert(self.spec_entries_le(index_name, new_ib, e1, e2));
            } else if e1 == p && e2 == p {
                self.lemma_entries_le_refl(index_name, new_ib, p, 0);
                assert(self.spec_entries_le(index_name, new_ib, e1, e2));
            } else if e1 < p && e2 == p {
                assert(entry_values_match(self, index_name, new_ib, e1, old_ib, e1));
                assert(entry_values_match(self, index_name, new_ib, p, entry, 0));
                assert forall|g: int|
                    0 <= g < vals.len() implies #[trigger] self.spec_entry_field_value(
                    index_name,
                    new_ib,
                    p,
                    g,
                ) == vals[g] by {
                    assert(self.spec_entry_field_value(index_name, new_ib, p, g)
                        == self.spec_entry_field_value(index_name, entry, 0, g));
                }
                self.lemma_cmp_same_values(index_name, old_ib, e1, new_ib, e1, vals, 0);
                assert(self.spec_entry_cmp(index_name, old_ib, e1, vals)
                    != core::cmp::Ordering::Greater);
                self.lemma_le_vs_cmp(index_name, new_ib, e1, p, vals, 0);
                assert(self.spec_entries_le(index_name, new_ib, e1, e2));
            } else {
                assert(entry_values_match(self, index_name, new_ib, e2, old_ib, e2 - 1));
                assert(entry_values_match(self, index_name, new_ib, p, entry, 0));
                assert forall|g: int|
                    0 <= g < vals.len() implies #[trigger] self.spec_entry_field_value(
                    index_name,
                    new_ib,
                    p,
                    g,
                ) == vals[g] by {
                    assert(self.spec_entry_field_value(index_name, new_ib, p, g)
                        == self.spec_entry_field_value(index_name, entry, 0, g));
                }
                self.lemma_cmp_same_values(index_name, old_ib, e2 - 1, new_ib, e2, vals, 0);
                assert(self.spec_entry_cmp(index_name, old_ib, e2 - 1, vals)
                    == core::cmp::Ordering::Greater);
                self.lemma_le_vs_cmp(index_name, new_ib, p, e2, vals, 0);
                assert(self.spec_entries_le(index_name, new_ib, e1, e2));
            }
        }
    }
}

impl TableSchema {
    /// The key values an insert stands for, in index field order:
    /// each supplied value, `NULL` where the insert omits the field.
    pub open spec fn spec_key_vals(
        self,
        index_name: Seq<char>,
        values: crate::schema::ValueMap,
    ) -> Seq<Value> {
        let names = self.spec_index_fields(index_name);
        Seq::new(
            names.len(),
            |f: int|
                match values.spec_get(names[f]) {
                    Some(v) => v,
                    None => Value::NULL,
                },
        )
    }

    /// A freshly encoded entry decodes back to its key values and its
    /// row pointer, provided every key field was supplied non-`NULL`.
    pub proof fn lemma_entry_key_decodes(
        self,
        index_name: Seq<char>,
        values: crate::schema::ValueMap,
        ptr: u64,
    )
        requires
            self.wf(),
            self.spec_has_index(index_name),
            self.spec_values_wf(values),
            forall|f: int|
                0 <= f < self.spec_index_fields(index_name).len() ==> (values.spec_get(
                    #[trigger] self.spec_index_fields(index_name)[f],
                ) is Some && !(values.spec_get(self.spec_index_fields(index_name)[f])->Some_0
                    is NULL)),
        ensures
            ({
                let entry = self.spec_index_entry_bytes(index_name, values, ptr);
                let vals = self.spec_key_vals(index_name, values);
                &&& entry.len() == self.spec_index_entry_size(index_name)
                &&& forall|f: int|
                    0 <= f < vals.len() ==> #[trigger] self.spec_entry_field_value(
                        index_name,
                        entry,
                        0,
                        f,
                    ) == vals[f]
                &&& self.spec_entry_ptr(index_name, entry, 0) == ptr
            }),
    {
        let entry = self.spec_index_entry_bytes(index_name, values, ptr);
        let vals = self.spec_key_vals(index_name, values);
        let names = self.spec_index_fields(index_name);
        let esize = self.spec_index_entry_size(index_name);
        crate::schema::lemma_name_index(self.indices@, index_name);
        self.lemma_names_size_monotone(names, 0, names.len() as int);
        self.lemma_index_entry_bytes_len(index_name, values, ptr, names.len() as int);
        self.lemma_index_entry_slots(index_name, values, ptr);
        vstd::arithmetic::mul::lemma_mul_basics(esize);
        assert forall|f: int| 0 <= f < vals.len() implies #[trigger] self.spec_entry_field_value(
            index_name,
            entry,
            0,
            f,
        ) == vals[f] by {
            crate::schema::lemma_names_index(names, names[f]);
            assert(crate::schema::spec_names_index(names, names[f]) == f);
            let off = self.spec_names_size(names, f);
            let fs = self.spec_field_schema(names[f]);
            let fsize = fs.spec_byte_size() as int;
            self.lemma_names_size_monotone(names, 0, f);
            self.lemma_names_size_monotone(names, f, f + 1);
            self.lemma_names_size_monotone(names, f + 1, names.len() as int);
            assert(self.spec_has_field(names[f]));
            let v = values.spec_get(names[f])->Some_0;
            v.lemma_le_bytes_len();
            let ipos = self.spec_index_field_pos(index_name, names[f]);
            assert(entry.subrange(ipos, ipos + fsize) == crate::schema::spec_slot_bytes(
                values.spec_get(names[f]),
                fs,
            ));
            assert(ipos == off);
            assert(entry.subrange(off, off + fsize) == v.spec_le_bytes());
            crate::schema::lemma_decode_at(fs, entry, off);
            lemma_value_decode_encode(fs, v);
        }
        assert(entry.subrange(0 * esize + esize - 8, (0 + 1) * esize) =~= entry.subrange(
            esize - 8,
            esize,
        ));
    }
}

/// Concatenates the bytes before the cut, the new entry, and the bytes
/// after the cut.
fn spliced_index_file(old_file: &Vec<u8>, entry: &Vec<u8>, p: usize, esize: usize) -> (out: Vec<
    u8,
>)
    requires
        p * esize <= old_file@.len(),
        old_file@.len() + entry@.len() <= usize::MAX,
    ensures
        out@ == spec_spliced(old_file@, entry@, p as int, esize as int),
{
    proof {
        vstd::arithmetic::mul::lemma_mul_nonnegative(p as int, esize as int);
    }
    let mut out: Vec<u8> = Vec::new();
    let cut = p * esize;
    let prefix = vstd::slice::slice_subrange(old_file.as_slice(), 0, cut);
    out.extend_from_slice(prefix);
    out.extend_from_slice(entry.as_slice());
    let suffix = vstd::slice::slice_subrange(old_file.as_slice(), cut, old_file.len());
    out.extend_from_slice(suffix);
    proof {
        assert(out@ =~= spec_spliced(old_file@, entry@, p as int, esize as int));
    }
    out
}

impl TableStorage {
    /// Every index field of index `i` was supplied with a non-`NULL`
    /// value, so the entry's stored key reads back exactly as searched.
    pub open spec fn spec_index_fields_supplied(
        self,
        i: int,
        values: crate::schema::ValueMap,
    ) -> bool {
        let names = self.schema.spec_index_fields(self.schema.indices@[i].0@);
        forall|f: int|
            0 <= f < names.len() ==> (values.spec_get(#[trigger] names[f]) is Some && !(
            values.spec_get(names[f])->Some_0 is NULL))
    }

    /// What one index image looks like after an insert: the new entry,
    /// spliced in at the upper end of its equal-key band.
    pub open spec fn spec_index_after_insert(
        self,
        i: int,
        values: crate::schema::ValueMap,
        row_ptr: u64,
        new_file: Seq<u8>,
    ) -> bool {
        let iname = self.schema.indices@[i].0@;
        let old_ib = self.index_files@[i]@;
        let esize = self.schema.spec_index_entry_size(iname);
        let entry = self.schema.spec_index_entry_bytes(iname, values, row_ptr);
        let vals = self.schema.spec_key_vals(iname, values);
        let n = self.schema.spec_num_entries(iname, old_ib);
        exists|p: int|
            {
                &&& 0 <= p <= n
                &&& new_file == spec_spliced(old_ib, entry, p, esize)
                &&& forall|e: int|
                    0 <= e < p ==> self.schema.spec_entry_cmp(iname, old_ib, e, vals)
                        != core::cmp::Ordering::Greater
                &&& forall|e: int|
                    p <= e < n ==> self.schema.spec_entry_cmp(iname, old_ib, e, vals)
                        == core::cmp::Ordering::Greater
            }
    }

    /// Everything `insert_to_index` guarantees of the image it builds
    /// for index `i`.
    pub open spec fn spec_index_insert_post(
        self,
        i: int,
        values: crate::schema::ValueMap,
        row_ptr: u64,
        nf: Seq<u8>,
    ) -> bool {
        let iname = self.schema.indices@[i].0@;
        let old_ib = self.index_files@[i]@;
        let esize = self.schema.spec_index_entry_size(iname);
        let n = self.schema.spec_num_entries(iname, old_ib);
        &&& self.spec_index_after_insert(i, values, row_ptr, nf)
        &&& nf.len() == old_ib.len() + esize
        &&& nf.len() as int % esize == 0
        &&& self.schema.spec_num_entries(iname, nf) == n + 1
        &&& self.schema.spec_index_sorted(iname, nf)
        &&& forall|e: int|
            0 <= e < n + 1 ==> ((#[trigger] self.schema.spec_entry_ptr(iname, nf, e)) == row_ptr
                || exists|e2: int|
                0 <= e2 < n && self.schema.spec_entry_ptr(iname, old_ib, e2)
                    == self.schema.spec_entry_ptr(iname, nf, e))
        &&& exists|e: int|
            0 <= e < n + 1 && (#[trigger] self.schema.spec_entry_ptr(iname, nf, e)) == row_ptr
        &&& forall|e2: int|
            0 <= e2 < n ==> exists|e: int|
                0 <= e < n + 1 && (#[trigger] self.schema.spec_entry_ptr(iname, old_ib, e2))
                    == self.schema.spec_entry_ptr(iname, nf, e)
    }

    /// Builds the image of index `i` with the new row's entry spliced
    /// in at its sorted position.
    fn insert_to_index(&self, i: usize, values: &crate::schema::ValueMap, row_ptr: u64) -> (new_file:
        Vec<u8>)
        requires
            self.wf(),
            i < self.index_files@.len(),
            self.schema.spec_values_wf(*values),
            self.spec_index_fields_supplied(i as int, *values),
            self.index_files@[i as int]@.len() + self.schema.spec_index_entry_size(
                self.schema.indices@[i as int].0@,
            ) <= usize::MAX,
        ensures
            self.spec_index_insert_post(i as int, *values, row_ptr, new_file@),
    {
        let ghost iname = self.schema.indices@[i as int].0@;
        let ghost old_ib = self.index_files@[i as int]@;
        proof {
            crate::schema::lemma_name_index(self.schema.indices@, iname);
            assert(self.schema.spec_index_index(iname) == i as int);
            assert(self.spec_index_file_wf(i as int));
        }
        let index_name: String = self.schema.indices[i].0.clone();
        let fields_list: &Vec<String> = &self.schema.indices[i].1;
        let ghost names = self.schema.spec_index_fields(iname);
        let len = fields_list.len();
        let mut index_values: Vec<Value> = Vec::new();
        let mut f: usize = 0;
        while f < len
            invariant
                0 <= f <= len,
                len == names.len(),
                names == fields_list@.map_values(|s: String| s@),
                index_values@.len() == f,
                forall|g: int|
                    0 <= g < f ==> index_values@[g] == self.schema.spec_key_vals(iname, *values)[g],
                names == self.schema.spec_index_fields(iname),
                iname == self.schema.indices@[i as int].0@,
                i < self.index_files@.len(),
                self.wf(),
            decreases len - f,
        {
            proof {
                assert(names[f as int] == fields_list@[f as int]@);
            }
            match values.get(fields_list[f].as_str()) {
                Some(v) => index_values.push(v),
                None => index_values.push(Value::NULL),
            }
            f = f + 1;
        }
        proof {
            assert(index_values@ =~= self.schema.spec_key_vals(iname, *values));
            // The key values are well formed against the index.
            assert forall|g: int|
                0 <= g < names.len() implies (#[trigger] self.schema.spec_key_vals(
                iname,
                *values,
            )[g]) is NULL || self.schema.spec_key_vals(iname, *values)[g].spec_write_len()
                == self.schema.spec_field_schema(names[g]).spec_byte_size() by {
                assert(values.spec_get(names[g]) is Some);
            }
        }
        let entry = self.schema.index_row_to_bytes(index_name.as_str(), values, row_ptr);
        let esize = self.schema.index_row_byte_size(index_name.as_str());
        proof {
            self.schema.lemma_index_entry_bytes_len(iname, *values, row_ptr, names.len() as int);
        }
        proof {
            self.schema.lemma_names_size_monotone(names, 0, names.len() as int);
            vstd::arithmetic::div_mod::lemma_fundamental_div_mod_converse(
                old_ib.len() as int,
                self.schema.spec_index_entry_size(iname),
                self.spec_num_rows(),
                0,
            );
        }
        let pos = crate::query_tools::find_insert_pos_in_index(
            index_name.as_str(),
            self.index_files[i].as_slice(),
            index_values.as_slice(),
            &self.schema,
        );
        proof {
            let n = self.schema.spec_num_entries(iname, old_ib);
            vstd::arithmetic::div_mod::lemma_fundamental_div_mod(old_ib.len() as int, esize as int);
            vstd::arithmetic::mul::lemma_mul_inequality(pos as int, n, esize as int);
            vstd::arithmetic::mul::lemma_mul_is_commutative(pos as int, esize as int);
            vstd::arithmetic::mul::lemma_mul_is_commutative(n, esize as int);
        }
        let new_file = spliced_index_file(&self.index_files[i], &entry, pos, esize);
        proof {
            let vals = self.schema.spec_key_vals(iname, *values);
            let n = self.schema.spec_num_entries(iname, old_ib);
            self.schema.lemma_entry_key_decodes(iname, *values, row_ptr);
            self.schema.lemma_splice_keeps_sorted(iname, old_ib, entry@, vals, pos as int);
            // The new image carries the new pointer and every old one.
            assert(self.schema.spec_entry_ptr(iname, new_file@, pos as int) == row_ptr);
            assert forall|e2: int|
                0 <= e2 < n implies exists|e: int|
                    0 <= e < n + 1 && (#[trigger] self.schema.spec_entry_ptr(iname, old_ib, e2))
                        == self.schema.spec_entry_ptr(iname, new_file@, e) by {
                if e2 < pos as int {
                    assert(self.schema.spec_entry_ptr(iname, new_file@, e2)
                        == self.schema.spec_entry_ptr(iname, old_ib, e2));
                } else {
                    assert(self.schema.spec_entry_ptr(iname, new_file@, e2 + 1)
                        == self.schema.spec_entry_ptr(iname, old_ib, e2));
                }
            }
        }
        new_file
    }

    /// Appends one encoded row to the data image and splices an entry
    /// for it into every index, keeping the table invariant.
    pub fn insert_row(&mut self, values: &crate::schema::ValueMap) -> (row_ptr: u64)
        requires
            old(self).wf(),
            old(self).schema.spec_values_wf(*values),
            forall|i: int|
                0 <= i < old(self).index_files@.len() ==> old(self).spec_index_fields_supplied(
                    i,
                    *values,
                ),
            old(self).data@.len() + old(self).schema.spec_row_size() <= usize::MAX,
            old(self).spec_num_rows() + 1 < 0x4000_0000,
            forall|i: int|
                0 <= i < old(self).index_files@.len()
                    ==> (#[trigger] old(self).index_files@[i])@.len()
                    + old(self).schema.spec_index_entry_size(old(self).schema.indices@[i].0@)
                    <= usize::MAX,
        ensures
            final(self).wf(),
            final(self).schema == old(self).schema,
            row_ptr == old(self).data@.len(),
            final(self).data@ == old(self).data@ + old(self).schema.spec_row_bytes(*values),
            final(self).index_files@.len() == old(self).index_files@.len(),
            forall|i: int|
                0 <= i < old(self).index_files@.len() ==> old(self).spec_index_after_insert(
                    i,
                    *values,
                    row_ptr,
                    (#[trigger] final(self).index_files@[i])@,
                ),
    {
        let ghost old_self = *self;
        let row_bytes = self.schema.data_row_to_bytes(values);
        proof {
            self.schema.lemma_row_bytes_len(*values, self.schema.fields@.len() as int);
        }
        let row_ptr: u64 = self.data.len() as u64;
        let n_indices = self.index_files.len();
        let mut new_files: Vec<Vec<u8>> = Vec::new();
        let mut i: usize = 0;
        while i < n_indices
            invariant
                0 <= i <= n_indices,
                *self == old_self,
                n_indices == self.index_files@.len(),
                self.wf(),
                self.schema.spec_values_wf(*values),
                row_ptr == self.data@.len(),
                forall|j: int|
                    0 <= j < self.index_files@.len() ==> self.spec_index_fields_supplied(
                        j,
                        *values,
                    ),
                forall|j: int|
                    0 <= j < self.index_files@.len() ==> (#[trigger] self.index_files@[j])@.len()
                        + self.schema.spec_index_entry_size(self.schema.indices@[j].0@)
                        <= usize::MAX,
                new_files@.len() == i,
                forall|j: int|
                    0 <= j < i ==> self.spec_index_insert_post(
                        j,
                        *values,
                        row_ptr,
                        (#[trigger] new_files@[j])@,
                    ),
            decreases n_indices - i,
        {
            let nf = self.insert_to_index(i, values, row_ptr);
            new_files.push(nf);
            i = i + 1;
        }
        let mut rb = row_bytes;
        self.data.append(&mut rb);
        self.index_files = new_files;
        proof {
            let row = self.schema.spec_row_size();
            let old_len = old_self.data@.len() as int;
            let old_rows = old_self.spec_num_rows();
            vstd::arithmetic::div_mod::lemma_fundamental_div_mod(old_len, row);
            vstd::arithmetic::div_mod::lemma_div_plus_one(old_len, row);
            vstd::arithmetic::div_mod::lemma_mod_multiples_vanish(1, old_len, row);
            assert(self.spec_num_rows() == old_rows + 1);
            assert forall|i2: int|
                0 <= i2 < self.index_files@.len() implies self.spec_index_file_wf(i2) by {
                assert(old_self.spec_index_insert_post(
                    i2,
                    *values,
                    row_ptr,
                    self.index_files@[i2]@,
                ));
                let iname = self.schema.indices@[i2].0@;
                let old_ib = old_self.index_files@[i2]@;
                let esize = self.schema.spec_index_entry_size(iname);
                let entry = self.schema.spec_index_entry_bytes(iname, *values, row_ptr);
                let vals = self.schema.spec_key_vals(iname, *values);
                let n = self.schema.spec_num_entries(iname, old_ib);
                let p = choose|p: int|
                    {
                        &&& 0 <= p <= n
                        &&& self.index_files@[i2]@ == spec_spliced(old_ib, entry, p, esize)
                        &&& forall|e: int|
                            0 <= e < p ==> old_self.schema.spec_entry_cmp(iname, old_ib, e, vals)
                                != core::cmp::Ordering::Greater
                        &&& forall|e: int|
                            p <= e < n ==> old_self.schema.spec_entry_cmp(iname, old_ib, e, vals)
                                == core::cmp::Ordering::Greater
                    };
                old_self.lemma_index_file_wf_after_insert(*self, i2, *values, p);
            }
        }
        row_ptr
    }
}

impl TableStorage {
    /// Law: the data image of a well-formed table is exactly its row
    /// count times the row byte size — inserts append whole rows and
    /// nothing else ever writes the image.
    pub proof fn lemma_data_length(self)
        requires
            self.wf(),
        ensures
            self.data@.len() as int == self.spec_num_rows() * self.schema.spec_row_size(),
    {
        let row = self.schema.spec_row_size();
        vstd::arithmetic::div_mod::lemma_fundamental_div_mod(self.data@.len() as int, row);
        vstd::arithmetic::mul::lemma_mul_is_commutative(self.spec_num_rows(), row);
    }

    /// Law: each index image holds exactly one entry per data row: its
    /// byte length is the row count times the entry byte size.
    pub proof fn lemma_index_length(self, i: int)
        requires
            self.wf(),
            0 <= i < self.index_files@.len(),
        ensures
            self.index_files@[i]@.len() as int == self.spec_num_rows()
                * self.schema.spec_index_entry_size(self.schema.indices@[i].0@),
    {
        assert(self.spec_index_file_wf(i));
    }

    /// Law: each index of a well-formed table is sorted by composite
    /// key and each entry's row pointer names a whole stored row; that
    /// the pointers cover every row is the last clause of
    /// `spec_index_file_wf`.
    pub proof fn lemma_index_invariant(self, i: int)
        requires
            self.wf(),
            0 <= i < self.index_files@.len(),
        ensures
            self.schema.spec_index_sorted(
                self.schema.indices@[i].0@,
                self.index_files@[i]@,
            ),
            forall|e: int|
                0 <= e < self.spec_num_rows() ==> (#[trigger] self.schema.spec_entry_ptr(
                    self.schema.indices@[i].0@,
                    self.index_files@[i]@,
                    e,
                )) as int % self.schema.spec_row_size() == 0 && self.schema.spec_entry_ptr(
                    self.schema.indices@[i].0@,
                    self.index_files@[i]@,
                    e,
                ) as int + self.schema.spec_row_size() <= self.data@.len(),
    {
        assert(self.spec_index_file_wf(i));
    }
}

/// The in-memory store: every table of one database, reached by name.
pub struct PBase {
    tables: Vec<TableStorage>,
}

impl PBase {
    pub closed spec fn spec_tables(self) -> Seq<TableStorage> {
        self.tables@
    }

    /// Every table well formed, every table name unique.
    pub open spec fn wf(self) -> bool {
        &&& forall|i: int|
            0 <= i < self.spec_tables().len() ==> (#[trigger] self.spec_tables()[i]).wf()
        &&& forall|i: int, j: int|
            0 <= i < j < self.spec_tables().len() ==> self.spec_tables()[i].schema.name@
                != self.spec_tables()[j].schema.name@
    }

    pub open spec fn spec_has_table(self, name: Seq<char>) -> bool {
        crate::query_tools::spec_has_storage(self.spec_tables(), name)
    }

    pub fn new() -> (db: PBase)
        ensures
            db.wf(),
            db.spec_tables().len() == 0,
    {
        PBase { tables: Vec::new() }
    }

    pub fn is_table_exist(&self, table_name: &str) -> (r: bool)
        ensures
            r == self.spec_has_table(table_name@),
    {
        match crate::query_tools::find_storage(&self.tables, table_name) {
            Some(_) => true,
            None => false,
        }
    }

    /// Registers the table: a fresh empty data image and one fresh
    /// empty index image per declared index. An existing table of the
    /// same name is replaced.
    pub fn run_create_table_query(&mut self, query: crate::query::CreateTableQuery) -> (r: Result<
        (),
        crate::common::PBaseError,
    >)
        requires
            old(self).wf(),
            query.schema.wf(),
            query.schema.spec_row_size() >= 1,
        ensures
            final(self).wf(),
            r is Ok,
            final(self).spec_has_table(query.schema.name@),
            ({
                let t = crate::query_tools::spec_storage_of(
                    final(self).spec_tables(),
                    query.schema.name@,
                );
                &&& t.schema == query.schema
                &&& t.data@.len() == 0
                &&& t.index_files@.len() == query.schema.indices@.len()
                &&& forall|i: int|
                    0 <= i < t.index_files@.len() ==> (#[trigger] t.index_files@[i])@.len() == 0
            }),
            forall|n: Seq<char>|
                n != query.schema.name@ ==> #[trigger] final(self).spec_has_table(n) == old(
                    self,
                ).spec_has_table(n) && (old(self).spec_has_table(n)
                    ==> crate::query_tools::spec_storage_of(final(self).spec_tables(), n)
                    == crate::query_tools::spec_storage_of(old(self).spec_tables(), n)),
    {
        let n_idx = query.schema.indices.len();
        let mut index_files: Vec<Vec<u8>> = Vec::new();
        let mut i: usize = 0;
        while i < n_idx
            invariant
                0 <= i <= n_idx,
                index_files@.len() == i,
                forall|j: int| 0 <= j < i ==> (#[trigger] index_files@[j])@.len() == 0,
            decreases n_idx - i,
        {
            index_files.push(Vec::new());
            i = i + 1;
        }
        let storage = TableStorage { schema: query.schema, data: Vec::new(), index_files };
        proof {
            let row = storage.schema.spec_row_size();
            vstd::arithmetic::div_mod::lemma_basic_div(0, row);
            vstd::arithmetic::div_mod::lemma_small_mod(0nat, row as nat);
            assert(storage.spec_num_rows() == 0);
            assert forall|j: int|
                0 <= j < storage.index_files@.len() implies storage.spec_index_file_wf(j) by {
                let iname = storage.schema.indices@[j].0@;
                let esize = storage.schema.spec_index_entry_size(iname);
                crate::schema::lemma_name_index(storage.schema.indices@, iname);
                storage.schema.lemma_names_size_monotone(
                    storage.schema.spec_index_fields(iname),
                    0,
                    storage.schema.spec_index_fields(iname).len() as int,
                );
                vstd::arithmetic::div_mod::lemma_basic_div(0, esize);
                vstd::arithmetic::div_mod::lemma_small_mod(0nat, esize as nat);
                vstd::arithmetic::mul::lemma_mul_basics(esize);
            }
            assert(storage.wf());
        }
        let ghost old_tables = self.tables@;
        let ghost new_name = storage.schema.name@;
        match crate::query_tools::find_storage(&self.tables, storage.schema.name.as_str()) {
            Some(pos) => {
                proof {
                    crate::query_tools::lemma_storage_index(old_tables, new_name);
                    assert(old_tables[pos as int].schema.name@ == new_name);
                }
                self.tables[pos] = storage;
                proof {
                    assert forall|i: int|
                        0 <= i < old_tables.len() implies (#[trigger] old_tables[i]).schema.name@
                        == self.tables@[i].schema.name@ by {}
                    // The replaced slot keeps its name, so every lookup
                    // lands where it used to.
                    crate::query_tools::lemma_storage_index(self.tables@, new_name);
                    assert forall|n: Seq<char>|
                        n != new_name implies (crate::query_tools::spec_has_storage(
                        self.tables@,
                        n,
                    ) == crate::query_tools::spec_has_storage(old_tables, n)
                        && (crate::query_tools::spec_has_storage(old_tables, n)
                        ==> crate::query_tools::spec_storage_index(self.tables@, n)
                        == crate::query_tools::spec_storage_index(old_tables, n)
                        && crate::query_tools::spec_storage_of(self.tables@, n)
                        == crate::query_tools::spec_storage_of(old_tables, n))) by {
                        crate::query_tools::lemma_storage_index_frame(
                            old_tables,
                            self.tables@,
                            n,
                        );
                        crate::query_tools::lemma_storage_index_frame(
                            self.tables@,
                            old_tables,
                            n,
                        );
                        crate::query_tools::lemma_storage_index(old_tables, n);
                        crate::query_tools::lemma_storage_index(self.tables@, n);
                        if crate::query_tools::spec_has_storage(old_tables, n) {
                            assert(crate::query_tools::spec_storage_index(self.tables@, n)
                                == crate::query_tools::spec_storage_index(old_tables, n));
                            if crate::query_tools::spec_storage_index(old_tables, n)
                                != pos as int {
                                assert(crate::query_tools::spec_storage_of(self.tables@, n)
                                    == crate::query_tools::spec_storage_of(old_tables, n));
                            } else {
                                assert(old_tables[pos as int].schema.name@ == n);
                                assert(false);
                            }
                        }
                    }
                    // The new table stands at its old slot.
                    assert forall|k: int|
                        0 <= k < crate::query_tools::spec_storage_index(
                            old_tables,
                            new_name,
                        ) implies (#[trigger] self.tables@[k]).schema.name@ != new_name by {
                        assert(old_tables[k].schema.name@ != new_name);
                    }
                    crate::query_tools::lemma_storage_index_frame(
                        self.tables@,
                        old_tables,
                        new_name,
                    );
                    crate::query_tools::lemma_storage_index_frame(
                        old_tables,
                        self.tables@,
                        new_name,
                    );
                    assert(crate::query_tools::spec_storage_index(self.tables@, new_name)
                        == pos as int);
                    assert forall|i: int|
                        0 <= i < self.tables@.len() implies (#[trigger] self.tables@[i]).wf() by {
                        if i != pos as int {
                            assert(self.tables@[i] == old_tables[i]);
                            assert((old(self).spec_tables()[i]).wf());
                        }
                    }
                    assert forall|i: int, j: int|
                        0 <= i < j < self.tables@.len() implies self.tables@[i].schema.name@
                        != self.tables@[j].schema.name@ by {
                        assert(old(self).spec_tables()[i].schema.name@ != old(
                            self,
                        ).spec_tables()[j].schema.name@);
                        assert(self.tables@[i].schema.name@ == old_tables[i].schema.name@);
                        assert(self.tables@[j].schema.name@ == old_tables[j].schema.name@);
                    }
                }
            },
            None => {
                proof {
                    crate::query_tools::lemma_storage_index(old_tables, new_name);
                    assert forall|i: int|
                        0 <= i < old_tables.len() implies (#[trigger] old_tables[i]).schema.name@
                        != new_name by {}
                }
                self.tables.push(storage);
                proof {
                    crate::query_tools::lemma_storage_index(self.tables@, new_name);
                    assert(self.tables@[old_tables.len() as int].schema.name@ == new_name);
                    let nidx = crate::query_tools::spec_storage_index(self.tables@, new_name);
                    if nidx < old_tables.len() {
                        assert(self.tables@[nidx] == old_tables[nidx]);
                        assert(self.tables@[nidx].schema.name@ == new_name);
                        assert(false);
                    }
                    if nidx > old_tables.len() {
                        assert(self.tables@[old_tables.len() as int].schema.name@ != new_name);
                        assert(false);
                    }
                    assert(crate::query_tools::spec_storage_index(self.tables@, new_name)
                        == old_tables.len());
                    assert forall|n: Seq<char>|
                        n != new_name implies (crate::query_tools::spec_has_storage(
                        self.tables@,
                        n,
                    ) == crate::query_tools::spec_has_storage(old_tables, n)
                        && (crate::query_tools::spec_has_storage(old_tables, n)
                        ==> crate::query_tools::spec_storage_of(self.tables@, n)
                        == crate::query_tools::spec_storage_of(old_tables, n))) by {
                        crate::query_tools::lemma_storage_index_frame(
                            old_tables,
                            self.tables@,
                            n,
                        );
                        crate::query_tools::lemma_storage_index(old_tables, n);
                        crate::query_tools::lemma_storage_index(self.tables@, n);
                        if crate::query_tools::spec_has_storage(self.tables@, n) {
                            if !crate::query_tools::spec_has_storage(old_tables, n) {
                                assert(self.tables@[crate::query_tools::spec_storage_index(
                                    self.tables@,
                                    n,
                                )].schema.name@ == n);
                                if crate::query_tools::spec_storage_index(self.tables@, n)
                                    < old_tables.len() {
                                    assert(old_tables[crate::query_tools::spec_storage_index(
                                        self.tables@,
                                        n,
                                    )].schema.name@ == n);
                                    assert(false);
                                } else {
                                    assert(crate::query_tools::spec_storage_index(
                                        self.tables@,
                                        n,
                                    ) == old_tables.len() as int);
                                    assert(false);
                                }
                            }
                        }
                    }
                    assert forall|i: int|
                        0 <= i < self.tables@.len() implies (#[trigger] self.tables@[i]).wf() by {
                        if i < old_tables.len() {
                            assert(self.tables@[i] == old_tables[i]);
                            assert((old(self).spec_tables()[i]).wf());
                        } else {
                            assert(self.tables@[i] == storage);
                        }
                    }
                    assert forall|i: int, j: int|
                        0 <= i < j < self.tables@.len() implies self.tables@[i].schema.name@
                        != self.tables@[j].schema.name@ by {
                        if j < old_tables.len() {
                            assert(old(self).spec_tables()[i].schema.name@ != old(
                                self,
                            ).spec_tables()[j].schema.name@);
                            assert(self.tables@[i] == old_tables[i]);
                            assert(self.tables@[j] == old_tables[j]);
                        } else {
                            assert(self.tables@[j] == storage);
                            assert(self.tables@[i] == old_tables[i]);
                            assert(old_tables[i].schema.name@ != new_name);
                        }
                    }
                }
            },
        }
        Ok(())
    }

    /// Appends the row to the named table and splices an entry for it
    /// into each of the table's indices, at its sorted position.
    pub fn run_insert_query(&mut self, query: &crate::query::InsertQuery) -> (r: Result<
        usize,
        crate::common::PBaseError,
    >)
        requires
            old(self).wf(),
            crate::query_tools::spec_has_storage(old(self).spec_tables(), query.table@) ==> ({
                let t = crate::query_tools::spec_storage_of(old(self).spec_tables(), query.table@);
                &&& t.schema.spec_values_wf(query.values)
                &&& forall|i: int|
                    0 <= i < t.index_files@.len() ==> t.spec_index_fields_supplied(
                        i,
                        query.values,
                    )
                &&& t.data@.len() + t.schema.spec_row_size() <= usize::MAX
                &&& t.spec_num_rows() + 1 < 0x4000_0000
                &&& forall|i: int|
                    0 <= i < t.index_files@.len() ==> (#[trigger] t.index_files@[i])@.len()
                        + t.schema.spec_index_entry_size(t.schema.indices@[i].0@) <= usize::MAX
            }),
        ensures
            final(self).wf(),
            !crate::query_tools::spec_has_storage(old(self).spec_tables(), query.table@) <==> (
            r matches Err(crate::common::PBaseError::TableNotFound(_))),
            (r matches Err(crate::common::PBaseError::TableNotFound(n)) ==> n@ == query.table@),
            crate::query_tools::spec_has_storage(old(self).spec_tables(), query.table@) ==> ({
                let k = crate::query_tools::spec_storage_index(
                    old(self).spec_tables(),
                    query.table@,
                );
                let told = old(self).spec_tables()[k];
                let tnew = final(self).spec_tables()[k];
                &&& r == Ok::<usize, crate::common::PBaseError>(1)
                &&& final(self).spec_tables().len() == old(self).spec_tables().len()
                &&& forall|j: int|
                    0 <= j < old(self).spec_tables().len() && j != k
                        ==> final(self).spec_tables()[j] == old(self).spec_tables()[j]
                &&& tnew.schema == told.schema
                &&& tnew.data@ == told.data@ + told.schema.spec_row_bytes(query.values)
                &&& forall|i: int|
                    0 <= i < told.index_files@.len() ==> told.spec_index_after_insert(
                        i,
                        query.values,
                        told.data@.len() as u64,
                        (#[trigger] tnew.index_files@[i])@,
                    )
            }),
    {
        match crate::query_tools::find_storage(&self.tables, query.table.as_str()) {
            Some(pos) => {
                let _row_ptr = self.tables[pos].insert_row(&query.values);
                Ok(1)
            },
            None => Err(crate::common::PBaseError::TableNotFound(query.table.clone())),
        }
    }

    /// Runs the SELECT against the stored tables.
    pub fn run_select_query(&self, query: crate::query::SelectQuery) -> (r: Result<
        Vec<crate::schema::ValueMap>,
        crate::common::PBaseError,
    >)
        requires
            self.wf(),
            forall|t: int|
                0 <= t < self.spec_tables().len() ==> (#[trigger] self.spec_tables()[t]).data@.len()
                    + self.spec_tables()[t].schema.spec_row_size() <= usize::MAX,
            crate::query_tools::spec_query_wf(self.spec_tables(), query),
        ensures
            !crate::query_tools::spec_tables_present(self.spec_tables(), query) <==> (r matches Err(
                crate::common::PBaseError::TableNotFound(_),
            )),
            (crate::query_tools::spec_tables_present(self.spec_tables(), query) ==> r is Ok),
            (r is Ok && query.joins@.len() == 0 && query.filters@.len() == 0)
                ==> r->Ok_0@.len() == crate::query_tools::spec_storage_of(
                self.spec_tables(),
                query.from@,
            ).spec_num_rows(),
            r matches Ok(rows) ==> exists|
                sels: Seq<crate::common::Selection>,
                rems: Seq<Seq<usize>>,
            | #[trigger] crate::query_tools::spec_select_result_ok(
                self.spec_tables(),
                query,
                sels,
                rems,
                rows@,
            ),
    {
        proof {
            assert forall|t: int|
                0 <= t < self.tables@.len() implies (#[trigger] self.tables@[t]).query_wf() by {
                assert(self.tables@[t].wf());
            }
            if crate::query_tools::spec_tables_present(self.tables@, query) {
                crate::query_tools::lemma_storage_index(self.tables@, query.from@);
                assert(crate::query_tools::spec_storage_of(
                    self.tables@,
                    query.from@,
                ).wf());
                assert forall|j: int|
                    0 <= j < query.joins@.len() implies crate::query_tools::spec_storage_of(
                    self.tables@,
                    (#[trigger] query.joins@[j]).rhs.source@,
                ).data@.len() as int % crate::query_tools::spec_storage_of(
                    self.tables@,
                    query.joins@[j].rhs.source@,
                ).schema.spec_row_size() == 0 by {
                    crate::query_tools::lemma_storage_index(
                        self.tables@,
                        query.joins@[j].rhs.source@,
                    );
                    assert(crate::query_tools::spec_storage_of(
                        self.tables@,
                        query.joins@[j].rhs.source@,
                    ).wf());
                }
                assert(crate::query_tools::spec_sizes_ok(self.tables@, query));
            }
        }
        crate::query_tools::SelectQueryExecutor::new(&self.tables, query).call()
    }
}

impl TableStorage {
    /// Splicing the new row's entry at its found position and appending
    /// the row keeps one index image well formed.
    proof fn lemma_index_file_wf_after_insert(
        self,
        new_t: TableStorage,
        i: int,
        values: crate::schema::ValueMap,
        p: int,
    )
        requires
            self.wf(),
            0 <= i < self.index_files@.len(),
            new_t.schema == self.schema,
            new_t.data@ == self.data@ + self.schema.spec_row_bytes(values),
            self.data@.len() + self.schema.spec_row_size() <= usize::MAX,
            self.schema.spec_values_wf(values),
            self.spec_index_fields_supplied(i, values),
            new_t.index_files@.len() == self.index_files@.len(),
            0 <= p <= self.schema.spec_num_entries(
                self.schema.indices@[i].0@,
                self.index_files@[i]@,
            ),
            forall|e: int|
                0 <= e < p ==> self.schema.spec_entry_cmp(
                    self.schema.indices@[i].0@,
                    self.index_files@[i]@,
                    e,
                    self.schema.spec_key_vals(self.schema.indices@[i].0@, values),
                ) != core::cmp::Ordering::Greater,
            forall|e: int|
                p <= e < self.schema.spec_num_entries(
                    self.schema.indices@[i].0@,
                    self.index_files@[i]@,
                ) ==> self.schema.spec_entry_cmp(
                    self.schema.indices@[i].0@,
                    self.index_files@[i]@,
                    e,
                    self.schema.spec_key_vals(self.schema.indices@[i].0@, values),
                ) == core::cmp::Ordering::Greater,
            new_t.index_files@[i]@ == spec_spliced(
                self.index_files@[i]@,
                self.schema.spec_index_entry_bytes(
                    self.schema.indices@[i].0@,
                    values,
                    self.data@.len() as u64,
                ),
                p,
                self.schema.spec_index_entry_size(self.schema.indices@[i].0@),
            ),
        ensures
            new_t.spec_index_file_wf(i),
    {
        let schema = self.schema;
        let iname = schema.indices@[i].0@;
        let names = schema.spec_index_fields(iname);
        let old_ib = self.index_files@[i]@;
        let new_ib = new_t.index_files@[i]@;
        let esize = schema.spec_index_entry_size(iname);
        let row = schema.spec_row_size();
        let n = schema.spec_num_entries(iname, old_ib);
        let old_rows = self.spec_num_rows();
        let row_ptr: u64 = self.data@.len() as u64;
        let entry = schema.spec_index_entry_bytes(iname, values, row_ptr);
        let vals = schema.spec_key_vals(iname, values);
        assert(self.spec_index_file_wf(i));
        crate::schema::lemma_name_index(schema.indices@, iname);
        schema.lemma_names_size_monotone(names, 0, names.len() as int);
        schema.lemma_index_entry_bytes_len(iname, values, row_ptr, names.len() as int);
        // The data image grows by exactly one row.
        schema.lemma_row_bytes_len(values, schema.fields@.len() as int);
        vstd::arithmetic::div_mod::lemma_fundamental_div_mod(self.data@.len() as int, row);
        vstd::arithmetic::div_mod::lemma_div_plus_one(self.data@.len() as int, row);
        vstd::arithmetic::div_mod::lemma_mod_multiples_vanish(1, self.data@.len() as int, row);
        assert(new_t.spec_num_rows() == old_rows + 1);
        vstd::arithmetic::div_mod::lemma_fundamental_div_mod_converse(
            old_ib.len() as int,
            esize,
            old_rows,
            0,
        );
        assert(n == old_rows);
        schema.lemma_entry_key_decodes(iname, values, row_ptr);
        schema.lemma_splice_keeps_sorted(iname, old_ib, entry, vals, p);
        vstd::arithmetic::mul::lemma_mul_is_distributive_add(esize, n, 1);
        vstd::arithmetic::mul::lemma_mul_basics(esize);
        vstd::arithmetic::mul::lemma_mul_is_commutative(n + 1, esize);
        vstd::arithmetic::mul::lemma_mul_is_commutative(n, esize);
        // Where each new entry's pointer and key come from.
        let src = |e: int| if e < p { e } else { e - 1 };
        // Pointer validity against the longer data image.
        assert forall|e: int|
            0 <= e < new_t.spec_num_rows() implies (#[trigger] schema.spec_entry_ptr(
            iname,
            new_ib,
            e,
        )) as int % row == 0 && schema.spec_entry_ptr(iname, new_ib, e) as int + row
            <= new_t.data@.len() by {
            if e == p {
                assert(schema.spec_entry_ptr(iname, new_ib, e) == row_ptr);
                assert(row_ptr as int % row == 0);
            } else if e < p {
                assert(schema.spec_entry_ptr(iname, new_ib, e) == schema.spec_entry_ptr(
                    iname,
                    old_ib,
                    e,
                ));
                assert(0 <= e < self.spec_num_rows());
                assert((schema.spec_entry_ptr(iname, old_ib, e)) as int % row == 0
                    && schema.spec_entry_ptr(iname, old_ib, e) as int + row
                    <= self.data@.len());
            } else {
                assert(schema.spec_entry_ptr(iname, new_ib, e) == schema.spec_entry_ptr(
                    iname,
                    old_ib,
                    e - 1,
                ));
                assert(0 <= e - 1 < self.spec_num_rows());
                assert((schema.spec_entry_ptr(iname, old_ib, e - 1)) as int % row == 0
                    && schema.spec_entry_ptr(iname, old_ib, e - 1) as int + row
                    <= self.data@.len());
            }
        }
        // No two entries share a pointer: old pointers stay distinct and
        // lie strictly below the new one.
        assert forall|e1: int, e2: int|
            0 <= e1 < e2 < new_t.spec_num_rows() implies schema.spec_entry_ptr(iname, new_ib, e1)
            != schema.spec_entry_ptr(iname, new_ib, e2) by {
            let s1: int = if e1 < p {
                e1
            } else {
                e1 - 1
            };
            let s2: int = if e2 < p {
                e2
            } else {
                e2 - 1
            };
            if e1 != p {
                assert(schema.spec_entry_ptr(iname, new_ib, e1) == schema.spec_entry_ptr(
                    iname,
                    old_ib,
                    s1,
                ));
                assert(0 <= s1 < self.spec_num_rows());
                assert(schema.spec_entry_ptr(iname, old_ib, s1) as int + row
                    <= self.data@.len());
            }
            if e2 != p {
                assert(schema.spec_entry_ptr(iname, new_ib, e2) == schema.spec_entry_ptr(
                    iname,
                    old_ib,
                    s2,
                ));
                assert(0 <= s2 < self.spec_num_rows());
                assert(schema.spec_entry_ptr(iname, old_ib, s2) as int + row
                    <= self.data@.len());
            }
            if e1 == p {
                assert(schema.spec_entry_ptr(iname, new_ib, e1) == row_ptr);
            } else if e2 == p {
                assert(schema.spec_entry_ptr(iname, new_ib, e2) == row_ptr);
            } else {
                assert(s1 < s2);
                assert(schema.spec_entry_ptr(iname, old_ib, s1) != schema.spec_entry_ptr(
                    iname,
                    old_ib,
                    s2,
                ));
            }
        }
        // Every row of the grown image still has an entry.
        assert forall|k: int|
            0 <= k < new_t.spec_num_rows() implies exists|e: int|
                0 <= e < new_t.spec_num_rows() && (schema.spec_entry_ptr(iname, new_ib, e) as int)
                    == #[trigger] (k * row) by {
            if k < old_rows {
                let e2 = choose|e2: int|
                    0 <= e2 < old_rows && (schema.spec_entry_ptr(iname, old_ib, e2) as int) == k
                        * row;
                let enew: int = if e2 < p {
                    e2
                } else {
                    e2 + 1
                };
                assert(0 <= enew < new_t.spec_num_rows() && (schema.spec_entry_ptr(
                    iname,
                    new_ib,
                    enew,
                ) as int) == k * row);
            } else {
                vstd::arithmetic::mul::lemma_mul_is_commutative(k, row);
                assert(self.data@.len() as int == row * old_rows);
                assert(0 <= p < new_t.spec_num_rows() && (schema.spec_entry_ptr(
                    iname,
                    new_ib,
                    p,
                ) as int) == k * row);
            }
        }
        // Each entry's key decodes to the pointed-at row's field values.
        assert forall|e: int, f: int|
            0 <= e < new_t.spec_num_rows() && 0 <= f < names.len() implies #[trigger] schema.spec_entry_field_value(
            iname,
            new_ib,
            e,
            f,
        ) == crate::multi_table_view::spec_value_at(
            schema,
            new_t.data@,
            schema.spec_entry_ptr(iname, new_ib, e) as int,
            names[f],
        ) by {
            assert(schema.spec_has_field(names[f]));
            crate::schema::lemma_name_index(schema.fields@, names[f]);
            let idx = schema.spec_field_index(names[f]);
            crate::schema::lemma_fields_size_monotone(schema.fields@, 0, idx);
            crate::schema::lemma_fields_size_monotone(schema.fields@, idx, idx + 1);
            crate::schema::lemma_fields_size_monotone(
                schema.fields@,
                idx + 1,
                schema.fields@.len() as int,
            );
            if e == p {
                // The fresh entry reads back the supplied key value, and
                // so does the appended row image.
                assert(schema.spec_entry_field_value(iname, new_ib, e, f) == vals[f]);
                let v = values.spec_get(names[f])->Some_0;
                v.lemma_le_bytes_len();
                schema.lemma_row_slot(values, names[f]);
                let rb = schema.spec_row_bytes(values);
                assert(new_t.data@.skip(row_ptr as int) =~= rb);
                schema.lemma_decoded_field_agree(new_t.data@.skip(row_ptr as int), rb, names[f]);
                crate::schema::lemma_decode_at(
                    schema.spec_field_schema(names[f]),
                    rb,
                    schema.spec_field_pos(names[f]),
                );
                lemma_value_decode_encode(schema.spec_field_schema(names[f]), v);
            } else {
                let e2 = src(e);
                if e < p {
                    assert(entry_values_match(schema, iname, new_ib, e, old_ib, e));
                } else {
                    assert(entry_values_match(schema, iname, new_ib, e, old_ib, e - 1));
                }
                let ptr = schema.spec_entry_ptr(iname, old_ib, e2) as int;
                assert(schema.spec_entry_field_value(iname, new_ib, e, f)
                    == schema.spec_entry_field_value(iname, old_ib, e2, f));
                assert(schema.spec_entry_field_value(iname, old_ib, e2, f)
                    == crate::multi_table_view::spec_value_at(
                    schema,
                    self.data@,
                    ptr,
                    names[f],
                ));
                // The pointed-at row's bytes are unchanged by the append.
                assert forall|j: int|
                    0 <= j < row implies new_t.data@.skip(ptr)[j] == self.data@.skip(
                    ptr,
                )[j] by {
                    assert(new_t.data@[ptr + j] == self.data@[ptr + j]);
                }
                schema.lemma_decoded_field_agree(
                    new_t.data@.skip(ptr),
                    self.data@.skip(ptr),
                    names[f],
                );
            }
        }
    }
}

/// The decoded key and pointer of one entry agree across two images.
pub open spec fn entry_values_match(
    schema: TableSchema,
    index_name: Seq<char>,
    b1: Seq<u8>,
    e1: int,
    b2: Seq<u8>,
    e2: int,
) -> bool {
    &&& forall|f: int|
        0 <= f < schema.spec_index_fields(index_name).len()
            ==> #[trigger] schema.spec_entry_field_value(index_name, b1, e1, f)
            == schema.spec_entry_field_value(index_name, b2, e2, f)
    &&& schema.spec_entry_ptr(index_name, b1, e1) == schema.spec_entry_ptr(index_name, b2, e2)
}

} // verus!
