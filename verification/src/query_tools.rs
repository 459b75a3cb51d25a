//! Query machinery: the index-image model, index selection scoring,
//! and the search for an entry's insertion position.
use core::cmp::Ordering;
use vstd::prelude::*;

use crate::common::{
    binary_narrow_to_range_exclusive, ord_le, pred_deterministic,
};
use crate::query::{RowFilter, SelectQuery};
use crate::schema::{lemma_names_index, spec_names_index, TableSchema};
use crate::value::Value;

verus! {

impl TableSchema {
    /// How many whole entries an index image holds.
    pub open spec fn spec_num_entries(self, index_name: Seq<char>, bytes: Seq<u8>) -> int {
        bytes.len() as int / self.spec_index_entry_size(index_name)
    }

    /// The decoded value of key field `f` of entry `e`.
    pub open spec fn spec_entry_field_value(
        self,
        index_name: Seq<char>,
        bytes: Seq<u8>,
        e: int,
        f: int,
    ) -> Value {
        let names = self.spec_index_fields(index_name);
        self.spec_field_schema(names[f]).spec_value_from_bytes(
            bytes.skip(e * self.spec_index_entry_size(index_name) + self.spec_names_size(names, f)),
        )
    }

    /// The row pointer entry `e` stores in its trailing eight bytes.
    pub open spec fn spec_entry_ptr(self, index_name: Seq<char>, bytes: Seq<u8>, e: int) -> u64 {
        let esize = self.spec_index_entry_size(index_name);
        vstd::bytes::spec_u64_from_le_bytes(
            bytes.subrange(e * esize + esize - 8, (e + 1) * esize),
        )
    }

    /// Compares entry `e`'s composite key against the key values
    /// `vals`, deciding at the first field that differs.
    pub open spec fn spec_entry_cmp_from(
        self,
        index_name: Seq<char>,
        bytes: Seq<u8>,
        e: int,
        vals: Seq<Value>,
        f: int,
    ) -> Ordering
        decreases self.spec_index_fields(index_name).len() - f,
    {
        let names = self.spec_index_fields(index_name);
        if f < 0 || f >= names.len() {
            Ordering::Equal
        } else {
            let c = self.spec_entry_field_value(index_name, bytes, e, f).spec_cmp(vals[f]);
            if c == Ordering::Equal {
                self.spec_entry_cmp_from(index_name, bytes, e, vals, f + 1)
            } else {
                c
            }
        }
    }

    pub open spec fn spec_entry_cmp(
        self,
        index_name: Seq<char>,
        bytes: Seq<u8>,
        e: int,
        vals: Seq<Value>,
    ) -> Ordering {
        self.spec_entry_cmp_from(index_name, bytes, e, vals, 0)
    }

    /// Entry `e1`'s key is at most entry `e2`'s, deciding at the first
    /// field that differs.
    pub open spec fn spec_entries_le_from(
        self,
        index_name: Seq<char>,
        bytes: Seq<u8>,
        e1: int,
        e2: int,
        f: int,
    ) -> bool
        decreases self.spec_index_fields(index_name).len() - f,
    {
        let names = self.spec_index_fields(index_name);
        if f < 0 || f >= names.len() {
            true
        } else {
            let c = self.spec_entry_field_value(index_name, bytes, e1, f).spec_cmp(
                self.spec_entry_field_value(index_name, bytes, e2, f),
            );
            if c == Ordering::Equal {
                self.spec_entries_le_from(index_name, bytes, e1, e2, f + 1)
            } else {
                c == Ordering::Less
            }
        }
    }

    pub open spec fn spec_entries_le(
        self,
        index_name: Seq<char>,
        bytes: Seq<u8>,
        e1: int,
        e2: int,
    ) -> bool {
        self.spec_entries_le_from(index_name, bytes, e1, e2, 0)
    }

    /// The index image is sorted by composite key.
    pub open spec fn spec_index_sorted(self, index_name: Seq<char>, bytes: Seq<u8>) -> bool {
        forall|e1: int, e2: int|
            0 <= e1 <= e2 < self.spec_num_entries(index_name, bytes) ==> self.spec_entries_le(
                index_name,
                bytes,
                e1,
                e2,
            )
    }

    /// Key values that can stand against this index: one for each index
    /// field, `NULL` or of the field's own tag.
    pub open spec fn spec_index_vals_wf(self, index_name: Seq<char>, vals: Seq<Value>) -> bool {
        let names = self.spec_index_fields(index_name);
        &&& vals.len() == names.len()
        &&& forall|f: int|
            0 <= f < names.len() ==> (#[trigger] vals[f]) is NULL || vals[f].spec_write_len()
                == self.spec_field_schema(names[f]).spec_byte_size()
    }
}

/// Two comparisons against a common probe never cross: when `a` is at
/// most `b`, `a` compares at most the way `b` does.
pub proof fn lemma_value_cmp_monotone(a: Value, b: Value, t: Value)
    requires
        a.comparable(b),
        a.comparable(t),
        b.comparable(t),
        a.spec_cmp(b) != Ordering::Greater,
    ensures
        ord_le(a.spec_cmp(t), b.spec_cmp(t)),
{
}

/// A decoded field value always carries the field's tag, so any two of
/// them are comparable, and so is a well-formed key value.
pub proof fn lemma_entry_field_comparable(
    schema: TableSchema,
    index_name: Seq<char>,
    bytes: Seq<u8>,
    e1: int,
    e2: int,
    f: int,
)
    requires
        schema.wf(),
        schema.spec_has_index(index_name),
        0 <= f < schema.spec_index_fields(index_name).len(),
    ensures
        schema.spec_entry_field_value(index_name, bytes, e1, f).comparable(
            schema.spec_entry_field_value(index_name, bytes, e2, f),
        ),
        !(schema.spec_entry_field_value(index_name, bytes, e1, f) is NULL),
{
    let names = schema.spec_index_fields(index_name);
    crate::schema::lemma_name_index(schema.indices@, index_name);
    assert(schema.spec_has_field(names[f]));
}

/// Two values each equal to a common probe are equal to each other.
pub proof fn lemma_value_eq_trans(a: Value, b: Value, t: Value)
    requires
        a.comparable(t),
        b.comparable(t),
        a.spec_cmp(t) == Ordering::Equal,
        b.spec_cmp(t) == Ordering::Equal,
    ensures
        a.comparable(b),
        a.spec_cmp(b) == Ordering::Equal,
{
}

impl TableSchema {
    /// Once the first `f` fields of an entry match `vals`, the
    /// composite comparison is decided by the fields from `f` on.
    pub proof fn lemma_cmp_from_prefix_equal(
        self,
        index_name: Seq<char>,
        bytes: Seq<u8>,
        e: int,
        vals: Seq<Value>,
        f: int,
    )
        requires
            0 <= f <= self.spec_index_fields(index_name).len(),
            forall|g: int|
                0 <= g < f ==> self.spec_entry_field_value(index_name, bytes, e, g).spec_cmp(
                    #[trigger] vals[g],
                ) == Ordering::Equal,
        ensures
            self.spec_entry_cmp(index_name, bytes, e, vals) == self.spec_entry_cmp_from(
                index_name,
                bytes,
                e,
                vals,
                f,
            ),
        decreases f,
    {
        if f > 0 {
            self.lemma_cmp_from_prefix_equal(index_name, bytes, e, vals, f - 1);
        }
    }

    /// In a band of entries whose first `f` fields all match `vals`,
    /// the sort order carries over to field `f` itself.
    pub proof fn lemma_band_field_sorted(
        self,
        index_name: Seq<char>,
        bytes: Seq<u8>,
        vals: Seq<Value>,
        e1: int,
        e2: int,
        f: int,
    )
        requires
            self.wf(),
            self.spec_has_index(index_name),
            self.spec_index_vals_wf(index_name, vals),
            self.spec_entries_le(index_name, bytes, e1, e2),
            0 <= f < self.spec_index_fields(index_name).len(),
            forall|g: int|
                0 <= g < f ==> self.spec_entry_field_value(index_name, bytes, e1, g).spec_cmp(
                    #[trigger] vals[g],
                ) == Ordering::Equal,
            forall|g: int|
                0 <= g < f ==> self.spec_entry_field_value(index_name, bytes, e2, g).spec_cmp(
                    #[trigger] vals[g],
                ) == Ordering::Equal,
        ensures
            self.spec_entry_field_value(index_name, bytes, e1, f).spec_cmp(
                self.spec_entry_field_value(index_name, bytes, e2, f),
            ) != Ordering::Greater,
    {
        self.lemma_entries_le_from_prefix(index_name, bytes, vals, e1, e2, 0, f);
    }

    /// Helper: the lexicographic order restricted past an equal prefix.
    proof fn lemma_entries_le_from_prefix(
        self,
        index_name: Seq<char>,
        bytes: Seq<u8>,
        vals: Seq<Value>,
        e1: int,
        e2: int,
        g: int,
        f: int,
    )
        requires
            self.wf(),
            self.spec_has_index(index_name),
            self.spec_index_vals_wf(index_name, vals),
            0 <= g <= f < self.spec_index_fields(index_name).len(),
            self.spec_entries_le_from(index_name, bytes, e1, e2, g),
            forall|h: int|
                0 <= h < f ==> self.spec_entry_field_value(index_name, bytes, e1, h).spec_cmp(
                    #[trigger] vals[h],
                ) == Ordering::Equal,
            forall|h: int|
                0 <= h < f ==> self.spec_entry_field_value(index_name, bytes, e2, h).spec_cmp(
                    #[trigger] vals[h],
                ) == Ordering::Equal,
        ensures
            self.spec_entry_field_value(index_name, bytes, e1, f).spec_cmp(
                self.spec_entry_field_value(index_name, bytes, e2, f),
            ) != Ordering::Greater,
        decreases f - g,
    {
        let a = self.spec_entry_field_value(index_name, bytes, e1, g);
        let b = self.spec_entry_field_value(index_name, bytes, e2, g);
        lemma_entry_field_comparable(self, index_name, bytes, e1, e2, g);
        if g < f {
            let names = self.spec_index_fields(index_name);
            crate::schema::lemma_name_index(self.indices@, index_name);
            assert(self.spec_has_field(names[g]));
            assert(vals[g] is NULL || vals[g].spec_write_len() == self.spec_field_schema(
                names[g],
            ).spec_byte_size());
            assert(a.comparable(vals[g]));
            assert(b.comparable(vals[g]));
            lemma_value_eq_trans(a, b, vals[g]);
            assert(a.spec_cmp(b) == Ordering::Equal);
            self.lemma_entries_le_from_prefix(index_name, bytes, vals, e1, e2, g + 1, f);
        } else {
            if a.spec_cmp(b) == Ordering::Greater {
                assert(!self.spec_entries_le_from(index_name, bytes, e1, e2, g));
            }
        }
    }
}

/// Finds where a new entry with key values `index_values` belongs in a
/// sorted index image: after every entry whose key is at most the new
/// key, before every entry whose key exceeds it.
pub fn find_insert_pos_in_index(
    index_name: &str,
    index_bytes: &[u8],
    index_values: &[Value],
    table_schema: &TableSchema,
) -> (r: usize)
    requires
        table_schema.wf(),
        table_schema.spec_has_index(index_name@),
        index_bytes@.len() as int % table_schema.spec_index_entry_size(index_name@) == 0,
        table_schema.spec_num_entries(index_name@, index_bytes@) < 0x4000_0000,
        table_schema.spec_index_sorted(index_name@, index_bytes@),
        table_schema.spec_index_vals_wf(index_name@, index_values@),
    ensures
        0 <= r <= table_schema.spec_num_entries(index_name@, index_bytes@),
        forall|e: int|
            0 <= e < r ==> table_schema.spec_entry_cmp(index_name@, index_bytes@, e, index_values@)
                != Ordering::Greater,
        forall|e: int|
            r <= e < table_schema.spec_num_entries(index_name@, index_bytes@)
                ==> table_schema.spec_entry_cmp(index_name@, index_bytes@, e, index_values@)
                == Ordering::Greater,
{
    let ghost iname = index_name@;
    let ghost ibytes = index_bytes@;
    let ghost vals = index_values@;
    let index_row_size = table_schema.index_row_byte_size(index_name);
    proof {
        crate::schema::lemma_name_index(table_schema.indices@, iname);
        let names = table_schema.spec_index_fields(iname);
        table_schema.lemma_names_size_monotone(names, 0, names.len() as int);
    }
    let n_entries: usize = index_bytes.len() / index_row_size;
    proof {
        vstd::arithmetic::div_mod::lemma_fundamental_div_mod(
            ibytes.len() as int,
            index_row_size as int,
        );
    }
    let mut lhs_idx: i32 = -1;
    let mut rhs_idx: i32 = n_entries as i32;

    let fields_list = table_schema.index_fields(index_name);
    let len = fields_list.len();
    let ghost names = table_schema.spec_index_fields(iname);
    let mut field_byte_pos: usize = 0;
    let mut field_idx: usize = 0;
    while field_idx < len
        invariant
            0 <= field_idx <= len,
            len == names.len(),
            names == fields_list@.map_values(|s: String| s@),
            table_schema.wf(),
            table_schema.spec_has_index(iname),
            names == table_schema.spec_index_fields(iname),
            table_schema.spec_index_wf(names),
            index_row_size == table_schema.spec_index_entry_size(iname),
            8 <= index_row_size <= 0xFFFF_FFFF,
            iname == index_name@,
            ibytes == index_bytes@,
            vals == index_values@,
            ibytes.len() as int % (index_row_size as int) == 0,
            n_entries == table_schema.spec_num_entries(iname, ibytes),
            n_entries < 0x4000_0000,
            ibytes.len() == (index_row_size as int) * (n_entries as int),
            table_schema.spec_index_sorted(iname, ibytes),
            table_schema.spec_index_vals_wf(iname, vals),
            field_byte_pos == table_schema.spec_names_size(names, field_idx as int),
            -1 <= lhs_idx < rhs_idx <= n_entries,
            forall|e: int|
                0 <= e <= lhs_idx ==> table_schema.spec_entry_cmp(iname, ibytes, e, vals)
                    == Ordering::Less,
            forall|e: int|
                rhs_idx <= e < n_entries ==> table_schema.spec_entry_cmp(iname, ibytes, e, vals)
                    == Ordering::Greater,
            forall|e: int, g: int|
                lhs_idx < e < rhs_idx && 0 <= g < field_idx
                    ==> #[trigger] table_schema.spec_entry_field_value(iname, ibytes, e, g).spec_cmp(
                    vals[g],
                ) == Ordering::Equal,
        decreases len - field_idx,
    {
        let ghost f = field_idx as int;
        proof {
            assert(names[f] == fields_list@[f]@);
            table_schema.lemma_names_size_monotone(names, f, f + 1);
            table_schema.lemma_names_size_monotone(names, f + 1, len as int);
        }
        let field_schema = table_schema.field_schema(fields_list[field_idx].as_str());
        let cmp_value: Value = index_values[field_idx];
        let ghost old_lhs = lhs_idx;
        let ghost old_rhs = rhs_idx;

        let schema_g: Ghost<TableSchema> = Ghost(*table_schema);
        let iname_g: Ghost<Seq<char>> = Ghost(iname);
        let ibytes_g: Ghost<Seq<u8>> = Ghost(ibytes);
        let pred = |i: i32| -> (r: Ordering)
            requires
                0 <= i,
                (i as int) < schema_g@.spec_num_entries(iname_g@, ibytes_g@),
                schema_g@.wf(),
                schema_g@.spec_has_index(iname_g@),
                index_row_size == schema_g@.spec_index_entry_size(iname_g@),
                ibytes_g@ == index_bytes@,
                ibytes_g@.len() as int % (index_row_size as int) == 0,
                ibytes_g@.len() == (index_row_size as int) * (
                schema_g@.spec_num_entries(iname_g@, ibytes_g@) as int),
                schema_g@.spec_num_entries(iname_g@, ibytes_g@) < 0x4000_0000,
                field_byte_pos == schema_g@.spec_names_size(
                    schema_g@.spec_index_fields(iname_g@),
                    f,
                ),
                0 <= f < schema_g@.spec_index_fields(iname_g@).len(),
                field_schema == schema_g@.spec_field_schema(
                    schema_g@.spec_index_fields(iname_g@)[f],
                ),
                cmp_value is NULL || cmp_value.spec_write_len()
                    == field_schema.spec_byte_size(),
            ensures
                r == schema_g@.spec_entry_field_value(iname_g@, ibytes_g@, i as int, f).spec_cmp(
                    cmp_value,
                ),
            {
                proof {
                    let esize = index_row_size as int;
                    let n = schema_g@.spec_num_entries(iname_g@, ibytes_g@);
                    let nm = schema_g@.spec_index_fields(iname_g@);
                    crate::schema::lemma_name_index(schema_g@.indices@, iname_g@);
                    schema_g@.lemma_names_size_monotone(nm, 0, f);
                    schema_g@.lemma_names_size_monotone(nm, f, f + 1);
                    schema_g@.lemma_names_size_monotone(nm, f + 1, nm.len() as int);
                    vstd::arithmetic::mul::lemma_mul_inequality(i as int + 1, n, esize);
                    vstd::arithmetic::mul::lemma_mul_is_commutative(i as int + 1, esize);
                    vstd::arithmetic::mul::lemma_mul_is_commutative(n, esize);
                    vstd::arithmetic::mul::lemma_mul_is_distributive_add(esize, i as int, 1);
                    vstd::arithmetic::mul::lemma_mul_basics(esize);
                    vstd::arithmetic::mul::lemma_mul_is_commutative(i as int, esize);
                    assert((i as int) * esize + esize <= ibytes_g@.len());
                    vstd::arithmetic::mul::lemma_mul_nonnegative(i as int, esize);
                }
                let total_len: usize = index_bytes.len();
                let value_bytes_pos = (i as usize) * index_row_size + field_byte_pos;
                let rest = vstd::slice::slice_subrange(index_bytes, value_bytes_pos, total_len);
                let value = field_schema.value_from_bytes(rest);
                proof {
                    assert(rest@ =~= ibytes_g@.skip(value_bytes_pos as int));
                }
                value.compare(&cmp_value)
            };

        proof {
            // The comparator is total on the band, deterministic, and
            // answers in sorted order.
            assert forall|i: i32| lhs_idx < i < rhs_idx implies #[trigger] call_requires(
                pred,
                (i,),
            ) by {}
            assert(pred_deterministic(pred));
            assert forall|i: i32, j: i32, ri: Ordering, rj: Ordering|
                lhs_idx < i <= j < rhs_idx && call_ensures(pred, (i,), ri) && call_ensures(
                    pred,
                    (j,),
                    rj,
                ) implies ord_le(ri, rj) by {
                let vi = table_schema.spec_entry_field_value(iname, ibytes, i as int, f);
                let vj = table_schema.spec_entry_field_value(iname, ibytes, j as int, f);
                table_schema.lemma_band_field_sorted(
                    iname,
                    ibytes,
                    vals,
                    i as int,
                    j as int,
                    f,
                );
                lemma_entry_field_comparable(*table_schema, iname, ibytes, i as int, j as int, f);
                lemma_value_cmp_monotone(vi, vj, cmp_value);
            }
        }
        let out = binary_narrow_to_range_exclusive(lhs_idx, rhs_idx, pred);
        lhs_idx = out.0;
        rhs_idx = out.1;
        proof {
            // Translate the probe answers at the boundaries into facts
            // about every entry, using the sort order.
            let fv = |e: int| table_schema.spec_entry_field_value(iname, ibytes, e, f);
            // New lower bound: everything at or below answers `Less`.
            assert forall|e: int| 0 <= e <= lhs_idx implies table_schema.spec_entry_cmp(
                iname,
                ibytes,
                e,
                vals,
            ) == Ordering::Less by {
                if e > old_lhs {
                    let rl = choose|rl: Ordering|
                        #[trigger] call_ensures(pred, (lhs_idx,), rl) && rl == Ordering::Less;
                    assert(fv(lhs_idx as int).spec_cmp(cmp_value) == Ordering::Less);
                    if e < lhs_idx {
                        table_schema.lemma_band_field_sorted(
                            iname,
                            ibytes,
                            vals,
                            e,
                            lhs_idx as int,
                            f,
                        );
                        lemma_entry_field_comparable(
                            *table_schema,
                            iname,
                            ibytes,
                            e,
                            lhs_idx as int,
                            f,
                        );
                        lemma_value_cmp_monotone(fv(e), fv(lhs_idx as int), cmp_value);
                    }
                    assert(fv(e).spec_cmp(cmp_value) == Ordering::Less);
                    table_schema.lemma_cmp_from_prefix_equal(iname, ibytes, e, vals, f);
                }
            }
            // New upper bound: everything at or above answers `Greater`.
            assert forall|e: int| rhs_idx <= e < n_entries implies table_schema.spec_entry_cmp(
                iname,
                ibytes,
                e,
                vals,
            ) == Ordering::Greater by {
                if e < old_rhs {
                    let rg = choose|rg: Ordering|
                        #[trigger] call_ensures(pred, (rhs_idx,), rg) && rg == Ordering::Greater;
                    assert(fv(rhs_idx as int).spec_cmp(cmp_value) == Ordering::Greater);
                    if e > rhs_idx {
                        table_schema.lemma_band_field_sorted(
                            iname,
                            ibytes,
                            vals,
                            rhs_idx as int,
                            e,
                            f,
                        );
                        lemma_entry_field_comparable(
                            *table_schema,
                            iname,
                            ibytes,
                            rhs_idx as int,
                            e,
                            f,
                        );
                        lemma_value_cmp_monotone(fv(rhs_idx as int), fv(e), cmp_value);
                        assert(ord_le(Ordering::Greater, fv(e).spec_cmp(cmp_value)));
                    }
                    assert(fv(e).spec_cmp(cmp_value) == Ordering::Greater);
                    table_schema.lemma_cmp_from_prefix_equal(iname, ibytes, e, vals, f);
                }
            }
            // The surviving band matches `vals` on this field as well.
            assert forall|e: int, g: int|
                lhs_idx < e < rhs_idx && 0 <= g < f + 1 implies #[trigger] table_schema.spec_entry_field_value(
                iname,
                ibytes,
                e,
                g,
            ).spec_cmp(vals[g]) == Ordering::Equal by {
                if g == f {
                    let ra = choose|ra: Ordering|
                        #[trigger] call_ensures(pred, (((lhs_idx + 1) as i32),), ra) && ra
                            != Ordering::Less;
                    assert(fv(lhs_idx + 1).spec_cmp(cmp_value) != Ordering::Less);
                    let rb = choose|rb: Ordering|
                        #[trigger] call_ensures(pred, (((rhs_idx - 1) as i32),), rb) && rb
                            != Ordering::Greater;
                    assert(fv(rhs_idx - 1).spec_cmp(cmp_value) != Ordering::Greater);
                    if e > lhs_idx + 1 {
                        table_schema.lemma_band_field_sorted(
                            iname,
                            ibytes,
                            vals,
                            lhs_idx + 1,
                            e,
                            f,
                        );
                        lemma_entry_field_comparable(
                            *table_schema,
                            iname,
                            ibytes,
                            lhs_idx + 1,
                            e,
                            f,
                        );
                        lemma_value_cmp_monotone(fv(lhs_idx + 1), fv(e), cmp_value);
                    }
                    if e < rhs_idx - 1 {
                        table_schema.lemma_band_field_sorted(
                            iname,
                            ibytes,
                            vals,
                            e,
                            rhs_idx - 1,
                            f,
                        );
                        lemma_entry_field_comparable(
                            *table_schema,
                            iname,
                            ibytes,
                            e,
                            rhs_idx - 1,
                            f,
                        );
                        lemma_value_cmp_monotone(fv(e), fv(rhs_idx - 1), cmp_value);
                    }
                    assert(fv(e).spec_cmp(cmp_value) != Ordering::Less);
                    assert(fv(e).spec_cmp(cmp_value) != Ordering::Greater);
                }
            }
        }
        field_byte_pos = field_byte_pos + field_schema.byte_size();
        field_idx = field_idx + 1;
    }
    proof {
        // Entries still inside the band match on every field, so their
        // composite key compares `Equal`: they go before the new entry.
        assert forall|e: int| 0 <= e < rhs_idx implies table_schema.spec_entry_cmp(
            iname,
            ibytes,
            e,
            vals,
        ) != Ordering::Greater by {
            if e > lhs_idx {
                table_schema.lemma_cmp_from_prefix_equal(iname, ibytes, e, vals, len as int);
            }
        }
    }
    rhs_idx as usize
}

/// Whether `name` occurs among `names`.
pub open spec fn spec_contains_name(names: Seq<Seq<char>>, name: Seq<char>) -> bool {
    spec_names_index(names, name) < names.len()
}

/// Whether `name` occurs among the views of `names`.
pub fn contains_name(names: &Vec<String>, name: &str) -> (r: bool)
    ensures
        r == spec_contains_name(names@.map_values(|s: String| s@), name@),
{
    let ghost nviews = names@.map_values(|s: String| s@);
    proof {
        lemma_names_index(nviews, name@);
    }
    let len = names.len();
    let mut i: usize = 0;
    while i < len
        invariant
            0 <= i <= len,
            len == names@.len(),
            nviews == names@.map_values(|s: String| s@),
            i <= spec_names_index(nviews, name@) || spec_names_index(nviews, name@)
                < nviews.len(),
            forall|k: int| 0 <= k < i ==> nviews[k] != name@,
        decreases len - i,
    {
        if crate::common::str_eq(names[i].as_str(), name) {
            proof {
                assert(nviews[i as int] == name@);
                lemma_names_index(nviews, name@);
            }
            return true;
        }
        i = i + 1;
    }
    proof {
        lemma_names_index(nviews, name@);
        if spec_names_index(nviews, name@) < nviews.len() {
            assert(nviews[spec_names_index(nviews, name@)] == name@);
        }
    }
    false
}

/// How many leading fields of an index also occur in the filterable
/// field set: the index's greedy usefulness score.
pub open spec fn spec_index_score(
    index_fields: Seq<Seq<char>>,
    filter_fields: Seq<Seq<char>>,
) -> int
    decreases index_fields.len(),
{
    if index_fields.len() == 0 {
        0
    } else if !spec_contains_name(filter_fields, index_fields[0]) {
        0
    } else {
        1 + spec_index_score(index_fields.drop_first(), filter_fields)
    }
}

proof fn lemma_index_score_prefix(
    index_fields: Seq<Seq<char>>,
    filter_fields: Seq<Seq<char>>,
    i: int,
)
    requires
        0 <= i <= index_fields.len(),
        forall|k: int| 0 <= k < i ==> spec_contains_name(filter_fields, #[trigger] index_fields[k]),
        i == index_fields.len() || !spec_contains_name(filter_fields, index_fields[i]),
    ensures
        spec_index_score(index_fields, filter_fields) == i,
    decreases index_fields.len(),
{
    if index_fields.len() > 0 && i > 0 {
        assert(spec_contains_name(filter_fields, index_fields[0]));
        assert forall|k: int|
            0 <= k < i - 1 implies spec_contains_name(
            filter_fields,
            #[trigger] index_fields.drop_first()[k],
        ) by {
            assert(index_fields.drop_first()[k] == index_fields[k + 1]);
        }
        if i - 1 < index_fields.drop_first().len() {
            assert(index_fields.drop_first()[i - 1] == index_fields[i]);
        }
        lemma_index_score_prefix(index_fields.drop_first(), filter_fields, i - 1);
    }
}

/// Counts how many leading index fields occur in the filter set.
pub fn index_score(index_fields: &Vec<String>, filter_fields: &Vec<String>) -> (score: i32)
    requires
        index_fields@.len() < 0x7FFF_FFFF,
    ensures
        score == spec_index_score(
            index_fields@.map_values(|s: String| s@),
            filter_fields@.map_values(|s: String| s@),
        ),
{
    let ghost iviews = index_fields@.map_values(|s: String| s@);
    let ghost fviews = filter_fields@.map_values(|s: String| s@);
    let len = index_fields.len();
    let mut i: usize = 0;
    while i < len
        invariant
            0 <= i <= len,
            len == index_fields@.len() < 0x7FFF_FFFF,
            iviews == index_fields@.map_values(|s: String| s@),
            fviews == filter_fields@.map_values(|s: String| s@),
            forall|k: int| 0 <= k < i ==> spec_contains_name(fviews, #[trigger] iviews[k]),
        decreases len - i,
    {
        proof {
            assert(iviews[i as int] == index_fields@[i as int]@);
        }
        if !contains_name(filter_fields, index_fields[i].as_str()) {
            proof {
                lemma_index_score_prefix(iviews, fviews, i as int);
            }
            return i as i32;
        }
        i = i + 1;
    }
    proof {
        lemma_index_score_prefix(iviews, fviews, len as int);
    }
    len as i32
}

/// The score one declared index earns against the filter set.
pub open spec fn spec_score_of(
    schema: TableSchema,
    i: int,
    filter_fields: Seq<Seq<char>>,
) -> int {
    spec_index_score(schema.indices@[i].1@.map_values(|s: String| s@), filter_fields)
}

/// Picks the first index with the highest non-zero greedy score, if any
/// index scores at all.
pub fn index_for_query(table_schema: &TableSchema, filter_fields: &Vec<String>) -> (r: Option<
    String,
>)
    requires
        table_schema.wf(),
        forall|i: int|
            0 <= i < table_schema.indices@.len()
                ==> (#[trigger] table_schema.indices@[i]).1@.len() < 0x7FFF_FFFF,
    ensures
        ({
            let fviews = filter_fields@.map_values(|s: String| s@);
            match r {
                None => forall|i: int|
                    0 <= i < table_schema.indices@.len() ==> #[trigger] spec_score_of(
                        *table_schema,
                        i,
                        fviews,
                    ) <= 0,
                Some(name) => {
                    &&& table_schema.spec_has_index(name@)
                    &&& {
                        let w = table_schema.spec_index_index(name@);
                        &&& spec_score_of(*table_schema, w, fviews) > 0
                        &&& forall|j: int|
                            0 <= j < w ==> #[trigger] spec_score_of(*table_schema, j, fviews)
                                < spec_score_of(*table_schema, w, fviews)
                        &&& forall|j: int|
                            w <= j < table_schema.indices@.len() ==> #[trigger] spec_score_of(
                                *table_schema,
                                j,
                                fviews,
                            ) <= spec_score_of(*table_schema, w, fviews)
                    }
                },
            }
        }),
{
    let ghost fviews = filter_fields@.map_values(|s: String| s@);
    let len = table_schema.indices.len();
    let mut best_index_pos: usize = 0;
    let mut found = false;
    let mut best_index_score: i32 = 0;
    let mut i: usize = 0;
    while i < len
        invariant
            0 <= i <= len,
            len == table_schema.indices@.len(),
            table_schema.wf(),
            fviews == filter_fields@.map_values(|s: String| s@),
            forall|k: int|
                0 <= k < len ==> (#[trigger] table_schema.indices@[k]).1@.len() < 0x7FFF_FFFF,
            !found ==> best_index_score == 0 && forall|j: int|
                0 <= j < i ==> #[trigger] spec_score_of(*table_schema, j, fviews) <= 0,
            found ==> {
                &&& 0 <= best_index_pos < i
                &&& best_index_score == spec_score_of(*table_schema, best_index_pos as int, fviews)
                    > 0
                &&& forall|j: int|
                    0 <= j < best_index_pos ==> #[trigger] spec_score_of(*table_schema, j, fviews)
                        < best_index_score
                &&& forall|j: int|
                    best_index_pos <= j < i ==> #[trigger] spec_score_of(*table_schema, j, fviews)
                        <= best_index_score
            },
        decreases len - i,
    {
        proof {
            assert(table_schema.indices@[i as int].1@.map_values(|s: String| s@)
                == table_schema.indices@[i as int].1@.map_values(|s: String| s@));
        }
        let score = index_score(&table_schema.indices[i].1, filter_fields);
        if score > best_index_score {
            best_index_score = score;
            best_index_pos = i;
            found = true;
        }
        i = i + 1;
    }
    if found {
        proof {
            crate::schema::lemma_name_index(
                table_schema.indices@,
                table_schema.indices@[best_index_pos as int].0@,
            );
            assert(table_schema.spec_index_index(
                table_schema.indices@[best_index_pos as int].0@,
            ) == best_index_pos as int);
        }
        Some(table_schema.indices[best_index_pos].0.clone())
    } else {
        None
    }
}

/// Whether a filter is a literal filter on the named table.
pub open spec fn spec_applicable(filter: RowFilter, tname: Seq<char>) -> bool {
    &&& filter.rhs is Value
    &&& filter.field.source@ == tname
}

/// Whether the row at `pos` satisfies a literal filter.
pub open spec fn spec_filter_satisfied(
    schema: TableSchema,
    table_bytes: Seq<u8>,
    pos: int,
    filter: RowFilter,
) -> bool {
    crate::multi_table_view::spec_value_at(schema, table_bytes, pos, filter.field.name@).spec_cmp(
        filter.rhs->Value_0,
    ) == filter.op
}

/// Whether the row at `pos` satisfies every applicable remaining
/// literal filter of the named table.
pub open spec fn spec_row_passes(
    schema: TableSchema,
    table_bytes: Seq<u8>,
    pos: int,
    filters: Seq<RowFilter>,
    remaining: Seq<usize>,
    tname: Seq<char>,
) -> bool {
    forall|r: int|
        0 <= r < remaining.len() ==> (spec_applicable(
            filters[(#[trigger] remaining[r]) as int],
            tname,
        ) ==> spec_filter_satisfied(schema, table_bytes, pos, filters[remaining[r] as int]))
}

/// The first `k` candidate positions, narrowed to the rows that pass.
pub open spec fn spec_scan(
    schema: TableSchema,
    table_bytes: Seq<u8>,
    filters: Seq<RowFilter>,
    remaining: Seq<usize>,
    tname: Seq<char>,
    positions: Seq<usize>,
    k: int,
) -> Seq<usize>
    decreases k,
{
    if k <= 0 {
        Seq::empty()
    } else {
        let prev = spec_scan(schema, table_bytes, filters, remaining, tname, positions, k - 1);
        if spec_row_passes(
            schema,
            table_bytes,
            positions[k - 1] as int,
            filters,
            remaining,
            tname,
        ) {
            prev.push(positions[k - 1])
        } else {
            prev
        }
    }
}

/// The remaining filter indices once the named table's literal filters
/// are consumed.
pub open spec fn spec_retained(
    filters: Seq<RowFilter>,
    remaining: Seq<usize>,
    tname: Seq<char>,
    k: int,
) -> Seq<usize>
    decreases k,
{
    if k <= 0 {
        Seq::empty()
    } else {
        let prev = spec_retained(filters, remaining, tname, k - 1);
        if spec_applicable(filters[remaining[k - 1] as int], tname) {
            prev
        } else {
            prev.push(remaining[k - 1])
        }
    }
}

/// Filters rhs literals are usable against the table: known fields and
/// matching tags.
pub open spec fn spec_filters_wf(
    schema: TableSchema,
    filters: Seq<RowFilter>,
    remaining: Seq<usize>,
    tname: Seq<char>,
) -> bool {
    forall|r: int|
        0 <= r < remaining.len() ==> (#[trigger] remaining[r]) < filters.len() && (spec_applicable(
            filters[remaining[r] as int],
            tname,
        ) ==> schema.spec_has_field(filters[remaining[r] as int].field.name@) && (filters[remaining[r] as int].rhs->Value_0 is NULL
            || filters[remaining[r] as int].rhs->Value_0.spec_write_len() == schema.spec_field_schema(
            filters[remaining[r] as int].field.name@,
        ).spec_byte_size()))
}

/// The retained filter indices keep the well-formedness the full list
/// had: each survivor already stood in the list.
proof fn lemma_retained_wf(
    schema: TableSchema,
    filters: Seq<RowFilter>,
    remaining: Seq<usize>,
    tname: Seq<char>,
    k: int,
)
    requires
        spec_filters_wf(schema, filters, remaining, tname),
        0 <= k <= remaining.len(),
    ensures
        spec_filters_wf(schema, filters, spec_retained(filters, remaining, tname, k), tname),
    decreases k,
{
    if k > 0 {
        lemma_retained_wf(schema, filters, remaining, tname, k - 1);
        let prev = spec_retained(filters, remaining, tname, k - 1);
        let cur = spec_retained(filters, remaining, tname, k);
        assert forall|r: int|
            0 <= r < cur.len() implies (#[trigger] cur[r]) < filters.len() && (spec_applicable(
            filters[cur[r] as int],
            tname,
        ) ==> schema.spec_has_field(filters[cur[r] as int].field.name@) && (filters[cur[r] as int].rhs->Value_0 is NULL
            || filters[cur[r] as int].rhs->Value_0.spec_write_len() == schema.spec_field_schema(
            filters[cur[r] as int].field.name@,
        ).spec_byte_size())) by {
            if r < prev.len() {
                assert(cur[r] == prev[r]);
            } else {
                assert(cur[r] == remaining[k - 1]);
            }
        }
    }
}

/// Compares two orderings for equality.
pub fn ord_eq(a: Ordering, b: Ordering) -> (r: bool)
    ensures
        r == (a == b),
{
    match (a, b) {
        (Ordering::Less, Ordering::Less) => true,
        (Ordering::Equal, Ordering::Equal) => true,
        (Ordering::Greater, Ordering::Greater) => true,
        _ => false,
    }
}

/// Runs one SELECT against a set of in-memory tables.
pub struct SelectQueryExecutor<'a> {
    pub tables: &'a Vec<crate::pbase::TableStorage>,
    pub query: SelectQuery,
}

/// The first table whose schema bears `name`, or the table count.
pub open spec fn spec_storage_index(
    tables: Seq<crate::pbase::TableStorage>,
    name: Seq<char>,
) -> int
    decreases tables.len(),
{
    if tables.len() == 0 {
        0
    } else if tables[0].schema.name@ == name {
        0
    } else {
        1 + spec_storage_index(tables.drop_first(), name)
    }
}

pub open spec fn spec_has_storage(
    tables: Seq<crate::pbase::TableStorage>,
    name: Seq<char>,
) -> bool {
    spec_storage_index(tables, name) < tables.len()
}

pub proof fn lemma_storage_index(tables: Seq<crate::pbase::TableStorage>, name: Seq<char>)
    ensures
        0 <= spec_storage_index(tables, name) <= tables.len(),
        spec_storage_index(tables, name) < tables.len() ==> tables[spec_storage_index(
            tables,
            name,
        )].schema.name@ == name,
        forall|k: int|
            0 <= k < spec_storage_index(tables, name) ==> tables[k].schema.name@ != name,
    decreases tables.len(),
{
    if tables.len() > 0 && tables[0].schema.name@ != name {
        lemma_storage_index(tables.drop_first(), name);
        assert forall|k: int|
            0 <= k < spec_storage_index(tables, name) implies tables[k].schema.name@ != name by {
            if k > 0 {
                assert(tables.drop_first()[k - 1] == tables[k]);
            }
        }
    }
}

/// Table lookup only reads names: it is unchanged by edits that keep
/// every name, and extending with other names adds no match.
pub proof fn lemma_storage_index_frame(
    t1: Seq<crate::pbase::TableStorage>,
    t2: Seq<crate::pbase::TableStorage>,
    n: Seq<char>,
)
    requires
        t1.len() <= t2.len(),
        forall|i: int| 0 <= i < t1.len() ==> (#[trigger] t1[i]).schema.name@ == t2[i].schema.name@,
        forall|i: int| t1.len() <= i < t2.len() ==> (#[trigger] t2[i]).schema.name@ != n,
    ensures
        spec_has_storage(t1, n) ==> spec_storage_index(t2, n) == spec_storage_index(t1, n),
        !spec_has_storage(t1, n) ==> !spec_has_storage(t2, n),
    decreases t1.len(), t2.len(),
{
    lemma_storage_index(t1, n);
    lemma_storage_index(t2, n);
    if t1.len() == 0 {
        if spec_has_storage(t2, n) {
            assert(t2[spec_storage_index(t2, n)].schema.name@ == n);
            assert(false);
        }
    } else {
        if t1[0].schema.name@ == n {
        } else {
            assert forall|i: int|
                0 <= i < t1.drop_first().len() implies (#[trigger] t1.drop_first()[i]).schema.name@
                == t2.drop_first()[i].schema.name@ by {
                assert(t1.drop_first()[i] == t1[i + 1]);
                assert(t2.drop_first()[i] == t2[i + 1]);
            }
            assert forall|i: int|
                t1.drop_first().len() <= i < t2.drop_first().len() implies (
            #[trigger] t2.drop_first()[i]).schema.name@ != n by {
                assert(t2.drop_first()[i] == t2[i + 1]);
            }
            lemma_storage_index_frame(t1.drop_first(), t2.drop_first(), n);
        }
    }
}

/// Finds the table of the given name among the storages.
pub fn find_storage(tables: &Vec<crate::pbase::TableStorage>, name: &str) -> (r: Option<usize>)
    ensures
        match r {
            Some(i) => i == spec_storage_index(tables@, name@) && i < tables@.len(),
            None => !spec_has_storage(tables@, name@),
        },
{
    proof {
        lemma_storage_index(tables@, name@);
    }
    let len = tables.len();
    let mut i: usize = 0;
    while i < len
        invariant
            0 <= i <= len,
            len == tables@.len(),
            i <= spec_storage_index(tables@, name@),
            forall|k: int| 0 <= k < i ==> tables@[k].schema.name@ != name@,
            spec_storage_index(tables@, name@) < len ==> tables@[spec_storage_index(
                tables@,
                name@,
            )].schema.name@ == name@,
        decreases len - i,
    {
        if crate::common::str_eq(tables[i].schema.name.as_str(), name) {
            proof {
                lemma_storage_index(tables@, name@);
            }
            return Some(i);
        }
        i = i + 1;
    }
    None
}

/// Narrows a selection to the rows that satisfy every remaining
/// literal filter of the table, and drops those filters.
fn scan_filter(
    current_selection: &crate::common::Selection,
    filters: &Vec<RowFilter>,
    remaining: &Vec<usize>,
    table_bytes: &[u8],
    table_schema: &TableSchema,
) -> (out: (crate::common::Selection, Vec<usize>))
    requires
        table_schema.wf(),
        table_schema.spec_row_size() >= 1,
        table_bytes@.len() as int % table_schema.spec_row_size() == 0,
        table_bytes@.len() + table_schema.spec_row_size() <= usize::MAX,
        spec_filters_wf(*table_schema, filters@, remaining@, table_schema.name@),
        (current_selection matches crate::common::Selection::List(ps) ==> forall|k: int|
            0 <= k < ps@.len() ==> #[trigger] ps@[k] + table_schema.spec_row_size()
                <= table_bytes@.len()),
    ensures
        ({
            let ps = current_selection.spec_positions(
                table_schema.spec_row_size() as nat,
                table_bytes@.len(),
            );
            let qs = spec_scan(
                *table_schema,
                table_bytes@,
                filters@,
                remaining@,
                table_schema.name@,
                ps,
                ps.len() as int,
            );
            &&& out.0 matches crate::common::Selection::List(v) && v@ == qs
            &&& forall|i: int|
                0 <= i < qs.len() ==> #[trigger] qs[i] + table_schema.spec_row_size()
                    <= table_bytes@.len()
            &&& out.1@ == spec_retained(
                filters@,
                remaining@,
                table_schema.name@,
                remaining@.len() as int,
            )
        }),
{
    let ghost tname = table_schema.name@;
    let ghost ps = current_selection.spec_positions(
        table_schema.spec_row_size() as nat,
        table_bytes@.len(),
    );
    let mut it = crate::schema::TableRowIterator::new(table_schema, table_bytes, current_selection);
    let mut filtered_positions: Vec<usize> = Vec::new();
    let n_rem = remaining.len();
    loop
        invariant
            it.wf(),
            it.spec_schema() == *table_schema,
            it.spec_table_bytes() == table_bytes@,
            it.spec_positions() == ps,
            0 <= it.spec_emitted() <= ps.len(),
            table_schema.wf(),
            table_schema.spec_row_size() >= 1,
            n_rem == remaining@.len(),
            tname == table_schema.name@,
            spec_filters_wf(*table_schema, filters@, remaining@, tname),
            filtered_positions@ == spec_scan(
                *table_schema,
                table_bytes@,
                filters@,
                remaining@,
                tname,
                ps,
                it.spec_emitted(),
            ),
            forall|i: int|
                0 <= i < filtered_positions@.len() ==> #[trigger] filtered_positions@[i]
                    + table_schema.spec_row_size() <= table_bytes@.len(),
        ensures
            filtered_positions@ == spec_scan(
                *table_schema,
                table_bytes@,
                filters@,
                remaining@,
                tname,
                ps,
                ps.len() as int,
            ),
            forall|i: int|
                0 <= i < filtered_positions@.len() ==> #[trigger] filtered_positions@[i]
                    + table_schema.spec_row_size() <= table_bytes@.len(),
        decreases ps.len() - it.spec_emitted(),
    {
        let ghost emitted = it.spec_emitted();
        match it.next() {
            Some(reader) => {
                let ghost pos = ps[emitted];
                let mut passes = true;
                let mut r: usize = 0;
                while r < n_rem
                    invariant
                        0 <= r <= n_rem,
                        n_rem == remaining@.len(),
                        table_schema.wf(),
                        table_schema.spec_row_size() >= 1,
                        tname == table_schema.name@,
                        spec_filters_wf(*table_schema, filters@, remaining@, tname),
                        reader.wf(),
                        reader.spec_schema() == *table_schema,
                        reader.absolute_pos == pos,
                        pos + table_schema.spec_row_size() <= table_bytes@.len(),
                        reader.spec_row_bytes() == table_bytes@.subrange(
                            pos as int,
                            pos + table_schema.spec_row_size(),
                        ),
                        passes == (forall|r2: int|
                            0 <= r2 < r ==> (spec_applicable(
                                filters@[(#[trigger] remaining@[r2]) as int],
                                tname,
                            ) ==> spec_filter_satisfied(
                                *table_schema,
                                table_bytes@,
                                pos as int,
                                filters@[remaining@[r2] as int],
                            ))),
                    decreases n_rem - r,
                {
                    let fidx = remaining[r];
                    let filter = &filters[fidx];
                    let applicable = match &filter.rhs {
                        crate::query::RhsValue::Value(_) => crate::common::str_eq(
                            filter.field.source.as_str(),
                            table_schema.name.as_str(),
                        ),
                        crate::query::RhsValue::Ref(_) => false,
                    };
                    if applicable {
                        let value = reader.get_field_value(filter.field.name.as_str());
                        proof {
                            table_schema.lemma_decoded_field_agree(
                                reader.spec_row_bytes(),
                                table_bytes@.skip(pos as int),
                                filter.field.name@,
                            );
                        }
                        let rhs_value = filter.rhs.as_value();
                        let is_satisfied = ord_eq(value.compare(&rhs_value), filter.op);
                        if !is_satisfied {
                            passes = false;
                        }
                    }
                    r = r + 1;
                }
                if passes {
                    filtered_positions.push(reader.absolute_pos);
                }
            },
            None => {
                break ;
            },
        }
    }
    let mut retained: Vec<usize> = Vec::new();
    let mut r: usize = 0;
    while r < n_rem
        invariant
            0 <= r <= n_rem,
            n_rem == remaining@.len(),
            table_schema.wf(),
            tname == table_schema.name@,
            spec_filters_wf(*table_schema, filters@, remaining@, tname),
            retained@ == spec_retained(filters@, remaining@, tname, r as int),
        decreases n_rem - r,
    {
        let fidx = remaining[r];
        let filter = &filters[fidx];
        let applicable = match &filter.rhs {
            crate::query::RhsValue::Value(_) => crate::common::str_eq(
                filter.field.source.as_str(),
                table_schema.name.as_str(),
            ),
            crate::query::RhsValue::Ref(_) => false,
        };
        if !applicable {
            retained.push(fidx);
        }
        r = r + 1;
    }
    (crate::common::Selection::List(filtered_positions), retained)
}

/// Whether index entry `e` satisfies a literal filter whose field is
/// one of the index's own key fields.
pub open spec fn spec_entry_filter_sat(
    schema: TableSchema,
    index_name: Seq<char>,
    ib: Seq<u8>,
    e: int,
    filter: RowFilter,
) -> bool {
    let names = schema.spec_index_fields(index_name);
    let f = spec_names_index(names, filter.field.name@);
    schema.spec_entry_field_value(index_name, ib, e, f).spec_cmp(filter.rhs->Value_0)
        == filter.op
}

/// The same, naming the filter by its slot in the remaining list.
pub open spec fn spec_entry_sat_at(
    schema: TableSchema,
    index_name: Seq<char>,
    ib: Seq<u8>,
    filters: Seq<RowFilter>,
    remaining: Seq<usize>,
    e: int,
    c: int,
) -> bool {
    spec_entry_filter_sat(schema, index_name, ib, e, filters[remaining[c] as int])
}

/// Some consumed filter rejects entry `e`.
pub open spec fn spec_entry_excluded(
    schema: TableSchema,
    index_name: Seq<char>,
    ib: Seq<u8>,
    filters: Seq<RowFilter>,
    remaining: Seq<usize>,
    consumed: Seq<bool>,
    e: int,
) -> bool {
    exists|c: int|
        0 <= c < remaining.len() && consumed[c] && !spec_entry_sat_at(
            schema,
            index_name,
            ib,
            filters,
            remaining,
            e,
            c,
        )
}

/// The filter slots of `remaining.take(k)` that `consumed` leaves.
pub open spec fn spec_unconsumed(remaining: Seq<usize>, consumed: Seq<bool>, k: int) -> Seq<usize>
    decreases k,
{
    if k <= 0 {
        Seq::empty()
    } else {
        let prev = spec_unconsumed(remaining, consumed, k - 1);
        if consumed[k - 1] {
            prev
        } else {
            prev.push(remaining[k - 1])
        }
    }
}

/// Slot `c` of the remaining list holds an applicable literal filter
/// on the index's key field at position `f`.
pub open spec fn spec_slot_on_field(
    filters: Seq<RowFilter>,
    remaining: Seq<usize>,
    tname: Seq<char>,
    names: Seq<Seq<char>>,
    f: int,
    c: int,
) -> bool {
    &&& 0 <= c < remaining.len()
    &&& remaining[c] < filters.len()
    &&& spec_applicable(filters[remaining[c] as int], tname)
    &&& filters[remaining[c] as int].field.name@ == names[f]
}

/// Some applicable filter targets key field `f`.
pub open spec fn spec_field_has_applicable(
    filters: Seq<RowFilter>,
    remaining: Seq<usize>,
    tname: Seq<char>,
    names: Seq<Seq<char>>,
    f: int,
) -> bool {
    exists|c: int| #[trigger] spec_slot_on_field(filters, remaining, tname, names, f, c)
}

/// Some applicable filter targets key field `f` with an equality
/// (`want_equal`) or a range comparison (`!want_equal`).
pub open spec fn spec_field_has_op(
    filters: Seq<RowFilter>,
    remaining: Seq<usize>,
    tname: Seq<char>,
    names: Seq<Seq<char>>,
    f: int,
    want_equal: bool,
) -> bool {
    exists|c: int|
        #[trigger] spec_slot_on_field(filters, remaining, tname, names, f, c) && ((
        filters[remaining[c] as int].op == Ordering::Equal) == want_equal)
}

/// How many leading key fields the narrowing consumes filters for: it
/// walks fields while each has an applicable filter, and stops after
/// the first field whose filters bring a range comparison or no
/// equality at all.
pub open spec fn spec_walked_fields(
    filters: Seq<RowFilter>,
    remaining: Seq<usize>,
    tname: Seq<char>,
    names: Seq<Seq<char>>,
    f: int,
) -> int
    decreases names.len() - f,
{
    if f < 0 || f >= names.len() {
        f
    } else if !spec_field_has_applicable(filters, remaining, tname, names, f) {
        f
    } else if spec_field_has_op(filters, remaining, tname, names, f, false)
        || !spec_field_has_op(filters, remaining, tname, names, f, true) {
        f + 1
    } else {
        spec_walked_fields(filters, remaining, tname, names, f + 1)
    }
}

/// What the index narrowing computed: the surviving band `(l, r)`, its
/// pointers in entry order, and which filters it consumed — exactly
/// the applicable literal filters on the walked leading key fields,
/// each holding on every band entry, with every entry outside the band
/// failing some consumed filter.
pub open spec fn spec_is_filtered_band(
    schema: TableSchema,
    index_name: Seq<char>,
    ib: Seq<u8>,
    filters: Seq<RowFilter>,
    remaining: Seq<usize>,
    tname: Seq<char>,
    ptrs: Seq<usize>,
    rem_out: Seq<usize>,
    l: int,
    r: int,
    consumed: Seq<bool>,
) -> bool {
    let n = schema.spec_num_entries(index_name, ib);
    let names = schema.spec_index_fields(index_name);
    &&& -1 <= l < r <= n
    &&& ptrs.len() == r - l - 1
    &&& forall|i: int|
        0 <= i < ptrs.len() ==> (#[trigger] ptrs[i]) as int == schema.spec_entry_ptr(
            index_name,
            ib,
            l + 1 + i,
        ) as int
    &&& consumed.len() == remaining.len()
    &&& rem_out == spec_unconsumed(remaining, consumed, remaining.len() as int)
    &&& forall|c: int|
        0 <= c < remaining.len() && consumed[c] ==> (#[trigger] remaining[c]) < filters.len()
            && spec_applicable(filters[remaining[c] as int], tname) && spec_names_index(
            names,
            filters[remaining[c] as int].field.name@,
        ) < names.len()
    &&& forall|c: int|
        0 <= c < remaining.len() ==> ((#[trigger] consumed[c]) <==> (remaining[c]
            < filters.len() && spec_applicable(filters[remaining[c] as int], tname)
            && spec_names_index(names, filters[remaining[c] as int].field.name@)
            < spec_walked_fields(filters, remaining, tname, names, 0)))
    &&& forall|e: int, c: int|
        l < e < r && 0 <= c < remaining.len() && consumed[c] ==> #[trigger] spec_entry_sat_at(
            schema,
            index_name,
            ib,
            filters,
            remaining,
            e,
            c,
        )
    &&& forall|e: int|
        (0 <= e <= l || r <= e < n) ==> #[trigger] spec_entry_excluded(
            schema,
            index_name,
            ib,
            filters,
            remaining,
            consumed,
            e,
        )
}

/// The positions are the row pointers of the entry band that starts
/// just above entry `l`, in entry order.
pub open spec fn spec_is_band_at(
    schema: TableSchema,
    index_name: Seq<char>,
    ib: Seq<u8>,
    ptrs: Seq<usize>,
    l: int,
) -> bool {
    &&& -1 <= l
    &&& l + 1 + ptrs.len() <= schema.spec_num_entries(index_name, ib)
    &&& forall|i: int|
        0 <= i < ptrs.len() ==> (#[trigger] ptrs[i]) as int == schema.spec_entry_ptr(
            index_name,
            ib,
            l + 1 + i,
        ) as int
}

/// The positions are the row pointers of one contiguous entry band of
/// the index image, in entry order.
pub open spec fn spec_band_pointers(
    schema: TableSchema,
    index_name: Seq<char>,
    ib: Seq<u8>,
    ptrs: Seq<usize>,
) -> bool {
    exists|l: int| #[trigger] spec_is_band_at(schema, index_name, ib, ptrs, l)
}

/// Narrows the index's entry range using the remaining literal filters
/// on the index's leading fields, consumes those filters, and hands
/// back the row pointers of the surviving band.
#[verifier::rlimit(100)]
fn index_filter(
    index_name: &str,
    filters: &Vec<RowFilter>,
    remaining: &Vec<usize>,
    index_bytes: &[u8],
    table_schema: &TableSchema,
) -> (out: (crate::common::Selection, Vec<usize>))
    requires
        table_schema.wf(),
        table_schema.spec_has_index(index_name@),
        index_bytes@.len() as int % table_schema.spec_index_entry_size(index_name@) == 0,
        index_bytes@.len() as int == table_schema.spec_num_entries(index_name@, index_bytes@)
            * table_schema.spec_index_entry_size(index_name@),
        table_schema.spec_num_entries(index_name@, index_bytes@) < 0x4000_0000,
        table_schema.spec_index_sorted(index_name@, index_bytes@),
        spec_filters_wf(*table_schema, filters@, remaining@, table_schema.name@),
        forall|e: int|
            0 <= e < table_schema.spec_num_entries(index_name@, index_bytes@)
                ==> (#[trigger] table_schema.spec_entry_ptr(index_name@, index_bytes@, e)) as int
                <= usize::MAX,
    ensures
        ({
            &&& out.0 matches crate::common::Selection::List(v) && spec_band_pointers(
                *table_schema,
                index_name@,
                index_bytes@,
                v@,
            )
            &&& out.0 matches crate::common::Selection::List(v) && exists|
                l: int,
                r: int,
                consumed: Seq<bool>,
            |
                #[trigger] spec_is_filtered_band(
                    *table_schema,
                    index_name@,
                    index_bytes@,
                    filters@,
                    remaining@,
                    table_schema.name@,
                    v@,
                    out.1@,
                    l,
                    r,
                    consumed,
                )
            &&& spec_filters_wf(*table_schema, filters@, out.1@, table_schema.name@)
        }),
{
    let ghost iname = index_name@;
    let ghost ibytes = index_bytes@;
    let ghost tname = table_schema.name@;
    let index_row_byte_len = table_schema.index_row_byte_size(index_name);
    proof {
        crate::schema::lemma_name_index(table_schema.indices@, iname);
        let names0 = table_schema.spec_index_fields(iname);
        table_schema.lemma_names_size_monotone(names0, 0, names0.len() as int);
    }
    let n_entries: usize = index_bytes.len() / index_row_byte_len;
    proof {
        vstd::arithmetic::div_mod::lemma_fundamental_div_mod(
            ibytes.len() as int,
            index_row_byte_len as int,
        );
    }
    let mut lhs_idx: i32 = -1;
    let mut rhs_idx: i32 = n_entries as i32;
    let fields_list = table_schema.index_fields(index_name);
    let len = fields_list.len();
    let ghost names = table_schema.spec_index_fields(iname);
    let n_rem = remaining.len();
    let mut consumed: Vec<bool> = Vec::new();
    let mut c: usize = 0;
    while c < n_rem
        invariant
            0 <= c <= n_rem,
            consumed@.len() == c,
            forall|j: int| 0 <= j < c ==> !(#[trigger] consumed@[j]),
        decreases n_rem - c,
    {
        consumed.push(false);
        c = c + 1;
    }
    proof {
        assert forall|e: int|
            (0 <= e <= lhs_idx || rhs_idx <= e < n_entries) implies #[trigger] spec_entry_excluded(
            *table_schema,
            iname,
            ibytes,
            filters@,
            remaining@,
            consumed@,
            e,
        ) by {
            assert(rhs_idx as int == n_entries as int);
        }
    }
    proof {
        assert forall|c2: int|
            0 <= c2 < n_rem implies !(#[trigger] consumed@[c2]) && spec_names_index(
            names,
            filters@[remaining@[c2] as int].field.name@,
        ) >= 0 by {
            lemma_names_index(names, filters@[remaining@[c2] as int].field.name@);
        }
    }
    let mut field_byte_pos: usize = 0;
    let mut field_idx: usize = 0;
    let ghost mut band_vals: Seq<Value> = Seq::empty();
    loop
        invariant_except_break
            0 <= field_idx <= len,
            len == names.len(),
            names == fields_list@.map_values(|s: String| s@),
            table_schema.wf(),
            table_schema.spec_has_index(iname),
            names == table_schema.spec_index_fields(iname),
            table_schema.spec_index_wf(names),
            index_row_byte_len == table_schema.spec_index_entry_size(iname),
            8 <= index_row_byte_len <= 0xFFFF_FFFF,
            iname == index_name@,
            ibytes == index_bytes@,
            tname == table_schema.name@,
            ibytes.len() as int % (index_row_byte_len as int) == 0,
            n_entries == table_schema.spec_num_entries(iname, ibytes),
            n_entries < 0x4000_0000,
            ibytes.len() == (index_row_byte_len as int) * (n_entries as int),
            table_schema.spec_index_sorted(iname, ibytes),
            spec_filters_wf(*table_schema, filters@, remaining@, tname),
            n_rem == remaining@.len(),
            consumed@.len() == n_rem,
            -1 <= lhs_idx < rhs_idx <= n_entries,
            forall|c2: int|
                0 <= c2 < n_rem && consumed@[c2] ==> (#[trigger] remaining@[c2])
                    < filters@.len() && spec_applicable(
                    filters@[remaining@[c2] as int],
                    tname,
                ) && spec_names_index(names, filters@[remaining@[c2] as int].field.name@)
                    < names.len(),
            forall|e: int, c2: int|
                lhs_idx < e < rhs_idx && 0 <= c2 < n_rem && consumed@[c2]
                    ==> #[trigger] spec_entry_sat_at(
                    *table_schema,
                    iname,
                    ibytes,
                    filters@,
                    remaining@,
                    e,
                    c2,
                ),
            forall|e: int|
                (0 <= e <= lhs_idx || rhs_idx <= e < n_entries)
                    ==> #[trigger] spec_entry_excluded(
                    *table_schema,
                    iname,
                    ibytes,
                    filters@,
                    remaining@,
                    consumed@,
                    e,
                ),
            spec_walked_fields(filters@, remaining@, tname, names, 0) == spec_walked_fields(
                filters@,
                remaining@,
                tname,
                names,
                field_idx as int,
            ),
            forall|c2: int|
                0 <= c2 < n_rem ==> ((#[trigger] consumed@[c2]) <==> (remaining@[c2]
                    < filters@.len() && spec_applicable(filters@[remaining@[c2] as int], tname)
                    && spec_names_index(names, filters@[remaining@[c2] as int].field.name@)
                    < field_idx as int)),
            field_byte_pos == table_schema.spec_names_size(names, field_idx as int),
            band_vals.len() == field_idx,
            forall|g: int|
                0 <= g < field_idx ==> (#[trigger] band_vals[g]) is NULL
                    || band_vals[g].spec_write_len() == table_schema.spec_field_schema(
                    names[g],
                ).spec_byte_size(),
            forall|e: int, g: int|
                lhs_idx < e < rhs_idx && 0 <= g < field_idx
                    ==> #[trigger] table_schema.spec_entry_field_value(iname, ibytes, e, g).spec_cmp(
                    band_vals[g],
                ) == Ordering::Equal,
        ensures
            -1 <= lhs_idx < rhs_idx <= n_entries,
            consumed@.len() == n_rem,
            forall|c2: int|
                0 <= c2 < n_rem && consumed@[c2] ==> (#[trigger] remaining@[c2])
                    < filters@.len() && spec_applicable(
                    filters@[remaining@[c2] as int],
                    tname,
                ) && spec_names_index(names, filters@[remaining@[c2] as int].field.name@)
                    < names.len(),
            forall|e: int, c2: int|
                lhs_idx < e < rhs_idx && 0 <= c2 < n_rem && consumed@[c2]
                    ==> #[trigger] spec_entry_sat_at(
                    *table_schema,
                    iname,
                    ibytes,
                    filters@,
                    remaining@,
                    e,
                    c2,
                ),
            forall|e: int|
                (0 <= e <= lhs_idx || rhs_idx <= e < n_entries)
                    ==> #[trigger] spec_entry_excluded(
                    *table_schema,
                    iname,
                    ibytes,
                    filters@,
                    remaining@,
                    consumed@,
                    e,
                ),
            forall|c2: int|
                0 <= c2 < n_rem ==> ((#[trigger] consumed@[c2]) <==> (remaining@[c2]
                    < filters@.len() && spec_applicable(filters@[remaining@[c2] as int], tname)
                    && spec_names_index(names, filters@[remaining@[c2] as int].field.name@)
                    < spec_walked_fields(filters@, remaining@, tname, names, 0))),
        decreases len - field_idx,
    {
        if field_idx >= len {
            break ;
        }
        let ghost f = field_idx as int;
        proof {
            assert(names[f] == fields_list@[f]@);
            table_schema.lemma_names_size_monotone(names, f, f + 1);
            table_schema.lemma_names_size_monotone(names, f + 1, len as int);
        }
        let index_field: &String = &fields_list[field_idx];
        let field_schema = table_schema.field_schema(index_field.as_str());
        // Find the filters that constrain this index field.
        let mut any_applicable = false;
        let mut probe: usize = 0;
        while probe < n_rem
            invariant
                0 <= probe <= n_rem,
                n_rem == remaining@.len(),
                spec_filters_wf(*table_schema, filters@, remaining@, tname),
                tname == table_schema.name@,
                names == fields_list@.map_values(|s2: String| s2@),
                0 <= f < names.len(),
                index_field == fields_list@[f],
                any_applicable == (exists|c: int|
                    0 <= c < probe && #[trigger] spec_slot_on_field(
                        filters@,
                        remaining@,
                        tname,
                        names,
                        f,
                        c,
                    )),
            decreases n_rem - probe,
        {
            let fidx = remaining[probe];
            let filter = &filters[fidx];
            let applicable = match &filter.rhs {
                crate::query::RhsValue::Value(_) => crate::common::str_eq(
                    filter.field.source.as_str(),
                    table_schema.name.as_str(),
                ),
                crate::query::RhsValue::Ref(_) => false,
            };
            if applicable && crate::common::str_eq(
                filter.field.name.as_str(),
                index_field.as_str(),
            ) {
                any_applicable = true;
                proof {
                    assert(names[f] == fields_list@[f]@);
                    assert(fidx == remaining@[probe as int]);
                    assert(spec_slot_on_field(filters@, remaining@, tname, names, f, probe as int));
                }
            } else {
                proof {
                    assert(names[f] == fields_list@[f]@);
                    assert(!spec_slot_on_field(
                        filters@,
                        remaining@,
                        tname,
                        names,
                        f,
                        probe as int,
                    ));
                }
            }
            probe = probe + 1;
        }
        proof {
            if any_applicable {
                assert(spec_field_has_applicable(filters@, remaining@, tname, names, f));
            } else {
                if spec_field_has_applicable(filters@, remaining@, tname, names, f) {
                    let cw = choose|cw: int|
                        #[trigger] spec_slot_on_field(filters@, remaining@, tname, names, f, cw);
                    assert(false);
                }
            }
        }
        if !any_applicable {
            break ;
        }
        let ghost mut eq_target: Option<Value> = None;
        let mut saw_equal = false;
        let mut saw_range = false;
        let mut r: usize = 0;
        while r < n_rem
            invariant
                0 <= r <= n_rem,
                n_rem == remaining@.len(),
                consumed@.len() == n_rem,
                table_schema.wf(),
                table_schema.spec_has_index(iname),
                names == table_schema.spec_index_fields(iname),
                table_schema.spec_index_wf(names),
                index_row_byte_len == table_schema.spec_index_entry_size(iname),
                8 <= index_row_byte_len <= 0xFFFF_FFFF,
                iname == index_name@,
                ibytes == index_bytes@,
                tname == table_schema.name@,
                ibytes.len() as int % (index_row_byte_len as int) == 0,
                n_entries == table_schema.spec_num_entries(iname, ibytes),
                n_entries < 0x4000_0000,
                ibytes.len() == (index_row_byte_len as int) * (n_entries as int),
                table_schema.spec_index_sorted(iname, ibytes),
                spec_filters_wf(*table_schema, filters@, remaining@, tname),
                -1 <= lhs_idx < rhs_idx <= n_entries,
                forall|c2: int|
                    0 <= c2 < n_rem && consumed@[c2] ==> (#[trigger] remaining@[c2])
                        < filters@.len() && spec_applicable(
                        filters@[remaining@[c2] as int],
                        tname,
                    ) && spec_names_index(names, filters@[remaining@[c2] as int].field.name@)
                        < names.len(),
                forall|e: int, c2: int|
                    lhs_idx < e < rhs_idx && 0 <= c2 < n_rem && consumed@[c2]
                        ==> #[trigger] spec_entry_sat_at(
                        *table_schema,
                        iname,
                        ibytes,
                        filters@,
                        remaining@,
                        e,
                        c2,
                    ),
                forall|e: int|
                    (0 <= e <= lhs_idx || rhs_idx <= e < n_entries)
                        ==> #[trigger] spec_entry_excluded(
                        *table_schema,
                        iname,
                        ibytes,
                        filters@,
                        remaining@,
                        consumed@,
                        e,
                    ),
                0 <= f < len == names.len(),
                names == fields_list@.map_values(|s: String| s@),
                index_field == fields_list@[f],
                field_byte_pos == table_schema.spec_names_size(names, f),
                field_schema == table_schema.spec_field_schema(names[f]),
                band_vals.len() == f,
                forall|g: int|
                    0 <= g < f ==> (#[trigger] band_vals[g]) is NULL
                        || band_vals[g].spec_write_len() == table_schema.spec_field_schema(
                        names[g],
                    ).spec_byte_size(),
                forall|e: int, g: int|
                    lhs_idx < e < rhs_idx && 0 <= g < f
                        ==> #[trigger] table_schema.spec_entry_field_value(
                        iname,
                        ibytes,
                        e,
                        g,
                    ).spec_cmp(band_vals[g]) == Ordering::Equal,
                saw_equal == (eq_target is Some),
                forall|c2: int|
                    0 <= c2 < n_rem ==> ((#[trigger] consumed@[c2]) <==> (remaining@[c2]
                        < filters@.len() && spec_applicable(
                        filters@[remaining@[c2] as int],
                        tname,
                    ) && (spec_names_index(names, filters@[remaining@[c2] as int].field.name@)
                        < f || (spec_names_index(
                        names,
                        filters@[remaining@[c2] as int].field.name@,
                    ) == f && c2 < r)))),
                saw_equal == (exists|c2: int|
                    0 <= c2 < r && #[trigger] spec_slot_on_field(
                        filters@,
                        remaining@,
                        tname,
                        names,
                        f,
                        c2,
                    ) && filters@[remaining@[c2] as int].op == Ordering::Equal),
                saw_range == (exists|c2: int|
                    0 <= c2 < r && #[trigger] spec_slot_on_field(
                        filters@,
                        remaining@,
                        tname,
                        names,
                        f,
                        c2,
                    ) && filters@[remaining@[c2] as int].op != Ordering::Equal),
                eq_target matches Some(tv) ==> ((tv is NULL || tv.spec_write_len()
                    == field_schema.spec_byte_size()) && forall|e: int|
                    lhs_idx < e < rhs_idx ==> #[trigger] table_schema.spec_entry_field_value(
                        iname,
                        ibytes,
                        e,
                        f,
                    ).spec_cmp(tv) == Ordering::Equal),
            decreases n_rem - r,
        {
            let fidx = remaining[r];
            let filter = &filters[fidx];
            let applicable = match &filter.rhs {
                crate::query::RhsValue::Value(_) => crate::common::str_eq(
                    filter.field.source.as_str(),
                    table_schema.name.as_str(),
                ),
                crate::query::RhsValue::Ref(_) => false,
            };
            if applicable && crate::common::str_eq(
                filter.field.name.as_str(),
                index_field.as_str(),
            ) {
                let cmp_value: Value = filter.rhs.as_value();
                proof {
                    assert(fidx == remaining@[r as int]);
                    assert(names[f] == fields_list@[f]@);
                    assert(filter.field.name@ == names[f]);
                }
                let ghost old_lhs = lhs_idx;
                let ghost old_rhs = rhs_idx;
                let ghost full_vals = band_vals + Seq::new(
                    (names.len() - f) as nat,
                    |i: int| Value::NULL,
                );
                proof {
                    assert(full_vals.len() == names.len());
                    assert forall|g: int|
                        0 <= g < names.len() implies (#[trigger] full_vals[g]) is NULL
                        || full_vals[g].spec_write_len() == table_schema.spec_field_schema(
                        names[g],
                    ).spec_byte_size() by {
                        if g >= f {
                            assert(full_vals[g] == Value::NULL);
                        }
                    }
                    assert(table_schema.spec_index_vals_wf(iname, full_vals));
                }
                let schema_g: Ghost<TableSchema> = Ghost(*table_schema);
                let iname_g: Ghost<Seq<char>> = Ghost(iname);
                let ibytes_g: Ghost<Seq<u8>> = Ghost(ibytes);
                let pred = |i: i32| -> (pr: Ordering)
                    requires
                        0 <= i,
                        (i as int) < schema_g@.spec_num_entries(iname_g@, ibytes_g@),
                        schema_g@.wf(),
                        schema_g@.spec_has_index(iname_g@),
                        index_row_byte_len == schema_g@.spec_index_entry_size(iname_g@),
                        ibytes_g@ == index_bytes@,
                        ibytes_g@.len() as int % (index_row_byte_len as int) == 0,
                        ibytes_g@.len() == (index_row_byte_len as int) * (
                        schema_g@.spec_num_entries(iname_g@, ibytes_g@) as int),
                        schema_g@.spec_num_entries(iname_g@, ibytes_g@) < 0x4000_0000,
                        field_byte_pos == schema_g@.spec_names_size(
                            schema_g@.spec_index_fields(iname_g@),
                            f,
                        ),
                        0 <= f < schema_g@.spec_index_fields(iname_g@).len(),
                        field_schema == schema_g@.spec_field_schema(
                            schema_g@.spec_index_fields(iname_g@)[f],
                        ),
                        cmp_value is NULL || cmp_value.spec_write_len()
                            == field_schema.spec_byte_size(),
                    ensures
                        pr == schema_g@.spec_entry_field_value(
                            iname_g@,
                            ibytes_g@,
                            i as int,
                            f,
                        ).spec_cmp(cmp_value),
                    {
                        proof {
                            let esize = index_row_byte_len as int;
                            let n = schema_g@.spec_num_entries(iname_g@, ibytes_g@);
                            let nm = schema_g@.spec_index_fields(iname_g@);
                            crate::schema::lemma_name_index(schema_g@.indices@, iname_g@);
                            schema_g@.lemma_names_size_monotone(nm, 0, f);
                            schema_g@.lemma_names_size_monotone(nm, f, f + 1);
                            schema_g@.lemma_names_size_monotone(nm, f + 1, nm.len() as int);
                            vstd::arithmetic::mul::lemma_mul_inequality(i as int + 1, n, esize);
                            vstd::arithmetic::mul::lemma_mul_is_commutative(i as int + 1, esize);
                            vstd::arithmetic::mul::lemma_mul_is_commutative(n, esize);
                            vstd::arithmetic::mul::lemma_mul_is_distributive_add(
                                esize,
                                i as int,
                                1,
                            );
                            vstd::arithmetic::mul::lemma_mul_basics(esize);
                            vstd::arithmetic::mul::lemma_mul_is_commutative(i as int, esize);
                            assert((i as int) * esize + esize <= ibytes_g@.len());
                            vstd::arithmetic::mul::lemma_mul_nonnegative(i as int, esize);
                        }
                        let total_len: usize = index_bytes.len();
                        let value_bytes_pos = (i as usize) * index_row_byte_len + field_byte_pos;
                        let rest = vstd::slice::slice_subrange(
                            index_bytes,
                            value_bytes_pos,
                            total_len,
                        );
                        let value = field_schema.value_from_bytes(rest);
                        proof {
                            assert(rest@ =~= ibytes_g@.skip(value_bytes_pos as int));
                        }
                        value.compare(&cmp_value)
                    };
                proof {
                    assert forall|i: i32| lhs_idx < i < rhs_idx implies #[trigger] call_requires(
                        pred,
                        (i,),
                    ) by {}
                    assert(pred_deterministic(pred));
                    assert forall|i: i32, j: i32, ri: Ordering, rj: Ordering|
                        lhs_idx < i <= j < rhs_idx && call_ensures(pred, (i,), ri) && call_ensures(
                            pred,
                            (j,),
                            rj,
                        ) implies ord_le(ri, rj) by {
                        let vi = table_schema.spec_entry_field_value(iname, ibytes, i as int, f);
                        let vj = table_schema.spec_entry_field_value(iname, ibytes, j as int, f);
                        table_schema.lemma_band_field_sorted(
                            iname,
                            ibytes,
                            full_vals,
                            i as int,
                            j as int,
                            f,
                        );
                        lemma_entry_field_comparable(
                            *table_schema,
                            iname,
                            ibytes,
                            i as int,
                            j as int,
                            f,
                        );
                        lemma_value_cmp_monotone(vi, vj, cmp_value);
                    }
                }
                match filter.op {
                    Ordering::Equal => {
                        let out = binary_narrow_to_range_exclusive(lhs_idx, rhs_idx, pred);
                        lhs_idx = out.0;
                        rhs_idx = out.1;
                        proof {
                            let fv = |e: int| table_schema.spec_entry_field_value(
                                iname,
                                ibytes,
                                e,
                                f,
                            );
                            assert forall|e: int|
                                lhs_idx < e < rhs_idx implies #[trigger] table_schema.spec_entry_field_value(
                                iname,
                                ibytes,
                                e,
                                f,
                            ).spec_cmp(cmp_value) == Ordering::Equal by {
                                let ra = choose|ra: Ordering|
                                    #[trigger] call_ensures(pred, (((lhs_idx + 1) as i32),), ra)
                                        && ra != Ordering::Less;
                                assert(fv(lhs_idx + 1).spec_cmp(cmp_value) != Ordering::Less);
                                let rb = choose|rb: Ordering|
                                    #[trigger] call_ensures(pred, (((rhs_idx - 1) as i32),), rb)
                                        && rb != Ordering::Greater;
                                assert(fv(rhs_idx - 1).spec_cmp(cmp_value) != Ordering::Greater);
                                if e > lhs_idx + 1 {
                                    table_schema.lemma_band_field_sorted(
                                        iname,
                                        ibytes,
                                        full_vals,
                                        lhs_idx + 1,
                                        e,
                                        f,
                                    );
                                    lemma_entry_field_comparable(
                                        *table_schema,
                                        iname,
                                        ibytes,
                                        lhs_idx + 1,
                                        e,
                                        f,
                                    );
                                    lemma_value_cmp_monotone(fv(lhs_idx + 1), fv(e), cmp_value);
                                }
                                if e < rhs_idx - 1 {
                                    table_schema.lemma_band_field_sorted(
                                        iname,
                                        ibytes,
                                        full_vals,
                                        e,
                                        rhs_idx - 1,
                                        f,
                                    );
                                    lemma_entry_field_comparable(
                                        *table_schema,
                                        iname,
                                        ibytes,
                                        e,
                                        rhs_idx - 1,
                                        f,
                                    );
                                    lemma_value_cmp_monotone(fv(e), fv(rhs_idx - 1), cmp_value);
                                }
                            }
                            eq_target = Some(cmp_value);
                            // The shaved-off entries fail the equality.
                            assert forall|e: int|
                                (old_lhs < e <= lhs_idx) || (rhs_idx <= e
                                    < old_rhs) implies #[trigger] table_schema.spec_entry_field_value(
                                iname,
                                ibytes,
                                e,
                                f,
                            ).spec_cmp(cmp_value) != filter.op by {
                                if e <= lhs_idx {
                                    let rl = choose|rl: Ordering|
                                        #[trigger] call_ensures(pred, (lhs_idx,), rl) && rl
                                            == Ordering::Less;
                                    assert(fv(lhs_idx as int).spec_cmp(cmp_value)
                                        == Ordering::Less);
                                    if e < lhs_idx {
                                        table_schema.lemma_band_field_sorted(
                                            iname,
                                            ibytes,
                                            full_vals,
                                            e,
                                            lhs_idx as int,
                                            f,
                                        );
                                        lemma_entry_field_comparable(
                                            *table_schema,
                                            iname,
                                            ibytes,
                                            e,
                                            lhs_idx as int,
                                            f,
                                        );
                                        lemma_value_cmp_monotone(
                                            fv(e),
                                            fv(lhs_idx as int),
                                            cmp_value,
                                        );
                                    }
                                } else {
                                    let rg = choose|rg: Ordering|
                                        #[trigger] call_ensures(pred, (rhs_idx,), rg) && rg
                                            == Ordering::Greater;
                                    assert(fv(rhs_idx as int).spec_cmp(cmp_value)
                                        == Ordering::Greater);
                                    if e > rhs_idx {
                                        table_schema.lemma_band_field_sorted(
                                            iname,
                                            ibytes,
                                            full_vals,
                                            rhs_idx as int,
                                            e,
                                            f,
                                        );
                                        lemma_entry_field_comparable(
                                            *table_schema,
                                            iname,
                                            ibytes,
                                            rhs_idx as int,
                                            e,
                                            f,
                                        );
                                        lemma_value_cmp_monotone(
                                            fv(rhs_idx as int),
                                            fv(e),
                                            cmp_value,
                                        );
                                    }
                                }
                            }
                        }
                        saw_equal = true;
                    },
                    Ordering::Greater => {
                        lhs_idx = crate::common::binary_narrow_to_upper_range_exclusive(
                            lhs_idx,
                            rhs_idx,
                            pred,
                        );
                        proof {
                            let fv = |e: int| table_schema.spec_entry_field_value(
                                iname,
                                ibytes,
                                e,
                                f,
                            );
                            // Everything left inside compares `Greater`.
                            assert forall|e: int|
                                lhs_idx < e < rhs_idx implies #[trigger] table_schema.spec_entry_field_value(
                                iname,
                                ibytes,
                                e,
                                f,
                            ).spec_cmp(cmp_value) == filter.op by {
                                let rg = choose|rg: Ordering|
                                    #[trigger] call_ensures(pred, (((lhs_idx + 1) as i32),), rg)
                                        && rg == Ordering::Greater;
                                assert(fv(lhs_idx + 1).spec_cmp(cmp_value) == Ordering::Greater);
                                if e > lhs_idx + 1 {
                                    table_schema.lemma_band_field_sorted(
                                        iname,
                                        ibytes,
                                        full_vals,
                                        lhs_idx + 1,
                                        e,
                                        f,
                                    );
                                    lemma_entry_field_comparable(
                                        *table_schema,
                                        iname,
                                        ibytes,
                                        lhs_idx + 1,
                                        e,
                                        f,
                                    );
                                    lemma_value_cmp_monotone(fv(lhs_idx + 1), fv(e), cmp_value);
                                }
                            }
                            // The shaved-off prefix does not.
                            assert forall|e: int|
                                (old_lhs < e <= lhs_idx) || (rhs_idx <= e
                                    < old_rhs) implies #[trigger] table_schema.spec_entry_field_value(
                                iname,
                                ibytes,
                                e,
                                f,
                            ).spec_cmp(cmp_value) != filter.op by {
                                let rc = choose|rc: Ordering|
                                    #[trigger] call_ensures(pred, (lhs_idx,), rc) && rc
                                        != Ordering::Greater;
                                assert(fv(lhs_idx as int).spec_cmp(cmp_value)
                                    != Ordering::Greater);
                                if e < lhs_idx {
                                    table_schema.lemma_band_field_sorted(
                                        iname,
                                        ibytes,
                                        full_vals,
                                        e,
                                        lhs_idx as int,
                                        f,
                                    );
                                    lemma_entry_field_comparable(
                                        *table_schema,
                                        iname,
                                        ibytes,
                                        e,
                                        lhs_idx as int,
                                        f,
                                    );
                                    lemma_value_cmp_monotone(
                                        fv(e),
                                        fv(lhs_idx as int),
                                        cmp_value,
                                    );
                                }
                            }
                        }
                        saw_range = true;
                    },
                    Ordering::Less => {
                        rhs_idx = crate::common::binary_narrow_to_lower_range_exclusive(
                            lhs_idx,
                            rhs_idx,
                            pred,
                        );
                        proof {
                            let fv = |e: int| table_schema.spec_entry_field_value(
                                iname,
                                ibytes,
                                e,
                                f,
                            );
                            // Everything left inside compares `Less`.
                            assert forall|e: int|
                                lhs_idx < e < rhs_idx implies #[trigger] table_schema.spec_entry_field_value(
                                iname,
                                ibytes,
                                e,
                                f,
                            ).spec_cmp(cmp_value) == filter.op by {
                                let rl = choose|rl: Ordering|
                                    #[trigger] call_ensures(pred, (((rhs_idx - 1) as i32),), rl)
                                        && rl == Ordering::Less;
                                assert(fv(rhs_idx - 1).spec_cmp(cmp_value) == Ordering::Less);
                                if e < rhs_idx - 1 {
                                    table_schema.lemma_band_field_sorted(
                                        iname,
                                        ibytes,
                                        full_vals,
                                        e,
                                        rhs_idx - 1,
                                        f,
                                    );
                                    lemma_entry_field_comparable(
                                        *table_schema,
                                        iname,
                                        ibytes,
                                        e,
                                        rhs_idx - 1,
                                        f,
                                    );
                                    lemma_value_cmp_monotone(fv(e), fv(rhs_idx - 1), cmp_value);
                                }
                            }
                            // The shaved-off suffix does not.
                            assert forall|e: int|
                                (old_lhs < e <= lhs_idx) || (rhs_idx <= e
                                    < old_rhs) implies #[trigger] table_schema.spec_entry_field_value(
                                iname,
                                ibytes,
                                e,
                                f,
                            ).spec_cmp(cmp_value) != filter.op by {
                                let rc = choose|rc: Ordering|
                                    #[trigger] call_ensures(pred, (rhs_idx,), rc) && rc
                                        != Ordering::Less;
                                assert(fv(rhs_idx as int).spec_cmp(cmp_value) != Ordering::Less);
                                if e > rhs_idx {
                                    table_schema.lemma_band_field_sorted(
                                        iname,
                                        ibytes,
                                        full_vals,
                                        rhs_idx as int,
                                        e,
                                        f,
                                    );
                                    lemma_entry_field_comparable(
                                        *table_schema,
                                        iname,
                                        ibytes,
                                        rhs_idx as int,
                                        e,
                                        f,
                                    );
                                    lemma_value_cmp_monotone(
                                        fv(rhs_idx as int),
                                        fv(e),
                                        cmp_value,
                                    );
                                }
                            }
                        }
                        saw_range = true;
                    },
                }
                let ghost pre_consumed = consumed@;
                consumed[r] = true;
                proof {
                    // The filter's field is the index field at `f`.
                    lemma_names_index(names, filter.field.name@);
                    if spec_names_index(names, filter.field.name@) < f {
                        assert(names[spec_names_index(names, filter.field.name@)] == names[f]);
                        assert(false);
                    }
                    assert(spec_names_index(names, filter.field.name@) == f);
                    assert(spec_slot_on_field(filters@, remaining@, tname, names, f, r as int));
                    // This slot is now consumed; the older bookkeeping
                    // stands.
                    assert forall|c2: int|
                        0 <= c2 < n_rem implies ((#[trigger] consumed@[c2]) <==> (
                    remaining@[c2] < filters@.len() && spec_applicable(
                        filters@[remaining@[c2] as int],
                        tname,
                    ) && (spec_names_index(names, filters@[remaining@[c2] as int].field.name@)
                        < f || (spec_names_index(
                        names,
                        filters@[remaining@[c2] as int].field.name@,
                    ) == f && c2 < r + 1)))) by {
                        if c2 != r {
                            assert(consumed@[c2] == pre_consumed[c2]);
                        }
                    }
                    // Every consumed filter still holds on the narrower
                    // band, and the new one holds on it too.
                    assert forall|e: int, c2: int|
                        lhs_idx < e < rhs_idx && 0 <= c2 < n_rem && consumed@[c2] implies #[trigger] spec_entry_sat_at(
                        *table_schema,
                        iname,
                        ibytes,
                        filters@,
                        remaining@,
                        e,
                        c2,
                    ) by {
                        if c2 == r {
                            assert(filters@[remaining@[c2] as int] == *filter);
                            assert(table_schema.spec_entry_field_value(
                                iname,
                                ibytes,
                                e,
                                f,
                            ).spec_cmp(cmp_value) == filter.op);
                        } else {
                            assert(pre_consumed[c2]);
                            assert(old_lhs <= lhs_idx && rhs_idx <= old_rhs);
                        }
                    }
                    // Every entry outside the narrower band fails some
                    // consumed filter.
                    assert forall|e: int|
                        (0 <= e <= lhs_idx || rhs_idx <= e
                            < n_entries) implies #[trigger] spec_entry_excluded(
                        *table_schema,
                        iname,
                        ibytes,
                        filters@,
                        remaining@,
                        consumed@,
                        e,
                    ) by {
                        if 0 <= e <= old_lhs || old_rhs <= e < n_entries {
                            assert(spec_entry_excluded(
                                *table_schema,
                                iname,
                                ibytes,
                                filters@,
                                remaining@,
                                pre_consumed,
                                e,
                            ));
                            let cw = choose|cw: int|
                                0 <= cw < remaining@.len() && pre_consumed[cw]
                                    && !spec_entry_sat_at(
                                    *table_schema,
                                    iname,
                                    ibytes,
                                    filters@,
                                    remaining@,
                                    e,
                                    cw,
                                );
                            assert(consumed@ == pre_consumed.update(r as int, true));
                            assert(consumed@[cw]);
                            assert(spec_entry_excluded(
                                *table_schema,
                                iname,
                                ibytes,
                                filters@,
                                remaining@,
                                consumed@,
                                e,
                            ));
                        } else {
                            assert(table_schema.spec_entry_field_value(
                                iname,
                                ibytes,
                                e,
                                f,
                            ).spec_cmp(cmp_value) != filter.op);
                            assert(filters@[remaining@[r as int] as int] == *filter);
                            assert(consumed@[r as int] && !spec_entry_sat_at(
                                *table_schema,
                                iname,
                                ibytes,
                                filters@,
                                remaining@,
                                e,
                                r as int,
                            ));
                        }
                    }
                }
            } else {
                proof {
                    assert(names[f] == fields_list@[f]@);
                    assert(fidx == remaining@[r as int]);
                    assert(!spec_slot_on_field(filters@, remaining@, tname, names, f, r as int));
                    assert forall|c2: int|
                        0 <= c2 < n_rem implies ((#[trigger] consumed@[c2]) <==> (
                    remaining@[c2] < filters@.len() && spec_applicable(
                        filters@[remaining@[c2] as int],
                        tname,
                    ) && (spec_names_index(names, filters@[remaining@[c2] as int].field.name@)
                        < f || (spec_names_index(
                        names,
                        filters@[remaining@[c2] as int].field.name@,
                    ) == f && c2 < r + 1)))) by {
                        if c2 == r {
                            if spec_applicable(filters@[remaining@[c2] as int], tname)
                                && spec_names_index(
                                names,
                                filters@[remaining@[c2] as int].field.name@,
                            ) == f {
                                lemma_names_index(names, filters@[remaining@[c2] as int].field.name@);
                                assert(filters@[remaining@[c2] as int].field.name@ == names[f]);
                                assert(false);
                            }
                        }
                    }
                }
            }
            r = r + 1;
        }
        proof {
            // The flags read off the field's filter population exactly.
            if saw_equal {
                assert(spec_field_has_op(filters@, remaining@, tname, names, f, true));
            } else {
                if spec_field_has_op(filters@, remaining@, tname, names, f, true) {
                    let cw = choose|cw: int|
                        #[trigger] spec_slot_on_field(filters@, remaining@, tname, names, f, cw)
                            && filters@[remaining@[cw] as int].op == Ordering::Equal;
                    assert(false);
                }
            }
            if saw_range {
                assert(spec_field_has_op(filters@, remaining@, tname, names, f, false));
            } else {
                if spec_field_has_op(filters@, remaining@, tname, names, f, false) {
                    let cw = choose|cw: int|
                        #[trigger] spec_slot_on_field(filters@, remaining@, tname, names, f, cw)
                            && filters@[remaining@[cw] as int].op != Ordering::Equal;
                    assert(false);
                }
            }
            // Every applicable filter on this field is now consumed.
            assert forall|c2: int|
                0 <= c2 < n_rem implies ((#[trigger] consumed@[c2]) <==> (remaining@[c2]
                    < filters@.len() && spec_applicable(filters@[remaining@[c2] as int], tname)
                    && spec_names_index(names, filters@[remaining@[c2] as int].field.name@) < f
                    + 1)) by {}
            // Where the walk stops, counted by the spec.
            if !saw_equal || saw_range {
                assert(spec_walked_fields(filters@, remaining@, tname, names, f) == f + 1);
            } else {
                assert(spec_walked_fields(filters@, remaining@, tname, names, f)
                    == spec_walked_fields(filters@, remaining@, tname, names, f + 1));
            }
        }
        if saw_equal {
            proof {
                band_vals = band_vals.push(eq_target->Some_0);
            }
            if saw_range {
                break ;
            }
        } else {
            break ;
        }
        field_byte_pos = field_byte_pos + field_schema.byte_size();
        field_idx = field_idx + 1;
    }
    // Collect the row pointers of the surviving band, in entry order.
    let ghost l = lhs_idx as int;
    let ghost rr = rhs_idx as int;
    let mut out_positions: Vec<usize> = Vec::new();
    let mut i: i32 = lhs_idx + 1;
    while i < rhs_idx
        invariant
            lhs_idx < i <= rhs_idx,
            l == lhs_idx as int,
            rr == rhs_idx as int,
            -1 <= lhs_idx < rhs_idx <= n_entries,
            table_schema.wf(),
            table_schema.spec_has_index(iname),
            index_row_byte_len == table_schema.spec_index_entry_size(iname),
            8 <= index_row_byte_len <= 0xFFFF_FFFF,
            iname == index_name@,
            ibytes == index_bytes@,
            ibytes.len() as int % (index_row_byte_len as int) == 0,
            n_entries == table_schema.spec_num_entries(iname, ibytes),
            n_entries < 0x4000_0000,
            ibytes.len() == (index_row_byte_len as int) * (n_entries as int),
            forall|e: int|
                0 <= e < n_entries ==> (#[trigger] table_schema.spec_entry_ptr(
                    iname,
                    ibytes,
                    e,
                )) as int <= usize::MAX,
            out_positions@.len() == i - (l + 1),
            forall|k: int|
                0 <= k < out_positions@.len() ==> (#[trigger] out_positions@[k]) as int
                    == table_schema.spec_entry_ptr(iname, ibytes, l + 1 + k) as int,
        decreases rhs_idx - i,
    {
        proof {
            let esize = index_row_byte_len as int;
            let n = n_entries as int;
            vstd::arithmetic::mul::lemma_mul_inequality(i as int + 1, n, esize);
            vstd::arithmetic::mul::lemma_mul_is_commutative(i as int + 1, esize);
            vstd::arithmetic::mul::lemma_mul_is_commutative(n, esize);
            vstd::arithmetic::mul::lemma_mul_is_distributive_add(esize, i as int, 1);
            vstd::arithmetic::mul::lemma_mul_basics(esize);
            vstd::arithmetic::mul::lemma_mul_is_commutative(i as int, esize);
            assert((i as int) * esize + esize <= ibytes.len());
            vstd::arithmetic::mul::lemma_mul_nonnegative(i as int, esize);
        }
        let total_len: usize = index_bytes.len();
        let index_row_pos = (i as usize) * index_row_byte_len;
        let ptr_pos = index_row_pos + (index_row_byte_len - 8);
        let ptr_slice = vstd::slice::slice_subrange(index_bytes, ptr_pos, ptr_pos + 8);
        let table_row_ptr = vstd::bytes::u64_from_le_bytes(ptr_slice);
        proof {
            assert(ptr_slice@ =~= ibytes.subrange(
                (i as int) * (index_row_byte_len as int) + (index_row_byte_len as int) - 8,
                (i as int + 1) * (index_row_byte_len as int),
            ));
        }
        proof {
            assert(table_schema.spec_entry_ptr(iname, ibytes, i as int) as int <= usize::MAX);
        }
        let ghost prev = out_positions@;
        out_positions.push(table_row_ptr as usize);
        proof {
            assert forall|k: int|
                0 <= k < out_positions@.len() implies (#[trigger] out_positions@[k]) as int
                == table_schema.spec_entry_ptr(iname, ibytes, l + 1 + k) as int by {
                if k < prev.len() {
                    assert(out_positions@[k] == prev[k]);
                }
            }
        }
        i = i + 1;
    }
    // Keep the filters the narrowing did not consume.
    let mut retained: Vec<usize> = Vec::new();
    let mut r2: usize = 0;
    while r2 < n_rem
        invariant
            0 <= r2 <= n_rem,
            n_rem == remaining@.len(),
            consumed@.len() == n_rem,
            spec_filters_wf(*table_schema, filters@, remaining@, tname),
            tname == table_schema.name@,
            spec_filters_wf(*table_schema, filters@, retained@, tname),
            retained@ == spec_unconsumed(remaining@, consumed@, r2 as int),
        decreases n_rem - r2,
    {
        if !consumed[r2] {
            let ghost prev = retained@;
            retained.push(remaining[r2]);
            proof {
                assert forall|j: int|
                    0 <= j < retained@.len() implies (#[trigger] retained@[j]) < filters@.len()
                        && (spec_applicable(filters@[retained@[j] as int], tname)
                        ==> table_schema.spec_has_field(filters@[retained@[j] as int].field.name@)
                        && (filters@[retained@[j] as int].rhs->Value_0 is NULL
                        || filters@[retained@[j] as int].rhs->Value_0.spec_write_len()
                        == table_schema.spec_field_schema(
                        filters@[retained@[j] as int].field.name@,
                    ).spec_byte_size())) by {
                    if j < prev.len() {
                        assert(retained@[j] == prev[j]);
                    } else {
                        assert(retained@[j] == remaining@[r2 as int]);
                    }
                }
            }
        }
        r2 = r2 + 1;
    }
    proof {
        assert(spec_is_band_at(*table_schema, iname, ibytes, out_positions@, l));
        assert(spec_band_pointers(*table_schema, iname, ibytes, out_positions@));
        assert(spec_filters_wf(*table_schema, filters@, retained@, tname));
        assert(spec_is_filtered_band(
            *table_schema,
            index_name@,
            index_bytes@,
            filters@,
            remaining@,
            table_schema.name@,
            out_positions@,
            retained@,
            l,
            rr,
            consumed@,
        ));
        assert(exists|l2: int, r2: int, cc: Seq<bool>|
            #[trigger] spec_is_filtered_band(
                *table_schema,
                index_name@,
                index_bytes@,
                filters@,
                remaining@,
                table_schema.name@,
                out_positions@,
                retained@,
                l2,
                r2,
                cc,
            ));
    }
    let result = (crate::common::Selection::List(out_positions), retained);
    proof {
        assert(result.0 matches crate::common::Selection::List(v) && spec_band_pointers(
            *table_schema,
            index_name@,
            index_bytes@,
            v@,
        ));
        assert(result.0 matches crate::common::Selection::List(v) && spec_is_filtered_band(
            *table_schema,
            index_name@,
            index_bytes@,
            filters@,
            remaining@,
            table_schema.name@,
            v@,
            result.1@,
            l,
            rr,
            consumed@,
        ));
        assert(result.0 matches crate::common::Selection::List(v) && exists|
            l2: int,
            r2: int,
            cc: Seq<bool>,
        |
            #[trigger] spec_is_filtered_band(
                *table_schema,
                index_name@,
                index_bytes@,
                filters@,
                remaining@,
                table_schema.name@,
                v@,
                result.1@,
                l2,
                r2,
                cc,
            ));
        assert(spec_filters_wf(*table_schema, filters@, result.1@, table_schema.name@));
    }
    result
}

/// The field names the applicable literal filters of a table put up
/// for index selection, in remaining-list order.
pub open spec fn spec_eligible_fields(
    filters: Seq<RowFilter>,
    remaining: Seq<usize>,
    tname: Seq<char>,
    k: int,
) -> Seq<Seq<char>>
    decreases k,
{
    if k <= 0 {
        Seq::empty()
    } else {
        let prev = spec_eligible_fields(filters, remaining, tname, k - 1);
        if spec_applicable(filters[remaining[k - 1] as int], tname) {
            prev.push(filters[remaining[k - 1] as int].field.name@)
        } else {
            prev
        }
    }
}

/// No declared index earns a positive greedy score against the
/// applicable filters.
pub open spec fn spec_no_index_usable(
    schema: TableSchema,
    filters: Seq<RowFilter>,
    remaining: Seq<usize>,
    tname: Seq<char>,
) -> bool {
    forall|i: int|
        0 <= i < schema.indices@.len() ==> #[trigger] spec_score_of(
            schema,
            i,
            spec_eligible_fields(filters, remaining, tname, remaining.len() as int),
        ) <= 0
}

/// `w` is the index the greedy planner picks: the first one with the
/// highest, positive score.
pub open spec fn spec_chosen_index(
    schema: TableSchema,
    filters: Seq<RowFilter>,
    remaining: Seq<usize>,
    tname: Seq<char>,
    w: int,
) -> bool {
    let fv = spec_eligible_fields(filters, remaining, tname, remaining.len() as int);
    &&& 0 <= w < schema.indices@.len()
    &&& spec_score_of(schema, w, fv) > 0
    &&& forall|j: int|
        0 <= j < w ==> #[trigger] spec_score_of(schema, j, fv) < spec_score_of(schema, w, fv)
    &&& forall|j: int|
        w <= j < schema.indices@.len() ==> #[trigger] spec_score_of(schema, j, fv)
            <= spec_score_of(schema, w, fv)
}

/// What single-table filtering hands back, path by path: with no
/// filters the whole table; with no usable index exactly the linear
/// scan; with a chosen index exactly its filtered band, re-scanned by
/// whatever filters the narrowing left over.
pub open spec fn spec_filtered_selection_ok(
    storage: crate::pbase::TableStorage,
    filters: Seq<RowFilter>,
    remaining: Seq<usize>,
    out_sel: crate::common::Selection,
    out_rem: Seq<usize>,
) -> bool {
    let schema = storage.schema;
    let tname = schema.name@;
    let row = schema.spec_row_size();
    let allps = crate::common::Selection::All.spec_positions(row as nat, storage.data@.len());
    ||| (remaining.len() == 0 && out_sel is All && out_rem == remaining)
    ||| (remaining.len() > 0 && spec_no_index_usable(schema, filters, remaining, tname) && (
    out_sel matches crate::common::Selection::List(v) && v@ == spec_scan(
        schema,
        storage.data@,
        filters,
        remaining,
        tname,
        allps,
        allps.len() as int,
    )) && out_rem == spec_retained(filters, remaining, tname, remaining.len() as int))
    ||| (exists|w: int, bandptrs: Seq<usize>, brem: Seq<usize>, l: int, r: int, consumed: Seq<
        bool,
    >|
        {
            &&& spec_chosen_index(schema, filters, remaining, tname, w)
            &&& #[trigger] spec_is_filtered_band(
                schema,
                schema.indices@[w].0@,
                storage.index_files@[w]@,
                filters,
                remaining,
                tname,
                bandptrs,
                brem,
                l,
                r,
                consumed,
            )
            &&& if brem.len() > 0 {
                (out_sel matches crate::common::Selection::List(v) && v@ == spec_scan(
                    schema,
                    storage.data@,
                    filters,
                    brem,
                    tname,
                    bandptrs,
                    bandptrs.len() as int,
                )) && out_rem == spec_retained(filters, brem, tname, brem.len() as int)
            } else {
                (out_sel matches crate::common::Selection::List(v) && v@ == bandptrs)
                    && out_rem == brem
            }
        })
}

/// A selection whose explicit positions all lie on whole rows of the
/// data image.
pub open spec fn spec_selection_in_bounds(
    sel: crate::common::Selection,
    row: int,
    data_len: int,
) -> bool {
    sel matches crate::common::Selection::List(v) ==> forall|k: int|
        0 <= k < v@.len() ==> (#[trigger] v@[k]) + row <= data_len
}

/// Applies every remaining literal filter of one table: first through
/// the best-scoring index, then by a scan over what is left.
fn execute_filters_on_single_tables(
    storage: &crate::pbase::TableStorage,
    filters: &Vec<RowFilter>,
    remaining: &Vec<usize>,
) -> (out: (crate::common::Selection, Vec<usize>))
    requires
        storage.wf(),
        storage.data@.len() + storage.schema.spec_row_size() <= usize::MAX,
        spec_filters_wf(storage.schema, filters@, remaining@, storage.schema.name@),
    ensures
        spec_selection_in_bounds(
            out.0,
            storage.schema.spec_row_size(),
            storage.data@.len() as int,
        ),
        spec_filters_wf(storage.schema, filters@, out.1@, storage.schema.name@),
        remaining@.len() == 0 ==> out.0 is All,
        spec_filtered_selection_ok(*storage, filters@, remaining@, out.0, out.1@),
{
    let table_schema = &storage.schema;
    let ghost tname = table_schema.name@;
    // The fields an index could serve: those of the applicable filters.
    let mut index_filterable_fields: Vec<String> = Vec::new();
    let n_rem = remaining.len();
    let mut r: usize = 0;
    while r < n_rem
        invariant
            0 <= r <= n_rem,
            n_rem == remaining@.len(),
            spec_filters_wf(*table_schema, filters@, remaining@, tname),
            tname == table_schema.name@,
            n_rem == 0 ==> index_filterable_fields@.len() == 0,
            index_filterable_fields@.map_values(|s2: String| s2@) == spec_eligible_fields(
                filters@,
                remaining@,
                tname,
                r as int,
            ),
        decreases n_rem - r,
    {
        let fidx = remaining[r];
        let filter = &filters[fidx];
        let ghost prev_fields = index_filterable_fields@;
        match &filter.rhs {
            crate::query::RhsValue::Value(_) => {
                if crate::common::str_eq(filter.field.source.as_str(), table_schema.name.as_str())
                {
                    index_filterable_fields.push(filter.field.name.clone());
                }
            },
            crate::query::RhsValue::Ref(_) => {},
        }
        proof {
            assert(index_filterable_fields@.map_values(|s2: String| s2@)
                =~= spec_eligible_fields(filters@, remaining@, tname, r as int + 1));
        }
        r = r + 1;
    }
    let mut selection = crate::common::Selection::All;
    let mut filters_left: Vec<usize> = Vec::new();
    let mut c: usize = 0;
    while c < n_rem
        invariant
            0 <= c <= n_rem,
            n_rem == remaining@.len(),
            filters_left@ == remaining@.take(c as int),
            spec_filters_wf(*table_schema, filters@, remaining@, tname),
            tname == table_schema.name@,
        decreases n_rem - c,
    {
        filters_left.push(remaining[c]);
        proof {
            assert(filters_left@ =~= remaining@.take(c as int + 1));
        }
        c = c + 1;
    }
    proof {
        assert(filters_left@ =~= remaining@);
    }
    proof {
        assert forall|i: int|
            0 <= i < table_schema.indices@.len() implies (#[trigger] table_schema.indices@[i]).1@.len()
            < 0x7FFF_FFFF by {
            let iname2 = table_schema.indices@[i].0@;
            crate::schema::lemma_name_index(table_schema.indices@, iname2);
            assert(table_schema.spec_index_index(iname2) == i);
            let names = table_schema.spec_index_fields(iname2);
            assert(names == table_schema.indices@[i].1@.map_values(|s: String| s@));
            table_schema.lemma_names_size_lower(names, names.len() as int);
            assert(table_schema.spec_index_entry_size(iname2) <= 0x7FFF_FFFF);
        }
    }
    match index_for_query(table_schema, &index_filterable_fields) {
        Some(index_name) => {
            proof {
                crate::schema::lemma_name_index(table_schema.indices@, index_name@);
                if remaining@.len() == 0 {
                    let fviews = index_filterable_fields@.map_values(|s: String| s@);
                    assert(fviews.len() == 0);
                    let w = table_schema.spec_index_index(index_name@);
                    let ifields = table_schema.indices@[w].1@.map_values(|s: String| s@);
                    if ifields.len() > 0 {
                        assert(!spec_contains_name(fviews, ifields[0]));
                    }
                    assert(spec_score_of(*table_schema, w, fviews) == 0);
                    assert(false);
                }
            }
            let idx = table_schema.index_position(index_name.as_str());
            proof {
                assert(storage.spec_index_file_wf(idx as int));
                let iname = table_schema.indices@[idx as int].0@;
                let ib = storage.index_files@[idx as int]@;
                let esize = table_schema.spec_index_entry_size(iname);
                let names = table_schema.spec_index_fields(iname);
                table_schema.lemma_names_size_monotone(names, 0, names.len() as int);
                vstd::arithmetic::div_mod::lemma_fundamental_div_mod_converse(
                    ib.len() as int,
                    esize,
                    storage.spec_num_rows(),
                    0,
                );
                assert(table_schema.spec_num_entries(iname, ib) == storage.spec_num_rows());
            }
            let (sel, rem) = index_filter(
                index_name.as_str(),
                filters,
                &filters_left,
                self_index_file(storage, idx).as_slice(),
                table_schema,
            );
            proof {
                let iname = table_schema.indices@[idx as int].0@;
                let ib = storage.index_files@[idx as int]@;
                let row = table_schema.spec_row_size();
                match &sel {
                    crate::common::Selection::List(v) => {
                        let l = choose|l: int|
                            #[trigger] spec_is_band_at(*table_schema, iname, ib, v@, l);
                        assert forall|k: int|
                            0 <= k < v@.len() implies (#[trigger] v@[k]) + row
                            <= storage.data@.len() by {
                            assert(v@[k] as int == table_schema.spec_entry_ptr(
                                iname,
                                ib,
                                l + 1 + k,
                            ) as int);
                        }
                    },
                    crate::common::Selection::All => {},
                }
            }
            if rem.len() > 0 {
                let (sel2, rem2) = scan_filter(
                    &sel,
                    filters,
                    &rem,
                    storage.data.as_slice(),
                    table_schema,
                );
                proof {
                    lemma_retained_wf(
                        *table_schema,
                        filters@,
                        rem@,
                        tname,
                        rem@.len() as int,
                    );
                }
                (sel2, rem2)
            } else {
                (sel, rem)
            }
        },
        None => {
            if filters_left.len() > 0 {
                let (sel2, rem2) = scan_filter(
                    &selection,
                    filters,
                    &filters_left,
                    storage.data.as_slice(),
                    table_schema,
                );
                proof {
                    lemma_retained_wf(
                        *table_schema,
                        filters@,
                        filters_left@,
                        tname,
                        filters_left@.len() as int,
                    );
                }
                (sel2, rem2)
            } else {
                (selection, filters_left)
            }
        },
    }
}

/// The stored image of the index at position `idx`.
fn self_index_file(storage: &crate::pbase::TableStorage, idx: usize) -> (f: &Vec<u8>)
    requires
        idx < storage.index_files@.len(),
    ensures
        f == storage.index_files@[idx as int],
{
    &storage.index_files[idx]
}

/// The key a materialised row binds a field under.
pub open spec fn spec_out_key(t: Seq<char>, f: Seq<char>) -> Seq<char> {
    t + "."@ + f
}

/// What a materialised view row binds `key` to once the first `c`
/// columns, plus `f` fields of column `c`, have been written: the
/// latest matching field wins.
pub open spec fn spec_materialized_get(
    tables: Seq<crate::pbase::TableStorage>,
    colmap: Seq<usize>,
    tnames: Seq<Seq<char>>,
    row: Seq<usize>,
    c: int,
    f: int,
    key: Seq<char>,
) -> Option<Value>
    decreases c, f,
{
    if c <= 0 && f <= 0 {
        None
    } else if f <= 0 {
        spec_materialized_get(
            tables,
            colmap,
            tnames,
            row,
            c - 1,
            tables[colmap[c - 1] as int].schema.fields@.len() as int,
            key,
        )
    } else {
        let schema = tables[colmap[c] as int].schema;
        let fld = schema.fields@[f - 1].0@;
        if spec_out_key(tnames[c], fld) == key {
            Some(
                crate::multi_table_view::spec_value_at(
                    schema,
                    tables[colmap[c] as int].data@,
                    row[c] as int,
                    fld,
                ),
            )
        } else {
            spec_materialized_get(tables, colmap, tnames, row, c, f - 1, key)
        }
    }
}

/// Materialises every view row into a map from `<table>.<field>` to the
/// decoded value, columns in view order, fields in declaration order.
pub fn materialize_view(
    view: &crate::multi_table_view::MultiTableView,
    tables: &Vec<crate::pbase::TableStorage>,
    colmap: &Vec<usize>,
) -> (out: Vec<crate::schema::ValueMap>)
    requires
        view.wf(),
        colmap@.len() == view.tables@.len(),
        forall|c: int|
            0 <= c < colmap@.len() ==> (#[trigger] colmap@[c]) < tables@.len()
                && tables@[colmap@[c] as int].schema.wf()
                && tables@[colmap@[c] as int].schema.name@ == view.tables@[c]@,
        forall|i: int, c: int|
            0 <= i < view.view@.len() && 0 <= c < view.tables@.len() ==> (
            #[trigger] view.view@[i]@[c]) + tables@[colmap@[c] as int].schema.spec_row_size()
                <= tables@[colmap@[c] as int].data@.len(),
    ensures
        out@.len() == view.view@.len(),
        forall|i: int, key: Seq<char>|
            0 <= i < out@.len() ==> #[trigger] out@[i].spec_get(key) == spec_materialized_get(
                tables@,
                colmap@,
                view.tables@.map_values(|s: String| s@),
                view.view@[i]@,
                view.tables@.len() as int,
                0,
                key,
            ),
{
    let ghost tnames = view.tables@.map_values(|s: String| s@);
    let n_rows = view.len();
    let n_cols = view.tables.len();
    let mut out: Vec<crate::schema::ValueMap> = Vec::new();
    let mut i: usize = 0;
    while i < n_rows
        invariant
            0 <= i <= n_rows,
            n_rows == view.view@.len(),
            n_cols == view.tables@.len(),
            tnames == view.tables@.map_values(|s: String| s@),
            view.wf(),
            colmap@.len() == view.tables@.len(),
            forall|c: int|
                0 <= c < colmap@.len() ==> (#[trigger] colmap@[c]) < tables@.len()
                    && tables@[colmap@[c] as int].schema.wf()
                    && tables@[colmap@[c] as int].schema.name@ == view.tables@[c]@,
            forall|i2: int, c: int|
                0 <= i2 < view.view@.len() && 0 <= c < view.tables@.len() ==> (
                #[trigger] view.view@[i2]@[c]) + tables@[colmap@[c] as int].schema.spec_row_size()
                    <= tables@[colmap@[c] as int].data@.len(),
            out@.len() == i,
            forall|i2: int, key: Seq<char>|
                0 <= i2 < out@.len() ==> #[trigger] out@[i2].spec_get(key)
                    == spec_materialized_get(
                    tables@,
                    colmap@,
                    tnames,
                    view.view@[i2]@,
                    n_cols as int,
                    0,
                    key,
                ),
        decreases n_rows - i,
    {
        let ghost row = view.view@[i as int]@;
        let mut out_row = crate::schema::ValueMap::new();
        let mut c: usize = 0;
        while c < n_cols
            invariant
                0 <= c <= n_cols,
                0 <= i < n_rows,
                n_rows == view.view@.len(),
                n_cols == view.tables@.len(),
                tnames == view.tables@.map_values(|s: String| s@),
                row == view.view@[i as int]@,
                view.wf(),
                colmap@.len() == view.tables@.len(),
                forall|c2: int|
                    0 <= c2 < colmap@.len() ==> (#[trigger] colmap@[c2]) < tables@.len()
                        && tables@[colmap@[c2] as int].schema.wf()
                        && tables@[colmap@[c2] as int].schema.name@ == view.tables@[c2]@,
                forall|i2: int, c2: int|
                    0 <= i2 < view.view@.len() && 0 <= c2 < view.tables@.len() ==> (
                    #[trigger] view.view@[i2]@[c2]) + tables@[colmap@[c2] as int].schema.spec_row_size()
                        <= tables@[colmap@[c2] as int].data@.len(),
                forall|key: Seq<char>|
                    #[trigger] out_row.spec_get(key) == spec_materialized_get(
                        tables@,
                        colmap@,
                        tnames,
                        row,
                        c as int,
                        0,
                        key,
                    ),
            decreases n_cols - c,
        {
            let sidx = colmap[c];
            let schema = &tables[sidx].schema;
            let n_fields = schema.fields.len();
            let table_row_pos = view.view[i][c];
            proof {
                crate::schema::lemma_fields_size_monotone(
                    schema.fields@,
                    0,
                    schema.fields@.len() as int,
                );
                assert((view.view@[i as int]@[c as int]) + tables@[colmap@[c as int] as int].schema.spec_row_size()
                    <= tables@[colmap@[c as int] as int].data@.len());
            }
            let row_slice = vstd::slice::slice_subrange(
                tables[sidx].data.as_slice(),
                table_row_pos,
                tables[sidx].data.len(),
            );
            let reader = crate::schema::TableReader::new(schema, row_slice, table_row_pos);
            proof {
                assert(row_slice@ =~= tables@[sidx as int].data@.skip(table_row_pos as int));
            }
            let mut f: usize = 0;
            while f < n_fields
                invariant
                    0 <= f <= n_fields,
                    0 <= c < n_cols,
                    0 <= i < n_rows,
                    n_rows == view.view@.len(),
                    n_cols == view.tables@.len(),
                    tnames == view.tables@.map_values(|s: String| s@),
                    row == view.view@[i as int]@,
                    view.wf(),
                    colmap@.len() == view.tables@.len(),
                    sidx == colmap@[c as int],
                    sidx < tables@.len(),
                    schema == tables@[sidx as int].schema,
                    n_fields == schema.fields@.len(),
                    schema.wf(),
                    table_row_pos == row[c as int],
                    reader.spec_schema() == tables@[sidx as int].schema,
                    reader.spec_row_bytes() == tables@[sidx as int].data@.skip(
                        table_row_pos as int,
                    ),
                    table_row_pos + schema.spec_row_size() <= tables@[sidx as int].data@.len(),
                    forall|c2: int|
                        0 <= c2 < colmap@.len() ==> (#[trigger] colmap@[c2]) < tables@.len()
                            && tables@[colmap@[c2] as int].schema.wf()
                            && tables@[colmap@[c2] as int].schema.name@ == view.tables@[c2]@,
                    forall|i2: int, c2: int|
                        0 <= i2 < view.view@.len() && 0 <= c2 < view.tables@.len() ==> (
                        #[trigger] view.view@[i2]@[c2])
                            + tables@[colmap@[c2] as int].schema.spec_row_size()
                            <= tables@[colmap@[c2] as int].data@.len(),
                    forall|key: Seq<char>|
                        #[trigger] out_row.spec_get(key) == spec_materialized_get(
                            tables@,
                            colmap@,
                            tnames,
                            row,
                            c as int,
                            f as int,
                            key,
                        ),
                decreases n_fields - f,
            {
                let field_name: &String = &schema.fields[f].0;
                proof {
                    crate::schema::lemma_name_index(schema.fields@, field_name@);
                    if schema.spec_field_index(field_name@) < f {
                        assert(schema.fields@[schema.spec_field_index(field_name@)].0@
                            == schema.fields@[f as int].0@);
                        assert(false);
                    }
                }
                let value = reader.get_field_value(field_name.as_str());
                let mut key = view.tables[c].clone();
                key.append(".");
                key.append(field_name.as_str());
                proof {
                    assert(key@ == spec_out_key(tnames[c as int], field_name@));
                }
                out_row.insert(key, value);
                f = f + 1;
            }
            proof {
                assert(forall|key: Seq<char>|
                    spec_materialized_get(
                        tables@,
                        colmap@,
                        tnames,
                        row,
                        c as int + 1,
                        0,
                        key,
                    ) == #[trigger] spec_materialized_get(
                        tables@,
                        colmap@,
                        tnames,
                        row,
                        c as int,
                        n_fields as int,
                        key,
                    ));
            }
            c = c + 1;
        }
        out.push(out_row);
        i = i + 1;
    }
    out
}

/// Whether `name` names the main table or a joined table of the query.
pub open spec fn spec_participating(q: SelectQuery, name: Seq<char>) -> bool {
    name == q.from@ || exists|j: int|
        0 <= j < q.joins@.len() && (#[trigger] q.joins@[j]).rhs.source@ == name
}

/// Every table the query reads is stored.
pub open spec fn spec_tables_present(
    tables: Seq<crate::pbase::TableStorage>,
    q: SelectQuery,
) -> bool {
    &&& spec_has_storage(tables, q.from@)
    &&& forall|j: int|
        0 <= j < q.joins@.len() ==> spec_has_storage(
            tables,
            (#[trigger] q.joins@[j]).rhs.source@,
        )
}

/// The stored table bearing `name`.
pub open spec fn spec_storage_of(
    tables: Seq<crate::pbase::TableStorage>,
    name: Seq<char>,
) -> crate::pbase::TableStorage {
    tables[spec_storage_index(tables, name)]
}

/// Every involved table's data image holds whole rows only.
pub open spec fn spec_sizes_ok(tables: Seq<crate::pbase::TableStorage>, q: SelectQuery) -> bool {
    &&& spec_storage_of(tables, q.from@).data@.len() as int % spec_storage_of(
        tables,
        q.from@,
    ).schema.spec_row_size() == 0
    &&& forall|j: int|
        0 <= j < q.joins@.len() ==> spec_storage_of(
            tables,
            (#[trigger] q.joins@[j]).rhs.source@,
        ).data@.len() as int % spec_storage_of(
            tables,
            q.joins@[j].rhs.source@,
        ).schema.spec_row_size() == 0
}

/// The demands a SELECT puts on its caller once its tables exist:
/// distinct join targets, registered join sources, declared fields,
/// and literal or reference types that can be compared.
pub open spec fn spec_query_wf(tables: Seq<crate::pbase::TableStorage>, q: SelectQuery) -> bool {
    spec_tables_present(tables, q) ==> {
        &&& forall|j: int|
            0 <= j < q.joins@.len() ==> {
                let jn = #[trigger] q.joins@[j];
                &&& jn.rhs.source@ != q.from@
                &&& (forall|i: int|
                    0 <= i < j ==> (#[trigger] q.joins@[i]).rhs.source@ != jn.rhs.source@)
                &&& (jn.lhs.source@ == q.from@ || exists|i: int|
                    0 <= i < j && (#[trigger] q.joins@[i]).rhs.source@ == jn.lhs.source@)
                &&& spec_storage_of(tables, jn.lhs.source@).schema.spec_has_field(jn.lhs.name@)
                &&& spec_storage_of(tables, jn.rhs.source@).schema.spec_has_field(jn.rhs.name@)
                &&& spec_has_storage(tables, jn.lhs.source@)
            }
        &&& forall|fi: int|
            0 <= fi < q.filters@.len() ==> {
                let ft = #[trigger] q.filters@[fi];
                match ft.rhs {
                    crate::query::RhsValue::Value(v) => {
                        &&& spec_participating(q, ft.field.source@)
                        &&& spec_has_storage(tables, ft.field.source@)
                        &&& spec_storage_of(tables, ft.field.source@).schema.spec_has_field(
                            ft.field.name@,
                        )
                        &&& (v is NULL || v.spec_write_len() == spec_storage_of(
                            tables,
                            ft.field.source@,
                        ).schema.spec_field_schema(ft.field.name@).spec_byte_size())
                    },
                    crate::query::RhsValue::Ref(rsel) => {
                        &&& spec_participating(q, ft.field.source@)
                        &&& spec_participating(q, rsel.source@)
                        &&& spec_has_storage(tables, ft.field.source@)
                        &&& spec_has_storage(tables, rsel.source@)
                        &&& spec_storage_of(tables, ft.field.source@).schema.spec_has_field(
                            ft.field.name@,
                        )
                        &&& spec_storage_of(tables, rsel.source@).schema.spec_has_field(
                            rsel.name@,
                        )
                        &&& spec_storage_of(tables, ft.field.source@).schema.spec_field_schema(
                            ft.field.name@,
                        ) == spec_storage_of(tables, rsel.source@).schema.spec_field_schema(
                            rsel.name@,
                        )
                    },
                }
            }
    }
}

/// The tables of the view a query assembles: the main table, then the
/// joined tables in join order.
pub open spec fn spec_view_tables(q: SelectQuery) -> Seq<Seq<char>> {
    seq![q.from@] + Seq::new(q.joins@.len(), |j: int| q.joins@[j].rhs.source@)
}

/// Every filter slot of a list with `n` filters.
pub open spec fn spec_all_indices(n: int) -> Seq<usize> {
    Seq::new(n as nat, |i: int| i as usize)
}

/// The single-position view rows a selection seeds.
pub open spec fn spec_seed_rows(ps: Seq<usize>) -> Seq<Seq<usize>> {
    Seq::new(ps.len(), |k: int| seq![ps[k]])
}

/// The view after the first `j` joins, each fed by its table's
/// selected positions.
pub open spec fn spec_view_after(
    tables: Seq<crate::pbase::TableStorage>,
    q: SelectQuery,
    pos: Seq<Seq<usize>>,
    j: int,
) -> Seq<Seq<usize>>
    decreases j,
{
    if j <= 0 {
        spec_seed_rows(pos[0])
    } else {
        let prev = spec_view_after(tables, q, pos, j - 1);
        let jn = q.joins@[j - 1];
        let lhs_col = spec_names_index(spec_view_tables(q).take(j), jn.lhs.source@);
        let ls = spec_storage_of(tables, jn.lhs.source@);
        let rs = spec_storage_of(tables, jn.rhs.source@);
        crate::multi_table_view::spec_inner_join(
            prev,
            lhs_col,
            ls.schema,
            ls.data@,
            jn.lhs.name@,
            rs.schema,
            rs.data@,
            jn.rhs.name@,
            pos[j],
            prev.len() as int,
        )
    }
}

/// Whether a view row passes filter `fi`; literal filters were spent
/// on the per-table stage and hold here by fiat.
pub open spec fn spec_ref_filter_sat(
    tables: Seq<crate::pbase::TableStorage>,
    q: SelectQuery,
    row: Seq<usize>,
    fi: int,
) -> bool {
    match q.filters@[fi].rhs {
        crate::query::RhsValue::Ref(rsel) => {
            let ft = q.filters@[fi];
            let lcol = spec_names_index(spec_view_tables(q), ft.field.source@);
            let rcol = spec_names_index(spec_view_tables(q), rsel.source@);
            let lst = spec_storage_of(tables, ft.field.source@);
            let rst = spec_storage_of(tables, rsel.source@);
            crate::multi_table_view::spec_value_at(
                lst.schema,
                lst.data@,
                row[lcol] as int,
                ft.field.name@,
            ).spec_cmp(
                crate::multi_table_view::spec_value_at(
                    rst.schema,
                    rst.data@,
                    row[rcol] as int,
                    rsel.name@,
                ),
            ) == ft.op
        },
        crate::query::RhsValue::Value(_) => true,
    }
}

/// Whether a view row passes every reference filter of the query.
pub open spec fn spec_row_ref_pass(
    tables: Seq<crate::pbase::TableStorage>,
    q: SelectQuery,
    row: Seq<usize>,
) -> bool {
    forall|fi: int|
        0 <= fi < q.filters@.len() ==> #[trigger] spec_ref_filter_sat(tables, q, row, fi)
}

/// The first `k` view rows, narrowed to those that pass the reference
/// filters.
pub open spec fn spec_ref_filtered(
    tables: Seq<crate::pbase::TableStorage>,
    q: SelectQuery,
    view: Seq<Seq<usize>>,
    k: int,
) -> Seq<Seq<usize>>
    decreases k,
{
    if k <= 0 {
        Seq::empty()
    } else {
        let prev = spec_ref_filtered(tables, q, view, k - 1);
        if spec_row_ref_pass(tables, q, view[k - 1]) {
            prev.push(view[k - 1])
        } else {
            prev
        }
    }
}

/// The storage slot each view column reads.
pub open spec fn spec_query_colmap(
    tables: Seq<crate::pbase::TableStorage>,
    q: SelectQuery,
) -> Seq<usize> {
    Seq::new(spec_view_tables(q).len(), |c: int| spec_storage_index(
        tables,
        spec_view_tables(q)[c],
    ) as usize)
}

/// The whole read path, as one statement: each table narrowed to its
/// selection, the view joined up, the reference filters applied, and
/// every surviving row materialised key by key.
pub open spec fn spec_select_result_ok(
    tables: Seq<crate::pbase::TableStorage>,
    q: SelectQuery,
    sels: Seq<crate::common::Selection>,
    rems: Seq<Seq<usize>>,
    rows: Seq<crate::schema::ValueMap>,
) -> bool {
    let vt = spec_view_tables(q);
    &&& sels.len() == vt.len()
    &&& rems.len() == vt.len()
    &&& forall|t: int|
        0 <= t < vt.len() ==> #[trigger] spec_filtered_selection_ok(
            spec_storage_of(tables, vt[t]),
            q.filters@,
            spec_all_indices(q.filters@.len() as int),
            sels[t],
            rems[t],
        )
    &&& ({
        let pos = Seq::new(
            vt.len(),
            |t: int|
                sels[t].spec_positions(
                    spec_storage_of(tables, vt[t]).schema.spec_row_size() as nat,
                    spec_storage_of(tables, vt[t]).data@.len(),
                ),
        );
        let view = spec_view_after(tables, q, pos, q.joins@.len() as int);
        let kept = spec_ref_filtered(tables, q, view, view.len() as int);
        &&& rows.len() == kept.len()
        &&& forall|i: int, key: Seq<char>|
            0 <= i < rows.len() ==> #[trigger] rows[i].spec_get(key) == spec_materialized_get(
                tables,
                spec_query_colmap(tables, q),
                vt,
                kept[i],
                vt.len() as int,
                0,
                key,
            )
    })
}

/// A well-formed query's filters are well formed against any one of
/// its participating tables.
proof fn lemma_filters_wf_for_table(
    tables: Seq<crate::pbase::TableStorage>,
    q: SelectQuery,
    remaining: Seq<usize>,
    name: Seq<char>,
)
    requires
        spec_query_wf(tables, q),
        spec_tables_present(tables, q),
        spec_participating(q, name),
        spec_has_storage(tables, name),
        forall|k: int| 0 <= k < remaining.len() ==> (#[trigger] remaining[k]) < q.filters@.len(),
    ensures
        spec_filters_wf(spec_storage_of(tables, name).schema, q.filters@, remaining, name),
{
    let schema = spec_storage_of(tables, name).schema;
    lemma_storage_index(tables, name);
    assert forall|r: int|
        0 <= r < remaining.len() implies (#[trigger] remaining[r]) < q.filters@.len() && (
    spec_applicable(q.filters@[remaining[r] as int], name) ==> schema.spec_has_field(
        q.filters@[remaining[r] as int].field.name@,
    ) && (q.filters@[remaining[r] as int].rhs->Value_0 is NULL
        || q.filters@[remaining[r] as int].rhs->Value_0.spec_write_len()
        == schema.spec_field_schema(
        q.filters@[remaining[r] as int].field.name@,
    ).spec_byte_size())) by {
        let ft = q.filters@[remaining[r] as int];
        if spec_applicable(ft, name) {
            assert(ft.field.source@ == name);
            assert(spec_storage_of(tables, ft.field.source@) == spec_storage_of(tables, name));
        }
    }
}

impl<'a> SelectQueryExecutor<'a> {
    pub fn new(tables: &'a Vec<crate::pbase::TableStorage>, query: SelectQuery) -> (ex:
        SelectQueryExecutor<'a>)
        ensures
            ex.tables == tables,
            ex.query == query,
    {
        SelectQueryExecutor { tables, query }
    }

    /// Runs the SELECT: resolves the tables, rejects data images that
    /// hold partial rows, narrows each table, assembles the join view,
    /// applies the reference filters, and materialises the result.
    #[verifier::rlimit(100)]
    pub fn call(&self) -> (r: Result<Vec<crate::schema::ValueMap>, crate::common::PBaseError>)
        requires
            forall|t: int| 0 <= t < self.tables@.len() ==> (#[trigger] self.tables@[t]).query_wf(),
            spec_query_wf(self.tables@, self.query),
        ensures
            !spec_tables_present(self.tables@, self.query) <==> (r matches Err(
                crate::common::PBaseError::TableNotFound(_),
            )),
            (r matches Err(crate::common::PBaseError::TableNotFound(n)) ==> !spec_has_storage(
                self.tables@,
                n@,
            ) && spec_participating(self.query, n@)),
            (spec_tables_present(self.tables@, self.query) && !spec_sizes_ok(
                self.tables@,
                self.query,
            )) <==> (r matches Err(e) && e == crate::common::PBaseError::InvalidTableSizeError),
            (spec_tables_present(self.tables@, self.query) && spec_sizes_ok(
                self.tables@,
                self.query,
            )) <==> r is Ok,
            (r is Ok && self.query.joins@.len() == 0 && self.query.filters@.len() == 0)
                ==> r->Ok_0@.len() == spec_storage_of(self.tables@, self.query.from@).spec_num_rows(),
            r matches Ok(rows) ==> exists|
                sels: Seq<crate::common::Selection>,
                rems: Seq<Seq<usize>>,
            | #[trigger] spec_select_result_ok(self.tables@, self.query, sels, rems, rows@),
    {
        let tables = self.tables;
        // Resolve the main table, then every joined table.
        let from_idx = match find_storage(tables, self.query.from.as_str()) {
            Some(i) => i,
            None => {
                return Err(crate::common::PBaseError::TableNotFound(self.query.from.clone()));
            },
        };
        let n_joins = self.query.joins.len();
        let mut join_idxs: Vec<usize> = Vec::new();
        let mut j: usize = 0;
        while j < n_joins
            invariant
                0 <= j <= n_joins,
                n_joins == self.query.joins@.len(),
                forall|t: int|
                    0 <= t < self.tables@.len() ==> (#[trigger] self.tables@[t]).query_wf(),
                spec_query_wf(self.tables@, self.query),
                tables == self.tables,
                spec_has_storage(tables@, self.query.from@),
                from_idx == spec_storage_index(tables@, self.query.from@),
                from_idx < tables@.len(),
                join_idxs@.len() == j,
                forall|jj: int|
                    0 <= jj < j ==> spec_has_storage(
                        tables@,
                        (#[trigger] self.query.joins@[jj]).rhs.source@,
                    ) && join_idxs@[jj] == spec_storage_index(
                        tables@,
                        self.query.joins@[jj].rhs.source@,
                    ) && join_idxs@[jj] < tables@.len(),
            decreases n_joins - j,
        {
            match find_storage(tables, self.query.joins[j].rhs.source.as_str()) {
                Some(i) => {
                    join_idxs.push(i);
                },
                None => {
                    return Err(
                        crate::common::PBaseError::TableNotFound(
                            self.query.joins[j].rhs.source.clone(),
                        ),
                    );
                },
            }
            j = j + 1;
        }
        proof {
            assert(spec_tables_present(tables@, self.query));
            lemma_storage_index(tables@, self.query.from@);
        }
        // Reject any involved data image that holds a partial row.
        let row_main = tables[from_idx].schema.row_byte_size();
        if tables[from_idx].data.len() % row_main != 0 {
            return Err(crate::common::PBaseError::InvalidTableSizeError);
        }
        let mut j2: usize = 0;
        while j2 < n_joins
            invariant
                0 <= j2 <= n_joins,
                n_joins == self.query.joins@.len(),
                forall|t: int|
                    0 <= t < self.tables@.len() ==> (#[trigger] self.tables@[t]).query_wf(),
                spec_query_wf(self.tables@, self.query),
                tables == self.tables,
                spec_tables_present(tables@, self.query),
                from_idx == spec_storage_index(tables@, self.query.from@),
                from_idx < tables@.len(),
                join_idxs@.len() == n_joins,
                forall|jj: int|
                    0 <= jj < n_joins ==> spec_has_storage(
                        tables@,
                        (#[trigger] self.query.joins@[jj]).rhs.source@,
                    ) && join_idxs@[jj] == spec_storage_index(
                        tables@,
                        self.query.joins@[jj].rhs.source@,
                    ) && join_idxs@[jj] < tables@.len(),
                spec_storage_of(tables@, self.query.from@).data@.len() as int % spec_storage_of(
                    tables@,
                    self.query.from@,
                ).schema.spec_row_size() == 0,
                forall|jj: int|
                    0 <= jj < j2 ==> spec_storage_of(
                        tables@,
                        (#[trigger] self.query.joins@[jj]).rhs.source@,
                    ).data@.len() as int % spec_storage_of(
                        tables@,
                        self.query.joins@[jj].rhs.source@,
                    ).schema.spec_row_size() == 0,
            decreases n_joins - j2,
        {
            proof {
                assert(spec_has_storage(tables@, (self.query.joins@[j2 as int]).rhs.source@));
                assert(join_idxs@[j2 as int] < tables@.len());
                assert(tables@[join_idxs@[j2 as int] as int].query_wf());
            }
            let si = join_idxs[j2];
            let row_j = tables[si].schema.row_byte_size();
            if tables[si].data.len() % row_j != 0 {
                return Err(crate::common::PBaseError::InvalidTableSizeError);
            }
            j2 = j2 + 1;
        }
        proof {
            assert(spec_sizes_ok(tables@, self.query));
        }
        // Narrow each table by its literal filters.
        let n_filters = self.query.filters.len();
        let mut all_remaining: Vec<usize> = Vec::new();
        let mut fi: usize = 0;
        while fi < n_filters
            invariant
                0 <= fi <= n_filters,
                all_remaining@.len() == fi,
                forall|k: int| 0 <= k < fi ==> (#[trigger] all_remaining@[k]) == k,
            decreases n_filters - fi,
        {
            all_remaining.push(fi);
            fi = fi + 1;
        }
        proof {
            lemma_filters_wf_for_table(tables@, self.query, all_remaining@, self.query.from@);
            assert(tables@[from_idx as int].wf());
        }
        proof {
            assert(all_remaining@ =~= spec_all_indices(n_filters as int));
        }
        let (sel_main, rem_main) = execute_filters_on_single_tables(
            &tables[from_idx],
            &self.query.filters,
            &all_remaining,
        );
        let ghost mut g_rems: Seq<Seq<usize>> = seq![rem_main@];
        let mut join_sels: Vec<crate::common::Selection> = Vec::new();
        let mut j3: usize = 0;
        while j3 < n_joins
            invariant
                0 <= j3 <= n_joins,
                n_joins == self.query.joins@.len(),
                n_filters == self.query.filters@.len(),
                all_remaining@.len() == n_filters,
                forall|k: int| 0 <= k < n_filters ==> (#[trigger] all_remaining@[k]) == k,
                forall|t: int|
                    0 <= t < self.tables@.len() ==> (#[trigger] self.tables@[t]).query_wf(),
                spec_query_wf(self.tables@, self.query),
                tables == self.tables,
                spec_tables_present(tables@, self.query),
                spec_sizes_ok(tables@, self.query),
                from_idx == spec_storage_index(tables@, self.query.from@),
                from_idx < tables@.len(),
                join_idxs@.len() == n_joins,
                forall|jj: int|
                    0 <= jj < n_joins ==> spec_has_storage(
                        tables@,
                        (#[trigger] self.query.joins@[jj]).rhs.source@,
                    ) && join_idxs@[jj] == spec_storage_index(
                        tables@,
                        self.query.joins@[jj].rhs.source@,
                    ) && join_idxs@[jj] < tables@.len(),
                join_sels@.len() == j3,
                forall|jj: int|
                    0 <= jj < j3 ==> spec_selection_in_bounds(
                        #[trigger] join_sels@[jj],
                        tables@[join_idxs@[jj] as int].schema.spec_row_size(),
                        tables@[join_idxs@[jj] as int].data@.len() as int,
                    ),
                all_remaining@ == spec_all_indices(n_filters as int),
                g_rems.len() == j3 + 1,
                spec_filtered_selection_ok(
                    tables@[from_idx as int],
                    self.query.filters@,
                    spec_all_indices(n_filters as int),
                    sel_main,
                    g_rems[0],
                ),
                forall|jj: int|
                    0 <= jj < j3 ==> spec_filtered_selection_ok(
                        tables@[join_idxs@[jj] as int],
                        self.query.filters@,
                        spec_all_indices(n_filters as int),
                        #[trigger] join_sels@[jj],
                        g_rems[jj + 1],
                    ),
            decreases n_joins - j3,
        {
            let si = join_idxs[j3];
            proof {
                lemma_storage_index(tables@, self.query.joins@[j3 as int].rhs.source@);
                lemma_filters_wf_for_table(
                    tables@,
                    self.query,
                    all_remaining@,
                    self.query.joins@[j3 as int].rhs.source@,
                );
                assert(tables@[si as int].wf());
            }
            let (sel_j, rem_j) = execute_filters_on_single_tables(
                &tables[si],
                &self.query.filters,
                &all_remaining,
            );
            proof {
                g_rems = g_rems.push(rem_j@);
            }
            join_sels.push(sel_j);
            j3 = j3 + 1;
        }
        // Assemble the join view, one column per participating table.
        let ghost vt = spec_view_tables(self.query);
        let ghost g_sels: Seq<crate::common::Selection> = seq![sel_main] + join_sels@;
        let ghost g_pos = Seq::new(
            vt.len(),
            |t: int|
                g_sels[t].spec_positions(
                    spec_storage_of(tables@, vt[t]).schema.spec_row_size() as nat,
                    spec_storage_of(tables@, vt[t]).data@.len(),
                ),
        );
        let mut colmap: Vec<usize> = Vec::new();
        colmap.push(from_idx);
        proof {
            let row = tables@[from_idx as int].schema.spec_row_size() as nat;
            let dlen = tables@[from_idx as int].data@.len();
            sel_main.lemma_positions_bounded(row, dlen);
        }
        let mut view = crate::multi_table_view::MultiTableView::new_from_table_bytes_and_selection(
            tables[from_idx].data.as_slice(),
            &tables[from_idx].schema,
            &sel_main,
        );
        let ghost seed_len = view.view@.len();
        proof {
            assert(view.tables@[0]@ == self.query.from@);
            assert(colmap@[0] == spec_storage_index(tables@, view.tables@[0]@));
            assert(vt[0] == self.query.from@);
            assert(spec_storage_of(tables@, vt[0]) == tables@[from_idx as int]);
            assert(g_sels[0] == sel_main);
            assert(view.view@.map_values(|r2: Vec<usize>| r2@) =~= spec_seed_rows(g_pos[0]));
            assert(view.view@.map_values(|r2: Vec<usize>| r2@) == spec_view_after(
                tables@,
                self.query,
                g_pos,
                0,
            ));
        }
        let mut j4: usize = 0;
        while j4 < n_joins
            invariant
                0 <= j4 <= n_joins,
                n_joins == self.query.joins@.len(),
                n_filters == self.query.filters@.len(),
                forall|t: int|
                    0 <= t < self.tables@.len() ==> (#[trigger] self.tables@[t]).query_wf(),
                spec_query_wf(self.tables@, self.query),
                tables == self.tables,
                spec_tables_present(tables@, self.query),
                spec_sizes_ok(tables@, self.query),
                from_idx == spec_storage_index(tables@, self.query.from@),
                from_idx < tables@.len(),
                join_idxs@.len() == n_joins,
                forall|jj: int|
                    0 <= jj < n_joins ==> spec_has_storage(
                        tables@,
                        (#[trigger] self.query.joins@[jj]).rhs.source@,
                    ) && join_idxs@[jj] == spec_storage_index(
                        tables@,
                        self.query.joins@[jj].rhs.source@,
                    ) && join_idxs@[jj] < tables@.len(),
                join_sels@.len() == n_joins,
                forall|jj: int|
                    0 <= jj < n_joins ==> spec_selection_in_bounds(
                        #[trigger] join_sels@[jj],
                        tables@[join_idxs@[jj] as int].schema.spec_row_size(),
                        tables@[join_idxs@[jj] as int].data@.len() as int,
                    ),
                view.wf(),
                view.tables@.len() == j4 + 1,
                colmap@.len() == j4 + 1,
                view.tables@[0]@ == self.query.from@,
                forall|c: int|
                    1 <= c < view.tables@.len() ==> (#[trigger] view.tables@[c])@
                        == self.query.joins@[c - 1].rhs.source@,
                forall|c: int|
                    0 <= c < colmap@.len() ==> (#[trigger] colmap@[c]) == spec_storage_index(
                        tables@,
                        view.tables@[c]@,
                    ) && colmap@[c] < tables@.len() && spec_has_storage(
                        tables@,
                        view.tables@[c]@,
                    ),
                forall|k: int, c: int|
                    0 <= k < view.view@.len() && 0 <= c < view.tables@.len() ==> (
                    #[trigger] view.view@[k]@[c])
                        + tables@[colmap@[c] as int].schema.spec_row_size()
                        <= tables@[colmap@[c] as int].data@.len(),
                n_joins == 0 ==> view.view@.len() == seed_len,
                vt == spec_view_tables(self.query),
                g_sels == seq![sel_main] + join_sels@,
                g_pos == Seq::new(
                    vt.len(),
                    |t: int|
                        g_sels[t].spec_positions(
                            spec_storage_of(tables@, vt[t]).schema.spec_row_size() as nat,
                            spec_storage_of(tables@, vt[t]).data@.len(),
                        ),
                ),
                view.view@.map_values(|r2: Vec<usize>| r2@) == spec_view_after(
                    tables@,
                    self.query,
                    g_pos,
                    j4 as int,
                ),
            decreases n_joins - j4,
        {
            let ghost jn = self.query.joins@[j4 as int];
            proof {
                assert(spec_has_storage(tables@, jn.rhs.source@));
                assert(join_idxs@[j4 as int] == spec_storage_index(tables@, jn.rhs.source@));
                lemma_storage_index(tables@, jn.rhs.source@);
                lemma_storage_index(tables@, jn.lhs.source@);
            }
            let rhs_si = join_idxs[j4];
            let lhs_si = match find_storage(tables, self.query.joins[j4].lhs.source.as_str()) {
                Some(i) => i,
                None => {
                    proof {
                        assert(false);
                    }
                    vstd::pervasive::unreached()
                },
            };
            let ghost tviews = view.tables@.map_values(|s: String| s@);
            proof {
                // The join's left table already stands in the view.
                lemma_names_index(tviews, jn.lhs.source@);
                if jn.lhs.source@ == self.query.from@ {
                    assert(tviews[0] == jn.lhs.source@);
                } else {
                    let i0 = choose|i0: int|
                        0 <= i0 < j4 && (#[trigger] self.query.joins@[i0]).rhs.source@
                            == jn.lhs.source@;
                    assert(tviews[i0 + 1] == jn.lhs.source@);
                }
                if spec_names_index(tviews, jn.lhs.source@) >= tviews.len() {
                    assert(false);
                }
                assert(view.spec_has_table(jn.lhs.source@));
                // The joined table does not stand in it yet.
                lemma_names_index(tviews, jn.rhs.source@);
                if spec_names_index(tviews, jn.rhs.source@) < tviews.len() {
                    let bad = spec_names_index(tviews, jn.rhs.source@);
                    assert(tviews[bad] == jn.rhs.source@);
                    if bad == 0 {
                        assert(jn.rhs.source@ == self.query.from@);
                    } else {
                        assert((#[trigger] self.query.joins@[bad - 1]).rhs.source@
                            == jn.rhs.source@);
                    }
                    assert(false);
                }
                // The view's left column holds positions of that table.
                let lhs_col = view.spec_table_col(jn.lhs.source@);
                assert(tviews[lhs_col] == jn.lhs.source@);
                assert(view.tables@[lhs_col]@ == jn.lhs.source@);
                assert(colmap@[lhs_col] == spec_storage_index(tables@, jn.lhs.source@));
                assert(colmap@[lhs_col] == lhs_si as int);
                assert(tables@[lhs_si as int].query_wf());
                assert(tables@[rhs_si as int].query_wf());
                assert(spec_storage_of(tables@, jn.rhs.source@) == tables@[rhs_si as int]);
                assert(spec_storage_of(tables@, jn.lhs.source@) == tables@[lhs_si as int]);
            }
            let ghost old_view = view;
            let ghost rhs_row = tables@[rhs_si as int].schema.spec_row_size();
            let ghost rhs_dlen = tables@[rhs_si as int].data@.len();
            let ghost rhs_positions = join_sels@[j4 as int].spec_positions(
                rhs_row as nat,
                rhs_dlen,
            );
            proof {
                join_sels@[j4 as int].lemma_positions_bounded(rhs_row as nat, rhs_dlen);
            }
            view.join(
                &self.query.joins[j4].join_type,
                &join_sels[j4],
                self.query.joins[j4].lhs.source.as_str(),
                self.query.joins[j4].rhs.source.as_str(),
                self.query.joins[j4].lhs.name.as_str(),
                self.query.joins[j4].rhs.name.as_str(),
                tables[lhs_si].data.as_slice(),
                &tables[lhs_si].schema,
                tables[rhs_si].data.as_slice(),
                &tables[rhs_si].schema,
            );
            colmap.push(rhs_si);
            proof {
                let expected = crate::multi_table_view::spec_inner_join(
                    old_view.view@.map_values(|r2: Vec<usize>| r2@),
                    old_view.spec_table_col(jn.lhs.source@),
                    tables@[lhs_si as int].schema,
                    tables@[lhs_si as int].data@,
                    jn.lhs.name@,
                    tables@[rhs_si as int].schema,
                    tables@[rhs_si as int].data@,
                    jn.rhs.name@,
                    rhs_positions,
                    old_view.view@.len() as int,
                );
                crate::multi_table_view::lemma_inner_join_row_src(
                    old_view.view@.map_values(|r2: Vec<usize>| r2@),
                    old_view.spec_table_col(jn.lhs.source@),
                    tables@[lhs_si as int].schema,
                    tables@[lhs_si as int].data@,
                    jn.lhs.name@,
                    tables@[rhs_si as int].schema,
                    tables@[rhs_si as int].data@,
                    jn.rhs.name@,
                    rhs_positions,
                    old_view.view@.len() as int,
                );
                assert forall|k: int, c: int|
                    0 <= k < view.view@.len() && 0 <= c < view.tables@.len() implies (
                #[trigger] view.view@[k]@[c]) + tables@[colmap@[c] as int].schema.spec_row_size()
                    <= tables@[colmap@[c] as int].data@.len() by {
                    assert(view.view@[k]@ == expected[k]);
                    assert(crate::multi_table_view::spec_is_joined_row(
                        old_view.view@.map_values(|r2: Vec<usize>| r2@),
                        rhs_positions,
                        expected[k],
                    ));
                    let old_rows = old_view.view@.map_values(|r2: Vec<usize>| r2@);
                    let (i0, jj0) = choose|i0: int, jj0: int|
                        0 <= i0 < old_rows.len() && 0 <= jj0 < rhs_positions.len() && expected[k]
                            == (#[trigger] old_rows[i0]) + seq![#[trigger] rhs_positions[jj0]];
                    if c < view.tables@.len() - 1 {
                        assert(view.view@[k]@[c] == old_view.view@[i0]@[c]);
                    } else {
                        assert(view.view@[k]@[c] == rhs_positions[jj0]);
                    }
                }
                // The new view is exactly the next join-fold step.
                let tviews_old = old_view.tables@.map_values(|s2: String| s2@);
                assert(tviews_old =~= vt.take(j4 as int + 1)) by {
                    assert forall|c: int|
                        0 <= c < tviews_old.len() implies tviews_old[c] == vt.take(
                        j4 as int + 1,
                    )[c] by {
                        assert(tviews_old[c] == old_view.tables@[c]@);
                        if c == 0 {
                            assert(old_view.tables@[0]@ == self.query.from@);
                        } else {
                            assert(old_view.tables@[c]@ == self.query.joins@[c - 1].rhs.source@);
                        }
                    }
                }
                assert(old_view.spec_table_col(jn.lhs.source@) == spec_names_index(
                    vt.take(j4 as int + 1),
                    jn.lhs.source@,
                ));
                assert(g_sels[j4 as int + 1] == join_sels@[j4 as int]);
                assert(vt[j4 as int + 1] == jn.rhs.source@);
                assert(spec_storage_of(tables@, vt[j4 as int + 1]) == tables@[rhs_si as int]);
                assert(rhs_positions == g_pos[j4 as int + 1]);
                assert(old_view.view@.map_values(|r2: Vec<usize>| r2@) == spec_view_after(
                    tables@,
                    self.query,
                    g_pos,
                    j4 as int,
                ));
                assert(view.view@.map_values(|r2: Vec<usize>| r2@) =~= spec_view_after(
                    tables@,
                    self.query,
                    g_pos,
                    j4 as int + 1,
                ));
            }
            j4 = j4 + 1;
        }
        // Evaluate the reference filters on every view row.
        let ghost view_rows = view.view@.map_values(|r2: Vec<usize>| r2@);
        let n_rows = view.len();
        let n_cols = view.tables.len();
        let mut kept: Vec<Vec<usize>> = Vec::new();
        let mut k: usize = 0;
        while k < n_rows
            invariant
                0 <= k <= n_rows,
                n_rows == view.view@.len(),
                n_cols == view.tables@.len(),
                n_filters == self.query.filters@.len(),
                n_joins == self.query.joins@.len(),
                forall|t: int|
                    0 <= t < self.tables@.len() ==> (#[trigger] self.tables@[t]).query_wf(),
                spec_query_wf(self.tables@, self.query),
                tables == self.tables,
                spec_tables_present(tables@, self.query),
                spec_sizes_ok(tables@, self.query),
                view.wf(),
                view.tables@.len() == n_joins + 1,
                colmap@.len() == n_joins + 1,
                view.tables@[0]@ == self.query.from@,
                forall|c: int|
                    1 <= c < view.tables@.len() ==> (#[trigger] view.tables@[c])@
                        == self.query.joins@[c - 1].rhs.source@,
                forall|c: int|
                    0 <= c < colmap@.len() ==> (#[trigger] colmap@[c]) == spec_storage_index(
                        tables@,
                        view.tables@[c]@,
                    ) && colmap@[c] < tables@.len() && spec_has_storage(
                        tables@,
                        view.tables@[c]@,
                    ),
                forall|k2: int, c: int|
                    0 <= k2 < view.view@.len() && 0 <= c < view.tables@.len() ==> (
                    #[trigger] view.view@[k2]@[c])
                        + tables@[colmap@[c] as int].schema.spec_row_size()
                        <= tables@[colmap@[c] as int].data@.len(),
                kept@.len() <= k,
                forall|k2: int|
                    0 <= k2 < kept@.len() ==> (#[trigger] kept@[k2])@.len()
                        == view.tables@.len(),
                forall|k2: int, c: int|
                    0 <= k2 < kept@.len() && 0 <= c < view.tables@.len() ==> (
                    #[trigger] kept@[k2]@[c]) + tables@[colmap@[c] as int].schema.spec_row_size()
                        <= tables@[colmap@[c] as int].data@.len(),
                n_filters == 0 ==> kept@.len() == k,
                vt == spec_view_tables(self.query),
                view_rows == view.view@.map_values(|r2: Vec<usize>| r2@),
                kept@.map_values(|r2: Vec<usize>| r2@) == spec_ref_filtered(
                    tables@,
                    self.query,
                    view_rows,
                    k as int,
                ),
            decreases n_rows - k,
        {
            let mut keep_row = true;
            let mut fi2: usize = 0;
            while fi2 < n_filters
                invariant
                    0 <= fi2 <= n_filters,
                    0 <= k < n_rows,
                    n_rows == view.view@.len(),
                    n_cols == view.tables@.len(),
                    n_filters == self.query.filters@.len(),
                    n_joins == self.query.joins@.len(),
                    forall|t: int|
                        0 <= t < self.tables@.len() ==> (#[trigger] self.tables@[t]).query_wf(),
                    spec_query_wf(self.tables@, self.query),
                    tables == self.tables,
                    spec_tables_present(tables@, self.query),
                    view.wf(),
                    view.tables@.len() == n_joins + 1,
                    colmap@.len() == n_joins + 1,
                    view.tables@[0]@ == self.query.from@,
                    forall|c: int|
                        1 <= c < view.tables@.len() ==> (#[trigger] view.tables@[c])@
                            == self.query.joins@[c - 1].rhs.source@,
                    forall|c: int|
                        0 <= c < colmap@.len() ==> (#[trigger] colmap@[c]) == spec_storage_index(
                            tables@,
                            view.tables@[c]@,
                        ) && colmap@[c] < tables@.len() && spec_has_storage(
                            tables@,
                            view.tables@[c]@,
                        ),
                    forall|k2: int, c: int|
                        0 <= k2 < view.view@.len() && 0 <= c < view.tables@.len() ==> (
                        #[trigger] view.view@[k2]@[c])
                            + tables@[colmap@[c] as int].schema.spec_row_size()
                            <= tables@[colmap@[c] as int].data@.len(),
                    n_filters == 0 ==> keep_row,
                    vt == spec_view_tables(self.query),
                    view_rows == view.view@.map_values(|r2: Vec<usize>| r2@),
                    keep_row == (forall|fi: int|
                        0 <= fi < fi2 ==> #[trigger] spec_ref_filter_sat(
                            tables@,
                            self.query,
                            view_rows[k as int],
                            fi,
                        )),
                decreases n_filters - fi2,
            {
                let filter = &self.query.filters[fi2];
                match &filter.rhs {
                    crate::query::RhsValue::Ref(rsel) => {
                        let ghost tviews = view.tables@.map_values(|s: String| s@);
                        proof {
                            let ft = self.query.filters@[fi2 as int];
                            assert(spec_participating(self.query, ft.field.source@));
                            assert(spec_participating(self.query, rsel.source@));
                            // Participating tables stand in the view.
                            lemma_names_index(tviews, ft.field.source@);
                            if ft.field.source@ == self.query.from@ {
                                assert(tviews[0] == view.tables@[0]@);
                                assert(tviews[0] == ft.field.source@);
                            } else {
                                let i0 = choose|i0: int|
                                    0 <= i0 < self.query.joins@.len() && (
                                    #[trigger] self.query.joins@[i0]).rhs.source@
                                        == ft.field.source@;
                                assert(view.tables@[i0 + 1]@
                                    == self.query.joins@[i0].rhs.source@);
                                assert(tviews[i0 + 1] == view.tables@[i0 + 1]@);
                                assert(tviews[i0 + 1] == ft.field.source@);
                            }
                            if spec_names_index(tviews, ft.field.source@) >= tviews.len() {
                                assert(false);
                            }
                            lemma_names_index(tviews, rsel.source@);
                            if rsel.source@ == self.query.from@ {
                                assert(tviews[0] == view.tables@[0]@);
                                assert(tviews[0] == rsel.source@);
                            } else {
                                let i0 = choose|i0: int|
                                    0 <= i0 < self.query.joins@.len() && (
                                    #[trigger] self.query.joins@[i0]).rhs.source@
                                        == rsel.source@;
                                assert(view.tables@[i0 + 1]@
                                    == self.query.joins@[i0].rhs.source@);
                                assert(tviews[i0 + 1] == view.tables@[i0 + 1]@);
                                assert(tviews[i0 + 1] == rsel.source@);
                            }
                            if spec_names_index(tviews, rsel.source@) >= tviews.len() {
                                assert(false);
                            }
                        }
                        let lhs_col = view.table_col(filter.field.source.as_str());
                        let rhs_col = view.table_col(rsel.source.as_str());
                        let ls = colmap[lhs_col];
                        let rs2 = colmap[rhs_col];
                        proof {
                            lemma_storage_index(tables@, filter.field.source@);
                            lemma_storage_index(tables@, rsel.source@);
                            assert(tviews[lhs_col as int] == filter.field.source@);
                            assert(tviews[rhs_col as int] == rsel.source@);
                            assert(ls == spec_storage_index(tables@, filter.field.source@));
                            assert(rs2 == spec_storage_index(tables@, rsel.source@));
                            assert(tables@[ls as int].query_wf());
                            assert(tables@[rs2 as int].query_wf());
                            assert(spec_storage_of(tables@, filter.field.source@)
                                == tables@[ls as int]);
                            assert(spec_storage_of(tables@, rsel.source@)
                                == tables@[rs2 as int]);
                            assert((view.view@[k as int]@[lhs_col as int])
                                + tables@[ls as int].schema.spec_row_size()
                                <= tables@[ls as int].data@.len());
                            assert((view.view@[k as int]@[rhs_col as int])
                                + tables@[rs2 as int].schema.spec_row_size()
                                <= tables@[rs2 as int].data@.len());
                        }
                        let lhs_pos = view.row_pos(k, filter.field.source.as_str());
                        let rhs_pos = view.row_pos(k, rsel.source.as_str());
                        let lhs_slice = vstd::slice::slice_subrange(
                            tables[ls].data.as_slice(),
                            lhs_pos,
                            tables[ls].data.len(),
                        );
                        let lhs_reader = crate::schema::TableReader::new(
                            &tables[ls].schema,
                            lhs_slice,
                            lhs_pos,
                        );
                        let v1 = lhs_reader.get_field_value(filter.field.name.as_str());
                        let rhs_slice = vstd::slice::slice_subrange(
                            tables[rs2].data.as_slice(),
                            rhs_pos,
                            tables[rs2].data.len(),
                        );
                        let rhs_reader = crate::schema::TableReader::new(
                            &tables[rs2].schema,
                            rhs_slice,
                            rhs_pos,
                        );
                        let v2 = rhs_reader.get_field_value(rsel.name.as_str());
                        proof {
                            let sch1 = tables@[ls as int].schema;
                            let sch2 = tables@[rs2 as int].schema;
                            crate::schema::lemma_name_index(sch1.fields@, filter.field.name@);
                            let idx1 = sch1.spec_field_index(filter.field.name@);
                            crate::schema::lemma_fields_size_monotone(sch1.fields@, 0, idx1);
                            crate::schema::lemma_fields_size_monotone(sch1.fields@, idx1, idx1 + 1);
                            crate::schema::lemma_fields_size_monotone(
                                sch1.fields@,
                                idx1 + 1,
                                sch1.fields@.len() as int,
                            );
                            crate::schema::lemma_name_index(sch2.fields@, rsel.name@);
                            let idx2 = sch2.spec_field_index(rsel.name@);
                            crate::schema::lemma_fields_size_monotone(sch2.fields@, 0, idx2);
                            crate::schema::lemma_fields_size_monotone(sch2.fields@, idx2, idx2 + 1);
                            crate::schema::lemma_fields_size_monotone(
                                sch2.fields@,
                                idx2 + 1,
                                sch2.fields@.len() as int,
                            );
                            let fs1 = sch1.spec_field_schema(filter.field.name@);
                            fs1.lemma_decode_tag(lhs_reader.spec_row_bytes().skip(
                                sch1.spec_field_pos(filter.field.name@),
                            ));
                            fs1.lemma_decode_tag(rhs_reader.spec_row_bytes().skip(
                                sch2.spec_field_pos(rsel.name@),
                            ));
                            // The values read are the spec's own.
                            assert(lhs_slice@ =~= tables@[ls as int].data@.skip(lhs_pos as int));
                            assert(rhs_slice@ =~= tables@[rs2 as int].data@.skip(rhs_pos as int));
                            assert(tviews =~= vt) by {
                                assert forall|c: int|
                                    0 <= c < tviews.len() implies tviews[c] == vt[c] by {
                                    assert(tviews[c] == view.tables@[c]@);
                                    if c == 0 {
                                        assert(view.tables@[0]@ == self.query.from@);
                                    } else {
                                        assert(view.tables@[c]@
                                            == self.query.joins@[c - 1].rhs.source@);
                                    }
                                }
                            }
                            assert(lhs_col as int == spec_names_index(vt, filter.field.source@));
                            assert(rhs_col as int == spec_names_index(vt, rsel.source@));
                            assert(lhs_pos == view_rows[k as int][lhs_col as int]);
                            assert(rhs_pos == view_rows[k as int][rhs_col as int]);
                            assert(v1 == crate::multi_table_view::spec_value_at(
                                sch1,
                                tables@[ls as int].data@,
                                lhs_pos as int,
                                filter.field.name@,
                            ));
                            assert(v2 == crate::multi_table_view::spec_value_at(
                                sch2,
                                tables@[rs2 as int].data@,
                                rhs_pos as int,
                                rsel.name@,
                            ));
                        }
                        let sat = ord_eq(v1.compare(&v2), filter.op);
                        proof {
                            assert(sat == spec_ref_filter_sat(
                                tables@,
                                self.query,
                                view_rows[k as int],
                                fi2 as int,
                            ));
                        }
                        if !sat {
                            keep_row = false;
                        }
                    },
                    crate::query::RhsValue::Value(_) => {
                        proof {
                            assert(spec_ref_filter_sat(
                                tables@,
                                self.query,
                                view_rows[k as int],
                                fi2 as int,
                            ));
                        }
                    },
                }
                fi2 = fi2 + 1;
            }
            if keep_row {
                let ghost prev_kept = kept@;
                let row_copy = clone_row(&view.view[k]);
                kept.push(row_copy);
                proof {
                    assert forall|k2: int, c: int|
                        0 <= k2 < kept@.len() && 0 <= c < view.tables@.len() implies (
                    #[trigger] kept@[k2]@[c]) + tables@[colmap@[c] as int].schema.spec_row_size()
                        <= tables@[colmap@[c] as int].data@.len() by {
                        if k2 < prev_kept.len() {
                            assert(kept@[k2] == prev_kept[k2]);
                        } else {
                            assert(kept@[k2]@ == view.view@[k as int]@);
                        }
                    }
                    assert forall|k2: int|
                        0 <= k2 < kept@.len() implies (#[trigger] kept@[k2])@.len()
                        == view.tables@.len() by {
                        if k2 < prev_kept.len() {
                            assert(kept@[k2] == prev_kept[k2]);
                        } else {
                            assert(kept@[k2]@ == view.view@[k as int]@);
                        }
                    }
                    assert(spec_row_ref_pass(tables@, self.query, view_rows[k as int]));
                    assert(kept@.map_values(|r2: Vec<usize>| r2@) =~= spec_ref_filtered(
                        tables@,
                        self.query,
                        view_rows,
                        k as int + 1,
                    ));
                }
            } else {
                proof {
                    let failed = choose|fi: int|
                        0 <= fi < n_filters && !spec_ref_filter_sat(
                            tables@,
                            self.query,
                            view_rows[k as int],
                            fi,
                        );
                    assert(!spec_row_ref_pass(tables@, self.query, view_rows[k as int]));
                }
            }
            k = k + 1;
        }
        let final_view = crate::multi_table_view::MultiTableView {
            view: kept,
            tables: view.tables,
        };
        proof {
            assert forall|c: int|
                0 <= c < colmap@.len() implies (#[trigger] colmap@[c]) < tables@.len()
                    && tables@[colmap@[c] as int].schema.wf() && tables@[colmap@[c] as int].schema.name@
                    == final_view.tables@[c]@ by {
                lemma_storage_index(tables@, final_view.tables@[c]@);
            }
        }
        let out = materialize_view(&final_view, tables, &colmap);
        proof {
            // The selections fed to the pipeline are each table's own.
            assert(spec_storage_of(tables@, vt[0]) == tables@[from_idx as int]);
            assert(g_sels[0] == sel_main);
            assert forall|t: int|
                0 <= t < vt.len() implies #[trigger] spec_filtered_selection_ok(
                spec_storage_of(tables@, vt[t]),
                self.query.filters@,
                spec_all_indices(self.query.filters@.len() as int),
                g_sels[t],
                g_rems[t],
            ) by {
                if t > 0 {
                    assert(vt[t] == self.query.joins@[t - 1].rhs.source@);
                    assert(spec_has_storage(tables@, self.query.joins@[t - 1].rhs.source@));
                    assert(join_idxs@[t - 1] == spec_storage_index(
                        tables@,
                        self.query.joins@[t - 1].rhs.source@,
                    ));
                    assert(spec_storage_of(tables@, vt[t]) == tables@[join_idxs@[t - 1] as int]);
                    assert(g_sels[t] == join_sels@[t - 1]);
                    assert(spec_filtered_selection_ok(
                        tables@[join_idxs@[t - 1] as int],
                        self.query.filters@,
                        spec_all_indices(n_filters as int),
                        join_sels@[t - 1],
                        g_rems[t],
                    ));
                }
            }
            assert(Seq::new(
                vt.len(),
                |t: int|
                    g_sels[t].spec_positions(
                        spec_storage_of(tables@, vt[t]).schema.spec_row_size() as nat,
                        spec_storage_of(tables@, vt[t]).data@.len(),
                    ),
            ) =~= g_pos);
            // The rows out are the materialised, reference-filtered view.
            assert(view_rows == spec_view_after(tables@, self.query, g_pos, n_joins as int));
            assert(kept@.map_values(|r2: Vec<usize>| r2@) == spec_ref_filtered(
                tables@,
                self.query,
                view_rows,
                view_rows.len() as int,
            ));
            assert(final_view.tables@.map_values(|s2: String| s2@) =~= vt);
            assert(colmap@ =~= spec_query_colmap(tables@, self.query));
            assert forall|i: int, key: Seq<char>|
                0 <= i < out@.len() implies #[trigger] out@[i].spec_get(key)
                == spec_materialized_get(
                tables@,
                spec_query_colmap(tables@, self.query),
                vt,
                spec_ref_filtered(
                    tables@,
                    self.query,
                    spec_view_after(tables@, self.query, g_pos, n_joins as int),
                    view_rows.len() as int,
                )[i],
                vt.len() as int,
                0,
                key,
            ) by {
                assert(final_view.view@[i]@ == kept@.map_values(|r2: Vec<usize>| r2@)[i]);
            }
            assert(spec_select_result_ok(tables@, self.query, g_sels, g_rems, out@));
        }
        let result: Result<Vec<crate::schema::ValueMap>, crate::common::PBaseError> = Ok(out);
        proof {
            assert(result matches Ok(rows2) && spec_select_result_ok(
                self.tables@,
                self.query,
                g_sels,
                g_rems,
                rows2@,
            ));
            assert(result matches Ok(rows2) && exists|
                sels: Seq<crate::common::Selection>,
                rems: Seq<Seq<usize>>,
            |
                #[trigger] spec_select_result_ok(self.tables@, self.query, sels, rems, rows2@));
        }
        result
    }
}

/// A fresh vector holding the same positions.
fn clone_row(row: &Vec<usize>) -> (out: Vec<usize>)
    ensures
        out@ == row@,
{
    let mut out: Vec<usize> = Vec::new();
    let n = row.len();
    let mut i: usize = 0;
    while i < n
        invariant
            0 <= i <= n,
            n == row@.len(),
            out@ == row@.take(i as int),
        decreases n - i,
    {
        out.push(row[i]);
        proof {
            assert(out@ =~= row@.take(i as int + 1));
        }
        i = i + 1;
    }
    proof {
        assert(out@ =~= row@);
    }
    out
}

} // verus!
