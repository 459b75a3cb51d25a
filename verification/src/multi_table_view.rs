//! The join view: an ordered list of view rows, each holding one row
//! byte position per participating table.
use vstd::prelude::*;

use crate::common::{str_eq, Selection};
use crate::query::JoinType;
use crate::schema::{TableRowPositionIterator, TableSchema};
use crate::value::Value;

verus! {

/// The value a table image stores at row position `pos` for `field`.
pub open spec fn spec_value_at(
    schema: TableSchema,
    table_bytes: Seq<u8>,
    pos: int,
    field: Seq<char>,
) -> Value {
    schema.spec_decoded_field(table_bytes.skip(pos), field)
}

/// The view rows that joining one seed row against the candidate rhs
/// positions `rhs_positions.take(j)` produces, in candidate order.
pub open spec fn spec_join_one(
    row: Seq<usize>,
    lhs_value: Value,
    rhs_schema: TableSchema,
    rhs_bytes: Seq<u8>,
    rhs_field: Seq<char>,
    rhs_positions: Seq<usize>,
    j: int,
) -> Seq<Seq<usize>>
    decreases j,
{
    if j <= 0 {
        Seq::empty()
    } else {
        let prev = spec_join_one(row, lhs_value, rhs_schema, rhs_bytes, rhs_field, rhs_positions, j - 1);
        let p = rhs_positions[j - 1];
        if spec_value_at(rhs_schema, rhs_bytes, p as int, rhs_field) == lhs_value {
            prev + seq![row + seq![p]]
        } else {
            prev
        }
    }
}

/// The view rows an inner join of the first `k` seed rows produces.
pub open spec fn spec_inner_join(
    old_view: Seq<Seq<usize>>,
    lhs_col: int,
    lhs_schema: TableSchema,
    lhs_bytes: Seq<u8>,
    lhs_field: Seq<char>,
    rhs_schema: TableSchema,
    rhs_bytes: Seq<u8>,
    rhs_field: Seq<char>,
    rhs_positions: Seq<usize>,
    k: int,
) -> Seq<Seq<usize>>
    decreases k,
{
    if k <= 0 {
        Seq::empty()
    } else {
        let prev = spec_inner_join(
            old_view,
            lhs_col,
            lhs_schema,
            lhs_bytes,
            lhs_field,
            rhs_schema,
            rhs_bytes,
            rhs_field,
            rhs_positions,
            k - 1,
        );
        let row = old_view[k - 1];
        let lhs_value = spec_value_at(lhs_schema, lhs_bytes, row[lhs_col] as int, lhs_field);
        prev + spec_join_one(
            row,
            lhs_value,
            rhs_schema,
            rhs_bytes,
            rhs_field,
            rhs_positions,
            rhs_positions.len() as int,
        )
    }
}

/// Each row a single-seed join step emits is the seed plus one column.
pub proof fn lemma_join_one_row_len(
    row: Seq<usize>,
    lhs_value: Value,
    rhs_schema: TableSchema,
    rhs_bytes: Seq<u8>,
    rhs_field: Seq<char>,
    rhs_positions: Seq<usize>,
    j: int,
    cols: int,
)
    requires
        row.len() == cols,
    ensures
        forall|i: int|
            0 <= i < spec_join_one(
                row,
                lhs_value,
                rhs_schema,
                rhs_bytes,
                rhs_field,
                rhs_positions,
                j,
            ).len() ==> #[trigger] spec_join_one(
                row,
                lhs_value,
                rhs_schema,
                rhs_bytes,
                rhs_field,
                rhs_positions,
                j,
            )[i].len() == cols + 1,
    decreases j,
{
    if j > 0 {
        lemma_join_one_row_len(
            row,
            lhs_value,
            rhs_schema,
            rhs_bytes,
            rhs_field,
            rhs_positions,
            j - 1,
            cols,
        );
        let prev = spec_join_one(row, lhs_value, rhs_schema, rhs_bytes, rhs_field, rhs_positions, j - 1);
        let cur = spec_join_one(row, lhs_value, rhs_schema, rhs_bytes, rhs_field, rhs_positions, j);
        assert forall|i: int| 0 <= i < cur.len() implies #[trigger] cur[i].len() == cols + 1 by {
            if i < prev.len() {
                assert(cur[i] == prev[i]);
            } else {
                assert(cur[i] == row + seq![rhs_positions[j - 1]]);
            }
        }
    }
}

/// Each row an inner join emits is a seed row plus one column.
pub proof fn lemma_inner_join_row_len(
    old_view: Seq<Seq<usize>>,
    lhs_col: int,
    lhs_schema: TableSchema,
    lhs_bytes: Seq<u8>,
    lhs_field: Seq<char>,
    rhs_schema: TableSchema,
    rhs_bytes: Seq<u8>,
    rhs_field: Seq<char>,
    rhs_positions: Seq<usize>,
    k: int,
    cols: int,
)
    requires
        forall|i: int| 0 <= i < old_view.len() ==> (#[trigger] old_view[i]).len() == cols,
        k <= old_view.len(),
    ensures
        forall|i: int|
            0 <= i < spec_inner_join(
                old_view,
                lhs_col,
                lhs_schema,
                lhs_bytes,
                lhs_field,
                rhs_schema,
                rhs_bytes,
                rhs_field,
                rhs_positions,
                k,
            ).len() ==> #[trigger] spec_inner_join(
                old_view,
                lhs_col,
                lhs_schema,
                lhs_bytes,
                lhs_field,
                rhs_schema,
                rhs_bytes,
                rhs_field,
                rhs_positions,
                k,
            )[i].len() == cols + 1,
    decreases k,
{
    if k > 0 {
        lemma_inner_join_row_len(
            old_view,
            lhs_col,
            lhs_schema,
            lhs_bytes,
            lhs_field,
            rhs_schema,
            rhs_bytes,
            rhs_field,
            rhs_positions,
            k - 1,
            cols,
        );
        let row = old_view[k - 1];
        let lhs_value = spec_value_at(lhs_schema, lhs_bytes, row[lhs_col] as int, lhs_field);
        lemma_join_one_row_len(
            row,
            lhs_value,
            rhs_schema,
            rhs_bytes,
            rhs_field,
            rhs_positions,
            rhs_positions.len() as int,
            cols,
        );
        let prev = spec_inner_join(
            old_view,
            lhs_col,
            lhs_schema,
            lhs_bytes,
            lhs_field,
            rhs_schema,
            rhs_bytes,
            rhs_field,
            rhs_positions,
            k - 1,
        );
        let tail = spec_join_one(
            row,
            lhs_value,
            rhs_schema,
            rhs_bytes,
            rhs_field,
            rhs_positions,
            rhs_positions.len() as int,
        );
        let cur = spec_inner_join(
            old_view,
            lhs_col,
            lhs_schema,
            lhs_bytes,
            lhs_field,
            rhs_schema,
            rhs_bytes,
            rhs_field,
            rhs_positions,
            k,
        );
        assert forall|i: int| 0 <= i < cur.len() implies #[trigger] cur[i].len() == cols + 1 by {
            if i < prev.len() {
                assert(cur[i] == prev[i]);
            } else {
                assert(cur[i] == tail[i - prev.len()]);
            }
        }
    }
}

/// Whether `row` extends some seed row by some candidate position.
pub open spec fn spec_is_joined_row(
    old_view: Seq<Seq<usize>>,
    rhs_positions: Seq<usize>,
    row: Seq<usize>,
) -> bool {
    exists|i: int, j: int|
        0 <= i < old_view.len() && 0 <= j < rhs_positions.len() && row == (#[trigger] old_view[i])
            + seq![#[trigger] rhs_positions[j]]
}

proof fn lemma_join_one_row_src(
    old_view: Seq<Seq<usize>>,
    i0: int,
    lhs_value: Value,
    rhs_schema: TableSchema,
    rhs_bytes: Seq<u8>,
    rhs_field: Seq<char>,
    rhs_positions: Seq<usize>,
    j: int,
)
    requires
        0 <= i0 < old_view.len(),
        0 <= j <= rhs_positions.len(),
    ensures
        forall|k: int|
            0 <= k < spec_join_one(
                old_view[i0],
                lhs_value,
                rhs_schema,
                rhs_bytes,
                rhs_field,
                rhs_positions,
                j,
            ).len() ==> spec_is_joined_row(
                old_view,
                rhs_positions,
                #[trigger] spec_join_one(
                    old_view[i0],
                    lhs_value,
                    rhs_schema,
                    rhs_bytes,
                    rhs_field,
                    rhs_positions,
                    j,
                )[k],
            ),
    decreases j,
{
    if j > 0 {
        lemma_join_one_row_src(
            old_view,
            i0,
            lhs_value,
            rhs_schema,
            rhs_bytes,
            rhs_field,
            rhs_positions,
            j - 1,
        );
        let prev = spec_join_one(
            old_view[i0],
            lhs_value,
            rhs_schema,
            rhs_bytes,
            rhs_field,
            rhs_positions,
            j - 1,
        );
        let cur = spec_join_one(
            old_view[i0],
            lhs_value,
            rhs_schema,
            rhs_bytes,
            rhs_field,
            rhs_positions,
            j,
        );
        assert forall|k: int| 0 <= k < cur.len() implies spec_is_joined_row(
            old_view,
            rhs_positions,
            #[trigger] cur[k],
        ) by {
            if k < prev.len() {
                assert(cur[k] == prev[k]);
            } else {
                assert(cur[k] == old_view[i0] + seq![rhs_positions[j - 1]]);
            }
        }
    }
}

/// Every row an inner join emits extends some seed row by some
/// selected rhs position.
pub proof fn lemma_inner_join_row_src(
    old_view: Seq<Seq<usize>>,
    lhs_col: int,
    lhs_schema: TableSchema,
    lhs_bytes: Seq<u8>,
    lhs_field: Seq<char>,
    rhs_schema: TableSchema,
    rhs_bytes: Seq<u8>,
    rhs_field: Seq<char>,
    rhs_positions: Seq<usize>,
    k: int,
)
    requires
        0 <= k <= old_view.len(),
    ensures
        forall|m: int|
            0 <= m < spec_inner_join(
                old_view,
                lhs_col,
                lhs_schema,
                lhs_bytes,
                lhs_field,
                rhs_schema,
                rhs_bytes,
                rhs_field,
                rhs_positions,
                k,
            ).len() ==> spec_is_joined_row(
                old_view,
                rhs_positions,
                #[trigger] spec_inner_join(
                    old_view,
                    lhs_col,
                    lhs_schema,
                    lhs_bytes,
                    lhs_field,
                    rhs_schema,
                    rhs_bytes,
                    rhs_field,
                    rhs_positions,
                    k,
                )[m],
            ),
    decreases k,
{
    if k > 0 {
        lemma_inner_join_row_src(
            old_view,
            lhs_col,
            lhs_schema,
            lhs_bytes,
            lhs_field,
            rhs_schema,
            rhs_bytes,
            rhs_field,
            rhs_positions,
            k - 1,
        );
        let row = old_view[k - 1];
        let lhs_value = spec_value_at(lhs_schema, lhs_bytes, row[lhs_col] as int, lhs_field);
        lemma_join_one_row_src(
            old_view,
            k - 1,
            lhs_value,
            rhs_schema,
            rhs_bytes,
            rhs_field,
            rhs_positions,
            rhs_positions.len() as int,
        );
        let prev = spec_inner_join(
            old_view,
            lhs_col,
            lhs_schema,
            lhs_bytes,
            lhs_field,
            rhs_schema,
            rhs_bytes,
            rhs_field,
            rhs_positions,
            k - 1,
        );
        let tail = spec_join_one(
            row,
            lhs_value,
            rhs_schema,
            rhs_bytes,
            rhs_field,
            rhs_positions,
            rhs_positions.len() as int,
        );
        let cur = spec_inner_join(
            old_view,
            lhs_col,
            lhs_schema,
            lhs_bytes,
            lhs_field,
            rhs_schema,
            rhs_bytes,
            rhs_field,
            rhs_positions,
            k,
        );
        assert forall|m: int| 0 <= m < cur.len() implies spec_is_joined_row(
            old_view,
            rhs_positions,
            #[trigger] cur[m],
        ) by {
            if m < prev.len() {
                assert(cur[m] == prev[m]);
            } else {
                assert(cur[m] == tail[m - prev.len()]);
            }
        }
    }
}

/// An ordered list of view rows over the tables joined so far; table
/// `tables[c]` contributes the position at column `c` of each row.
pub struct MultiTableView {
    pub view: Vec<Vec<usize>>,
    pub tables: Vec<String>,
}

impl MultiTableView {
    /// The column a table's positions stand in, or the column count
    /// when the table is not part of the view.
    pub open spec fn spec_table_col(self, name: Seq<char>) -> int {
        crate::schema::spec_names_index(self.tables@.map_values(|s: String| s@), name)
    }

    pub open spec fn spec_has_table(self, name: Seq<char>) -> bool {
        self.spec_table_col(name) < self.tables@.len()
    }

    /// Every view row has one position per participating table.
    pub open spec fn wf(self) -> bool {
        forall|i: int|
            0 <= i < self.view@.len() ==> (#[trigger] self.view@[i])@.len() == self.tables@.len()
    }

    /// Seeds the view with one single-position row per selected row of
    /// the main table.
    pub fn new_from_table_bytes_and_selection(
        table_bytes: &[u8],
        table_schema: &TableSchema,
        selection: &Selection,
    ) -> (out: MultiTableView)
        requires
            table_schema.wf(),
            table_schema.spec_row_size() >= 1,
            table_bytes@.len() as int % table_schema.spec_row_size() == 0,
            table_bytes@.len() + table_schema.spec_row_size() <= usize::MAX,
        ensures
            out.wf(),
            out.tables@.len() == 1,
            out.tables@[0]@ == table_schema.name@,
            ({
                let ps = selection.spec_positions(
                    table_schema.spec_row_size() as nat,
                    table_bytes@.len(),
                );
                &&& out.view@.len() == ps.len()
                &&& forall|k: int|
                    0 <= k < ps.len() ==> (#[trigger] out.view@[k])@ == seq![ps[k]]
            }),
    {
        let mut tables: Vec<String> = Vec::new();
        tables.push(table_schema.name.clone());
        let mut view: Vec<Vec<usize>> = Vec::new();
        let ghost ps = selection.spec_positions(
            table_schema.spec_row_size() as nat,
            table_bytes@.len(),
        );
        match selection {
            Selection::All => {
                let row_size = table_schema.row_byte_size();
                let mut it = TableRowPositionIterator::new(row_size, table_bytes.len());
                loop
                    invariant
                        it.wf(),
                        it.spec_positions() == ps,
                        0 <= it.spec_emitted() <= ps.len(),
                        view@.len() == it.spec_emitted(),
                        forall|k: int|
                            0 <= k < view@.len() ==> (#[trigger] view@[k])@ == seq![ps[k]],
                    ensures
                        view@.len() == ps.len(),
                        forall|k: int|
                            0 <= k < view@.len() ==> (#[trigger] view@[k])@ == seq![ps[k]],
                    decreases ps.len() - it.spec_emitted(),
                {
                    match it.next() {
                        Some(pos) => {
                            let mut row: Vec<usize> = Vec::new();
                            row.push(pos);
                            proof {
                                assert(row@ =~= seq![pos]);
                            }
                            let ghost prev_view = view@;
                            view.push(row);
                            proof {
                                assert forall|k: int|
                                    0 <= k < view@.len() implies (#[trigger] view@[k])@
                                    == seq![ps[k]] by {
                                    if k < prev_view.len() {
                                        assert(view@[k] == prev_view[k]);
                                    }
                                }
                            }
                        },
                        None => {
                            break ;
                        },
                    }
                }
            },
            Selection::List(positions) => {
                let len = positions.len();
                let mut k: usize = 0;
                while k < len
                    invariant
                        0 <= k <= len,
                        len == positions@.len(),
                        ps == positions@,
                        view@.len() == k,
                        forall|j: int|
                            0 <= j < view@.len() ==> (#[trigger] view@[j])@ == seq![ps[j]],
                    decreases len - k,
                {
                    let mut row: Vec<usize> = Vec::new();
                    row.push(positions[k]);
                    proof {
                        assert(row@ =~= seq![positions@[k as int]]);
                    }
                    let ghost prev_view = view@;
                    view.push(row);
                    proof {
                        assert forall|j: int|
                            0 <= j < view@.len() implies (#[trigger] view@[j])@ == seq![ps[j]] by {
                            if j < prev_view.len() {
                                assert(view@[j] == prev_view[j]);
                            }
                        }
                    }
                    k = k + 1;
                }
            },
        }
        MultiTableView { view, tables }
    }

    pub fn len(&self) -> (n: usize)
        ensures
            n == self.view@.len(),
    {
        self.view.len()
    }

    pub fn is_empty(&self) -> (r: bool)
        ensures
            r == (self.view@.len() == 0),
    {
        self.view.is_empty()
    }

    /// The byte position table `table` contributes to view row
    /// `row_idx`.
    pub fn row_pos(&self, row_idx: usize, table: &str) -> (pos: usize)
        requires
            self.wf(),
            row_idx < self.view@.len(),
            self.spec_has_table(table@),
        ensures
            pos == self.view@[row_idx as int]@[self.spec_table_col(table@)],
    {
        let col = self.table_col(table);
        self.view[row_idx][col]
    }

    /// Joins another table into the view, by the join's kind.
    pub fn join(
        &mut self,
        join_type: &JoinType,
        selection: &Selection,
        lhs_table_name: &str,
        rhs_table_name: &str,
        lhs_match_field_name: &str,
        rhs_match_field_name: &str,
        lhs_bytes: &[u8],
        lhs_schema: &TableSchema,
        rhs_bytes: &[u8],
        rhs_schema: &TableSchema,
    )
        requires
            old(self).wf(),
            old(self).spec_has_table(lhs_table_name@),
            !old(self).spec_has_table(rhs_table_name@),
            lhs_schema.wf(),
            rhs_schema.wf(),
            lhs_schema.spec_row_size() >= 1,
            rhs_schema.spec_row_size() >= 1,
            lhs_schema.spec_has_field(lhs_match_field_name@),
            rhs_schema.spec_has_field(rhs_match_field_name@),
            forall|k: int|
                0 <= k < old(self).view@.len() ==> (#[trigger] old(self).view@[k])@[old(
                    self,
                ).spec_table_col(lhs_table_name@)] + lhs_schema.spec_row_size()
                    <= lhs_bytes@.len(),
            rhs_bytes@.len() as int % rhs_schema.spec_row_size() == 0,
            rhs_bytes@.len() + rhs_schema.spec_row_size() <= usize::MAX,
            (selection matches Selection::List(ps) ==> forall|k: int|
                0 <= k < ps@.len() ==> #[trigger] ps@[k] + rhs_schema.spec_row_size()
                    <= rhs_bytes@.len()),
        ensures
            final(self).wf(),
            final(self).tables@.len() == old(self).tables@.len() + 1,
            forall|c: int|
                0 <= c < old(self).tables@.len() ==> final(self).tables@[c] == old(
                    self,
                ).tables@[c],
            final(self).tables@.last()@ == rhs_table_name@,
            ({
                let expected = spec_inner_join(
                    old(self).view@.map_values(|r: Vec<usize>| r@),
                    old(self).spec_table_col(lhs_table_name@),
                    *lhs_schema,
                    lhs_bytes@,
                    lhs_match_field_name@,
                    *rhs_schema,
                    rhs_bytes@,
                    rhs_match_field_name@,
                    selection.spec_positions(
                        rhs_schema.spec_row_size() as nat,
                        rhs_bytes@.len(),
                    ),
                    old(self).view@.len() as int,
                );
                &&& final(self).view@.len() == expected.len()
                &&& forall|k: int|
                    0 <= k < expected.len() ==> (#[trigger] final(self).view@[k])@ == expected[k]
            }),
    {
        match join_type {
            JoinType::Inner => self.inner_join(
                selection,
                lhs_table_name,
                rhs_table_name,
                lhs_match_field_name,
                rhs_match_field_name,
                lhs_bytes,
                lhs_schema,
                rhs_bytes,
                rhs_schema,
            ),
        }
    }

    /// Pairs every current view row with every selected rhs row whose
    /// join field holds the same value.
    fn inner_join(
        &mut self,
        selection: &Selection,
        lhs_table_name: &str,
        rhs_table_name: &str,
        lhs_match_field_name: &str,
        rhs_match_field_name: &str,
        lhs_bytes: &[u8],
        lhs_schema: &TableSchema,
        rhs_bytes: &[u8],
        rhs_schema: &TableSchema,
    )
        requires
            old(self).wf(),
            old(self).spec_has_table(lhs_table_name@),
            !old(self).spec_has_table(rhs_table_name@),
            lhs_schema.wf(),
            rhs_schema.wf(),
            lhs_schema.spec_row_size() >= 1,
            rhs_schema.spec_row_size() >= 1,
            lhs_schema.spec_has_field(lhs_match_field_name@),
            rhs_schema.spec_has_field(rhs_match_field_name@),
            forall|k: int|
                0 <= k < old(self).view@.len() ==> (#[trigger] old(self).view@[k])@[old(
                    self,
                ).spec_table_col(lhs_table_name@)] + lhs_schema.spec_row_size()
                    <= lhs_bytes@.len(),
            rhs_bytes@.len() as int % rhs_schema.spec_row_size() == 0,
            rhs_bytes@.len() + rhs_schema.spec_row_size() <= usize::MAX,
            (selection matches Selection::List(ps) ==> forall|k: int|
                0 <= k < ps@.len() ==> #[trigger] ps@[k] + rhs_schema.spec_row_size()
                    <= rhs_bytes@.len()),
        ensures
            final(self).wf(),
            final(self).tables@.len() == old(self).tables@.len() + 1,
            forall|c: int|
                0 <= c < old(self).tables@.len() ==> final(self).tables@[c] == old(
                    self,
                ).tables@[c],
            final(self).tables@.last()@ == rhs_table_name@,
            ({
                let expected = spec_inner_join(
                    old(self).view@.map_values(|r: Vec<usize>| r@),
                    old(self).spec_table_col(lhs_table_name@),
                    *lhs_schema,
                    lhs_bytes@,
                    lhs_match_field_name@,
                    *rhs_schema,
                    rhs_bytes@,
                    rhs_match_field_name@,
                    selection.spec_positions(
                        rhs_schema.spec_row_size() as nat,
                        rhs_bytes@.len(),
                    ),
                    old(self).view@.len() as int,
                );
                &&& final(self).view@.len() == expected.len()
                &&& forall|k: int|
                    0 <= k < expected.len() ==> (#[trigger] final(self).view@[k])@ == expected[k]
            }),
    {
        let ghost old_self = *self;
        let ghost old_rows = self.view@.map_values(|r: Vec<usize>| r@);
        let ghost lhs_col_g = old_self.spec_table_col(lhs_table_name@);
        let ghost rhs_positions = selection.spec_positions(
            rhs_schema.spec_row_size() as nat,
            rhs_bytes@.len(),
        );
        let lhs_table_idx = self.table_col(lhs_table_name);
        // Register the joined table as the view's new last column.
        self.tables.push(rhs_table_name.to_owned());
        let mut old_view: Vec<Vec<usize>> = Vec::new();
        core::mem::swap(&mut old_view, &mut self.view);
        let n = old_view.len();
        let lhs_row_size = lhs_schema.row_byte_size();
        let mut k: usize = 0;
        while k < n
            invariant
                0 <= k <= n,
                n == old_view@.len(),
                old_view@ == old_self.view@,
                old_rows == old_self.view@.map_values(|r: Vec<usize>| r@),
                self.tables@.len() == old_self.tables@.len() + 1,
                forall|c: int|
                    0 <= c < old_self.tables@.len() ==> self.tables@[c] == old_self.tables@[c],
                self.tables@.last()@ == rhs_table_name@,
                old_self.wf(),
                old_self.spec_has_table(lhs_table_name@),
                lhs_table_idx == lhs_col_g,
                0 <= lhs_col_g < old_self.tables@.len(),
                lhs_schema.wf(),
                rhs_schema.wf(),
                lhs_schema.spec_row_size() >= 1,
                rhs_schema.spec_row_size() >= 1,
                lhs_row_size == lhs_schema.spec_row_size(),
                lhs_schema.spec_has_field(lhs_match_field_name@),
                rhs_schema.spec_has_field(rhs_match_field_name@),
                forall|j: int|
                    0 <= j < old_view@.len() ==> (#[trigger] old_view@[j])@[lhs_col_g]
                        + lhs_schema.spec_row_size() <= lhs_bytes@.len(),
                rhs_bytes@.len() as int % rhs_schema.spec_row_size() == 0,
                rhs_bytes@.len() + rhs_schema.spec_row_size() <= usize::MAX,
                (selection matches Selection::List(ps) ==> forall|j: int|
                    0 <= j < ps@.len() ==> #[trigger] ps@[j] + rhs_schema.spec_row_size()
                        <= rhs_bytes@.len()),
                rhs_positions == selection.spec_positions(
                    rhs_schema.spec_row_size() as nat,
                    rhs_bytes@.len(),
                ),
                ({
                    let expected = spec_inner_join(
                        old_rows,
                        lhs_col_g,
                        *lhs_schema,
                        lhs_bytes@,
                        lhs_match_field_name@,
                        *rhs_schema,
                        rhs_bytes@,
                        rhs_match_field_name@,
                        rhs_positions,
                        k as int,
                    );
                    &&& self.view@.len() == expected.len()
                    &&& forall|j: int|
                        0 <= j < expected.len() ==> (#[trigger] self.view@[j])@ == expected[j]
                }),
            decreases n - k,
        {
            let old_view_row: &Vec<usize> = &old_view[k];
            proof {
                assert(old_view@[k as int]@ == old_rows[k as int]);
                assert(old_view_row@.len() == old_self.tables@.len());
            }
            let lhs_row_pos = old_view_row[lhs_table_idx];
            let lhs_row_slice = vstd::slice::slice_subrange(
                lhs_bytes,
                lhs_row_pos,
                lhs_bytes.len(),
            );
            let lhs_row_reader = crate::schema::TableReader::new(
                lhs_schema,
                lhs_row_slice,
                lhs_row_pos,
            );
            proof {
                assert(lhs_row_slice@ =~= lhs_bytes@.skip(lhs_row_pos as int));
            }
            let lhs_value = lhs_row_reader.get_field_value(lhs_match_field_name);
            let ghost lv = spec_value_at(
                *lhs_schema,
                lhs_bytes@,
                old_rows[k as int][lhs_col_g] as int,
                lhs_match_field_name@,
            );
            proof {
                assert(lhs_value == lv);
            }
            let mut rhs_table_it = crate::schema::TableRowIterator::new(
                rhs_schema,
                rhs_bytes,
                selection,
            );
            loop
                invariant
                    rhs_table_it.wf(),
                    rhs_table_it.spec_schema() == *rhs_schema,
                    rhs_table_it.spec_table_bytes() == rhs_bytes@,
                    rhs_table_it.spec_positions() == rhs_positions,
                    0 <= rhs_table_it.spec_emitted() <= rhs_positions.len(),
                    rhs_schema.wf(),
                    rhs_schema.spec_row_size() >= 1,
                    rhs_schema.spec_has_field(rhs_match_field_name@),
                    lhs_value == lv,
                    self.tables@.last()@ == rhs_table_name@,
                    self.tables@.len() == old_self.tables@.len() + 1,
                    forall|c: int|
                        0 <= c < old_self.tables@.len() ==> self.tables@[c]
                            == old_self.tables@[c],
                    old_view_row@ == old_rows[k as int],
                    old_view_row@.len() == old_self.tables@.len(),
                    0 <= k < old_rows.len(),
                    ({
                        let expected = spec_inner_join(
                            old_rows,
                            lhs_col_g,
                            *lhs_schema,
                            lhs_bytes@,
                            lhs_match_field_name@,
                            *rhs_schema,
                            rhs_bytes@,
                            rhs_match_field_name@,
                            rhs_positions,
                            k as int,
                        ) + spec_join_one(
                            old_rows[k as int],
                            lv,
                            *rhs_schema,
                            rhs_bytes@,
                            rhs_match_field_name@,
                            rhs_positions,
                            rhs_table_it.spec_emitted(),
                        );
                        &&& self.view@.len() == expected.len()
                        &&& forall|j: int|
                            0 <= j < expected.len() ==> (#[trigger] self.view@[j])@ == expected[j]
                    }),
                ensures
                    ({
                        let expected = spec_inner_join(
                            old_rows,
                            lhs_col_g,
                            *lhs_schema,
                            lhs_bytes@,
                            lhs_match_field_name@,
                            *rhs_schema,
                            rhs_bytes@,
                            rhs_match_field_name@,
                            rhs_positions,
                            k as int,
                        ) + spec_join_one(
                            old_rows[k as int],
                            lv,
                            *rhs_schema,
                            rhs_bytes@,
                            rhs_match_field_name@,
                            rhs_positions,
                            rhs_positions.len() as int,
                        );
                        &&& self.view@.len() == expected.len()
                        &&& forall|j: int|
                            0 <= j < expected.len() ==> (#[trigger] self.view@[j])@ == expected[j]
                    }),
                decreases rhs_positions.len() - rhs_table_it.spec_emitted(),
            {
                let ghost emitted = rhs_table_it.spec_emitted();
                match rhs_table_it.next() {
                    Some(rhs_row_reader) => {
                        let rhs_value = rhs_row_reader.get_field_value(rhs_match_field_name);
                        let ghost p = rhs_positions[emitted];
                        proof {
                            rhs_schema.lemma_decoded_field_agree(
                                rhs_row_reader.spec_row_bytes(),
                                rhs_bytes@.skip(p as int),
                                rhs_match_field_name@,
                            );
                            assert(rhs_value == spec_value_at(
                                *rhs_schema,
                                rhs_bytes@,
                                p as int,
                                rhs_match_field_name@,
                            ));
                        }
                        if rhs_value == lhs_value {
                            let mut new_row = old_view_row.clone();
                            new_row.push(rhs_row_reader.absolute_pos);
                            proof {
                                assert(new_row@ =~= old_rows[k as int] + seq![p]);
                            }
                            let ghost prev_view = self.view@;
                            self.view.push(new_row);
                            proof {
                                assert forall|j: int|
                                    0 <= j < self.view@.len() implies (
                                #[trigger] self.view@[j])@ == (spec_inner_join(
                                    old_rows,
                                    lhs_col_g,
                                    *lhs_schema,
                                    lhs_bytes@,
                                    lhs_match_field_name@,
                                    *rhs_schema,
                                    rhs_bytes@,
                                    rhs_match_field_name@,
                                    rhs_positions,
                                    k as int,
                                ) + spec_join_one(
                                    old_rows[k as int],
                                    lv,
                                    *rhs_schema,
                                    rhs_bytes@,
                                    rhs_match_field_name@,
                                    rhs_positions,
                                    emitted + 1,
                                ))[j] by {
                                    if j < prev_view.len() {
                                        assert(self.view@[j] == prev_view[j]);
                                    }
                                }
                            }
                        }
                    },
                    None => {
                        break ;
                    },
                }
            }
            k = k + 1;
        }
        proof {
            // Every produced view row carries one more column.
            let expected = spec_inner_join(
                old_rows,
                lhs_col_g,
                *lhs_schema,
                lhs_bytes@,
                lhs_match_field_name@,
                *rhs_schema,
                rhs_bytes@,
                rhs_match_field_name@,
                rhs_positions,
                n as int,
            );
            lemma_inner_join_row_len(
                old_rows,
                lhs_col_g,
                *lhs_schema,
                lhs_bytes@,
                lhs_match_field_name@,
                *rhs_schema,
                rhs_bytes@,
                rhs_match_field_name@,
                rhs_positions,
                n as int,
                old_self.tables@.len() as int,
            );
        }
    }

    /// Finds the column of a participating table.
    pub fn table_col(&self, table: &str) -> (col: usize)
        requires
            self.spec_has_table(table@),
        ensures
            col == self.spec_table_col(table@),
    {
        let ghost names = self.tables@.map_values(|s: String| s@);
        proof {
            crate::schema::lemma_names_index(names, table@);
        }
        let len = self.tables.len();
        let mut i: usize = 0;
        while i < len
            invariant
                0 <= i <= len,
                len == self.tables@.len(),
                names == self.tables@.map_values(|s: String| s@),
                i <= crate::schema::spec_names_index(names, table@) < len,
                names[crate::schema::spec_names_index(names, table@)] == table@,
                forall|k: int|
                    0 <= k < crate::schema::spec_names_index(names, table@) ==> names[k]
                        != table@,
            decreases len - i,
        {
            proof {
                assert(names[i as int] == self.tables@[i as int]@);
            }
            if str_eq(self.tables[i].as_str(), table) {
                return i;
            }
            i = i + 1;
        }
        proof {
            assert(false);
        }
        0
    }
}

} // verus!
