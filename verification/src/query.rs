//! The query surface: field selectors, filters, joins, and the query
//! records the engine evaluates.
use core::cmp::Ordering;
use vstd::prelude::*;
use vstd::string::StringExecFns;
use vstd::string::StringSliceAdditionalSpecFns;

use crate::common::{lemma_bytes_le_total, spec_bytes_le, str_le};
use crate::schema::{TableSchema, ValueMap};
use crate::value::Value;

verus! {

/// Names one field of one table.
#[derive(Debug, Clone, PartialEq, Eq)]
pub struct FieldSelector {
    pub name: String,
    pub source: String,
}

impl FieldSelector {
    /// `<table>.<field>`: the key under which results carry the field.
    pub fn full_name(&self) -> (r: String)
        ensures
            r@ == self.source@ + "."@ + self.name@,
    {
        let mut out = self.source.clone();
        out.append(".");
        out.append(self.name.as_str());
        out
    }
}

/// Which tables a filter reads: one, or a canonically ordered pair.
#[derive(Debug, Hash, PartialEq, Eq)]
pub enum FilterSource {
    Single(String),
    Multi(String, String),
}

impl FilterSource {
    pub fn new_single(table: String) -> (r: FilterSource)
        ensures
            r == FilterSource::Single(table),
    {
        FilterSource::Single(table)
    }

    /// Orders the two table names canonically, so that the same pair in
    /// either order builds the same value.
    pub fn new_multi(table_lhs: String, table_rhs: String) -> (r: FilterSource)
        requires
            table_lhs@ != table_rhs@,
        ensures
            ({
                &&& r matches FilterSource::Multi(a, b)
                &&& spec_bytes_le(vstd::utf8::encode_utf8(a@), vstd::utf8::encode_utf8(b@))
                &&& ((a@ == table_lhs@ && b@ == table_rhs@) || (a@ == table_rhs@ && b@
                    == table_lhs@))
            }),
    {
        proof {
            lemma_bytes_le_total(
                vstd::utf8::encode_utf8(table_lhs@),
                vstd::utf8::encode_utf8(table_rhs@),
            );
        }
        if str_le(table_lhs.as_str(), table_rhs.as_str()) {
            FilterSource::Multi(table_lhs, table_rhs)
        } else {
            FilterSource::Multi(table_rhs, table_lhs)
        }
    }
}

/// The right-hand side of a filter: a literal value, or a reference to
/// another field.
#[derive(Debug, Clone, PartialEq, Eq)]
pub enum RhsValue {
    Value(Value),
    Ref(FieldSelector),
}

impl RhsValue {
    /// The literal this side holds; callers must not pass a reference.
    pub fn as_value(&self) -> (v: Value)
        requires
            self is Value,
        ensures
            self matches RhsValue::Value(x) && v == x,
    {
        match self {
            RhsValue::Value(v) => *v,
            RhsValue::Ref(_) => {
                proof {
                    assert(false);
                }
                Value::NULL
            },
        }
    }

    /// The field reference this side holds; callers must not pass a
    /// literal.
    pub fn as_field_selector(&self) -> (f: &FieldSelector)
        requires
            self is Ref,
        ensures
            self matches RhsValue::Ref(x) && f == x,
    {
        match self {
            RhsValue::Ref(field_selector) => field_selector,
            RhsValue::Value(_) => {
                proof {
                    assert(false);
                }
                vstd::pervasive::unreached()
            },
        }
    }
}

/// One conjunct of a query's WHERE clause: keep a row when comparing
/// the field against the right-hand side answers exactly `op`.
#[derive(Debug, PartialEq, Eq)]
pub struct RowFilter {
    pub field: FieldSelector,
    pub op: Ordering,
    pub rhs: RhsValue,
}

impl RowFilter {
    /// A reference right-hand side makes the filter multi-table.
    pub open spec fn spec_is_multi_table(self) -> bool {
        self.rhs is Ref
    }

    /// A reference into the very table the filter's field names.
    pub open spec fn spec_is_multi_same_table(self) -> bool {
        match self.rhs {
            RhsValue::Ref(reference) => reference.source@ == self.field.source@,
            RhsValue::Value(_) => false,
        }
    }

    /// Classifies the filter by the tables it reads.
    pub fn filter_source(&self) -> (r: FilterSource)
        ensures
            ({
                match self.rhs {
                    RhsValue::Value(_) => r matches FilterSource::Single(s) && s@
                        == self.field.source@,
                    RhsValue::Ref(reference) => {
                        &&& r matches FilterSource::Multi(a, b)
                        &&& spec_bytes_le(vstd::utf8::encode_utf8(a@), vstd::utf8::encode_utf8(b@))
                        &&& ((a@ == self.field.source@ && b@ == reference.source@) || (a@
                            == reference.source@ && b@ == self.field.source@))
                    },
                }
            }),
    {
        match &self.rhs {
            RhsValue::Value(_) => FilterSource::Single(self.field.source.clone()),
            RhsValue::Ref(reference) => {
                proof {
                    lemma_bytes_le_total(
                        vstd::utf8::encode_utf8(self.field.source@),
                        vstd::utf8::encode_utf8(reference.source@),
                    );
                }
                if str_le(self.field.source.as_str(), reference.source.as_str()) {
                    FilterSource::Multi(self.field.source.clone(), reference.source.clone())
                } else {
                    FilterSource::Multi(reference.source.clone(), self.field.source.clone())
                }
            },
        }
    }

    pub fn is_multi_table(&self) -> (r: bool)
        ensures
            r == self.spec_is_multi_table(),
    {
        match self.rhs {
            RhsValue::Value(_) => false,
            RhsValue::Ref(_) => true,
        }
    }

    pub fn is_single_table(&self) -> (r: bool)
        ensures
            r == !self.spec_is_multi_table(),
    {
        !self.is_multi_table()
    }

    pub fn is_multi_same_table(&self) -> (r: bool)
        ensures
            r == self.spec_is_multi_same_table(),
    {
        match &self.rhs {
            RhsValue::Value(_) => false,
            RhsValue::Ref(reference) => crate::common::str_eq(
                reference.source.as_str(),
                self.field.source.as_str(),
            ),
        }
    }
}

/// How two tables are joined; only inner joins exist.
#[derive(Debug, Clone, Copy, PartialEq, Eq)]
pub enum JoinType {
    Inner,
}

/// Joins the rhs field's table into the view on equality with the lhs
/// field.
#[derive(Debug, Clone, PartialEq, Eq)]
pub struct JoinContract {
    pub join_type: JoinType,
    pub lhs: FieldSelector,
    pub rhs: FieldSelector,
}

/// A SELECT: a main table, inner joins, and AND-ed filters.
#[derive(Debug, PartialEq, Eq)]
pub struct SelectQuery {
    pub from: String,
    pub joins: Vec<JoinContract>,
    pub filters: Vec<RowFilter>,
}

/// An INSERT of one row's field values.
#[derive(Debug)]
pub struct InsertQuery {
    pub table: String,
    pub values: ValueMap,
}

/// A CREATE TABLE carrying the new table's schema.
#[derive(Debug)]
pub struct CreateTableQuery {
    pub schema: TableSchema,
}

/// Any parsed statement.
#[derive(Debug, PartialEq, Eq)]
pub enum Query {
    Select(SelectQuery),
}

} // verus!
