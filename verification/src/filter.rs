//! Filters and query options.

use crate::value;
use crate::value::{Value, ValueView};
use std::cmp::Ordering;
use vstd::prelude::*;

verus! {

#[derive(Debug, Clone, Copy, PartialEq, Eq, Structural)]
pub enum FilterOp {
    Eq,
    Ne,
    Lt,
    Le,
    Gt,
    Ge,
}

/// A condition on one column.
#[derive(Debug)]
pub struct Filter {
    pub column: String,
    pub op: FilterOp,
    pub value: Value,
}

/// What a [`Filter`] holds.
#[verifier::ext_equal]
pub struct FilterView {
    pub column: Seq<char>,
    pub op: FilterOp,
    pub value: ValueView,
}

impl View for Filter {
    type V = FilterView;

    open spec fn view(&self) -> FilterView {
        FilterView { column: self.column@, op: self.op, value: self.value@ }
    }
}

/// `actual op expected` holds. Values that do not compare satisfy nothing.
pub open spec fn holds(actual: ValueView, op: FilterOp, expected: ValueView) -> bool {
    match value::order_of(actual, expected) {
        None => false,
        Some(o) => match op {
            FilterOp::Eq => o == Ordering::Equal,
            FilterOp::Ne => o != Ordering::Equal,
            FilterOp::Lt => o == Ordering::Less,
            FilterOp::Le => o != Ordering::Greater,
            FilterOp::Gt => o == Ordering::Greater,
            FilterOp::Ge => o != Ordering::Less,
        },
    }
}

/// Evaluates a filter op on two values.
pub fn eval_filter_op(actual: &Value, op: &FilterOp, expected: &Value) -> (r: bool)
    ensures
        r == holds(actual@, *op, expected@),
{
    match actual.compare(expected) {
        None => false,
        Some(Ordering::Less) => match op {
            FilterOp::Ne => true,
            FilterOp::Lt => true,
            FilterOp::Le => true,
            _ => false,
        },
        Some(Ordering::Equal) => match op {
            FilterOp::Eq => true,
            FilterOp::Le => true,
            FilterOp::Ge => true,
            _ => false,
        },
        Some(Ordering::Greater) => match op {
            FilterOp::Ne => true,
            FilterOp::Gt => true,
            FilterOp::Ge => true,
            _ => false,
        },
    }
}

impl Filter {
    pub fn eq(column: &str, value: Value) -> (f: Filter)
        ensures
            f@ == (FilterView { column: column@, op: FilterOp::Eq, value: value@ }),
            forall|a: i64, b: i64| #[trigger]
                holds(ValueView::Integer(a), f@.op, ValueView::Integer(b)) <==> a == b,
    {
        Filter { column: column.to_owned(), op: FilterOp::Eq, value }
    }

    pub fn ne(column: &str, value: Value) -> (f: Filter)
        ensures
            f@ == (FilterView { column: column@, op: FilterOp::Ne, value: value@ }),
            forall|a: i64, b: i64| #[trigger]
                holds(ValueView::Integer(a), f@.op, ValueView::Integer(b)) <==> a != b,
    {
        Filter { column: column.to_owned(), op: FilterOp::Ne, value }
    }

    pub fn lt(column: &str, value: Value) -> (f: Filter)
        ensures
            f@ == (FilterView { column: column@, op: FilterOp::Lt, value: value@ }),
            forall|a: i64, b: i64| #[trigger]
                holds(ValueView::Integer(a), f@.op, ValueView::Integer(b)) <==> a < b,
    {
        Filter { column: column.to_owned(), op: FilterOp::Lt, value }
    }

    pub fn le(column: &str, value: Value) -> (f: Filter)
        ensures
            f@ == (FilterView { column: column@, op: FilterOp::Le, value: value@ }),
            forall|a: i64, b: i64| #[trigger]
                holds(ValueView::Integer(a), f@.op, ValueView::Integer(b)) <==> a <= b,
    {
        Filter { column: column.to_owned(), op: FilterOp::Le, value }
    }

    pub fn gt(column: &str, value: Value) -> (f: Filter)
        ensures
            f@ == (FilterView { column: column@, op: FilterOp::Gt, value: value@ }),
            forall|a: i64, b: i64| #[trigger]
                holds(ValueView::Integer(a), f@.op, ValueView::Integer(b)) <==> a > b,
    {
        Filter { column: column.to_owned(), op: FilterOp::Gt, value }
    }

    pub fn ge(column: &str, value: Value) -> (f: Filter)
        ensures
            f@ == (FilterView { column: column@, op: FilterOp::Ge, value: value@ }),
            forall|a: i64, b: i64| #[trigger]
                holds(ValueView::Integer(a), f@.op, ValueView::Integer(b)) <==> a >= b,
    {
        Filter { column: column.to_owned(), op: FilterOp::Ge, value }
    }

    /// Evaluates this filter against a value.
    pub fn matches(&self, actual: &Value) -> (r: bool)
        ensures
            r == holds(actual@, self.op, self.value@),
    {
        eval_filter_op(actual, &self.op, &self.value)
    }
}

/// Of values that compare, exactly one of `<`, `=` and `>` holds, `<=` is "not
/// `>`", `>=` is "not `<`" and `!=` is "not `=`".
pub proof fn ops_agree(a: ValueView, b: ValueView)
    requires
        value::order_of(a, b) is Some,
    ensures
        holds(a, FilterOp::Ne, b) == !holds(a, FilterOp::Eq, b),
        holds(a, FilterOp::Le, b) == !holds(a, FilterOp::Gt, b),
        holds(a, FilterOp::Ge, b) == !holds(a, FilterOp::Lt, b),
        holds(a, FilterOp::Le, b) == (holds(a, FilterOp::Lt, b) || holds(a, FilterOp::Eq, b)),
        !(holds(a, FilterOp::Lt, b) && holds(a, FilterOp::Gt, b)),
{
}

/// `a < b` exactly when `b > a`, and likewise for the other ops.
pub proof fn ops_flip(a: ValueView, b: ValueView)
    ensures
        holds(a, FilterOp::Lt, b) == holds(b, FilterOp::Gt, a),
        holds(a, FilterOp::Le, b) == holds(b, FilterOp::Ge, a),
        holds(a, FilterOp::Eq, b) == holds(b, FilterOp::Eq, a),
        holds(a, FilterOp::Ne, b) == holds(b, FilterOp::Ne, a),
{
    value::order_flips(a, b);
}

#[derive(Debug, Clone, Copy, PartialEq, Eq, Structural)]
pub enum SortDir {
    Asc,
    Desc,
}

/// A sort criterion.
#[derive(Debug)]
pub struct Sort {
    pub column: String,
    pub dir: SortDir,
}

impl Sort {
    pub fn asc(column: &str) -> (s: Sort)
        ensures
            s.column@ == column@,
            s.dir == SortDir::Asc,
    {
        Sort { column: column.to_owned(), dir: SortDir::Asc }
    }

    pub fn desc(column: &str) -> (s: Sort)
        ensures
            s.column@ == column@,
            s.dir == SortDir::Desc,
    {
        Sort { column: column.to_owned(), dir: SortDir::Desc }
    }
}

/// What to look for, in which order and how much of it.
#[derive(Debug)]
pub struct FindOptions {
    pub filters: Vec<Filter>,
    pub sort: Vec<Sort>,
    pub limit: Option<u32>,
    pub offset: Option<u32>,
    pub include_total: bool,
}

impl Default for FindOptions {
    /// Everything, in row order, without a total.
    fn default() -> (o: FindOptions)
        ensures
            o.filters@.len() == 0,
            o.sort@.len() == 0,
            o.limit is None,
            o.offset is None,
            !o.include_total,
    {
        FindOptions {
            filters: Vec::new(),
            sort: Vec::new(),
            limit: None,
            offset: None,
            include_total: false,
        }
    }
}

}
