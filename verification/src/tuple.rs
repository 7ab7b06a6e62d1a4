//! Tuples, and the schemas that describe them.
use vstd::prelude::*;
use crate::field::{lemma_value_order_is_strict_total, value_order, Field, Value};
use crate::order::{
    lemma_lexicographic_is_strict_total, lemma_lexicographic_skips_common_prefix, lexicographic,
    Order, SortKey,
};

verus! {

/// What a tuple stands for: the values of its fields, from left to right.
pub type Row = Seq<Value>;

/// The values that a run of fields stands for.
pub open spec fn values(s: Seq<Field>) -> Row {
    s.map_values(|f: Field| f@)
}

/// The rows that a run of tuples stands for.
pub open spec fn rows(s: Seq<Tuple>) -> Seq<Row> {
    s.map_values(|t: Tuple| t@)
}

/// A tuple.
#[derive(Debug, PartialEq, Eq)]
pub struct Tuple {
    /// The fields of the tuple.
    pub field_vals: Vec<Field>,
}

impl View for Tuple {
    type V = Row;

    open spec fn view(&self) -> Row {
        values(self.field_vals@)
    }
}

/// A tuple stands for the values of its fields, each at its place: a whole number for that
/// number, a decimal for its two parts, a string for its characters.
pub proof fn lemma_views(t: Tuple, i: int)
    requires
        0 <= i < t.field_vals@.len(),
    ensures
        t@.len() == t.field_vals@.len(),
        t@[i] == t.field_vals@[i]@,
        t.field_vals@[i] matches Field::Int(x) ==> t@[i] == Value::Int(x as int),
        t.field_vals@[i] matches Field::Decimal(d) ==> t@[i] == Value::Decimal(d.num(), d.den()),
        t.field_vals@[i] matches Field::String(s) ==> t@[i] == Value::Text(s@),
{
}

/// Copies a run of fields.
pub fn clone_fields(fields: &Vec<Field>) -> (r: Vec<Field>)
    ensures
        r@ == fields@,
{
    let mut r: Vec<Field> = Vec::new();
    let mut i: usize = 0;
    while i < fields.len()
        invariant
            i <= fields.len(),
            r@ == fields@.take(i as int),
        decreases fields.len() - i,
    {
        r.push(fields[i].clone());
        i = i + 1;
        assert(r@ =~= fields@.take(i as int));
    }
    assert(fields@.take(i as int) =~= fields@);
    r
}

/// Copies a run of tuples.
pub fn clone_tuples(tuples: &Vec<Tuple>) -> (r: Vec<Tuple>)
    ensures
        rows(r@) == rows(tuples@),
{
    let mut r: Vec<Tuple> = Vec::new();
    let mut i: usize = 0;
    while i < tuples.len()
        invariant
            i <= tuples.len(),
            rows(r@) == rows(tuples@).take(i as int),
        decreases tuples.len() - i,
    {
        let ghost before = r@;
        r.push(tuples[i].clone());
        assert(rows(r@) =~= rows(before).push(tuples@[i as int]@));
        i = i + 1;
        assert(rows(r@) =~= rows(tuples@).take(i as int));
    }
    assert(rows(tuples@).take(i as int) =~= rows(tuples@));
    r
}

impl Clone for Tuple {
    fn clone(&self) -> (r: Self)
        ensures
            r@ == self@,
    {
        Tuple { field_vals: clone_fields(&self.field_vals) }
    }
}

impl Tuple {
    /// The tuple of the given fields.
    pub fn new(field_vals: Vec<Field>) -> (r: Tuple)
        ensures
            r.field_vals == field_vals,
            r@ == values(field_vals@),
    {
        Tuple { field_vals }
    }

    /// The tuple of this one's fields, followed by the other's.
    pub fn merge(&self, other: &Tuple) -> (r: Tuple)
        ensures
            r@ == self@ + other@,
    {
        let mut fields = clone_fields(&self.field_vals);
        let mut rest = clone_fields(&other.field_vals);
        fields.append(&mut rest);
        let r = Tuple { field_vals: fields };
        assert(r@ =~= self@ + other@);
        r
    }
}

/// Rows stand in dictionary order.
pub open spec fn row_before(a: Row, b: Row) -> bool {
    lexicographic(a, b, value_order())
}

impl SortKey for Tuple {
    open spec fn before(a: Row, b: Row) -> bool {
        row_before(a, b)
    }

    proof fn before_is_strict_total() {
        lemma_value_order_is_strict_total();
        lemma_lexicographic_is_strict_total(value_order());
    }

    fn compare(&self, other: &Self) -> (r: Order) {
        let x = &self.field_vals;
        let y = &other.field_vals;
        proof {
            Self::before_is_strict_total();
            Field::before_is_strict_total();
            assert(!Self::before(self@, self@));
            assert(Self::before(self@, other@) && Self::before(other@, self@) ==> Self::before(
                self@,
                self@,
            ));
        }
        let mut i: usize = 0;
        while i < x.len() && i < y.len()
            invariant
                i <= x.len(),
                i <= y.len(),
                self@ == values(x@),
                other@ == values(y@),
                forall|j: int| 0 <= j < i ==> self@[j] == other@[j],
                row_before(self@, other@) ==> !row_before(other@, self@),
                !row_before(self@, self@),
                forall|a: Value| !#[trigger] Field::before(a, a),
            decreases x.len() - i,
        {
            let o = x[i].compare(&y[i]);
            assert(self@[i as int] == x@[i as int]@);
            assert(other@[i as int] == y@[i as int]@);
            match o {
                Order::Equal => {},
                _ => {
                    proof {
                        lemma_lexicographic_skips_common_prefix(
                            self@,
                            other@,
                            i as int,
                            value_order(),
                        );
                        lemma_lexicographic_skips_common_prefix(
                            other@,
                            self@,
                            i as int,
                            value_order(),
                        );
                        assert(!Field::before(self@[i as int], self@[i as int]));
                    }
                    return o;
                },
            }
            i = i + 1;
        }
        proof {
            lemma_lexicographic_skips_common_prefix(self@, other@, i as int, value_order());
            lemma_lexicographic_skips_common_prefix(other@, self@, i as int, value_order());
        }
        if i < y.len() {
            Order::Less
        } else if i < x.len() {
            Order::Greater
        } else {
            assert(self@ =~= other@);
            Order::Equal
        }
    }
}

/// The type of a column.
#[derive(Clone, Copy, Debug, PartialEq, Eq)]
pub enum DataType {
    Int,
    Decimal,
    String,
}

/// A column: its name and its type.
#[derive(Debug, PartialEq, Eq)]
pub struct Attribute {
    pub name: String,
    pub dtype: DataType,
}

/// The columns of the tuples that an operator gives.
#[derive(Debug, PartialEq, Eq)]
pub struct TableSchema {
    pub attributes: Vec<Attribute>,
}

impl TableSchema {
    /// The schema of the given columns.
    pub fn new(attributes: Vec<Attribute>) -> (r: TableSchema)
        ensures
            r.attributes == attributes,
    {
        TableSchema { attributes }
    }
}

} // verus!
