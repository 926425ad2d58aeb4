use vstd::prelude::*;
use crate::join::{join_cols, join_data, join_view, lemma_join_rows_fit, lemma_kept, kept};

verus! {

/// Mathematical value of a relation: its column names and its rows.
pub struct RelationView {
    pub cols: Seq<Seq<char>>,
    pub rows: Seq<Seq<i64>>,
}

/// The names held by a sequence of strings.
pub open spec fn names_of(v: Seq<String>) -> Seq<Seq<char>> {
    v.map_values(|s: String| s@)
}

/// The values held by a sequence of rows.
pub open spec fn rows_of(v: Seq<Vec<i64>>) -> Seq<Seq<i64>> {
    v.map_values(|r: Vec<i64>| r@)
}

/// Every row has exactly `width` values.
pub open spec fn rows_fit(rows: Seq<Seq<i64>>, width: int) -> bool {
    forall|i: int| 0 <= i < rows.len() ==> #[trigger] rows[i].len() == width
}

/// `i` is the first row whose length is not `width`.
pub open spec fn first_misfit(rows: Seq<Seq<i64>>, width: int, i: int) -> bool {
    &&& 0 <= i < rows.len()
    &&& rows[i].len() != width
    &&& forall|k: int| 0 <= k < i ==> #[trigger] rows[k].len() == width
}

/// A relation is well formed when every row is as wide as the column list.
pub open spec fn well_formed(v: RelationView) -> bool {
    rows_fit(v.rows, v.cols.len() as int)
}

/// Why a row was refused.
#[derive(Debug, Clone, Copy, PartialEq, Eq, Structural)]
pub enum RelationError {
    /// A row had `actual` values where the relation has `expected` columns.
    ShapeMismatch { expected: usize, actual: usize },
}

/// A table: ordered column names and rows of integers, each row as wide as
/// the column list.
#[derive(Debug)]
pub struct Relation {
    col_names: Vec<String>,
    data: Vec<Vec<i64>>,
}

impl View for Relation {
    type V = RelationView;

    closed spec fn view(&self) -> RelationView {
        RelationView { cols: names_of(self.col_names@), rows: rows_of(self.data@) }
    }
}

/// Index of the first row whose length is not `width`, if there is one.
fn find_misfit(width: usize, data: &Vec<Vec<i64>>) -> (r: Option<usize>)
    ensures
        match r {
            None => rows_fit(rows_of(data@), width as int),
            Some(i) => first_misfit(rows_of(data@), width as int, i as int),
        },
{
    let mut i: usize = 0;
    while i < data.len()
        invariant
            i <= data.len(),
            forall|k: int| 0 <= k < i ==> #[trigger] data@[k]@.len() == width,
        decreases data.len() - i,
    {
        if data[i].len() != width {
            return Some(i);
        }
        i = i + 1;
    }
    None
}

impl Relation {
    #[verifier::type_invariant]
    spec fn inv(&self) -> bool {
        well_formed(self@)
    }

    /// An empty relation with the given columns.
    pub fn new(col_names: Vec<String>) -> (r: Relation)
        ensures
            r@ == (RelationView { cols: names_of(col_names@), rows: Seq::empty() }),
    {
        let r = Relation { col_names, data: Vec::new() };
        assert(r@.rows =~= Seq::<Seq<i64>>::empty());
        r
    }

    /// A relation with the given columns and rows; refused when a row's
    /// width differs from the number of columns.
    pub fn new_with_data(col_names: Vec<String>, data: Vec<Vec<i64>>) -> (r: Result<
        Relation,
        RelationError,
    >)
        ensures
            match r {
                Ok(rel) => rows_fit(rows_of(data@), col_names@.len() as int) && rel@ == (
                RelationView { cols: names_of(col_names@), rows: rows_of(data@) }),
                Err(RelationError::ShapeMismatch { expected, actual }) => {
                    &&& expected == col_names@.len()
                    &&& exists|i: int|
                        first_misfit(rows_of(data@), col_names@.len() as int, i)
                            && actual == data@[i]@.len()
                },
            },
    {
        let width = col_names.len();
        match find_misfit(width, &data) {
            Some(i) => Err(RelationError::ShapeMismatch { expected: width, actual: data[i].len() }),
            None => Ok(Relation { col_names, data }),
        }
    }

    /// Appends one row; refused when its width differs from the number of
    /// columns.
    pub fn row(self, row: Vec<i64>) -> (r: Result<Relation, RelationError>)
        ensures
            match r {
                Ok(rel) => row@.len() == self@.cols.len() && rel@ == (RelationView {
                    cols: self@.cols,
                    rows: self@.rows.push(row@),
                }),
                Err(e) => row@.len() != self@.cols.len() && e == (RelationError::ShapeMismatch {
                    expected: self@.cols.len() as usize,
                    actual: row@.len() as usize,
                }),
            },
    {
        proof {
            use_type_invariant(&self);
        }
        if row.len() != self.col_names.len() {
            return Err(
                RelationError::ShapeMismatch { expected: self.col_names.len(), actual: row.len() },
            );
        }
        let Relation { col_names, mut data } = self;
        let ghost old_data = data@;
        data.push(row);
        assert(rows_of(data@) =~= rows_of(old_data).push(row@));
        assert(rows_fit(rows_of(data@), col_names@.len() as int));
        let r = Relation { col_names, data };
        Ok(r)
    }

    /// Replaces all rows; refused when a row's width differs from the number
    /// of columns.
    pub fn rows(self, rows: Vec<Vec<i64>>) -> (r: Result<Relation, RelationError>)
        ensures
            match r {
                Ok(rel) => rows_fit(rows_of(rows@), self@.cols.len() as int) && rel@ == (
                RelationView { cols: self@.cols, rows: rows_of(rows@) }),
                Err(RelationError::ShapeMismatch { expected, actual }) => {
                    &&& expected == self@.cols.len()
                    &&& exists|i: int|
                        first_misfit(rows_of(rows@), self@.cols.len() as int, i)
                            && actual == rows@[i]@.len()
                },
            },
    {
        let Relation { col_names, data: _ } = self;
        assert(names_of(col_names@) == self@.cols);
        Relation::new_with_data(col_names, rows)
    }

    /// Equi-join on the column names the two relations share: for each row
    /// of `other` in order, each row of `self` that agrees with it on every
    /// shared name, in order, followed by the values of the `other` row under
    /// the columns that `self` lacks. Sharing no name gives the cross product.
    ///
    /// Each right row is compared with every left row on the shared columns,
    /// so the join takes time proportional to the product of the two row
    /// counts. No hash map from the key values to left rows is built: vstd
    /// gives `HashMap` a model only for keys of integer and similar types,
    /// not for a `Vec<i64>` key, so nothing could be proved of such a map.
    pub fn join(&self, other: &Relation) -> (r: Relation)
        ensures
            r@ == join_view(self@, other@),
    {
        proof {
            use_type_invariant(self);
            use_type_invariant(other);
        }
        let cols = join_cols(&self.col_names, &other.col_names);
        let data = join_data(&self.col_names, &other.col_names, &self.data, &other.data);
        proof {
            let (a, b) = (self@.cols, other@.cols);
            lemma_join_rows_fit(a, b, self@.rows, other@.rows);
            lemma_kept(a, b);
            assert(names_of(cols@).len() == a.len() + kept(a, b).len());
        }
        Relation { col_names: cols, data }
    }

    /// The column names, in order.
    pub fn col_names(&self) -> (r: &Vec<String>)
        ensures
            names_of(r@) == self@.cols,
    {
        &self.col_names
    }

    /// The rows, in order.
    pub fn data(&self) -> (r: &Vec<Vec<i64>>)
        ensures
            rows_of(r@) == self@.rows,
    {
        &self.data
    }
}

} // verus!
