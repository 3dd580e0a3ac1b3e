//! The table of parsed log lines, a `polars` data frame of text columns.
use vstd::prelude::*;
use polars::prelude::NamedFrom;

verus! {

/// `polars`' data frame, opaque to the proofs.
#[verifier::external_type_specification]
#[verifier::external_body]
pub struct ExDataFrame(polars::prelude::DataFrame);

/// `polars`' column type, opaque; declared because the data frame's
/// indexing impls name it.
#[verifier::external_type_specification]
#[verifier::external_body]
pub struct ExSeries(polars::prelude::Series);

/// `polars`' error type, opaque.
#[verifier::external_type_specification]
#[verifier::external_body]
pub struct ExPolarsError(polars::prelude::PolarsError);

/// The columns of a data frame built from text columns, in order: each
/// column's name and its values.
pub uninterp spec fn frame_text_columns(df: polars::prelude::DataFrame) -> Seq<(Seq<char>, Seq<Seq<char>>)>;

/// The data frame was built from text columns, so that every column holds
/// text without missing values.
pub uninterp spec fn frame_is_text(df: polars::prelude::DataFrame) -> bool;

/// The views of named text columns.
pub open spec fn columns_view(cols: Seq<(String, Vec<String>)>) -> Seq<(Seq<char>, Seq<Seq<char>>)> {
    Seq::new(cols.len(), |i: int| (cols[i].0@, cols[i].1.deep_view()))
}

/// The columns can form a data frame: their names differ and their
/// lengths agree.
pub open spec fn columns_fit(cols: Seq<(Seq<char>, Seq<Seq<char>>)>) -> bool {
    &&& forall|i: int, j: int| 0 <= i < j < cols.len() ==> (#[trigger] cols[i]).0 != (#[trigger] cols[j]).0
    &&& forall|i: int| 0 <= i < cols.len() ==> (#[trigger] cols[i]).1.len() == cols[0].1.len()
}

/// The values of the first column named `name`.
pub open spec fn first_column(cols: Seq<(Seq<char>, Seq<Seq<char>>)>, name: Seq<char>) -> Option<
    Seq<Seq<char>>,
>
    decreases cols.len(),
{
    if cols.len() == 0 {
        None
    } else if cols[0].0 == name {
        Some(cols[0].1)
    } else {
        first_column(cols.drop_first(), name)
    }
}

/// `polars::prelude::DataFrame::new` on the columns, each made a text
/// series by `Series::new(name, values)`: it fails exactly when two columns
/// share a name or two lengths differ, and the frame holds the columns in
/// order.
#[verifier::external_body]
pub(crate) fn frame_from_text_columns(columns: Vec<(String, Vec<String>)>) -> (r: Result<
    polars::prelude::DataFrame,
    polars::prelude::PolarsError,
>)
    ensures
        r is Ok <==> columns_fit(columns_view(columns@)),
        r matches Ok(df) ==> frame_text_columns(df) == columns_view(columns@) && frame_is_text(df),
{
    polars::prelude::DataFrame::new(
        columns.into_iter().map(|(name, values)| polars::prelude::Series::new(&name, values)).collect::<
            Vec<polars::prelude::Series>,
        >(),
    )
}

/// `polars::prelude::DataFrame::column(name)` read as text by
/// `Series::utf8`: fails exactly when no column has that name, and otherwise
/// gives the values of the first such column.
#[verifier::external_body]
pub(crate) fn frame_text_column(df: &polars::prelude::DataFrame, name: &str) -> (r: Result<
    Vec<Option<String>>,
    polars::prelude::PolarsError,
>)
    requires
        frame_is_text(*df),
    ensures
        r is Ok <==> first_column(frame_text_columns(*df), name@) is Some,
        r matches Ok(v) ==> v.deep_view() == first_column(frame_text_columns(*df), name@)->0.map_values(
            |x: Seq<char>| Some(x),
        ),
{
    df.column(name).and_then(|s| s.utf8()).map(
        |ca| ca.into_iter().map(|v| v.map(|x| x.to_string())).collect(),
    )
}

} // verus!
