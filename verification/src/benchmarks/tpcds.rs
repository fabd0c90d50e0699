use crate::text::{ends_with, holds, same_text, text_ends_with, text_holds, trim_end, without_end};
use vstd::prelude::*;

verus! {

/// Where the queries are.
pub const QUERIES_DIR: &'static str = "testdata/tpcds/queries";

/// Where the data comes from.
pub const URL: &'static str =
    "https://github.com/apache/datafusion-benchmarks/archive/refs/heads/main.zip";

/// Whether a file of the archive holds a table.
pub open spec fn is_table_file(name: Seq<char>) -> bool {
    holds(name, "tpcds"@) && ends_with(name, ".parquet"@)
}

/// Tells whether a file of the archive holds a table.
pub fn holds_table(name: &str) -> (yes: bool)
    ensures
        yes == is_table_file(name@),
{
    text_holds(name, "tpcds") && text_ends_with(name, ".parquet")
}

/// The table that a file holds, if it is one that holds a table.
pub fn table_name(file_name: &str) -> (table: Option<String>)
    ensures
        match table {
            Some(t) => ends_with(file_name@, ".parquet"@) && t@ == without_end(
                file_name@,
                ".parquet"@,
            ),
            None => !ends_with(file_name@, ".parquet"@),
        },
{
    if !text_ends_with(file_name, ".parquet") {
        return None;
    }
    Some(trim_end(file_name, ".parquet"))
}

/// The columns of a table that are written with a dictionary.
pub open spec fn dictionary_columns(table: Seq<char>) -> Seq<Seq<char>> {
    if table == "item"@ {
        seq!["i_brand"@, "i_category"@, "i_class"@, "i_color"@, "i_size"@]
    } else if table == "customer"@ {
        seq!["c_salutation"@]
    } else if table == "store"@ {
        seq!["s_state"@, "s_country"@]
    } else {
        Seq::empty()
    }
}

/// The views of some texts.
pub open spec fn text_views(texts: Seq<&'static str>) -> Seq<Seq<char>> {
    Seq::new(texts.len(), |i: int| texts[i]@)
}

/// The columns of a table that are written with a dictionary.
pub fn dict_columns(table: &str) -> (columns: Vec<&'static str>)
    ensures
        text_views(columns@) == dictionary_columns(table@),
{
    let mut columns: Vec<&'static str> = Vec::new();
    if same_text(table, "item") {
        columns.push("i_brand");
        columns.push("i_category");
        columns.push("i_class");
        columns.push("i_color");
        columns.push("i_size");
    } else if same_text(table, "customer") {
        columns.push("c_salutation");
    } else if same_text(table, "store") {
        columns.push("s_state");
        columns.push("s_country");
    }
    proof {
        assert(text_views(columns@) =~= dictionary_columns(table@));
    }
    columns
}

/// For each column of a table, whether it is among the given ones and so is cast.
pub fn project_cols_as_dict(fields: &Vec<String>, cols: &Vec<&'static str>) -> (cast: Vec<bool>)
    ensures
        cast@.len() == fields@.len(),
        forall|i: int|
            0 <= i < fields@.len() ==> #[trigger] cast@[i] == text_views(cols@).contains(
                fields@[i]@,
            ),
{
    let mut cast: Vec<bool> = Vec::new();
    for i in 0..fields.len()
        invariant
            cast@.len() == i,
            forall|k: int|
                0 <= k < i ==> #[trigger] cast@[k] == text_views(cols@).contains(fields@[k]@),
    {
        let mut found = false;
        let ghost views = text_views(cols@);
        let ghost field = fields@[i as int]@;
        for j in 0..cols.len()
            invariant
                views == text_views(cols@),
                i < fields@.len(),
                field == fields@[i as int]@,
                found == exists|k: int| 0 <= k < j && #[trigger] views[k] == field,
        {
            if same_text(fields[i].as_str(), cols[j]) {
                found = true;
                proof {
                    assert(views[j as int] == field);
                }
            }
        }
        proof {
            assert(found == views.contains(field));
        }
        cast.push(found);
    }
    cast
}

/// What is done with a table that is to be written in several files.
#[derive(Debug, PartialEq, Eq)]
pub enum Repartition {
    /// It was written before.
    Skip,
    /// It is written, with dictionaries for the given columns.
    Write { table: String, dict_columns: Vec<&'static str> },
}

/// Why a table cannot be written.
#[derive(Debug, Clone, Copy, PartialEq, Eq, Structural)]
pub enum RepartitionError {
    DoesNotExist,
    NotParquet,
}

/// The text for a [RepartitionError] about the file at `path`.
pub open spec fn repartition_error_text(error: RepartitionError, path: Seq<char>) -> Seq<char> {
    match error {
        RepartitionError::DoesNotExist => "Path "@ + path + " does not exist"@,
        RepartitionError::NotParquet => "Path "@ + path + " is not parquet"@,
    }
}

impl RepartitionError {
    /// The text of the error about the file at `path`.
    pub fn message(&self, path: &str) -> (text: String)
        ensures
            text@ == repartition_error_text(*self, path@),
    {
        let mut text = String::new();
        text.push_str("Path ");
        text.push_str(path);
        match self {
            RepartitionError::DoesNotExist => {
                text.push_str(" does not exist");
            },
            RepartitionError::NotParquet => {
                text.push_str(" is not parquet");
            },
        }
        proof {
            assert(text@ =~= repartition_error_text(*self, path@));
        }
        text
    }
}

/// Finds out what is done with the table of a file. `found` tells whether the file is there, and
/// `written_files` how many files are in the place where the table goes, if that place is there.
pub fn plan_repartition(
    found: bool,
    file_name: &str,
    written_files: Option<usize>,
    use_dict_encoding: bool,
) -> (result: Result<Repartition, RepartitionError>)
    ensures
        if !found {
            result == Err::<Repartition, _>(RepartitionError::DoesNotExist)
        } else if !ends_with(file_name@, ".parquet"@) {
            result == Err::<Repartition, _>(RepartitionError::NotParquet)
        } else if written_files matches Some(n) && n >= 1 {
            result matches Ok(Repartition::Skip)
        } else {
            result matches Ok(Repartition::Write { table, dict_columns }) && {
                &&& table@ == without_end(file_name@, ".parquet"@)
                &&& text_views(dict_columns@) == if use_dict_encoding {
                    dictionary_columns(table@)
                } else {
                    Seq::empty()
                }
            }
        },
{
    if !found {
        return Err(RepartitionError::DoesNotExist);
    }
    let table = match table_name(file_name) {
        None => {
            return Err(RepartitionError::NotParquet);
        },
        Some(table) => table,
    };
    if let Some(n) = written_files {
        if n >= 1 {
            return Ok(Repartition::Skip);
        }
    }
    let dict_columns = if use_dict_encoding {
        dict_columns(table.as_str())
    } else {
        let none: Vec<&'static str> = Vec::new();
        proof {
            assert(text_views(none@) =~= Seq::empty());
        }
        none
    };
    Ok(Repartition::Write { table, dict_columns })
}

/// Whether a table is written with dictionaries at all.
pub fn uses_dictionaries(table: &str) -> (yes: bool)
    ensures
        yes == (table@ == "item"@ || table@ == "customer"@ || table@ == "store"@),
{
    same_text(table, "item") || same_text(table, "customer") || same_text(table, "store")
}

/// The columns that are written with a dictionary are the brand, category, class, color and size of an
/// item, the salutation of a customer, and the state and country of a store.
pub proof fn few_columns_have_dictionaries(table: Seq<char>, column: Seq<char>)
    ensures
        dictionary_columns(table).contains(column) <==> {
            ||| table == "item"@ && (column == "i_brand"@ || column == "i_category"@ || column
                == "i_class"@ || column == "i_color"@ || column == "i_size"@)
            ||| table == "customer"@ && column == "c_salutation"@
            ||| table == "store"@ && (column == "s_state"@ || column == "s_country"@)
        },
{
    reveal_strlit("item");
    reveal_strlit("customer");
    reveal_strlit("store");
    assert("item"@.len() == 4 && "customer"@.len() == 8 && "store"@.len() == 5);
    let columns = dictionary_columns(table);
    if columns.contains(column) {
        let k = choose|k: int| 0 <= k < columns.len() && columns[k] == column;
        assert(columns[k] == column);
    }
    if table == "item"@ {
        assert(columns[0] == "i_brand"@ && columns[1] == "i_category"@ && columns[2]
            == "i_class"@ && columns[3] == "i_color"@ && columns[4] == "i_size"@);
    } else if table == "customer"@ {
        assert(columns[0] == "c_salutation"@);
    } else if table == "store"@ {
        assert(columns[0] == "s_state"@ && columns[1] == "s_country"@);
    }
}

} // verus!
