//! Rendering: column names from the header, and the cells of each row.
use vstd::prelude::*;
use crate::discover::{PathSet, union, united};
use crate::extract::extract;
use crate::extract::{array_free, extracted_all, lemma_extracted_all_array_less};
use crate::json::{Json, JsonValue};
use crate::path::{JsonPath, Path, copy_path, drop_iterators, json_path_string, path_text, path_view, paths_view, without_iterators};
use crate::schema::{JsonSchema, SchemaModel, forest_view};
use crate::tuples::{
    generate_tuples, groups_of, lemma_plain_trees_give_one_row, tuples_of,
};
use crate::utils::{
    Fragment, Row, all_empty, lemma_join_all_len, overlay, rows_view, width,
};

verus! {

/// The character sequences of a list of strings, in order.
pub open spec fn strings_view(strings: Seq<String>) -> Seq<Seq<char>> {
    Seq::new(strings.len(), |i: int| strings[i]@)
}

/// The column name of a header path: its text, in flat mode the text of
/// the path without its array steps.
pub open spec fn column_name(flat: bool, p: Path) -> Seq<char> {
    if flat {
        path_text(without_iterators(p))
    } else {
        path_text(p)
    }
}

/// The column names of a header: one for each distinct path, in the order
/// of the first occurrence.
pub open spec fn column_names(flat: bool, header: Seq<Path>) -> Seq<Seq<char>> {
    let distinct = united(Seq::empty(), header);
    Seq::new(distinct.len(), |i: int| column_name(flat, distinct[i]))
}

/// The cells of a row under a list of columns: the text of the value where
/// the row has the column, else blank.
pub open spec fn cells_of(row: Row, columns: Seq<Seq<char>>) -> Seq<Seq<char>> {
    Seq::new(
        columns.len(),
        |j: int|
            if row.contains_key(columns[j]) {
                row[columns[j]].shown()
            } else {
                Seq::empty()
            },
    )
}

/// The rows of a document under a schema.
pub open spec fn document_rows(flat: bool, schema: Seq<SchemaModel>, doc: Json) -> Seq<Row> {
    tuples_of(flat, extracted_all(doc, schema, schema.len()))
}

/// The column names of a header.
pub fn columns(flat: bool, header: &Vec<JsonPath>) -> (r: Vec<String>)
    ensures
        strings_view(r@) == column_names(flat, paths_view(header@)),
{
    let mut copy: PathSet = Vec::new();
    let mut i: usize = 0;
    while i < header.len()
        invariant
            i <= header.len(),
            copy@.len() == i,
            forall|j: int| 0 <= j < i ==> path_view(#[trigger] copy@[j]@) == path_view(header@[j]@),
        decreases header.len() - i,
    {
        copy.push(copy_path(&header[i]));
        i += 1;
    }
    assert(paths_view(copy@) =~= paths_view(header@));
    let none: PathSet = Vec::new();
    assert(paths_view(none@) =~= Seq::empty());
    let distinct = union(none, copy);
    let mut out: Vec<String> = Vec::new();
    let mut k: usize = 0;
    while k < distinct.len()
        invariant
            k <= distinct.len(),
            out@.len() == k,
            forall|j: int|
                0 <= j < k ==> (#[trigger] out@[j])@ == column_name(flat, path_view(distinct@[j]@)),
        decreases distinct.len() - k,
    {
        let path = copy_path(&distinct[k]);
        if flat {
            out.push(json_path_string(drop_iterators(path)));
        } else {
            out.push(json_path_string(path));
        }
        k += 1;
    }
    assert(strings_view(out@) =~= column_names(flat, paths_view(header@)));
    out
}

/// The cells of one row under a list of columns.
pub fn row_cells(row: &Fragment, columns: &Vec<String>) -> (cells: Vec<String>)
    ensures
        strings_view(cells@) == cells_of(row@, strings_view(columns@)),
{
    let mut cells: Vec<String> = Vec::new();
    let mut j: usize = 0;
    while j < columns.len()
        invariant
            j <= columns.len(),
            cells@.len() == j,
            forall|k: int|
                0 <= k < j ==> (#[trigger] cells@[k])@ == cells_of(row@, strings_view(columns@))[k],
        decreases columns.len() - j,
    {
        match row.get(&columns[j]) {
            Some(value) => cells.push(crate::json::show_value(value.duplicate())),
            None => cells.push(String::new()),
        }
        j += 1;
    }
    assert(strings_view(cells@) =~= cells_of(row@, strings_view(columns@)));
    cells
}

/// The rows of one document as cells: the document is extracted under the
/// schema and flattened, and each row is laid out under the columns.
pub fn extract_rows(flat: bool, schema: &JsonSchema, columns: &Vec<String>, line_value: JsonValue) -> (r:
    Vec<Vec<String>>)
    ensures
        r@.len() == document_rows(flat, forest_view(schema@), line_value@).len(),
        forall|i: int|
            0 <= i < r@.len() ==> strings_view(#[trigger] r@[i]@) == cells_of(
                document_rows(flat, forest_view(schema@), line_value@)[i],
                strings_view(columns@),
            ),
{
    let ghost rows = document_rows(flat, forest_view(schema@), line_value@);
    let tree = extract(schema, line_value);
    let tuples = generate_tuples(flat, tree);
    let mut out: Vec<Vec<String>> = Vec::new();
    let mut i: usize = 0;
    while i < tuples.len()
        invariant
            i <= tuples.len(),
            out@.len() == i,
            rows_view(tuples@) == rows,
            forall|k: int|
                0 <= k < i ==> strings_view(#[trigger] out@[k]@) == cells_of(
                    rows[k],
                    strings_view(columns@),
                ),
        decreases tuples.len() - i,
    {
        assert(rows[i as int] == tuples@[i as int]@);
        out.push(row_cells(&tuples[i], columns));
        i += 1;
    }
    out
}

/// Whether `line` is what `f` made of some list of strings that reads as
/// `cells`.
pub open spec fn made_from<F: Fn(Vec<String>) -> String>(
    f: F,
    cells: Seq<Seq<char>>,
    line: String,
) -> bool {
    exists|given: Vec<String>|
        strings_view(given@) == cells && #[trigger] call_ensures(f, (given,), line)
}

/// The lines of one document: each of its rows, laid out under the
/// columns, handed to `mk_sep_string`.
pub fn extract_lines<F: Fn(Vec<String>) -> String>(
    mk_sep_string: F,
    flat: bool,
    schema: &JsonSchema,
    columns: &Vec<String>,
    line_value: JsonValue,
) -> (lines: Vec<String>)
    requires
        forall|cells: Vec<String>| call_requires(mk_sep_string, (cells,)),
    ensures
        lines@.len() == document_rows(flat, forest_view(schema@), line_value@).len(),
        forall|i: int|
            0 <= i < lines@.len() ==> made_from(
                mk_sep_string,
                cells_of(
                    document_rows(flat, forest_view(schema@), line_value@)[i],
                    strings_view(columns@),
                ),
                #[trigger] lines@[i],
            ),
{
    let ghost rows = document_rows(flat, forest_view(schema@), line_value@);
    let tree = extract(schema, line_value);
    let tuples = generate_tuples(flat, tree);
    let mut lines: Vec<String> = Vec::new();
    let mut i: usize = 0;
    while i < tuples.len()
        invariant
            i <= tuples.len(),
            lines@.len() == i,
            rows_view(tuples@) == rows,
            forall|cells: Vec<String>| call_requires(mk_sep_string, (cells,)),
            forall|k: int|
                0 <= k < i ==> made_from(
                    mk_sep_string,
                    cells_of(rows[k], strings_view(columns@)),
                    #[trigger] lines@[k],
                ),
        decreases tuples.len() - i,
    {
        assert(rows[i as int] == tuples@[i as int]@);
        let cells = row_cells(&tuples[i], columns);
        let ghost given = cells;
        let line = mk_sep_string(cells);
        lines.push(line);
        assert(strings_view(given@) == cells_of(rows[i as int], strings_view(columns@))
            && call_ensures(mk_sep_string, (given,), lines@[i as int]));
        i += 1;
    }
    lines
}

/// The texts of a list of cells, joined by a separator.
pub open spec fn joined(cells: Seq<Seq<char>>, sep: Seq<char>) -> Seq<char>
    decreases cells.len(),
{
    if cells.len() == 0 {
        Seq::empty()
    } else if cells.len() == 1 {
        cells[0]
    } else {
        joined(cells.drop_last(), sep) + sep + cells.last()
    }
}

/// Joins cells into one line.
pub fn join_cells(cells: &Vec<String>, sep: &str) -> (line: String)
    ensures
        line@ == joined(strings_view(cells@), sep@),
{
    let mut out = String::new();
    let mut i: usize = 0;
    let ghost all = strings_view(cells@);
    while i < cells.len()
        invariant
            i <= cells.len(),
            all == strings_view(cells@),
            out@ == joined(all.take(i as int), sep@),
        decreases cells.len() - i,
    {
        proof {
            assert(all.take(i + 1).drop_last() =~= all.take(i as int));
            assert(all.take(i + 1).last() == cells@[i as int]@);
        }
        if i > 0 {
            out.append(sep);
        }
        out.append(cells[i].as_str());
        proof {
            if i == 0 {
                assert(out@ =~= all.take(1)[0]);
            }
        }
        i += 1;
    }
    assert(all.take(cells.len() as int) =~= all);
    out
}

/// A document without arrays gives at most one row under any schema; the
/// row holds what each tree of the schema finds in the document, a later
/// tree showing where two share a column.
pub proof fn lemma_document_without_arrays(flat: bool, schema: Seq<SchemaModel>, doc: Json)
    requires
        array_free(doc),
    ensures
        document_rows(flat, schema, doc).len() <= 1,
        document_rows(flat, schema, doc).len() == 1 ==> document_rows(flat, schema, doc)[0]
            == overlay(
            groups_of(flat, Seq::empty(), extracted_all(doc, schema, schema.len())),
        ),
{
    let trees = extracted_all(doc, schema, schema.len());
    lemma_extracted_all_array_less(doc, schema, schema.len());
    lemma_plain_trees_give_one_row(flat, trees);
}

/// The Cartesian law for a document: it has no row where no tree of the
/// schema finds a fragment in it, and else as many rows as the product of
/// the numbers of fragments of the trees that find any.
pub proof fn lemma_document_row_count(flat: bool, schema: Seq<SchemaModel>, doc: Json)
    ensures
        ({
            let groups = groups_of(flat, Seq::empty(), extracted_all(doc, schema, schema.len()));
            document_rows(flat, schema, doc).len() == (if all_empty(groups) {
                0nat
            } else {
                width(groups)
            })
        }),
{
    lemma_join_all_len(groups_of(flat, Seq::empty(), extracted_all(doc, schema, schema.len())));
}

} // verus!
