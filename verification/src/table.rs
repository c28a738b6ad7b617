//! The column-oriented table model: named columns of optional string
//! cells, row-aligned by position, and the all-or-nothing projection.

use vstd::prelude::*;
use crate::error::PipelineError;
use crate::error::PipelineErrView;

verus! {

/// One named column of optional string cells. An absent cell stands for
/// a missing value in the source export.
#[derive(Clone, Debug)]
pub struct Column {
    pub name: String,
    pub cells: Vec<Option<String>>,
}

/// The mathematical image of a column: its name and cell contents.
#[verifier::ext_equal]
pub ghost struct ColView {
    pub name: Seq<char>,
    pub cells: Seq<Option<Seq<char>>>,
}

impl View for Column {
    type V = ColView;

    open spec fn view(&self) -> ColView {
        ColView { name: self.name@, cells: self.cells.deep_view() }
    }
}

/// An ordered sequence of named columns, all of the same length.
#[derive(Clone, Debug)]
pub struct Table {
    pub columns: Vec<Column>,
}

impl View for Table {
    type V = Seq<ColView>;

    open spec fn view(&self) -> Seq<ColView> {
        self.columns@.map_values(|c: Column| c@)
    }
}

/// How many rows a table has: the length of its first column. A table
/// without columns has no rows.
pub open spec fn row_count_v(t: Seq<ColView>) -> nat {
    if t.len() == 0 {
        0
    } else {
        t[0].cells.len()
    }
}

/// Well-formedness: every column has the same length.
pub open spec fn table_wf_v(t: Seq<ColView>) -> bool {
    forall|i: int| 0 <= i < t.len() ==> (#[trigger] t[i].cells).len() == row_count_v(t)
}

impl Table {
    /// Well-formedness: every column has the same length.
    pub open spec fn wf(self) -> bool {
        table_wf_v(self@)
    }

    /// How many rows the table has.
    pub open spec fn spec_row_count(self) -> nat {
        row_count_v(self@)
    }
}

/// Where the first column of that name sits, or -1 when none carries it.
pub open spec fn col_index_v(t: Seq<ColView>, name: Seq<char>) -> int
    decreases t.len(),
{
    if t.len() == 0 {
        -1
    } else if t[0].name == name {
        0
    } else {
        let r = col_index_v(t.drop_first(), name);
        if r == -1 {
            -1
        } else {
            r + 1
        }
    }
}

/// Whether a column of that name exists.
pub open spec fn has_col_v(t: Seq<ColView>, name: Seq<char>) -> bool {
    col_index_v(t, name) >= 0
}

/// Column lookup is first-match by name in declaration order: the index
/// found carries the name, everything before it does not, and -1 means
/// no column carries it.
pub proof fn lemma_col_index(t: Seq<ColView>, name: Seq<char>)
    ensures
        -1 <= col_index_v(t, name) < t.len(),
        col_index_v(t, name) == -1 <==> (forall|j: int| 0 <= j < t.len() ==> t[j].name != name),
        col_index_v(t, name) >= 0 ==> {
            let i = col_index_v(t, name);
            &&& t[i].name == name
            &&& (forall|j: int| 0 <= j < i ==> t[j].name != name)
        },
    decreases t.len(),
{
    if t.len() == 0 {
    } else if t[0].name == name {
    } else {
        let d = t.drop_first();
        lemma_col_index(d, name);
        if col_index_v(d, name) == -1 {
            assert forall|j: int| 0 <= j < t.len() implies t[j].name != name by {
                if j >= 1 {
                    assert(t[j] == d[j - 1]);
                }
            }
        } else {
            let i = col_index_v(d, name);
            assert(t[i + 1] == d[i]);
            assert forall|j: int| 0 <= j < i + 1 implies t[j].name != name by {
                if j >= 1 {
                    assert(t[j] == d[j - 1]);
                }
            }
        }
        if (forall|j: int| 0 <= j < t.len() ==> t[j].name != name) {
            assert forall|j: int| 0 <= j < d.len() implies d[j].name != name by {
                assert(d[j] == t[j + 1]);
            }
        }
    }
}

/// Finds the first column of that name, or `None` when the table has no
/// such column.
pub fn find_column(table: &Table, name: &str) -> (r: Option<usize>)
    ensures
        match r {
            Some(i) => col_index_v(table@, name@) == i && i < table.columns@.len(),
            None => col_index_v(table@, name@) == -1,
        },
{
    let name_s: String = name.to_owned();
    let n: usize = table.columns.len();
    let mut i: usize = 0;
    while i < n
        invariant
            n == table.columns@.len(),
            name_s@ == name@,
            0 <= i <= n,
            forall|j: int| 0 <= j < i ==> table@[j].name != name@,
        decreases n - i,
    {
        proof {
            assert(table@[i as int] == table.columns@[i as int]@);
        }
        if table.columns[i].name == name_s {
            proof {
                lemma_col_index(table@, name@);
            }
            return Some(i);
        }
        i = i + 1;
    }
    proof {
        lemma_col_index(table@, name@);
    }
    None
}

/// Copies a column's cells. Verified value-for-value copy.
pub fn clone_cells(cells: &Vec<Option<String>>) -> (r: Vec<Option<String>>)
    ensures
        r.deep_view() == cells.deep_view(),
{
    let n: usize = cells.len();
    let mut out: Vec<Option<String>> = Vec::new();
    let mut i: usize = 0;
    while i < n
        invariant
            n == cells@.len(),
            0 <= i <= n,
            out@.len() == i,
            forall|j: int| 0 <= j < i ==> out.deep_view()[j] == cells.deep_view()[j],
        decreases n - i,
    {
        proof {
            assert(cells.deep_view()[i as int] == cells@[i as int].deep_view());
        }
        match &cells[i] {
            Some(s) => {
                let c = s.clone();
                out.push(Some(c));
            },
            None => {
                out.push(None);
            },
        }
        proof {
            assert(out.deep_view()[i as int] == cells.deep_view()[i as int]);
        }
        i = i + 1;
    }
    proof {
        assert(out.deep_view() =~= cells.deep_view());
    }
    out
}

/// Where the first requested name without a matching column sits, or -1
/// when every requested name is present.
pub open spec fn first_absent_v(t: Seq<ColView>, names: Seq<Seq<char>>) -> int
    decreases names.len(),
{
    if names.len() == 0 {
        -1
    } else if !has_col_v(t, names[0]) {
        0
    } else {
        let r = first_absent_v(t, names.drop_first());
        if r == -1 {
            -1
        } else {
            r + 1
        }
    }
}

/// The first absent requested name is what its name says.
pub proof fn lemma_first_absent(t: Seq<ColView>, names: Seq<Seq<char>>)
    ensures
        -1 <= first_absent_v(t, names) < names.len(),
        first_absent_v(t, names) == -1 <==> (forall|j: int|
            0 <= j < names.len() ==> has_col_v(t, names[j])),
        first_absent_v(t, names) >= 0 ==> {
            let i = first_absent_v(t, names);
            &&& !has_col_v(t, names[i])
            &&& (forall|j: int| 0 <= j < i ==> has_col_v(t, names[j]))
        },
    decreases names.len(),
{
    if names.len() == 0 {
    } else if !has_col_v(t, names[0]) {
    } else {
        let d = names.drop_first();
        lemma_first_absent(t, d);
        if first_absent_v(t, d) == -1 {
            assert forall|j: int| 0 <= j < names.len() implies has_col_v(t, names[j]) by {
                if j >= 1 {
                    assert(names[j] == d[j - 1]);
                }
            }
        } else {
            let i = first_absent_v(t, d);
            assert(names[i + 1] == d[i]);
            assert forall|j: int| 0 <= j < i + 1 implies has_col_v(t, names[j]) by {
                if j >= 1 {
                    assert(names[j] == d[j - 1]);
                }
            }
        }
        if (forall|j: int| 0 <= j < names.len() ==> has_col_v(t, names[j])) {
            assert forall|j: int| 0 <= j < d.len() implies has_col_v(t, d[j]) by {
                assert(d[j] == names[j + 1]);
            }
        }
    }
}

/// The projection of a table onto an ordered list of names, every one
/// of which is present: exactly those columns, in that order, with
/// their per-row data unchanged.
pub open spec fn project_ok_v(t: Seq<ColView>, names: Seq<Seq<char>>) -> Seq<ColView> {
    names.map_values(|n: Seq<char>| ColView { name: n, cells: t[col_index_v(t, n)].cells })
}

/// What projection yields: the reordered columns when every requested
/// name is present, else the first absent name, never a partial table.
pub open spec fn project_spec(t: Seq<ColView>, names: Seq<Seq<char>>) -> Result<
    Seq<ColView>,
    PipelineErrView,
> {
    if first_absent_v(t, names) == -1 {
        Ok(project_ok_v(t, names))
    } else {
        Err(PipelineErrView::MissingColumn { name: names[first_absent_v(t, names)] })
    }
}

/// Selects and orders the named columns into a new table, all-or-nothing:
/// an unknown name fails the whole call, and a well-formed input yields a
/// well-formed output with the same rows.
pub fn project(table: &Table, names: &Vec<String>) -> (r: Result<Table, PipelineError>)
    ensures
        match r {
            Ok(out) => {
                &&& project_spec(table@, names.deep_view()) == Ok::<Seq<ColView>, PipelineErrView>(
                    out@,
                )
                &&& table.wf() ==> out.wf()
                &&& (table.wf() && names@.len() > 0) ==> out.spec_row_count()
                    == table.spec_row_count()
            },
            Err(e) => project_spec(table@, names.deep_view()) == Err::<
                Seq<ColView>,
                PipelineErrView,
            >(e@),
        },
{
    let ghost namesv = names.deep_view();
    let n: usize = names.len();
    let mut out_cols: Vec<Column> = Vec::new();
    let mut i: usize = 0;
    while i < n
        invariant
            n == names@.len(),
            namesv == names.deep_view(),
            0 <= i <= n,
            out_cols@.len() == i,
            forall|j: int| 0 <= j < i ==> has_col_v(table@, namesv[j]),
            forall|j: int|
                0 <= j < i ==> #[trigger] out_cols@[j]@ == (ColView {
                    name: namesv[j],
                    cells: table@[col_index_v(table@, namesv[j])].cells,
                }),
        decreases n - i,
    {
        proof {
            assert(namesv[i as int] == names@[i as int]@);
        }
        match find_column(table, names[i].as_str()) {
            Some(ci) => {
                proof {
                    assert(table@[ci as int] == table.columns@[ci as int]@);
                }
                let col = Column {
                    name: names[i].clone(),
                    cells: clone_cells(&table.columns[ci].cells),
                };
                out_cols.push(col);
            },
            None => {
                proof {
                    lemma_first_absent(table@, namesv);
                }
                return Err(PipelineError::MissingColumn { name: names[i].clone() });
            },
        }
        i = i + 1;
    }
    let out = Table { columns: out_cols };
    proof {
        lemma_first_absent(table@, namesv);
        assert(out@ =~~= project_ok_v(table@, namesv));
        if table.wf() {
            assert forall|j: int| 0 <= j < out@.len() implies (#[trigger] out@[j].cells).len()
                == row_count_v(out@) by {
                lemma_col_index(table@, namesv[j]);
                lemma_col_index(table@, namesv[0]);
            }
            if namesv.len() > 0 {
                lemma_col_index(table@, namesv[0]);
                assert(table@[col_index_v(table@, namesv[0])].cells.len() == row_count_v(table@));
                assert(out@[0].cells.len() == row_count_v(table@));
            }
        }
    }
    Ok(out)
}

} // verus!
