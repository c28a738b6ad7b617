//! The orchestration: decode the sprint and epic columns, derive the
//! summary column, and project the canonical output column set, failing
//! fast on the first stage that cannot proceed.

use vstd::prelude::*;
use crate::compose::compose;
use crate::compose::compose_spec;
use crate::decode::Decoder;
use crate::decode::DecoderConfig;
use crate::decode::first_missing_cell;
use crate::decode::transform;
use crate::decode::transform_spec;
use crate::error::PipelineErrView;
use crate::error::PipelineError;
use crate::table::ColView;
use crate::table::Column;
use crate::table::Table;
use crate::table::col_index_v;
use crate::table::find_column;
use crate::table::clone_cells;
use crate::table::has_col_v;
use crate::table::project;
use crate::table::project_spec;
use crate::table::row_count_v;
use crate::table::table_wf_v;

verus! {

/// The sprint source column.
pub open spec fn sprint_col() -> Seq<char> {
    "Sprint"@
}

/// The epic-link source column.
pub open spec fn epic_col() -> Seq<char> {
    "Custom field (Epic Link)"@
}

/// The issue-key source column.
pub open spec fn issue_key_col() -> Seq<char> {
    "Issue key"@
}

/// The summary source column.
pub open spec fn summary_col() -> Seq<char> {
    "Summary"@
}

/// The derived decoded-sprint column.
pub open spec fn sprint_output_col() -> Seq<char> {
    "Sprint Output"@
}

/// The derived decoded-epic column.
pub open spec fn epic_output_col() -> Seq<char> {
    "Epic Link Output"@
}

/// The derived summary column.
pub open spec fn summary_output_col() -> Seq<char> {
    "Summary Output"@
}

/// The canonical output column set, in order.
pub open spec fn output_columns() -> Seq<Seq<char>> {
    seq![
        "Summary"@,
        "Issue key"@,
        "Issue Type"@,
        "Custom field (Story Points)"@,
        "Priority"@,
        "Custom field (Epic Link)"@,
        "Fix Version/s"@,
        "Description"@,
        "Sprint"@,
        "Summary Output"@,
        "Sprint Output"@,
        "Epic Link Output"@,
    ]
}

/// The canonical output column names, in order.
pub fn output_column_names() -> (r: Vec<String>)
    ensures
        r.deep_view() == output_columns(),
{
    let mut r: Vec<String> = Vec::new();
    r.push("Summary".to_owned());
    r.push("Issue key".to_owned());
    r.push("Issue Type".to_owned());
    r.push("Custom field (Story Points)".to_owned());
    r.push("Priority".to_owned());
    r.push("Custom field (Epic Link)".to_owned());
    r.push("Fix Version/s".to_owned());
    r.push("Description".to_owned());
    r.push("Sprint".to_owned());
    r.push("Summary Output".to_owned());
    r.push("Sprint Output".to_owned());
    r.push("Epic Link Output".to_owned());
    proof {
        assert(r.deep_view() =~= output_columns());
    }
    r
}

/// What one whole run yields. The stages are checked in pipeline order
/// and the first one that cannot proceed decides the error: the sprint
/// column must exist and be fully present, then the epic-link column,
/// then the issue-key and summary columns must exist; after that the
/// three derived columns are layered over the input and the canonical
/// output set is projected, which fails on its first absent name.
pub open spec fn pipeline_spec(
    t: Seq<ColView>,
    sprints: Seq<Decoder>,
    epics: Seq<Decoder>,
    sep: Seq<char>,
) -> Result<Seq<ColView>, PipelineErrView> {
    if !has_col_v(t, sprint_col()) {
        Err(PipelineErrView::MissingColumn { name: sprint_col() })
    } else {
        let sc = t[col_index_v(t, sprint_col())].cells;
        if first_missing_cell(sc) >= 0 {
            Err(
                PipelineErrView::MissingCell {
                    column: sprint_col(),
                    row: first_missing_cell(sc),
                },
            )
        } else if !has_col_v(t, epic_col()) {
            Err(PipelineErrView::MissingColumn { name: epic_col() })
        } else {
            let ec = t[col_index_v(t, epic_col())].cells;
            if first_missing_cell(ec) >= 0 {
                Err(
                    PipelineErrView::MissingCell {
                        column: epic_col(),
                        row: first_missing_cell(ec),
                    },
                )
            } else if !has_col_v(t, issue_key_col()) {
                Err(PipelineErrView::MissingColumn { name: issue_key_col() })
            } else if !has_col_v(t, summary_col()) {
                Err(PipelineErrView::MissingColumn { name: summary_col() })
            } else {
                project_spec(extended_spec(t, sprints, epics, sep), output_columns())
            }
        }
    }
}

/// The input table with the three derived columns layered in front, so
/// that a derived name shadows any same-named input column.
pub open spec fn extended_spec(
    t: Seq<ColView>,
    sprints: Seq<Decoder>,
    epics: Seq<Decoder>,
    sep: Seq<char>,
) -> Seq<ColView> {
    seq![
        ColView {
            name: summary_output_col(),
            cells: compose_spec(
                t[col_index_v(t, issue_key_col())].cells,
                t[col_index_v(t, summary_col())].cells,
                sep,
            ),
        },
        ColView { name: sprint_output_col(), cells: transform_spec(t[col_index_v(t, sprint_col())].cells, sprints) },
        ColView { name: epic_output_col(), cells: transform_spec(t[col_index_v(t, epic_col())].cells, epics) },
    ] + t
}

/// Runs the whole pipeline over a well-formed table: decodes the sprint
/// and epic-link columns first-match-wins, derives the summary column by
/// concatenating issue key and summary around `separator`, and projects
/// the canonical output set. Fail-fast: the result is exactly what
/// `pipeline_spec` says, and a successful run yields a well-formed table.
pub fn run_pipeline(table: &Table, config: &DecoderConfig, separator: &str) -> (r: Result<
    Table,
    PipelineError,
>)
    requires
        table.wf(),
    ensures
        match r {
            Ok(out) => pipeline_spec(table@, config.sprints@, config.epics@, separator@)
                == Ok::<Seq<ColView>, PipelineErrView>(out@) && out.wf(),
            Err(e) => pipeline_spec(table@, config.sprints@, config.epics@, separator@) == Err::<
                Seq<ColView>,
                PipelineErrView,
            >(e@),
        },
{
    let sprint_idx: usize = match find_column(table, "Sprint") {
        Some(i) => i,
        None => {
            return Err(PipelineError::MissingColumn { name: "Sprint".to_owned() });
        },
    };
    proof {
        assert(table@[sprint_idx as int] == table.columns@[sprint_idx as int]@);
    }
    let sprint_out: Vec<Option<String>> = match transform(
        &table.columns[sprint_idx].cells,
        &config.sprints,
    ) {
        Ok(v) => v,
        Err(i) => {
            return Err(PipelineError::MissingCell { column: "Sprint".to_owned(), row: i });
        },
    };
    let epic_idx: usize = match find_column(table, "Custom field (Epic Link)") {
        Some(i) => i,
        None => {
            return Err(
                PipelineError::MissingColumn { name: "Custom field (Epic Link)".to_owned() },
            );
        },
    };
    proof {
        assert(table@[epic_idx as int] == table.columns@[epic_idx as int]@);
    }
    let epic_out: Vec<Option<String>> = match transform(
        &table.columns[epic_idx].cells,
        &config.epics,
    ) {
        Ok(v) => v,
        Err(i) => {
            return Err(
                PipelineError::MissingCell {
                    column: "Custom field (Epic Link)".to_owned(),
                    row: i,
                },
            );
        },
    };
    let issue_key_idx: usize = match find_column(table, "Issue key") {
        Some(i) => i,
        None => {
            return Err(PipelineError::MissingColumn { name: "Issue key".to_owned() });
        },
    };
    let summary_idx: usize = match find_column(table, "Summary") {
        Some(i) => i,
        None => {
            return Err(PipelineError::MissingColumn { name: "Summary".to_owned() });
        },
    };
    proof {
        assert(table@[issue_key_idx as int] == table.columns@[issue_key_idx as int]@);
        assert(table@[summary_idx as int] == table.columns@[summary_idx as int]@);
        assert(table@.len() == table.columns@.len());
        assert(table@[issue_key_idx as int].cells.len() == row_count_v(table@));
        assert(table@[summary_idx as int].cells.len() == row_count_v(table@));
    }
    let summary_out: Vec<Option<String>> = compose(
        &table.columns[issue_key_idx].cells,
        &table.columns[summary_idx].cells,
        separator,
    );
    let mut cols: Vec<Column> = Vec::new();
    cols.push(Column { name: "Summary Output".to_owned(), cells: summary_out });
    cols.push(Column { name: "Sprint Output".to_owned(), cells: sprint_out });
    cols.push(Column { name: "Epic Link Output".to_owned(), cells: epic_out });
    let ghost derived3 = cols@;
    let n: usize = table.columns.len();
    let mut i: usize = 0;
    while i < n
        invariant
            n == table.columns@.len(),
            cols@.len() == 3 + i,
            0 <= i <= n,
            cols@.take(3) == derived3,
            forall|j: int| 0 <= j < i ==> #[trigger] cols@[3 + j]@ == table@[j],
        decreases n - i,
    {
        proof {
            assert(table@[i as int] == table.columns@[i as int]@);
        }
        let c = Column {
            name: table.columns[i].name.clone(),
            cells: clone_cells(&table.columns[i].cells),
        };
        cols.push(c);
        proof {
            assert(cols@.take(3) =~= derived3);
        }
        i = i + 1;
    }
    let ext = Table { columns: cols };
    let names = output_column_names();
    proof {
        let extv = extended_spec(table@, config.sprints@, config.epics@, separator@);
        assert(ext@.len() == extv.len());
        assert(cols@[0] == cols@.take(3)[0] && cols@[1] == cols@.take(3)[1] && cols@[2]
            == cols@.take(3)[2]);
        assert(ext@[0] == cols@[0]@ && ext@[1] == cols@[1]@ && ext@[2] == cols@[2]@);
        assert(ext@[0] =~~= extv[0]);
        assert(ext@[1] =~~= extv[1]);
        assert(ext@[2] =~~= extv[2]);
        assert forall|j: int| 3 <= j < ext@.len() implies ext@[j] == extv[j] by {
            assert(cols@[3 + (j - 3)]@ == table@[j - 3]);
            assert(ext@[j] == cols@[j]@);
            assert(extv[j] == table@[j - 3]);
        }
        assert(ext@ =~~= extv);
        lemma_extended_wf(table@, config.sprints@, config.epics@, separator@);
    }
    match project(&ext, &names) {
        Ok(out) => Ok(out),
        Err(e) => Err(e),
    }
}

/// Layering the derived columns over a well-formed table keeps it
/// well-formed: the derived columns are exactly one row per input row.
proof fn lemma_extended_wf(
    t: Seq<ColView>,
    sprints: Seq<Decoder>,
    epics: Seq<Decoder>,
    sep: Seq<char>,
)
    requires
        table_wf_v(t),
        has_col_v(t, sprint_col()),
        has_col_v(t, epic_col()),
        has_col_v(t, issue_key_col()),
        has_col_v(t, summary_col()),
    ensures
        table_wf_v(extended_spec(t, sprints, epics, sep)),
        row_count_v(extended_spec(t, sprints, epics, sep)) == row_count_v(t),
{
    let ext = extended_spec(t, sprints, epics, sep);
    crate::table::lemma_col_index(t, sprint_col());
    crate::table::lemma_col_index(t, epic_col());
    crate::table::lemma_col_index(t, issue_key_col());
    crate::table::lemma_col_index(t, summary_col());
    assert(t[col_index_v(t, issue_key_col())].cells.len() == row_count_v(t));
    assert(ext[0].cells.len() == row_count_v(t));
    assert(ext[1].cells.len() == row_count_v(t));
    assert(ext[2].cells.len() == row_count_v(t));
    assert forall|i: int| 0 <= i < ext.len() implies (#[trigger] ext[i].cells).len()
        == row_count_v(ext) by {
        if i >= 3 {
            assert(ext[i] == t[i - 3]);
            assert(t[i - 3].cells.len() == row_count_v(t));
        }
    }
}

} // verus!
