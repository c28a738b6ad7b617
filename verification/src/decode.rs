//! Substitution rules and the first-match-wins lookup applied per cell.

use vstd::prelude::*;

verus! {

/// One substitution rule: rewrites `input_key` to `output_key`.
#[derive(Clone, Debug)]
pub struct Decoder {
    pub input_key: String,
    pub output_key: String,
}

/// Two named rule tables, one per decoded category.
#[derive(Clone, Debug)]
pub struct DecoderConfig {
    pub sprints: Vec<Decoder>,
    pub epics: Vec<Decoder>,
}

/// The sentinel a lookup resolves to when no rule matches.
/// A miss is steady-state behaviour, never an error.
pub open spec fn not_decoded() -> Seq<char> {
    "Not Decoded"@
}

/// First-match-wins lookup: the earliest rule whose `input_key` equals
/// `value` decides; a table without a match yields the sentinel.
pub open spec fn decode_spec(decoders: Seq<Decoder>, value: Seq<char>) -> Seq<char>
    decreases decoders.len(),
{
    if decoders.len() == 0 {
        not_decoded()
    } else if decoders[0].input_key@ == value {
        decoders[0].output_key@
    } else {
        decode_spec(decoders.drop_first(), value)
    }
}

/// Where the first matching rule sits, or -1 when no rule matches.
pub open spec fn first_match_idx(decoders: Seq<Decoder>, value: Seq<char>) -> int
    decreases decoders.len(),
{
    if decoders.len() == 0 {
        -1
    } else if decoders[0].input_key@ == value {
        0
    } else {
        let r = first_match_idx(decoders.drop_first(), value);
        if r == -1 {
            -1
        } else {
            r + 1
        }
    }
}

/// Law: a lookup returns the `output_key` of the first rule whose
/// `input_key` equals `value`; when no rule matches it returns the
/// sentinel; and its result is always either the sentinel or the
/// `output_key` of a rule whose `input_key` equals `value`.
pub proof fn lemma_decode_first_match(decoders: Seq<Decoder>, value: Seq<char>)
    ensures
        -1 <= first_match_idx(decoders, value) < decoders.len(),
        first_match_idx(decoders, value) == -1 <==> (forall|j: int|
            0 <= j < decoders.len() ==> decoders[j].input_key@ != value),
        first_match_idx(decoders, value) == -1 ==> decode_spec(decoders, value) == not_decoded(),
        first_match_idx(decoders, value) >= 0 ==> {
            let i = first_match_idx(decoders, value);
            &&& i < decoders.len()
            &&& decoders[i].input_key@ == value
            &&& (forall|j: int| 0 <= j < i ==> decoders[j].input_key@ != value)
            &&& decode_spec(decoders, value) == decoders[i].output_key@
        },
        decode_spec(decoders, value) == not_decoded() || exists|i: int|
            0 <= i < decoders.len() && decoders[i].input_key@ == value && decode_spec(
                decoders,
                value,
            ) == decoders[i].output_key@,
    decreases decoders.len(),
{
    if decoders.len() == 0 {
    } else if decoders[0].input_key@ == value {
    } else {
        let d = decoders.drop_first();
        lemma_decode_first_match(d, value);
        if first_match_idx(d, value) == -1 {
            assert forall|j: int| 0 <= j < decoders.len() implies decoders[j].input_key@
                != value by {
                if j >= 1 {
                    assert(decoders[j] == d[j - 1]);
                }
            }
        } else {
            let i = first_match_idx(d, value);
            assert(decoders[i + 1] == d[i]);
            assert forall|j: int| 0 <= j < i + 1 implies decoders[j].input_key@ != value by {
                if j >= 1 {
                    assert(decoders[j] == d[j - 1]);
                }
            }
        }
        if (forall|j: int| 0 <= j < decoders.len() ==> decoders[j].input_key@ != value) {
            assert forall|j: int| 0 <= j < d.len() implies d[j].input_key@ != value by {
                assert(d[j] == decoders[j + 1]);
            }
        }
        if decode_spec(d, value) != not_decoded() {
            let i = choose|i: int|
                0 <= i < d.len() && d[i].input_key@ == value && decode_spec(d, value)
                    == d[i].output_key@;
            assert(decoders[i + 1] == d[i]);
            assert(decoders[i + 1].input_key@ == value
                && decode_spec(decoders, value) == decoders[i + 1].output_key@);
        }
    }
}

proof fn lemma_decode_skip(decoders: Seq<Decoder>, value: Seq<char>, i: int)
    requires
        0 <= i < decoders.len(),
        decoders[i].input_key@ != value,
    ensures
        decode_spec(decoders.skip(i), value) == decode_spec(decoders.skip(i + 1), value),
{
    assert(decoders.skip(i).len() == decoders.len() - i);
    assert(decoders.skip(i)[0] == decoders[i]);
    assert(decoders.skip(i).drop_first() =~= decoders.skip(i + 1));
}

/// Looks `row_val` up in `decoders`, first match wins, with the
/// sentinel as fallback. Pure: depends on the two arguments alone.
pub fn decode_row_with(row_val: &str, decoders: &Vec<Decoder>) -> (r: String)
    ensures
        r@ == decode_spec(decoders@, row_val@),
{
    let n: usize = decoders.len();
    let row_s: String = row_val.to_owned();
    let mut i: usize = 0;
    proof {
        assert(decoders@.skip(0) =~= decoders@);
    }
    while i < n
        invariant
            n == decoders@.len(),
            row_s@ == row_val@,
            0 <= i <= n,
            decode_spec(decoders@, row_val@) == decode_spec(decoders@.skip(i as int), row_val@),
        decreases n - i,
    {
        if decoders[i].input_key == row_s {
            proof {
                assert(decoders@.skip(i as int)[0] == decoders@[i as int]);
            }
            return decoders[i].output_key.clone();
        }
        proof {
            lemma_decode_skip(decoders@, row_val@, i as int);
        }
        i = i + 1;
    }
    proof {
        assert(decoders@.skip(n as int).len() == 0);
    }
    "Not Decoded".to_owned()
}

/// Where the first absent cell of a column sits, or -1 when every cell
/// is present.
pub open spec fn first_missing_cell(cells: Seq<Option<Seq<char>>>) -> int
    decreases cells.len(),
{
    if cells.len() == 0 {
        -1
    } else if cells[0] is None {
        0
    } else {
        let r = first_missing_cell(cells.drop_first());
        if r == -1 {
            -1
        } else {
            r + 1
        }
    }
}

/// The first absent cell is what its name says: every cell before it is
/// present, it is absent, and -1 means the column has no absent cell.
pub proof fn lemma_first_missing_cell(cells: Seq<Option<Seq<char>>>)
    ensures
        -1 <= first_missing_cell(cells) < cells.len(),
        first_missing_cell(cells) == -1 <==> (forall|j: int|
            0 <= j < cells.len() ==> cells[j] is Some),
        first_missing_cell(cells) >= 0 ==> {
            let i = first_missing_cell(cells);
            &&& i < cells.len()
            &&& cells[i] is None
            &&& (forall|j: int| 0 <= j < i ==> cells[j] is Some)
        },
    decreases cells.len(),
{
    if cells.len() == 0 {
    } else if cells[0] is None {
    } else {
        let d = cells.drop_first();
        lemma_first_missing_cell(d);
        if first_missing_cell(d) == -1 {
            assert forall|j: int| 0 <= j < cells.len() implies cells[j] is Some by {
                if j >= 1 {
                    assert(cells[j] == d[j - 1]);
                }
            }
        } else {
            let i = first_missing_cell(d);
            assert(cells[i + 1] == d[i]);
            assert forall|j: int| 0 <= j < i + 1 implies cells[j] is Some by {
                if j >= 1 {
                    assert(cells[j] == d[j - 1]);
                }
            }
        }
        if (forall|j: int| 0 <= j < cells.len() ==> cells[j] is Some) {
            assert forall|j: int| 0 <= j < d.len() implies d[j] is Some by {
                assert(d[j] == cells[j + 1]);
            }
        }
    }
}

/// A transformed column: every present cell decoded through the table,
/// positions kept, absent cells kept absent.
pub open spec fn transform_spec(cells: Seq<Option<Seq<char>>>, decoders: Seq<Decoder>) -> Seq<
    Option<Seq<char>>,
> {
    cells.map_values(
        |c: Option<Seq<char>>|
            match c {
                Some(v) => Some(decode_spec(decoders, v)),
                None => None,
            },
    )
}

/// Decodes every cell of a column, first-match-wins per cell. An absent
/// cell is an input-format violation: the call fails with the index of
/// the first absent cell and produces nothing.
pub fn transform(cells: &Vec<Option<String>>, decoders: &Vec<Decoder>) -> (r: Result<
    Vec<Option<String>>,
    usize,
>)
    ensures
        match r {
            Ok(out) => first_missing_cell(cells.deep_view()) == -1 && out@.len() == cells@.len()
                && out.deep_view() == transform_spec(cells.deep_view(), decoders@),
            Err(i) => first_missing_cell(cells.deep_view()) == i && i < cells@.len(),
        },
{
    let ghost target = transform_spec(cells.deep_view(), decoders@);
    let n: usize = cells.len();
    let mut out: Vec<Option<String>> = Vec::new();
    let mut i: usize = 0;
    while i < n
        invariant
            n == cells@.len(),
            0 <= i <= n,
            target == transform_spec(cells.deep_view(), decoders@),
            out@.len() == i,
            forall|j: int| 0 <= j < i ==> cells.deep_view()[j] is Some,
            forall|j: int| 0 <= j < i ==> out.deep_view()[j] == target[j],
        decreases n - i,
    {
        proof {
            assert(cells.deep_view()[i as int] == cells@[i as int].deep_view());
        }
        match &cells[i] {
            Some(s) => {
                let decoded = decode_row_with(s.as_str(), decoders);
                proof {
                    assert(cells.deep_view()[i as int] == Some(s@));
                }
                out.push(Some(decoded));
                proof {
                    assert(out.deep_view()[i as int] == Some(decoded@));
                }
            },
            None => {
                proof {
                    assert(cells.deep_view()[i as int] is None);
                    lemma_first_missing_cell(cells.deep_view());
                }
                return Err(i);
            },
        }
        i = i + 1;
    }
    proof {
        lemma_first_missing_cell(cells.deep_view());
        assert(out.deep_view() =~= target);
    }
    Ok(out)
}

} // verus!
