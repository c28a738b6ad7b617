//! Deriving the summary column: positional concatenation of two columns
//! around a separator, with absence passed through.

use vstd::prelude::*;

verus! {

/// One composed cell: two present cells concatenate around the
/// separator; when either side is absent the composed cell is absent.
pub open spec fn compose_cell(a: Option<Seq<char>>, b: Option<Seq<char>>, sep: Seq<char>) -> Option<
    Seq<char>,
> {
    match (a, b) {
        (Some(x), Some(y)) => Some(x + sep + y),
        _ => None,
    }
}

/// The composed column: as long as its inputs, cell by cell.
pub open spec fn compose_spec(
    a: Seq<Option<Seq<char>>>,
    b: Seq<Option<Seq<char>>>,
    sep: Seq<char>,
) -> Seq<Option<Seq<char>>> {
    Seq::new(a.len(), |i: int| compose_cell(a[i], b[i], sep))
}

/// Concatenates two columns of equal length cell by cell around
/// `separator`, producing a new column of that same length whose cell i
/// is `a[i] + separator + b[i]`, absent whenever either input cell is.
pub fn compose(a: &Vec<Option<String>>, b: &Vec<Option<String>>, separator: &str) -> (r: Vec<
    Option<String>,
>)
    requires
        a@.len() == b@.len(),
    ensures
        r.deep_view() == compose_spec(a.deep_view(), b.deep_view(), separator@),
        r@.len() == a@.len(),
{
    let ghost target = compose_spec(a.deep_view(), b.deep_view(), separator@);
    let n: usize = a.len();
    let mut out: Vec<Option<String>> = Vec::new();
    let mut i: usize = 0;
    while i < n
        invariant
            n == a@.len() == b@.len(),
            target == compose_spec(a.deep_view(), b.deep_view(), separator@),
            0 <= i <= n,
            out@.len() == i,
            forall|j: int| 0 <= j < i ==> out.deep_view()[j] == target[j],
        decreases n - i,
    {
        proof {
            assert(a.deep_view()[i as int] == a@[i as int].deep_view());
            assert(b.deep_view()[i as int] == b@[i as int].deep_view());
        }
        match (&a[i], &b[i]) {
            (Some(x), Some(y)) => {
                let s = x.clone().concat(separator).concat(y.as_str());
                out.push(Some(s));
            },
            _ => {
                out.push(None);
            },
        }
        proof {
            assert(out.deep_view()[i as int] == target[i as int]);
        }
        i = i + 1;
    }
    proof {
        assert(out.deep_view() =~= target);
    }
    out
}

} // verus!
