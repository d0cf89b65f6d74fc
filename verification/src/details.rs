use vstd::prelude::*;
use crate::text::eq_str;

verus! {

/// What `serde_json::from_str` gives for a JSON array of arrays of strings:
/// the strings, row by row, or `None` when the text is not such an array.
pub uninterp spec fn json_string_rows(text: Seq<char>) -> Option<Seq<Seq<Seq<char>>>>;

/// `serde_json::from_str::<Vec<Vec<String>>>`: parses `text` as a JSON
/// array of arrays of strings. What it gives is named, not stated: the
/// grammar of JSON is serde_json's.
#[verifier::external_body]
fn parse_string_rows(text: &str) -> (r: Option<Vec<Vec<String>>>)
    ensures
        match r {
            Some(rows) => json_string_rows(text@) == Some(rows.deep_view()),
            None => json_string_rows(text@) is None,
        },
{
    serde_json::from_str::<Vec<Vec<String>>>(text).ok()
}

/// The second strings of the rows that hold exactly two strings, the first
/// of which is `target`, in row order.
pub open spec fn spec_matching_values(rows: Seq<Seq<Seq<char>>>, target: Seq<char>) -> Seq<Seq<char>>
    decreases rows.len(),
{
    if rows.len() == 0 {
        Seq::empty()
    } else {
        let prev = spec_matching_values(rows.drop_last(), target);
        let row = rows.last();
        if row.len() == 2 && row[0] == target {
            prev.push(row[1])
        } else {
            prev
        }
    }
}

/// The details of an Aurora row name, for each pool, a value: a JSON array
/// of `[pool name, value]` pairs. For the pool named `target_pool_name`,
/// the values of its pairs, in order (the first one that reads as an
/// amount is the pool's LVR); `None` when the details are not such an
/// array.
pub fn pool_detail_values(details: &str, target_pool_name: &str) -> (r: Option<Vec<String>>)
    ensures
        match json_string_rows(details@) {
            None => r is None,
            Some(rows) => r matches Some(v) && v.deep_view() == spec_matching_values(rows, target_pool_name@),
        },
{
    let rows = match parse_string_rows(details) {
        Some(rows) => rows,
        None => return None,
    };
    let ghost dv = rows.deep_view();
    let mut out: Vec<String> = Vec::new();
    let mut i: usize = 0;
    assert(dv.take(0) =~= Seq::<Seq<Seq<char>>>::empty());
    assert(out.deep_view() =~= Seq::<Seq<char>>::empty());
    while i < rows.len()
        invariant
            i <= rows.len(),
            dv == rows.deep_view(),
            out.deep_view() == spec_matching_values(dv.take(i as int), target_pool_name@),
        decreases rows.len() - i,
    {
        let row = &rows[i];
        proof {
            assert(dv.take(i + 1).drop_last() =~= dv.take(i as int));
            assert(dv.take(i + 1).last() == dv[i as int]);
            assert(dv[i as int] == row.deep_view());
        }
        if row.len() == 2 && eq_str(row[0].as_str(), target_pool_name) {
            let ghost before = out.deep_view();
            out.push(row[1].clone());
            proof {
                assert(out.deep_view() =~= before.push(row@[1]@));
            }
        }
        i = i + 1;
    }
    assert(dv.take(rows.len() as int) =~= dv);
    Some(out)
}

} // verus!
