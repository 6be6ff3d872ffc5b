//! Coalescing: each record gains one more field, the first non-empty field
//! among the selected columns (or an empty one if there is none).

use crate::record::{covers, project};
use vstd::prelude::*;

verus! {

broadcast use vstd::std_specs::vec::vec_clone_deep_view_proof;

/// The first non-empty field of `fields`, or the empty field.
pub open spec fn first_nonempty(fields: Seq<Seq<u8>>) -> Seq<u8>
    decreases fields.len(),
{
    if fields.len() == 0 {
        Seq::empty()
    } else if fields[0].len() > 0 {
        fields[0]
    } else {
        first_nonempty(fields.drop_first())
    }
}

/// `record` with the first non-empty field among the columns of `select`
/// appended.
pub fn coalesce_record(record: &Vec<Vec<u8>>, select: &Vec<usize>) -> (r: Vec<Vec<u8>>)
    requires
        covers(select@, record.deep_view()),
    ensures
        r.deep_view() == record.deep_view().push(
            first_nonempty(project(select@, record.deep_view())),
        ),
{
    let ghost fields = project(select@, record.deep_view());
    let mut out = record.clone();
    assert(fields.skip(0) =~= fields);
    let mut j: usize = 0;
    while j < select.len()
        invariant
            covers(select@, record.deep_view()),
            out.deep_view() == record.deep_view(),
            fields == project(select@, record.deep_view()),
            j <= select.len(),
            forall|k: int| 0 <= k < j ==> fields[k].len() == 0,
            first_nonempty(fields) == first_nonempty(fields.skip(j as int)),
        decreases select.len() - j,
    {
        let field = &record[select[j]];
        assert(fields.skip(j as int)[0] == fields[j as int]);
        if field.len() > 0 {
            let ghost prev = out.deep_view();
            out.push(field.clone());
            assert(out.deep_view() =~= prev.push(fields[j as int]));
            return out;
        }
        assert(fields.skip(j as int).drop_first() =~= fields.skip(j as int + 1));
        j = j + 1;
    }
    let ghost prev = out.deep_view();
    let blank: Vec<u8> = Vec::new();
    assert(blank@ =~= Seq::<u8>::empty());
    out.push(blank);
    assert(out@.len() == prev.len() + 1);
    assert(out.deep_view()[prev.len() as int] == Seq::<u8>::empty());
    assert(fields.skip(j as int).len() == 0);
    assert(out.deep_view() =~= prev.push(Seq::<u8>::empty()));
    out
}

/// The header row of a coalesced table: `headers` with `name` appended.
pub fn named_header(headers: &Vec<Vec<u8>>, name: &Vec<u8>) -> (r: Vec<Vec<u8>>)
    ensures
        r.deep_view() == headers.deep_view().push(name@),
{
    let mut out = headers.clone();
    let ghost prev = out.deep_view();
    let n = name.clone();
    assert(n@ == name@);
    out.push(n);
    assert(out@.len() == prev.len() + 1);
    assert(out.deep_view().len() == prev.len() + 1);
    assert(out.deep_view()[prev.len() as int] == name@);
    assert(out.deep_view() =~= prev.push(name@));
    out
}

} // verus!
