//! Records as sequences of byte fields, column selections, group keys, and
//! the selection-aware filling of a record from a group's memory.

use vstd::prelude::*;

verus! {

/// A selection whose indices are strictly ascending (hence distinct).
pub open spec fn strictly_ascending(sel: Seq<usize>) -> bool {
    forall|a: int, b: int| 0 <= a < b < sel.len() ==> sel[a] < sel[b]
}

/// Every index of `sel` names a column of `r`.
pub open spec fn covers(sel: Seq<usize>, r: Seq<Seq<u8>>) -> bool {
    forall|j: int| 0 <= j < sel.len() ==> (sel[j] as int) < r.len()
}

/// Position of column `c` within the selection `sel`, if `c` is selected.
pub open spec fn target_slot(sel: Seq<usize>, c: int) -> Option<int> {
    if exists|j: int| 0 <= j < sel.len() && sel[j] as int == c {
        Some(choose|j: int| 0 <= j < sel.len() && sel[j] as int == c)
    } else {
        None
    }
}

/// Field `c` of `r` after filling: an empty selected field takes the value
/// remembered for its column, if there is one; every other field is kept.
pub open spec fn fill_field(
    sel: Seq<usize>,
    mem: Seq<Option<Seq<u8>>>,
    r: Seq<Seq<u8>>,
    c: int,
) -> Seq<u8> {
    match target_slot(sel, c) {
        Some(j) => if r[c].len() == 0 && mem[j] is Some {
            mem[j]->0
        } else {
            r[c]
        },
        None => r[c],
    }
}

/// The record `r` with each empty selected field filled from `mem`, where
/// `mem[j]` is the value remembered for column `sel[j]`.
pub open spec fn fill_row(sel: Seq<usize>, mem: Seq<Option<Seq<u8>>>, r: Seq<Seq<u8>>) -> Seq<
    Seq<u8>,
> {
    Seq::new(r.len(), |c: int| fill_field(sel, mem, r, c))
}

/// No selected field of `r` is empty.
pub open spec fn resolved(sel: Seq<usize>, r: Seq<Seq<u8>>) -> bool {
    forall|j: int| 0 <= j < sel.len() ==> r[sel[j] as int].len() > 0
}

/// The fields of `r` at the columns of `sel`, in selection order.
pub open spec fn project(sel: Seq<usize>, r: Seq<Seq<u8>>) -> Seq<Seq<u8>> {
    sel.map_values(|c: usize| r[c as int])
}

pub proof fn lemma_slot_of_selected(sel: Seq<usize>, k: int)
    requires
        strictly_ascending(sel),
        0 <= k < sel.len(),
    ensures
        target_slot(sel, sel[k] as int) == Some(k),
{
    let c = sel[k] as int;
    assert(0 <= k < sel.len() && sel[k] as int == c);
    let j = choose|j: int| 0 <= j < sel.len() && sel[j] as int == c;
    if j < k {
        assert(sel[j] < sel[k]);
    } else if j > k {
        assert(sel[k] < sel[j]);
    }
}

/// Fills the empty selected fields of `record` from `memory`, walking the
/// fields and the ascending selection side by side.
pub fn fill_fields(select: &Vec<usize>, memory: &Vec<Option<Vec<u8>>>, record: &Vec<Vec<u8>>) -> (r:
    Vec<Vec<u8>>)
    requires
        strictly_ascending(select@),
        memory@.len() == select@.len(),
    ensures
        r.deep_view() == fill_row(select@, memory.deep_view(), record.deep_view()),
{
    let mut out: Vec<Vec<u8>> = Vec::new();
    let mut k: usize = 0;
    let mut c: usize = 0;
    while c < record.len()
        invariant
            strictly_ascending(select@),
            memory@.len() == select@.len(),
            c <= record.len(),
            k <= select.len(),
            forall|j: int| 0 <= j < k ==> select@[j] < c,
            forall|j: int| k <= j < select.len() ==> select@[j] >= c,
            out.len() == c,
            forall|i: int|
                0 <= i < c ==> out.deep_view()[i] == fill_field(
                    select@,
                    memory.deep_view(),
                    record.deep_view(),
                    i,
                ),
        decreases record.len() - c,
    {
        let ghost sel = select@;
        let ghost mem = memory.deep_view();
        let ghost rec = record.deep_view();
        let ghost before = out.deep_view();
        let field = &record[c];
        let filled: Vec<u8>;
        if k < select.len() && select[k] == c {
            proof {
                lemma_slot_of_selected(sel, k as int);
            }
            if field.len() == 0 {
                match &memory[k] {
                    Some(v) => {
                        filled = v.clone();
                    },
                    None => {
                        filled = field.clone();
                    },
                }
            } else {
                filled = field.clone();
            }
            k = k + 1;
        } else {
            proof {
                assert forall|j: int| 0 <= j < sel.len() implies sel[j] as int != c as int by {
                    if j >= k && k < sel.len() && j > k {
                        assert(sel[k as int] < sel[j]);
                    }
                }
                assert(target_slot(sel, c as int) is None);
            }
            filled = field.clone();
        }
        assert(filled@ == fill_field(sel, mem, rec, c as int));
        out.push(filled);
        assert(out.deep_view() =~= before.push(filled@));
        c = c + 1;
    }
    proof {
        assert(out.deep_view() =~= fill_row(select@, memory.deep_view(), record.deep_view()));
    }
    out
}

} // verus!
