//! What a group remembers of the rows seen so far: one optional value per
//! selected column, written under the forward or the first policy, and the
//! key that tells the groups apart.

use crate::record::{covers, project};
use vstd::prelude::*;

verus! {

/// The memory of a group that has seen no value yet: nothing for each of
/// the `n` selected columns.
pub open spec fn blank_memory(n: nat) -> Seq<Option<Seq<u8>>> {
    Seq::new(n, |j: int| None)
}

/// Forward policy: each non-empty selected field of `r` overwrites what is
/// remembered for its column.
pub open spec fn remember_latest(
    sel: Seq<usize>,
    mem: Seq<Option<Seq<u8>>>,
    r: Seq<Seq<u8>>,
) -> Seq<Option<Seq<u8>>> {
    Seq::new(
        sel.len(),
        |j: int|
            if r[sel[j] as int].len() == 0 {
                mem[j]
            } else {
                Some(r[sel[j] as int])
            },
    )
}

/// First policy: a non-empty selected field of `r` is remembered only where
/// its column has no value yet.
pub open spec fn remember_first(sel: Seq<usize>, mem: Seq<Option<Seq<u8>>>, r: Seq<Seq<u8>>) -> Seq<
    Option<Seq<u8>>,
> {
    Seq::new(
        sel.len(),
        |j: int|
            if r[sel[j] as int].len() == 0 || mem[j] is Some {
                mem[j]
            } else {
                Some(r[sel[j] as int])
            },
    )
}

/// The memory after seeing `r` under the chosen policy.
pub open spec fn remember(
    first: bool,
    sel: Seq<usize>,
    mem: Seq<Option<Seq<u8>>>,
    r: Seq<Seq<u8>>,
) -> Seq<Option<Seq<u8>>> {
    if first {
        remember_first(sel, mem, r)
    } else {
        remember_latest(sel, mem, r)
    }
}

/// The group key of `r`: the empty key when no grouping is configured,
/// else the grouping columns' fields in selection order.
pub open spec fn key_of(groupby: Option<Seq<usize>>, r: Seq<Seq<u8>>) -> Seq<Seq<u8>> {
    match groupby {
        Some(g) => project(g, r),
        None => Seq::empty(),
    }
}

/// The deep view of an optional selection.
pub open spec fn selection_view(groupby: Option<Vec<usize>>) -> Option<Seq<usize>> {
    match groupby {
        Some(g) => Some(g@),
        None => None,
    }
}

/// Remembers every non-empty selected field of `record` (forward policy).
pub fn memorize(memory: &mut Vec<Option<Vec<u8>>>, select: &Vec<usize>, record: &Vec<Vec<u8>>)
    requires
        old(memory)@.len() == select@.len(),
        covers(select@, record.deep_view()),
    ensures
        final(memory).deep_view() == remember_latest(
            select@,
            old(memory).deep_view(),
            record.deep_view(),
        ),
{
    let ghost target = remember_latest(select@, old(memory).deep_view(), record.deep_view());
    let mut j: usize = 0;
    while j < select.len()
        invariant
            memory@.len() == select@.len(),
            covers(select@, record.deep_view()),
            j <= select.len(),
            target == remember_latest(select@, old(memory).deep_view(), record.deep_view()),
            forall|i: int| 0 <= i < j ==> memory.deep_view()[i] == target[i],
            forall|i: int| j <= i < select.len() ==> memory.deep_view()[i] == old(memory).deep_view()[i],
        decreases select.len() - j,
    {
        let col = select[j];
        if record[col].len() > 0 {
            let v = record[col].clone();
            memory.set(j, Some(v));
        }
        j = j + 1;
    }
    assert(memory.deep_view() =~= target);
}

/// Remembers the non-empty selected fields of `record` whose columns have no
/// value yet (first policy).
pub fn memorize_first(memory: &mut Vec<Option<Vec<u8>>>, select: &Vec<usize>, record: &Vec<Vec<u8>>)
    requires
        old(memory)@.len() == select@.len(),
        covers(select@, record.deep_view()),
    ensures
        final(memory).deep_view() == remember_first(
            select@,
            old(memory).deep_view(),
            record.deep_view(),
        ),
{
    let ghost target = remember_first(select@, old(memory).deep_view(), record.deep_view());
    let mut j: usize = 0;
    while j < select.len()
        invariant
            memory@.len() == select@.len(),
            covers(select@, record.deep_view()),
            j <= select.len(),
            target == remember_first(select@, old(memory).deep_view(), record.deep_view()),
            forall|i: int| 0 <= i < j ==> memory.deep_view()[i] == target[i],
            forall|i: int| j <= i < select.len() ==> memory.deep_view()[i] == old(memory).deep_view()[i],
        decreases select.len() - j,
    {
        let col = select[j];
        if record[col].len() > 0 && memory[j].is_none() {
            let v = record[col].clone();
            memory.set(j, Some(v));
        }
        j = j + 1;
    }
    assert(memory.deep_view() =~= target);
}

/// The group key of `record`.
pub fn group_key(groupby: &Option<Vec<usize>>, record: &Vec<Vec<u8>>) -> (r: Vec<Vec<u8>>)
    requires
        match groupby {
            Some(g) => covers(g@, record.deep_view()),
            None => true,
        },
    ensures
        r.deep_view() == key_of(selection_view(*groupby), record.deep_view()),
{
    let mut key: Vec<Vec<u8>> = Vec::new();
    match groupby {
        Some(g) => {
            let mut j: usize = 0;
            while j < g.len()
                invariant
                    covers(g@, record.deep_view()),
                    j <= g.len(),
                    key.len() == j,
                    forall|i: int| 0 <= i < j ==> key.deep_view()[i] == record.deep_view()[g@[i] as int],
                decreases g.len() - j,
            {
                let ghost before = key.deep_view();
                let v = record[g[j]].clone();
                key.push(v);
                assert(key.deep_view() =~= before.push(record.deep_view()[g@[j as int] as int]));
                j = j + 1;
            }
            assert(key.deep_view() =~= project(g@, record.deep_view()));
        },
        None => {
            assert(key.deep_view() =~= Seq::<Seq<u8>>::empty());
        },
    }
    key
}

/// Whether two fields hold the same bytes.
pub fn same_key_field(a: &Vec<u8>, b: &Vec<u8>) -> (r: bool)
    ensures
        r == (a@ == b@),
{
    if a.len() != b.len() {
        return false;
    }
    let mut p: usize = 0;
    while p < a.len()
        invariant
            a.len() == b.len(),
            p <= a.len(),
            forall|q: int| 0 <= q < p ==> a@[q] == b@[q],
        decreases a.len() - p,
    {
        if a[p] != b[p] {
            return false;
        }
        p = p + 1;
    }
    assert(a@ =~= b@);
    true
}

/// Whether two group keys hold the same fields.
pub fn same_key(a: &Vec<Vec<u8>>, b: &Vec<Vec<u8>>) -> (r: bool)
    ensures
        r == (a.deep_view() == b.deep_view()),
{
    if a.len() != b.len() {
        assert(a.deep_view().len() != b.deep_view().len());
        return false;
    }
    let mut i: usize = 0;
    while i < a.len()
        invariant
            a.len() == b.len(),
            i <= a.len(),
            forall|k: int| 0 <= k < i ==> a.deep_view()[k] == b.deep_view()[k],
        decreases a.len() - i,
    {
        assert(a.deep_view()[i as int] =~= a@[i as int]@);
        assert(b.deep_view()[i as int] =~= b@[i as int]@);
        if !same_key_field(&a[i], &b[i]) {
            return false;
        }
        i = i + 1;
    }
    assert(a.deep_view() =~= b.deep_view());
    true
}

} // verus!
