//! Properties of whole runs of the fill engine, proved over its state
//! machine: every input row leaves exactly once, fields that are not filled
//! pass through, and the filled values follow the chosen policy.

use crate::filler::{
    fill_output, flush, group_index, group_step, initial_model, new_group, refill, run, step,
    FillConfig, FillModel, GroupModel, Tagged,
};
use crate::memory::{blank_memory, key_of, remember};
use crate::record::{fill_row, lemma_slot_of_selected, resolved, strictly_ascending, target_slot};
use crate::filler::{config_ok, record_ok};
use vstd::multiset::Multiset;
use vstd::prelude::*;
use vstd::seq_lib::{lemma_multiset_commutative, to_multiset_build};

verus! {

broadcast use vstd::multiset::group_multiset_axioms;

/// The input positions of tagged rows.
pub open spec fn origins(s: Seq<Tagged>) -> Seq<nat> {
    s.map_values(|p: Tagged| p.0)
}

/// The positions `0, 1, ..., n - 1`.
pub open spec fn positions(n: nat) -> Seq<nat> {
    Seq::new(n, |i: int| i as nat)
}

/// The input positions of all pending rows of all groups.
pub open spec fn pending_origins(groups: Seq<GroupModel>) -> Multiset<nat>
    decreases groups.len(),
{
    if groups.len() == 0 {
        Multiset::empty()
    } else {
        pending_origins(groups.drop_last()).add(origins(groups.last().pending).to_multiset())
    }
}

proof fn lemma_no_origins(s: Seq<nat>)
    requires
        s.len() == 0,
    ensures
        s.to_multiset() == Multiset::<nat>::empty(),
{
    s.to_multiset_ensures();
    vstd::multiset::lemma_multiset_empty_len(s.to_multiset());
}

proof fn lemma_origins_add(a: Seq<Tagged>, b: Seq<Tagged>)
    ensures
        origins(a + b).to_multiset() == origins(a).to_multiset().add(origins(b).to_multiset()),
{
    assert(origins(a + b) =~= origins(a) + origins(b));
    lemma_multiset_commutative(origins(a), origins(b));
}

proof fn lemma_refill_origins(sel: Seq<usize>, mem: Seq<Option<Seq<u8>>>, p: Seq<Tagged>)
    ensures
        origins(refill(sel, mem, p)) == origins(p),
{
    assert(origins(refill(sel, mem, p)) =~= origins(p));
}

proof fn lemma_flush_origins(cfg: FillConfig, groups: Seq<GroupModel>)
    ensures
        origins(flush(cfg, groups)).to_multiset() == pending_origins(groups),
    decreases groups.len(),
{
    if groups.len() > 0 {
        lemma_flush_origins(cfg, groups.drop_last());
        let a = flush(cfg, groups.drop_last());
        let b = refill(cfg.select, groups.last().mem, groups.last().pending);
        lemma_origins_add(a, b);
        lemma_refill_origins(cfg.select, groups.last().mem, groups.last().pending);
    } else {
        lemma_no_origins(origins(flush(cfg, groups)));
    }
}

proof fn lemma_pending_update(groups: Seq<GroupModel>, g: int, x: GroupModel)
    requires
        0 <= g < groups.len(),
    ensures
        pending_origins(groups.update(g, x)).add(origins(groups[g].pending).to_multiset())
            == pending_origins(groups).add(origins(x.pending).to_multiset()),
    decreases groups.len(),
{
    let u = groups.update(g, x);
    assert(u.len() == groups.len());
    if g == groups.len() - 1 {
        assert(u.drop_last() =~= groups.drop_last());
        assert(u.last() == x);
        assert(pending_origins(u) == pending_origins(u.drop_last()).add(origins(x.pending).to_multiset()));
        assert(pending_origins(groups) == pending_origins(groups.drop_last()).add(origins(groups[g].pending).to_multiset()));
        assert(pending_origins(u).add(origins(groups[g].pending).to_multiset()) =~= pending_origins(
            groups,
        ).add(origins(x.pending).to_multiset()));
    } else {
        assert(u.drop_last() =~= groups.drop_last().update(g, x));
        lemma_pending_update(groups.drop_last(), g, x);
        assert(groups.drop_last()[g] == groups[g]);
        let a = pending_origins(u.drop_last());
        let l = origins(groups.last().pending).to_multiset();
        let gg = origins(groups[g].pending).to_multiset();
        let xx = origins(x.pending).to_multiset();
        let d = pending_origins(groups.drop_last());
        assert(a.add(gg) == d.add(xx));
        assert(pending_origins(groups) == d.add(l));
        assert forall|v: nat| #[trigger] pending_origins(u).add(gg).count(v) == pending_origins(groups).add(xx).count(v) by {
            assert(a.add(gg).count(v) == d.add(xx).count(v));
        }
        assert(u.last() == groups.last());
        assert(pending_origins(u) == pending_origins(u.drop_last()).add(origins(u.last().pending).to_multiset()));
        assert(pending_origins(u).add(origins(groups[g].pending).to_multiset()) =~= pending_origins(
            groups,
        ).add(origins(x.pending).to_multiset()));
    }
}

proof fn lemma_positions_push(n: nat)
    ensures
        positions(n + 1).to_multiset() == positions(n).to_multiset().insert(n),
{
    assert(positions(n + 1) =~= positions(n).push(n));
    to_multiset_build(positions(n), n);
}

/// Rows released so far and rows still pending account for each record
/// taken, once each.
spec fn accounted(st: FillModel, emitted: Seq<Tagged>) -> bool {
    origins(emitted).to_multiset().add(pending_origins(st.groups)) == positions(
        st.count,
    ).to_multiset()
}

proof fn lemma_step_accounted(cfg: FillConfig, st: FillModel, emitted: Seq<Tagged>, r: Seq<Seq<u8>>)
    requires
        accounted(st, emitted),
    ensures
        accounted(step(cfg, st, r).0, emitted + step(cfg, st, r).1),
{
    let key = key_of(cfg.groupby, r);
    let g = group_index(st.groups, key);
    let gm = if g < st.groups.len() {
        st.groups[g]
    } else {
        new_group(cfg, key)
    };
    let (gm2, out2) = group_step(cfg, gm, st.count, r);
    let next = step(cfg, st, r).0;
    let n = st.count;
    lemma_positions_push(n);
    lemma_origins_add(emitted, out2);
    let old_ms = origins(gm.pending).to_multiset();
    let new_ms = origins(gm2.pending).to_multiset();
    let out_ms = origins(out2).to_multiset();
    // What the group step moves: the new position and the old pending rows.
    assert(new_ms.add(out_ms) =~= old_ms.insert(n)) by {
        let mem = crate::memory::remember(cfg.first, cfg.select, gm.mem, r);
        let row = crate::record::fill_row(cfg.select, mem, r);
        if cfg.backfill && !crate::record::resolved(cfg.select, row) {
            assert(origins(gm2.pending) =~= origins(gm.pending).push(n));
            to_multiset_build(origins(gm.pending), n);
            lemma_no_origins(origins(out2));
        } else {
            lemma_refill_origins(cfg.select, mem, gm.pending);
            assert(origins(out2) =~= origins(gm.pending).push(n));
            to_multiset_build(origins(gm.pending), n);
            lemma_no_origins(origins(gm2.pending));
        }
    }
    assert(step(cfg, st, r).1 == out2);
    assert(next.count == n + 1);
    if g < st.groups.len() {
        assert(next.groups == st.groups.update(g, gm2));
        lemma_pending_update(st.groups, g, gm2);
        assert(pending_origins(next.groups).add(old_ms) == pending_origins(st.groups).add(new_ms));
    } else {
        assert(next.groups == st.groups.push(gm2));
        assert(next.groups.drop_last() =~= st.groups);
        assert(gm.pending =~= Seq::<Tagged>::empty());
        lemma_no_origins(origins(gm.pending));
        assert(pending_origins(next.groups) == pending_origins(st.groups).add(new_ms));
        assert(pending_origins(next.groups).add(old_ms) =~= pending_origins(st.groups).add(new_ms));
    }
    let e = origins(emitted).to_multiset();
    let p = pending_origins(st.groups);
    let q = pending_origins(next.groups);
    assert forall|v: nat| #[trigger] e.add(out_ms).add(q).count(v) == positions(n + 1).to_multiset().count(v) by {
        assert(q.add(old_ms).count(v) == p.add(new_ms).count(v));
        assert(new_ms.add(out_ms).count(v) == old_ms.insert(n).count(v));
        assert(e.add(p).count(v) == positions(n).to_multiset().count(v));
    }
    assert(origins(emitted + out2).to_multiset().add(pending_origins(next.groups)) =~= positions(
        n + 1,
    ).to_multiset());
}

proof fn lemma_run_accounted(cfg: FillConfig, records: Seq<Seq<Seq<u8>>>)
    ensures
        accounted(run(cfg, initial_model(), records).0, run(cfg, initial_model(), records).1),
        run(cfg, initial_model(), records).0.count == records.len(),
    decreases records.len(),
{
    if records.len() == 0 {
        lemma_no_origins(origins(Seq::<Tagged>::empty()));
        lemma_no_origins(positions(0));
        assert(origins(Seq::<Tagged>::empty()).to_multiset().add(pending_origins(Seq::empty()))
            =~= positions(0).to_multiset());
    } else {
        let prev = records.drop_last();
        lemma_run_accounted(cfg, prev);
        let (mid, out) = run(cfg, initial_model(), prev);
        lemma_step_accounted(cfg, mid, out, records.last());
    }
}


/// The most recent non-empty field of column `c` among the records of
/// `records` whose key is `key`.
pub open spec fn latest(groupby: Option<Seq<usize>>, c: int, records: Seq<Seq<Seq<u8>>>, key: Seq<Seq<u8>>) -> Option<Seq<u8>>
    decreases records.len(),
{
    if records.len() == 0 {
        None
    } else if key_of(groupby, records.last()) == key && records.last()[c].len() > 0 {
        Some(records.last()[c])
    } else {
        latest(groupby, c, records.drop_last(), key)
    }
}

/// The first non-empty field of column `c` among the records of `records`
/// whose key is `key`.
pub open spec fn earliest(groupby: Option<Seq<usize>>, c: int, records: Seq<Seq<Seq<u8>>>, key: Seq<Seq<u8>>) -> Option<Seq<u8>>
    decreases records.len(),
{
    if records.len() == 0 {
        None
    } else if earliest(groupby, c, records.drop_last(), key) is Some {
        earliest(groupby, c, records.drop_last(), key)
    } else if key_of(groupby, records.last()) == key && records.last()[c].len() > 0 {
        Some(records.last()[c])
    } else {
        None
    }
}

/// What the group `key` remembers for the `j`-th target after `records`.
pub open spec fn remembered(cfg: FillConfig, records: Seq<Seq<Seq<u8>>>, key: Seq<Seq<u8>>, j: int) -> Option<Seq<u8>> {
    if cfg.first {
        earliest(cfg.groupby, cfg.select[j] as int, records, key)
    } else {
        latest(cfg.groupby, cfg.select[j] as int, records, key)
    }
}

/// Column `c` is one of the targets.
pub open spec fn selected(sel: Seq<usize>, c: int) -> bool {
    exists|j: int| 0 <= j < sel.len() && sel[j] as int == c
}

/// `row` keeps the width of `r`, every field that is not a target, and
/// every target field that is not empty in `r`.
pub open spec fn passes_through(sel: Seq<usize>, r: Seq<Seq<u8>>, row: Seq<Seq<u8>>) -> bool {
    &&& row.len() == r.len()
    &&& forall|c: int| 0 <= c < r.len() && (!selected(sel, c) || r[c].len() > 0) ==> #[trigger] row[c] == r[c]
}

/// What holds of target `j` of an output row from record `i`.
spec fn slot_ok(cfg: FillConfig, records: Seq<Seq<Seq<u8>>>, i: int, row: Seq<Seq<u8>>, j: int) -> bool {
    let r = records[i];
    let c = cfg.select[j] as int;
    let key = key_of(cfg.groupby, r);
    let upto = records.take(i + 1);
    &&& !cfg.first && latest(cfg.groupby, c, upto, key) is Some ==> row[c] == latest(cfg.groupby, c, upto, key)->0
    &&& (!cfg.first && !cfg.backfill && latest(cfg.groupby, c, upto, key) is None) ==> row[c].len() == 0
    &&& (cfg.first && r[c].len() == 0 && row[c].len() > 0) ==> earliest(cfg.groupby, c, records, key) == Some(row[c])
    &&& (cfg.first && r[c].len() == 0 && row[c].len() == 0) ==> earliest(cfg.groupby, c, upto, key) is None
}

/// After the last refill: under the first policy with backfill, an empty
/// target takes the group's first value whenever the group has one.
spec fn final_slot_ok(cfg: FillConfig, records: Seq<Seq<Seq<u8>>>, i: int, row: Seq<Seq<u8>>, j: int) -> bool {
    let c = cfg.select[j] as int;
    let key = key_of(cfg.groupby, records[i]);
    (cfg.first && cfg.backfill && records[i][c].len() == 0 && earliest(cfg.groupby, c, records, key) is Some)
        ==> row[c] == earliest(cfg.groupby, c, records, key)->0
}

spec fn entry_ok(cfg: FillConfig, records: Seq<Seq<Seq<u8>>>, e: Tagged) -> bool {
    &&& e.0 < records.len()
    &&& passes_through(cfg.select, records[e.0 as int], e.1)
    &&& forall|j: int| 0 <= j < cfg.select.len() ==> #[trigger] slot_ok(cfg, records, e.0 as int, e.1, j)
}

/// The state of a run after `records`, and the rows it released, agree
/// with the records.
spec fn run_ok(cfg: FillConfig, records: Seq<Seq<Seq<u8>>>, st: FillModel, emitted: Seq<Tagged>) -> bool {
    &&& st.count == records.len()
    &&& forall|k: int| 0 <= k < emitted.len() ==> entry_ok(cfg, records, #[trigger] emitted[k])
    &&& forall|k: int| 0 <= k < emitted.len() && cfg.backfill ==> resolved(cfg.select, #[trigger] emitted[k].1)
    &&& forall|g: int| 0 <= g < st.groups.len() ==> #[trigger] st.groups[g].mem.len() == cfg.select.len()
    &&& forall|g: int, j: int| 0 <= g < st.groups.len() && 0 <= j < cfg.select.len() ==> #[trigger] st.groups[g].mem[j] == remembered(cfg, records, st.groups[g].key, j)
    &&& forall|g: int, k: int| 0 <= g < st.groups.len() && 0 <= k < st.groups[g].pending.len() ==> entry_ok(cfg, records, #[trigger] st.groups[g].pending[k])
    &&& forall|g: int, k: int| 0 <= g < st.groups.len() && 0 <= k < st.groups[g].pending.len() ==> key_of(cfg.groupby, records[#[trigger] st.groups[g].pending[k].0 as int]) == st.groups[g].key
    &&& forall|g: int| 0 <= g < st.groups.len() && !cfg.backfill ==> #[trigger] st.groups[g].pending.len() == 0
    &&& forall|a: int, b: int| 0 <= a < st.groups.len() && 0 <= b < st.groups.len() && a != b ==> #[trigger] st.groups[a].key != #[trigger] st.groups[b].key
    &&& forall|key: Seq<Seq<u8>>, j: int| (forall|g: int| 0 <= g < st.groups.len() ==> st.groups[g].key != key) && 0 <= j < cfg.select.len() ==> #[trigger] remembered(cfg, records, key, j) is None
}


proof fn lemma_remembered_nonempty(cfg: FillConfig, records: Seq<Seq<Seq<u8>>>, key: Seq<Seq<u8>>, j: int)
    ensures
        remembered(cfg, records, key, j) is Some ==> remembered(cfg, records, key, j)->0.len() > 0,
    decreases records.len(),
{
    if records.len() > 0 {
        lemma_remembered_nonempty(cfg, records.drop_last(), key, j);
    }
}

proof fn lemma_remembered_step(
    cfg: FillConfig,
    records: Seq<Seq<Seq<u8>>>,
    key: Seq<Seq<u8>>,
    mem: Seq<Option<Seq<u8>>>,
    j: int,
)
    requires
        records.len() > 0,
        0 <= j < cfg.select.len(),
        mem.len() == cfg.select.len(),
        mem[j] == remembered(cfg, records.drop_last(), key, j),
    ensures
        key_of(cfg.groupby, records.last()) == key ==> remember(cfg.first, cfg.select, mem, records.last())[j]
            == remembered(cfg, records, key, j),
        key_of(cfg.groupby, records.last()) != key ==> remembered(cfg, records, key, j) == remembered(
            cfg,
            records.drop_last(),
            key,
            j,
        ),
{
}

proof fn lemma_earliest_stable(groupby: Option<Seq<usize>>, c: int, records: Seq<Seq<Seq<u8>>>, key: Seq<Seq<u8>>, m: int)
    requires
        0 <= m <= records.len(),
        earliest(groupby, c, records.take(m), key) is Some,
    ensures
        earliest(groupby, c, records, key) == earliest(groupby, c, records.take(m), key),
    decreases records.len(),
{
    if m == records.len() {
        assert(records.take(m) =~= records);
    } else {
        assert(records.drop_last().take(m) =~= records.take(m));
        lemma_earliest_stable(groupby, c, records.drop_last(), key, m);
    }
}

proof fn lemma_entry_extend(cfg: FillConfig, records: Seq<Seq<Seq<u8>>>, e: Tagged)
    requires
        records.len() > 0,
        entry_ok(cfg, records.drop_last(), e),
    ensures
        entry_ok(cfg, records, e),
{
    let dl = records.drop_last();
    let i = e.0 as int;
    assert(records[i] == dl[i]);
    assert(records.take(i + 1) =~= dl.take(i + 1));
    assert forall|j: int| 0 <= j < cfg.select.len() implies #[trigger] slot_ok(cfg, records, i, e.1, j) by {
        assert(slot_ok(cfg, dl, i, e.1, j));
    }
}


proof fn lemma_fill_at(sel: Seq<usize>, mem: Seq<Option<Seq<u8>>>, x: Seq<Seq<u8>>, j: int)
    requires
        strictly_ascending(sel),
        0 <= j < sel.len(),
        (sel[j] as int) < x.len(),
    ensures
        fill_row(sel, mem, x)[sel[j] as int] == if x[sel[j] as int].len() == 0 && mem[j] is Some {
            mem[j]->0
        } else {
            x[sel[j] as int]
        },
{
    lemma_slot_of_selected(sel, j);
}

proof fn lemma_fill_passes(sel: Seq<usize>, mem: Seq<Option<Seq<u8>>>, r: Seq<Seq<u8>>, x: Seq<Seq<u8>>)
    requires
        passes_through(sel, r, x),
    ensures
        passes_through(sel, r, fill_row(sel, mem, x)),
{
    let y = fill_row(sel, mem, x);
    assert forall|c: int| 0 <= c < r.len() && (!selected(sel, c) || r[c].len() > 0) implies #[trigger] y[c] == r[c] by {
        assert(x[c] == r[c]);
        if !selected(sel, c) {
            assert(target_slot(sel, c) is None);
        }
    }
}

proof fn lemma_refill_entry(cfg: FillConfig, records: Seq<Seq<Seq<u8>>>, e: Tagged, mem: Seq<Option<Seq<u8>>>)
    requires
        config_ok(cfg),
        cfg.backfill,
        entry_ok(cfg, records, e),
        record_ok(cfg, records[e.0 as int]),
        mem.len() == cfg.select.len(),
        forall|j: int| 0 <= j < cfg.select.len() ==> #[trigger] mem[j] == remembered(cfg, records, key_of(cfg.groupby, records[e.0 as int]), j),
    ensures
        entry_ok(cfg, records, (e.0, fill_row(cfg.select, mem, e.1))),
        (forall|j: int| 0 <= j < cfg.select.len() ==> #[trigger] mem[j] is Some) ==> resolved(cfg.select, fill_row(cfg.select, mem, e.1)),
        forall|j: int| 0 <= j < cfg.select.len() ==> #[trigger] final_slot_ok(cfg, records, e.0 as int, fill_row(cfg.select, mem, e.1), j),
{
    let i = e.0 as int;
    let r = records[i];
    let key = key_of(cfg.groupby, r);
    let x = e.1;
    let y = fill_row(cfg.select, mem, x);
    let upto = records.take(i + 1);
    lemma_fill_passes(cfg.select, mem, r, x);
    assert forall|j: int| 0 <= j < cfg.select.len() implies #[trigger] slot_ok(cfg, records, i, y, j) && final_slot_ok(cfg, records, i, y, j) && (mem[j] is Some ==> y[cfg.select[j] as int].len() > 0) by {
        let c = cfg.select[j] as int;
        assert(slot_ok(cfg, records, i, x, j));
        lemma_fill_at(cfg.select, mem, x, j);
        lemma_remembered_nonempty(cfg, records, key, j);
        lemma_remembered_nonempty(cfg, upto, key, j);
    }
    assert forall|j: int| 0 <= j < cfg.select.len() implies #[trigger] final_slot_ok(cfg, records, i, y, j) by {
        assert(slot_ok(cfg, records, i, y, j));
    }
    if forall|j: int| 0 <= j < cfg.select.len() ==> #[trigger] mem[j] is Some {
        assert forall|j: int| 0 <= j < cfg.select.len() implies y[cfg.select[j] as int].len() > 0 by {
            assert(slot_ok(cfg, records, i, y, j));
        }
    }
}


proof fn lemma_new_entry(cfg: FillConfig, records: Seq<Seq<Seq<u8>>>, mem_old: Seq<Option<Seq<u8>>>)
    requires
        config_ok(cfg),
        records.len() > 0,
        record_ok(cfg, records.last()),
        mem_old.len() == cfg.select.len(),
        forall|j: int| 0 <= j < cfg.select.len() ==> #[trigger] mem_old[j] == remembered(cfg, records.drop_last(), key_of(cfg.groupby, records.last()), j),
    ensures
        forall|j: int| 0 <= j < cfg.select.len() ==> #[trigger] remember(cfg.first, cfg.select, mem_old, records.last())[j] == remembered(cfg, records, key_of(cfg.groupby, records.last()), j),
        entry_ok(cfg, records, ((records.len() - 1) as nat, fill_row(cfg.select, remember(cfg.first, cfg.select, mem_old, records.last()), records.last()))),
        resolved(cfg.select, fill_row(cfg.select, remember(cfg.first, cfg.select, mem_old, records.last()), records.last()))
            ==> forall|j: int| 0 <= j < cfg.select.len() ==> #[trigger] remember(cfg.first, cfg.select, mem_old, records.last())[j] is Some,
{
    let n = records.len() as int;
    let r = records.last();
    let key = key_of(cfg.groupby, r);
    let mem = remember(cfg.first, cfg.select, mem_old, r);
    let row = fill_row(cfg.select, mem, r);
    assert(records.take(n) =~= records);
    assert(records[n - 1] == r);
    assert forall|j: int| 0 <= j < cfg.select.len() implies #[trigger] mem[j] == remembered(cfg, records, key, j) by {
        lemma_remembered_step(cfg, records, key, mem_old, j);
    }
    lemma_fill_passes(cfg.select, mem, r, r);
    assert forall|j: int| 0 <= j < cfg.select.len() implies #[trigger] slot_ok(cfg, records, n - 1, row, j) && (row[cfg.select[j] as int].len() > 0 ==> mem[j] is Some) by {
        lemma_fill_at(cfg.select, mem, r, j);
        let c = cfg.select[j] as int;
        assert(mem[j] == remembered(cfg, records, key, j));
        assert(r[c].len() > 0 ==> mem[j] is Some);
        assert(records.take(n - 1 + 1) == records);
        assert(key_of(cfg.groupby, records[n - 1]) == key);
        lemma_remembered_nonempty(cfg, records, key, j);
    }
    if resolved(cfg.select, row) {
        assert forall|j: int| 0 <= j < cfg.select.len() implies #[trigger] mem[j] is Some by {
            assert(slot_ok(cfg, records, n - 1, row, j));
        }
    }
}


proof fn lemma_step_ok(cfg: FillConfig, records: Seq<Seq<Seq<u8>>>, mid: FillModel, out: Seq<Tagged>)
    requires
        config_ok(cfg),
        records.len() > 0,
        forall|i: int| 0 <= i < records.len() ==> record_ok(cfg, #[trigger] records[i]),
        run_ok(cfg, records.drop_last(), mid, out),
    ensures
        run_ok(cfg, records, step(cfg, mid, records.last()).0, out + step(cfg, mid, records.last()).1),
{
    let dl = records.drop_last();
    let n = dl.len();
    let r = records.last();
    let key = key_of(cfg.groupby, r);
    let g = group_index(mid.groups, key);
    let gm = if g < mid.groups.len() {
        mid.groups[g]
    } else {
        new_group(cfg, key)
    };
    let (gm2, out2) = group_step(cfg, gm, mid.count, r);
    let next = step(cfg, mid, r).0;
    let all = out + out2;
    let mem = remember(cfg.first, cfg.select, gm.mem, r);
    let row = fill_row(cfg.select, mem, r);
    assert(record_ok(cfg, r)) by {
        assert(records[records.len() - 1] == r);
    }
    assert(forall|i: int| 0 <= i < dl.len() ==> #[trigger] dl[i] == records[i]);
    if g < mid.groups.len() {
        assert(mid.groups[g].key == key);
    } else {
        assert forall|h: int| 0 <= h < mid.groups.len() implies mid.groups[h].key != key by {}
    }
    assert forall|j: int| 0 <= j < cfg.select.len() implies #[trigger] gm.mem[j] == remembered(cfg, dl, key, j) by {
        if g >= mid.groups.len() {
            assert(remembered(cfg, dl, key, j) is None);
        }
    }
    lemma_new_entry(cfg, records, gm.mem);
    assert(mid.count == n);
    let new_e: Tagged = (n as nat, row);
    assert(entry_ok(cfg, records, new_e));
    // Entries already there stay valid.
    assert forall|e: Tagged| entry_ok(cfg, dl, e) implies #[trigger] entry_ok(cfg, records, e) by {
        lemma_entry_extend(cfg, records, e);
    }
    // The group's pending rows, refilled on release.
    assert forall|k: int| 0 <= k < gm.pending.len() implies entry_ok(cfg, records, #[trigger] gm.pending[k]) && key_of(cfg.groupby, records[gm.pending[k].0 as int]) == key by {
        assert(entry_ok(cfg, dl, gm.pending[k]));
    }
    let released = refill(cfg.select, mem, gm.pending);
    if !(cfg.backfill && !resolved(cfg.select, row)) {
        assert forall|k: int| 0 <= k < released.len() implies entry_ok(cfg, records, #[trigger] released[k]) && (cfg.backfill ==> resolved(cfg.select, released[k].1)) by {
            let e = gm.pending[k];
            assert(cfg.backfill);
            assert(record_ok(cfg, records[e.0 as int]));
            lemma_refill_entry(cfg, records, e, mem);
        }
        assert(out2 == released.push(new_e));
    } else {
        assert(out2.len() == 0);
    }
    assert forall|k: int| 0 <= k < all.len() implies entry_ok(cfg, records, #[trigger] all[k]) && (cfg.backfill ==> resolved(cfg.select, all[k].1)) by {
        if k < out.len() {
            assert(all[k] == out[k]);
            assert(entry_ok(cfg, dl, out[k]));
        } else {
            assert(all[k] == out2[k - out.len()]);
            if k - out.len() < released.len() {
                assert(out2[k - out.len()] == released[k - out.len()]);
            }
        }
    }
    // Groups other than this one keep their memory and pending rows.
    assert forall|h: int, j: int| 0 <= h < next.groups.len() && 0 <= j < cfg.select.len() implies #[trigger] next.groups[h].mem[j] == remembered(cfg, records, next.groups[h].key, j) by {
        if h == g {
            assert(next.groups[h] == gm2);
        } else {
            assert(next.groups[h] == mid.groups[h]);
            assert(mid.groups[h].key != key);
            lemma_remembered_step(cfg, records, mid.groups[h].key, mid.groups[h].mem, j);
        }
    }
    assert forall|h: int, k: int| 0 <= h < next.groups.len() && 0 <= k < next.groups[h].pending.len() implies entry_ok(cfg, records, #[trigger] next.groups[h].pending[k]) && key_of(cfg.groupby, records[next.groups[h].pending[k].0 as int]) == next.groups[h].key by {
        if h == g {
            assert(next.groups[h] == gm2);
            if k < gm.pending.len() {
                assert(gm2.pending[k] == gm.pending[k]);
            } else {
                assert(gm2.pending[k] == new_e);
                assert(records[n as int] == r);
            }
        } else {
            assert(next.groups[h] == mid.groups[h]);
            assert(entry_ok(cfg, dl, mid.groups[h].pending[k]));
        }
    }
    assert forall|h: int| 0 <= h < next.groups.len() implies #[trigger] next.groups[h].mem.len() == cfg.select.len() && (!cfg.backfill ==> next.groups[h].pending.len() == 0) by {
        if h != g {
            assert(next.groups[h] == mid.groups[h]);
        }
    }
    assert forall|a: int, b: int| 0 <= a < next.groups.len() && 0 <= b < next.groups.len() && a != b implies #[trigger] next.groups[a].key != #[trigger] next.groups[b].key by {
        if a != g {
            assert(next.groups[a] == mid.groups[a]);
        }
        if b != g {
            assert(next.groups[b] == mid.groups[b]);
        }
    }
    assert forall|k2: Seq<Seq<u8>>, j: int| (forall|h: int| 0 <= h < next.groups.len() ==> next.groups[h].key != k2) && 0 <= j < cfg.select.len() implies #[trigger] remembered(cfg, records, k2, j) is None by {
        assert(next.groups[g].key == key);
        assert forall|h: int| 0 <= h < mid.groups.len() implies mid.groups[h].key != k2 by {
            assert(next.groups[h] == mid.groups[h] || h == g);
        }
        let m = Seq::new(cfg.select.len(), |i: int| remembered(cfg, dl, k2, i));
        lemma_remembered_step(cfg, records, k2, m, j);
    }
}


proof fn lemma_run_ok(cfg: FillConfig, records: Seq<Seq<Seq<u8>>>)
    requires
        config_ok(cfg),
        forall|i: int| 0 <= i < records.len() ==> record_ok(cfg, #[trigger] records[i]),
    ensures
        run_ok(cfg, records, run(cfg, initial_model(), records).0, run(cfg, initial_model(), records).1),
    decreases records.len(),
{
    if records.len() > 0 {
        let dl = records.drop_last();
        assert forall|i: int| 0 <= i < dl.len() implies record_ok(cfg, #[trigger] dl[i]) by {
            assert(dl[i] == records[i]);
        }
        lemma_run_ok(cfg, dl);
        let (mid, out) = run(cfg, initial_model(), dl);
        lemma_step_ok(cfg, records, mid, out);
    }
}

/// What holds of a row that a run yields.
spec fn output_ok(cfg: FillConfig, records: Seq<Seq<Seq<u8>>>, e: Tagged) -> bool {
    &&& entry_ok(cfg, records, e)
    &&& forall|j: int| 0 <= j < cfg.select.len() ==> #[trigger] final_slot_ok(cfg, records, e.0 as int, e.1, j)
}

proof fn lemma_flush_ok(cfg: FillConfig, records: Seq<Seq<Seq<u8>>>, groups: Seq<GroupModel>)
    requires
        config_ok(cfg),
        forall|i: int| 0 <= i < records.len() ==> record_ok(cfg, #[trigger] records[i]),
        forall|g: int| 0 <= g < groups.len() ==> #[trigger] groups[g].mem.len() == cfg.select.len(),
        forall|g: int, j: int| 0 <= g < groups.len() && 0 <= j < cfg.select.len() ==> #[trigger] groups[g].mem[j] == remembered(cfg, records, groups[g].key, j),
        forall|g: int, k: int| 0 <= g < groups.len() && 0 <= k < groups[g].pending.len() ==> entry_ok(cfg, records, #[trigger] groups[g].pending[k]),
        forall|g: int, k: int| 0 <= g < groups.len() && 0 <= k < groups[g].pending.len() ==> key_of(cfg.groupby, records[#[trigger] groups[g].pending[k].0 as int]) == groups[g].key,
        forall|g: int| 0 <= g < groups.len() && !cfg.backfill ==> #[trigger] groups[g].pending.len() == 0,
    ensures
        forall|k: int| 0 <= k < flush(cfg, groups).len() ==> output_ok(cfg, records, #[trigger] flush(cfg, groups)[k]),
    decreases groups.len(),
{
    if groups.len() > 0 {
        let dl = groups.drop_last();
        let last = groups.last();
        assert(last == groups[groups.len() - 1]);
        lemma_flush_ok(cfg, records, dl);
        let a = flush(cfg, dl);
        let b = refill(cfg.select, last.mem, last.pending);
        assert forall|k: int| 0 <= k < b.len() implies output_ok(cfg, records, #[trigger] b[k]) by {
            let e = last.pending[k];
            assert(entry_ok(cfg, records, e));
            assert(cfg.backfill);
            lemma_refill_entry(cfg, records, e, last.mem);
        }
        assert forall|k: int| 0 <= k < flush(cfg, groups).len() implies output_ok(cfg, records, #[trigger] flush(cfg, groups)[k]) by {
            if k < a.len() {
                assert(flush(cfg, groups)[k] == a[k]);
            } else {
                assert(flush(cfg, groups)[k] == b[k - a.len()]);
            }
        }
    }
}

proof fn lemma_output_ok(cfg: FillConfig, records: Seq<Seq<Seq<u8>>>)
    requires
        config_ok(cfg),
        forall|i: int| 0 <= i < records.len() ==> record_ok(cfg, #[trigger] records[i]),
    ensures
        forall|k: int| 0 <= k < fill_output(cfg, records).len() ==> output_ok(cfg, records, #[trigger] fill_output(cfg, records)[k]),
{
    lemma_run_ok(cfg, records);
    let (st, out) = run(cfg, initial_model(), records);
    lemma_flush_ok(cfg, records, st.groups);
    let f = flush(cfg, st.groups);
    assert forall|k: int| 0 <= k < out.len() implies output_ok(cfg, records, #[trigger] out[k]) by {
        let e = out[k];
        assert forall|j: int| 0 <= j < cfg.select.len() implies #[trigger] final_slot_ok(cfg, records, e.0 as int, e.1, j) by {
            assert(slot_ok(cfg, records, e.0 as int, e.1, j));
        }
    }
    assert forall|k: int| 0 <= k < fill_output(cfg, records).len() implies output_ok(cfg, records, #[trigger] fill_output(cfg, records)[k]) by {
        if k < out.len() {
            assert(fill_output(cfg, records)[k] == out[k]);
        } else {
            assert(fill_output(cfg, records)[k] == f[k - out.len()]);
        }
    }
}

/// Fields that are not filled pass through: each row that a run yields
/// comes from one input record, has its width, and has its fields, but for
/// target fields that were empty in it.
pub proof fn lemma_passthrough(cfg: FillConfig, records: Seq<Seq<Seq<u8>>>)
    requires
        config_ok(cfg),
        forall|i: int| 0 <= i < records.len() ==> record_ok(cfg, #[trigger] records[i]),
    ensures
        forall|k: int| 0 <= k < fill_output(cfg, records).len() ==> {
            let e = #[trigger] fill_output(cfg, records)[k];
            e.0 < records.len() && passes_through(cfg.select, records[e.0 as int], e.1)
        },
{
    lemma_output_ok(cfg, records);
}

/// Forward fill: under the latest-value policy, each target field of a row
/// holds the most recent non-empty value of its column among the rows of
/// its group up to and including it; where there is none and rows are not
/// held back, it stays empty.
pub proof fn lemma_forward_fill(cfg: FillConfig, records: Seq<Seq<Seq<u8>>>)
    requires
        config_ok(cfg),
        !cfg.first,
        forall|i: int| 0 <= i < records.len() ==> record_ok(cfg, #[trigger] records[i]),
    ensures
        forall|k: int, j: int| 0 <= k < fill_output(cfg, records).len() && 0 <= j < cfg.select.len() ==> {
            let e = #[trigger] fill_output(cfg, records)[k];
            let i = e.0 as int;
            let c = #[trigger] cfg.select[j] as int;
            let v = latest(cfg.groupby, c, records.take(i + 1), key_of(cfg.groupby, records[i]));
            &&& v is Some ==> e.1[c] == v->0
            &&& (v is None && !cfg.backfill) ==> e.1[c].len() == 0
        },
{
    lemma_output_ok(cfg, records);
    assert forall|k: int, j: int| 0 <= k < fill_output(cfg, records).len() && 0 <= j < cfg.select.len() implies {
            let e = #[trigger] fill_output(cfg, records)[k];
            let i = e.0 as int;
            let c = #[trigger] cfg.select[j] as int;
            let v = latest(cfg.groupby, c, records.take(i + 1), key_of(cfg.groupby, records[i]));
            &&& v is Some ==> e.1[c] == v->0
            &&& (v is None && !cfg.backfill) ==> e.1[c].len() == 0
        } by {
        let e = fill_output(cfg, records)[k];
        assert(slot_ok(cfg, records, e.0 as int, e.1, j));
    }
}

/// First fill: under the first-value policy, an empty target field of a
/// row takes the first non-empty value of its column in its group once that
/// value has been seen, and a later value never replaces it; with rows held
/// back, rows before that value take it too.
pub proof fn lemma_first_fill(cfg: FillConfig, records: Seq<Seq<Seq<u8>>>)
    requires
        config_ok(cfg),
        cfg.first,
        forall|i: int| 0 <= i < records.len() ==> record_ok(cfg, #[trigger] records[i]),
    ensures
        forall|k: int, j: int| 0 <= k < fill_output(cfg, records).len() && 0 <= j < cfg.select.len() ==> {
            let e = #[trigger] fill_output(cfg, records)[k];
            let i = e.0 as int;
            let c = #[trigger] cfg.select[j] as int;
            let key = key_of(cfg.groupby, records[i]);
            let seen = earliest(cfg.groupby, c, records.take(i + 1), key);
            let any = earliest(cfg.groupby, c, records, key);
            &&& (records[i][c].len() == 0 && seen is Some) ==> e.1[c] == seen->0
            &&& (records[i][c].len() == 0 && cfg.backfill && any is Some) ==> e.1[c] == any->0
        },
{
    lemma_output_ok(cfg, records);
    assert forall|k: int, j: int| 0 <= k < fill_output(cfg, records).len() && 0 <= j < cfg.select.len() implies {
            let e = #[trigger] fill_output(cfg, records)[k];
            let i = e.0 as int;
            let c = #[trigger] cfg.select[j] as int;
            let key = key_of(cfg.groupby, records[i]);
            let seen = earliest(cfg.groupby, c, records.take(i + 1), key);
            let any = earliest(cfg.groupby, c, records, key);
            &&& (records[i][c].len() == 0 && seen is Some) ==> e.1[c] == seen->0
            &&& (records[i][c].len() == 0 && cfg.backfill && any is Some) ==> e.1[c] == any->0
        } by {
        let e = fill_output(cfg, records)[k];
        let i = e.0 as int;
        let c = cfg.select[j] as int;
        let key = key_of(cfg.groupby, records[i]);
        assert(slot_ok(cfg, records, i, e.1, j));
        assert(final_slot_ok(cfg, records, i, e.1, j));
        if earliest(cfg.groupby, c, records.take(i + 1), key) is Some {
            lemma_earliest_stable(cfg.groupby, c, records, key, i + 1);
        }
    }
}

/// Holding back: with backfill on, a record's row is held back exactly when
/// a target field is still empty after filling; otherwise the rows held back
/// in its group leave first, in their order and filled again from the
/// group's memory as it now stands, and then the row itself.
pub proof fn lemma_hold_back(cfg: FillConfig, st: FillModel, r: Seq<Seq<u8>>)
    requires
        cfg.backfill,
    ensures
        ({
            let key = key_of(cfg.groupby, r);
            let g = group_index(st.groups, key);
            let gm = if g < st.groups.len() { st.groups[g] } else { new_group(cfg, key) };
            let mem = remember(cfg.first, cfg.select, gm.mem, r);
            let row = fill_row(cfg.select, mem, r);
            let (next, out) = step(cfg, st, r);
            &&& !resolved(cfg.select, row) ==> out.len() == 0 && next.groups[g].pending == gm.pending.push((st.count, row))
            &&& resolved(cfg.select, row) ==> out == refill(cfg.select, mem, gm.pending).push((st.count, row)) && next.groups[g].pending.len() == 0
        }),
{
}

/// Every input row leaves exactly once: the input positions of the rows
/// that a run yields are `0 .. n - 1`, each once, so the run yields as many
/// rows as it takes, whatever its configuration.
pub proof fn lemma_each_row_once(cfg: FillConfig, records: Seq<Seq<Seq<u8>>>)
    ensures
        origins(fill_output(cfg, records)).to_multiset() == positions(records.len()).to_multiset(),
        fill_output(cfg, records).len() == records.len(),
{
    lemma_run_accounted(cfg, records);
    let (st, out) = run(cfg, initial_model(), records);
    lemma_flush_origins(cfg, st.groups);
    lemma_origins_add(out, flush(cfg, st.groups));
    let all = origins(fill_output(cfg, records));
    all.to_multiset_ensures();
    positions(records.len()).to_multiset_ensures();
}

} // verus!
