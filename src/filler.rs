//! The fill engine: a state machine that takes one record at a time, keeps
//! one memory and one queue of pending rows per group, and says which rows
//! leave, in which order.

use crate::memory::{
    blank_memory, group_key, key_of, memorize, memorize_first, remember, same_key, selection_view,
};
use crate::record::{covers, fill_fields, fill_row, resolved, strictly_ascending};
use vstd::prelude::*;

verus! {

/// What a run is configured with: the grouping columns (if any), the target
/// columns, the policy (first value, or the latest) and whether leading
/// empty runs are held back until a value shows up.
pub struct FillConfig {
    pub groupby: Option<Seq<usize>>,
    pub select: Seq<usize>,
    pub first: bool,
    pub backfill: bool,
}

/// A row together with the position of its record in the input.
pub type Tagged = (nat, Seq<Seq<u8>>);

/// The state of one group: its key, its memory and its pending rows.
pub struct GroupModel {
    pub key: Seq<Seq<u8>>,
    pub mem: Seq<Option<Seq<u8>>>,
    pub pending: Seq<Tagged>,
}

/// The state of the engine: its groups in the order first seen, and the
/// number of records taken so far.
pub struct FillModel {
    pub groups: Seq<GroupModel>,
    pub count: nat,
}

/// The target selection is strictly ascending.
pub open spec fn config_ok(cfg: FillConfig) -> bool {
    strictly_ascending(cfg.select)
}

/// The record has every column that the target and grouping selections name.
pub open spec fn record_ok(cfg: FillConfig, r: Seq<Seq<u8>>) -> bool {
    &&& covers(cfg.select, r)
    &&& match cfg.groupby {
        Some(g) => covers(g, r),
        None => true,
    }
}

/// Every memory is as wide as the selection and no two groups share a key.
pub open spec fn model_ok(cfg: FillConfig, st: FillModel) -> bool {
    &&& forall|i: int| 0 <= i < st.groups.len() ==> #[trigger] st.groups[i].mem.len() == cfg.select.len()
    &&& forall|i: int, j: int|
        0 <= i < st.groups.len() && 0 <= j < st.groups.len() && i != j ==> st.groups[i].key
            != st.groups[j].key
}

pub open spec fn initial_model() -> FillModel {
    FillModel { groups: Seq::empty(), count: 0 }
}

pub open spec fn new_group(cfg: FillConfig, key: Seq<Seq<u8>>) -> GroupModel {
    GroupModel { key, mem: blank_memory(cfg.select.len()), pending: Seq::empty() }
}

/// Index of the group with `key`, or the number of groups if there is none.
pub open spec fn group_index(groups: Seq<GroupModel>, key: Seq<Seq<u8>>) -> int {
    if exists|i: int| 0 <= i < groups.len() && groups[i].key == key {
        choose|i: int| 0 <= i < groups.len() && groups[i].key == key
    } else {
        groups.len() as int
    }
}

/// Pending rows filled once more from `mem`, in their order.
pub open spec fn refill(sel: Seq<usize>, mem: Seq<Option<Seq<u8>>>, pending: Seq<Tagged>) -> Seq<
    Tagged,
> {
    pending.map_values(|p: Tagged| (p.0, fill_row(sel, mem, p.1)))
}

/// The rows of tagged rows.
pub open spec fn rows_of(s: Seq<Tagged>) -> Seq<Seq<Seq<u8>>> {
    s.map_values(|p: Tagged| p.1)
}

/// One record `r`, the `idx`-th of the input, taken by group `gm`: memorize,
/// fill, then hold the row back or release the group's pending rows and it.
pub open spec fn group_step(cfg: FillConfig, gm: GroupModel, idx: nat, r: Seq<Seq<u8>>) -> (
    GroupModel,
    Seq<Tagged>,
) {
    let mem = remember(cfg.first, cfg.select, gm.mem, r);
    let row = fill_row(cfg.select, mem, r);
    if cfg.backfill && !resolved(cfg.select, row) {
        (GroupModel { key: gm.key, mem, pending: gm.pending.push((idx, row)) }, Seq::empty())
    } else {
        (
            GroupModel { key: gm.key, mem, pending: Seq::empty() },
            refill(cfg.select, mem, gm.pending).push((idx, row)),
        )
    }
}

/// One record taken by the engine: the new state and the rows released.
pub open spec fn step(cfg: FillConfig, st: FillModel, r: Seq<Seq<u8>>) -> (FillModel, Seq<Tagged>) {
    let key = key_of(cfg.groupby, r);
    let g = group_index(st.groups, key);
    let gm = if g < st.groups.len() {
        st.groups[g]
    } else {
        new_group(cfg, key)
    };
    let (gm2, out) = group_step(cfg, gm, st.count, r);
    let groups = if g < st.groups.len() {
        st.groups.update(g, gm2)
    } else {
        st.groups.push(gm2)
    };
    (FillModel { groups, count: st.count + 1 }, out)
}

/// The records taken one after the other: the final state and every row
/// released on the way.
pub open spec fn run(cfg: FillConfig, st: FillModel, records: Seq<Seq<Seq<u8>>>) -> (
    FillModel,
    Seq<Tagged>,
)
    decreases records.len(),
{
    if records.len() == 0 {
        (st, Seq::empty())
    } else {
        let (mid, out) = run(cfg, st, records.drop_last());
        let (last, out2) = step(cfg, mid, records.last());
        (last, out + out2)
    }
}

/// The end of the stream: each group's pending rows, filled from its final
/// memory, group after group in the order first seen.
pub open spec fn flush(cfg: FillConfig, groups: Seq<GroupModel>) -> Seq<Tagged>
    decreases groups.len(),
{
    if groups.len() == 0 {
        Seq::empty()
    } else {
        flush(cfg, groups.drop_last()) + refill(cfg.select, groups.last().mem, groups.last().pending)
    }
}

/// Every row that a whole stream yields, from the state `st` on.
pub open spec fn stream_output(cfg: FillConfig, st: FillModel, records: Seq<Seq<Seq<u8>>>) -> Seq<
    Tagged,
> {
    run(cfg, st, records).1 + flush(cfg, run(cfg, st, records).0.groups)
}

/// Every row that a whole stream yields from a fresh engine.
pub open spec fn fill_output(cfg: FillConfig, records: Seq<Seq<Seq<u8>>>) -> Seq<Tagged> {
    stream_output(cfg, initial_model(), records)
}

/// Why a record could not be taken.
#[derive(Clone, Copy, Debug, PartialEq, Eq, Structural)]
pub enum FillError {
    /// The record lacks a column that the target or grouping selection names.
    RecordTooShort,
}

struct Group {
    key: Vec<Vec<u8>>,
    memory: Vec<Option<Vec<u8>>>,
    pending: Vec<Vec<Vec<u8>>>,
    origins: Ghost<Seq<nat>>,
}

impl Group {
    closed spec fn model(&self) -> GroupModel {
        GroupModel {
            key: self.key.deep_view(),
            mem: self.memory.deep_view(),
            pending: Seq::new(
                self.pending@.len(),
                |i: int| (self.origins@[i], self.pending.deep_view()[i]),
            ),
        }
    }

    closed spec fn wf(&self, n: nat) -> bool {
        &&& self.memory@.len() == n
        &&& self.origins@.len() == self.pending@.len()
    }

    /// Takes the `idx`-th record of the input, which belongs to this group.
    fn absorb(
        &mut self,
        select: &Vec<usize>,
        first: bool,
        backfill: bool,
        record: &Vec<Vec<u8>>,
        cfg: Ghost<FillConfig>,
        idx: Ghost<nat>,
    ) -> (r: Vec<Vec<Vec<u8>>>)
        requires
            old(self).wf(select@.len()),
            strictly_ascending(select@),
            covers(select@, record.deep_view()),
            cfg@.select == select@,
            cfg@.first == first,
            cfg@.backfill == backfill,
        ensures
            final(self).wf(select@.len()),
            final(self).model() == group_step(cfg@, old(self).model(), idx@, record.deep_view()).0,
            r.deep_view() == rows_of(
                group_step(cfg@, old(self).model(), idx@, record.deep_view()).1,
            ),
    {
        let ghost before = self.model();
        if first {
            memorize_first(&mut self.memory, select, record);
        } else {
            memorize(&mut self.memory, select, record);
        }
        let ghost mem = self.memory.deep_view();
        assert(mem == remember(first, select@, before.mem, record.deep_view()));
        let row = fill_fields(select, &self.memory, record);
        assert(covers(select@, row.deep_view()));
        if backfill && !all_resolved(select, &row) {
            let ghost old_pending = self.pending.deep_view();
            self.pending.push(row);
            self.origins = Ghost(self.origins@.push(idx@));
            assert(self.pending.deep_view() =~= old_pending.push(row.deep_view()));
            assert(self.model().pending =~= before.pending.push((idx@, row.deep_view())));
            Vec::new()
        } else {
            let mut rows: Vec<Vec<Vec<u8>>> = Vec::new();
            core::mem::swap(&mut self.pending, &mut rows);
            self.origins = Ghost(Seq::empty());
            assert(self.model().pending =~= Seq::<Tagged>::empty());
            let ghost target = rows_of(refill(select@, mem, before.pending));
            let mut out: Vec<Vec<Vec<u8>>> = Vec::new();
            let mut i: usize = 0;
            while i < rows.len()
                invariant
                    strictly_ascending(select@),
                    self.memory@.len() == select@.len(),
                    self.memory.deep_view() == mem,
                    i <= rows.len(),
                    rows@.len() == before.pending.len(),
                    forall|k: int| 0 <= k < rows@.len() ==> rows.deep_view()[k] == before.pending[k].1,
                    target == rows_of(refill(select@, mem, before.pending)),
                    out.deep_view() == target.take(i as int),
                decreases rows.len() - i,
            {
                let ghost prev = out.deep_view();
                let filled = fill_fields(select, &self.memory, &rows[i]);
                out.push(filled);
                assert(out.deep_view() =~= prev.push(filled.deep_view()));
                assert(target.len() == rows@.len());
                assert(filled.deep_view() == fill_row(select@, mem, rows.deep_view()[i as int]));
                assert(target[i as int] == fill_row(select@, mem, before.pending[i as int].1));
                assert(out.deep_view() =~= target.take(i as int + 1));
                i = i + 1;
            }
            assert(out.deep_view() =~= target);
            let ghost prev = out.deep_view();
            out.push(row);
            assert(out.deep_view() =~= prev.push(row.deep_view()));
            assert(out.deep_view() =~= rows_of(refill(select@, mem, before.pending).push((idx@, row.deep_view()))));
            out
        }
    }

    /// Releases the pending rows, each filled once more from the memory.
    fn drain(&self, select: &Vec<usize>) -> (r: Vec<Vec<Vec<u8>>>)
        requires
            self.wf(select@.len()),
            strictly_ascending(select@),
        ensures
            r.deep_view() == rows_of(refill(select@, self.model().mem, self.model().pending)),
    {
        let ghost target = rows_of(refill(select@, self.model().mem, self.model().pending));
        let mut out: Vec<Vec<Vec<u8>>> = Vec::new();
        let mut i: usize = 0;
        while i < self.pending.len()
            invariant
                self.wf(select@.len()),
                strictly_ascending(select@),
                i <= self.pending@.len(),
                target == rows_of(refill(select@, self.model().mem, self.model().pending)),
                out.deep_view() == target.take(i as int),
            decreases self.pending.len() - i,
        {
            let ghost prev = out.deep_view();
            let filled = fill_fields(select, &self.memory, &self.pending[i]);
            out.push(filled);
            assert(out.deep_view() =~= prev.push(filled.deep_view()));
            assert(self.model().pending[i as int].1 == self.pending.deep_view()[i as int]);
            assert(out.deep_view() =~= target.take(i as int + 1));
            i = i + 1;
        }
        assert(out.deep_view() =~= target);
        out
    }
}

/// The fill engine. It owns one memory and one queue of pending rows per
/// group; nothing else is kept from one record to the next.
pub struct Filler {
    groupby: Option<Vec<usize>>,
    select: Vec<usize>,
    first: bool,
    backfill: bool,
    groups: Vec<Group>,
    count: Ghost<nat>,
}

impl Filler {
    /// The configuration of the engine.
    pub closed spec fn config(&self) -> FillConfig {
        FillConfig {
            groupby: selection_view(self.groupby),
            select: self.select@,
            first: self.first,
            backfill: self.backfill,
        }
    }

    /// The state of the engine.
    pub closed spec fn model(&self) -> FillModel {
        FillModel {
            groups: Seq::new(self.groups@.len(), |i: int| self.groups@[i].model()),
            count: self.count@,
        }
    }

    pub closed spec fn wf(&self) -> bool {
        &&& config_ok(self.config())
        &&& model_ok(self.config(), self.model())
        &&& forall|i: int| 0 <= i < self.groups@.len() ==> #[trigger] self.groups@[i].wf(self.select@.len())
    }

    /// An engine with the given grouping and target columns, under the
    /// forward policy and without backfill.
    pub fn new(groupby: Option<Vec<usize>>, select: Vec<usize>) -> (r: Self)
        requires
            strictly_ascending(select@),
        ensures
            r.wf(),
            r.config() == (FillConfig {
                groupby: selection_view(groupby),
                select: select@,
                first: false,
                backfill: false,
            }),
            r.model() == initial_model(),
    {
        let r = Filler {
            groupby,
            select,
            first: false,
            backfill: false,
            groups: Vec::new(),
            count: Ghost(0),
        };
        assert(r.model().groups =~= Seq::<GroupModel>::empty());
        r
    }

    /// The same engine, filling with the first value seen (`true`) or the
    /// latest one (`false`).
    pub fn use_first_value(self, first: bool) -> (r: Self)
        requires
            self.wf(),
        ensures
            r.wf(),
            r.config() == (FillConfig { first, ..self.config() }),
            r.model() == self.model(),
    {
        let mut r = self;
        r.first = first;
        assert(r.model().groups =~= self.model().groups);
        r
    }

    /// The same engine, holding back rows that stay incomplete (`true`) or
    /// releasing each row at once (`false`).
    pub fn backfill_empty_values(self, backfill: bool) -> (r: Self)
        requires
            self.wf(),
        ensures
            r.wf(),
            r.config() == (FillConfig { backfill, ..self.config() }),
            r.model() == self.model(),
    {
        let mut r = self;
        r.backfill = backfill;
        assert(r.model().groups =~= self.model().groups);
        r
    }

    /// Whether `record` has every column that the selections name.
    pub fn fits(&self, record: &Vec<Vec<u8>>) -> (r: bool)
        ensures
            r == record_ok(self.config(), record.deep_view()),
    {
        let mut j: usize = 0;
        while j < self.select.len()
            invariant
                j <= self.select.len(),
                forall|i: int| 0 <= i < j ==> (self.select@[i] as int) < record.deep_view().len(),
            decreases self.select.len() - j,
        {
            if self.select[j] >= record.len() {
                return false;
            }
            j = j + 1;
        }
        match &self.groupby {
            Some(g) => {
                let mut j: usize = 0;
                while j < g.len()
                    invariant
                        selection_view(self.groupby) == Some(g@),
                        covers(self.select@, record.deep_view()),
                        j <= g.len(),
                        forall|i: int| 0 <= i < j ==> (g@[i] as int) < record.deep_view().len(),
                    decreases g.len() - j,
                {
                    if g[j] >= record.len() {
                        assert(selection_view(self.groupby) == Some(g@));
                        assert(!covers(g@, record.deep_view())) by {
                            assert((g@[j as int] as int) >= record.deep_view().len());
                        }
                        return false;
                    }
                    j = j + 1;
                }
                true
            },
            None => true,
        }
    }

    /// Takes the next record: memorizes its values in its group, fills it,
    /// and returns the rows that leave now. A record that lacks a selected
    /// column is refused and changes nothing.
    pub fn push(&mut self, record: &Vec<Vec<u8>>) -> (r: Result<Vec<Vec<Vec<u8>>>, FillError>)
        requires
            old(self).wf(),
        ensures
            final(self).wf(),
            final(self).config() == old(self).config(),
            r is Ok <==> record_ok(old(self).config(), record.deep_view()),
            r is Ok ==> final(self).model() == step(
                old(self).config(),
                old(self).model(),
                record.deep_view(),
            ).0,
            r is Ok ==> r->Ok_0.deep_view() == rows_of(
                step(old(self).config(), old(self).model(), record.deep_view()).1,
            ),
            r is Err ==> r->Err_0 == FillError::RecordTooShort && final(self).model() == old(
                self,
            ).model(),
    {
        if !self.fits(record) {
            return Err(FillError::RecordTooShort);
        }
        let ghost cfg = self.config();
        let ghost st = self.model();
        let ghost rec = record.deep_view();
        let key = group_key(&self.groupby, record);
        let g = self.find_group(&key);
        if g == self.groups.len() {
            let mut memory: Vec<Option<Vec<u8>>> = Vec::new();
            let mut j: usize = 0;
            while j < self.select.len()
                invariant
                    j <= self.select@.len(),
                    memory@.len() == j,
                    forall|k: int| 0 <= k < j ==> memory.deep_view()[k] is None,
                decreases self.select.len() - j,
            {
                let ghost prev = memory.deep_view();
                memory.push(None);
                assert(memory.deep_view() =~= prev.push(None));
                j = j + 1;
            }
            assert(memory.deep_view() =~= blank_memory(self.select@.len()));
            let ghost before = self.model().groups;
            self.groups.push(
                Group { key, memory, pending: Vec::new(), origins: Ghost(Seq::empty()) },
            );
            assert(self.groups@[g as int].model().pending =~= Seq::<Tagged>::empty());
            assert(self.model().groups =~= before.push(new_group(cfg, key_of(cfg.groupby, rec))));
        }
        let ghost mid = self.model().groups;
        assert(mid[g as int] == if g < st.groups.len() {
            st.groups[g as int]
        } else {
            new_group(cfg, key_of(cfg.groupby, rec))
        });
        let ghost idx = self.count@;
        let out = self.groups[g].absorb(
            &self.select,
            self.first,
            self.backfill,
            record,
            Ghost(cfg),
            Ghost(idx),
        );
        self.count = Ghost(self.count@ + 1);
        proof {
            let next = step(cfg, st, rec).0;
            assert(self.model().groups =~= next.groups);
            assert(model_ok(cfg, self.model())) by {
                assert forall|a: int, b: int|
                    0 <= a < self.groups@.len() && 0 <= b < self.groups@.len() && a != b implies #[trigger] self.model().groups[a].key
                    != #[trigger] self.model().groups[b].key by {
                    assert(self.model().groups[a].key == mid[a].key);
                    assert(self.model().groups[b].key == mid[b].key);
                    if g == st.groups.len() {
                        if a == g as int {
                            assert(st.groups[b].key != key_of(cfg.groupby, rec));
                        } else if b == g as int {
                            assert(st.groups[a].key != key_of(cfg.groupby, rec));
                        }
                    }
                }
            }
        }
        Ok(out)
    }

    /// Ends the stream: releases each group's pending rows, filled from the
    /// group's final memory, group after group in the order first seen.
    pub fn finish(self) -> (r: Vec<Vec<Vec<u8>>>)
        requires
            self.wf(),
        ensures
            r.deep_view() == rows_of(flush(self.config(), self.model().groups)),
    {
        let ghost cfg = self.config();
        let ghost groups = self.model().groups;
        let mut out: Vec<Vec<Vec<u8>>> = Vec::new();
        let mut i: usize = 0;
        while i < self.groups.len()
            invariant
                self.wf(),
                cfg == self.config(),
                groups == self.model().groups,
                i <= self.groups@.len(),
                out.deep_view() == rows_of(flush(cfg, groups.take(i as int))),
            decreases self.groups.len() - i,
        {
            let ghost prev = out.deep_view();
            let mut drained = self.groups[i].drain(&self.select);
            let ghost d = drained.deep_view();
            out.append(&mut drained);
            assert(groups.take(i as int + 1).drop_last() =~= groups.take(i as int));
            assert(out.deep_view() =~= prev + d);
            assert(rows_of(flush(cfg, groups.take(i as int + 1))) =~= prev + d);
            i = i + 1;
        }
        assert(groups.take(i as int) =~= groups);
        out
    }

    /// Runs a whole stream of records through the engine and returns every
    /// row in the order it leaves, the pending rows at the end included.
    /// Fails if any record lacks a selected column.
    pub fn fill(self, records: &Vec<Vec<Vec<u8>>>) -> (r: Result<Vec<Vec<Vec<u8>>>, FillError>)
        requires
            self.wf(),
        ensures
            r is Ok <==> forall|i: int|
                0 <= i < records@.len() ==> record_ok(self.config(), #[trigger] records.deep_view()[i]),
            r is Ok ==> r->Ok_0.deep_view() == rows_of(
                stream_output(self.config(), self.model(), records.deep_view()),
            ),
            r is Err ==> r->Err_0 == FillError::RecordTooShort,
    {
        let ghost cfg = self.config();
        let ghost st = self.model();
        let ghost recs = records.deep_view();
        let mut filler = self;
        let mut out: Vec<Vec<Vec<u8>>> = Vec::new();
        let mut i: usize = 0;
        while i < records.len()
            invariant
                filler.wf(),
                filler.config() == cfg,
                cfg == self.config(),
                recs == records.deep_view(),
                i <= records@.len(),
                forall|k: int| 0 <= k < i ==> record_ok(cfg, #[trigger] recs[k]),
                filler.model() == run(cfg, st, recs.take(i as int)).0,
                out.deep_view() == rows_of(run(cfg, st, recs.take(i as int)).1),
            decreases records.len() - i,
        {
            let ghost prev = out.deep_view();
            match filler.push(&records[i]) {
                Ok(rows) => {
                    let mut rows = rows;
                    let ghost d = rows.deep_view();
                    out.append(&mut rows);
                    assert(recs.take(i as int + 1).drop_last() =~= recs.take(i as int));
                    assert(out.deep_view() =~= prev + d);
                    assert(rows_of(run(cfg, st, recs.take(i as int + 1)).1) =~= prev + d);
                },
                Err(e) => {
                    assert(!record_ok(cfg, recs[i as int]));
                    assert(i < records@.len() && !record_ok(cfg, records.deep_view()[i as int]));
                    assert(!(forall|k: int|
                        0 <= k < records@.len() ==> record_ok(cfg, #[trigger] records.deep_view()[k])));
                    return Err(e);
                },
            }
            i = i + 1;
        }
        assert(recs.take(i as int) =~= recs);
        let ghost prev = out.deep_view();
        let mut rest = filler.finish();
        let ghost d = rest.deep_view();
        out.append(&mut rest);
        assert(out.deep_view() =~= prev + d);
        assert(out.deep_view() =~= rows_of(stream_output(cfg, st, recs)));
        Ok(out)
    }

    /// Index of the group with `key`, or the number of groups.
    fn find_group(&self, key: &Vec<Vec<u8>>) -> (r: usize)
        requires
            self.wf(),
        ensures
            r as int == group_index(self.model().groups, key.deep_view()),
    {
        let ghost groups = self.model().groups;
        let mut i: usize = 0;
        while i < self.groups.len()
            invariant
                self.wf(),
                i <= self.groups@.len(),
                groups == self.model().groups,
                forall|k: int| 0 <= k < i ==> groups[k].key != key.deep_view(),
            decreases self.groups.len() - i,
        {
            if same_key(&self.groups[i].key, key) {
                proof {
                    assert(groups[i as int].key == key.deep_view());
                    let c = choose|c: int| 0 <= c < groups.len() && groups[c].key == key.deep_view();
                    if c != i as int {
                        assert(groups[c].key != groups[i as int].key);
                    }
                }
                return i;
            }
            i = i + 1;
        }
        i
    }
}

/// Whether every selected field of `row` is non-empty.
pub fn all_resolved(select: &Vec<usize>, row: &Vec<Vec<u8>>) -> (r: bool)
    requires
        covers(select@, row.deep_view()),
    ensures
        r == resolved(select@, row.deep_view()),
{
    let mut j: usize = 0;
    while j < select.len()
        invariant
            covers(select@, row.deep_view()),
            j <= select.len(),
            forall|i: int| 0 <= i < j ==> row.deep_view()[select@[i] as int].len() > 0,
        decreases select.len() - j,
    {
        if row[select[j]].len() == 0 {
            assert(row.deep_view()[select@[j as int] as int].len() == 0);
            return false;
        }
        j = j + 1;
    }
    true
}

} // verus!
