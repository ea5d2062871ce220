use vstd::prelude::*;
use vstd::bytes::{spec_u32_from_le_bytes, spec_u32_to_le_bytes, u32_from_le_bytes, u32_to_le_bytes};
use crate::archetype::{chunk_entities_total, chunk_fits, lemma_row_in_column, spec_row, Archetype};
use crate::entity::Entity;
use crate::query_mut::spec_patch;
use crate::view::{word_at, F32x2View, F32x2ViewMut, F32x3View};
use crate::world::World;
use crate::world_query::{arch_picks, arch_selected, pick_valid, picks_entities};

verus! {

/// Number of stored entities in the first `n` archetypes.
pub open spec fn archetypes_total(archs: Seq<Archetype>, n: int) -> nat
    decreases n,
{
    if n <= 0 {
        0
    } else {
        archetypes_total(archs, n - 1) + chunk_entities_total(archs[n - 1].chunks@, archs[n - 1].chunks@.len() as int)
    }
}

proof fn lemma_archetypes_total_mono(archs: Seq<Archetype>, i: int, n: int)
    requires
        i <= n,
    ensures
        archetypes_total(archs, i) <= archetypes_total(archs, n),
    decreases n - i,
{
    if i < n {
        lemma_archetypes_total_mono(archs, i, n - 1);
    }
}

/// The little-endian `u32` of the 4 bytes at `off` in row `r` of `data`
/// (rows of `es` bytes).
pub open spec fn row_word(data: Seq<u8>, es: nat, r: nat, off: nat) -> u32 {
    spec_u32_from_le_bytes(data.subrange((r * es + off) as int, (r * es + off + 4) as int))
}

/// The first 4-byte word of each row of the chunks at the first `n`
/// positions of `picks`, in column `cid`, concatenated.
pub open spec fn picks_words(archs: Seq<Archetype>, picks: Seq<(int, int)>, cid: u32, n: int) -> Seq<u32>
    decreases n,
{
    if n <= 0 {
        Seq::empty()
    } else {
        let p = picks[n - 1];
        let arch = archs[p.0];
        let col = arch.chunks@[p.1].columns@[arch.spec_column_of(cid)];
        picks_words(archs, picks, cid, n - 1) + Seq::new(
            arch.chunks@[p.1].entities@.len(),
            |i: int| row_word(col.data@, col.element_size as nat, i as nat, 0),
        )
    }
}

/// The first two 4-byte words of each 8-byte row of the chunks at the first
/// `n` positions of `picks`, in column `cid`, concatenated: the column's first
/// `2 * rows` words.
pub open spec fn picks_pairs(archs: Seq<Archetype>, picks: Seq<(int, int)>, cid: u32, n: int) -> Seq<u32>
    decreases n,
{
    if n <= 0 {
        Seq::empty()
    } else {
        let p = picks[n - 1];
        let arch = archs[p.0];
        let col = arch.chunks@[p.1].columns@[arch.spec_column_of(cid)];
        picks_pairs(archs, picks, cid, n - 1) + Seq::new(
            2 * arch.chunks@[p.1].entities@.len(),
            |i: int| row_word(col.data@, 4, i as nat, 0),
        )
    }
}

/// Only the first `n` positions matter to `picks_pairs`.
proof fn lemma_picks_pairs_prefix(archs: Seq<Archetype>, p: Seq<(int, int)>, q: Seq<(int, int)>, cid: u32, n: int)
    requires
        0 <= n <= p.len(),
        n <= q.len(),
        forall|i: int| 0 <= i < n ==> p[i] == q[i],
    ensures
        picks_pairs(archs, p, cid, n) == picks_pairs(archs, q, cid, n),
    decreases n,
{
    if n > 0 {
        lemma_picks_pairs_prefix(archs, p, q, cid, n - 1);
    }
}

proof fn lemma_pair_in_rows(j: nat, n: nat, es: nat, len: nat)
    by (nonlinear_arith)
    requires
        j < 2 * n,
        len == n * es,
        es >= 8,
    ensures
        j * 4 + 4 <= len,
{
}

/// Only the first `n` positions matter to `picks_words`.
proof fn lemma_picks_words_prefix(archs: Seq<Archetype>, p: Seq<(int, int)>, q: Seq<(int, int)>, cid: u32, n: int)
    requires
        0 <= n <= p.len(),
        n <= q.len(),
        forall|i: int| 0 <= i < n ==> p[i] == q[i],
    ensures
        picks_words(archs, p, cid, n) == picks_words(archs, q, cid, n),
    decreases n,
{
    if n > 0 {
        lemma_picks_words_prefix(archs, p, q, cid, n - 1);
    }
}

proof fn lemma_word_in_row(r: nat, n: nat, es: nat, len: nat)
    by (nonlinear_arith)
    requires
        r < n,
        len == n * es,
        es >= 4,
    ensures
        r * es + 4 <= len,
        r * es + es <= len,
{
}

/// `w1` is `w0` with the 4 bytes at `off` of `e`'s component `cid` set to `v`.
pub open spec fn flat_step(w0: World, w1: World, e: Entity, cid: u32, off: int, v: u32) -> bool {
    &&& w1.spec_components(e.id as int) == w0.spec_components(e.id as int).insert(
        cid,
        spec_patch(w0.spec_components(e.id as int)[cid], off, spec_u32_to_le_bytes(v)),
    )
    &&& w0.spec_others_unchanged(&w1, e.id as int)
    &&& w1.spec_same_layout(&w0)
}

/// `w1` is `w0` after writing `values[k]` as the 4 bytes at `off` of
/// component `cid` of the `k`-th entity a query for `cid` lists, for as many
/// entities as there are values.
pub open spec fn flat_written(w0: World, w1: World, cid: u32, off: int, values: Seq<u32>) -> bool {
    exists|ws: Seq<World>|
        #![trigger ws.len()]
        {
            let ents = w0.spec_query_entities(seq![cid]);
            let m = if values.len() < ents.len() {
                values.len() as int
            } else {
                ents.len() as int
            };
            &&& ws.len() == m + 1
            &&& ws[0] == w0
            &&& ws[m] == w1
            &&& forall|k: int| 0 <= k < m ==> flat_step(ws[k], #[trigger] ws[k + 1], ents[k], cid, off, values[k])
        }
}

/// Components of `w` differ from those of `w0` only in values of component `cid`.
pub open spec fn frame_ok_flat(w: World, w0: World, cid: u32) -> bool {
    &&& forall|x: int| (#[trigger] w.spec_components(x)).dom() == w0.spec_components(x).dom()
    &&& forall|x: int, c: u32|
        w0.spec_components(x).dom().contains(c) && c != cid ==> #[trigger] w.spec_components(x)[c]
            == w0.spec_components(x)[c]
}

/// A flat read collects one word per listed entity; when the component is at
/// least 4 bytes wide, the word of the `k`-th entity is the first word of its
/// component `cid`.
proof fn lemma_picks_words_components(w: World, cid: u32, p: Seq<(int, int)>, n: int)
    requires
        w.wf(),
        (cid as int) < w.spec_schemas().len(),
        0 <= n <= p.len(),
        forall|i: int|
            0 <= i < p.len() ==> pick_valid(w.archetypes@, #[trigger] p[i]) && arch_selected(
                w.archetypes@[p[i].0],
                seq![cid],
                Seq::empty(),
            ),
    ensures
        picks_words(w.archetypes@, p, cid, n).len() == picks_entities(w.archetypes@, p, n).len(),
        w.spec_schemas()[cid as int].size >= 4 ==> forall|k: int|
            0 <= k < picks_words(w.archetypes@, p, cid, n).len() ==> #[trigger] picks_words(w.archetypes@, p, cid, n)[k]
                == word_at(w.spec_components(picks_entities(w.archetypes@, p, n)[k].id as int)[cid], 0),
    decreases n,
{
    if n > 0 {
        lemma_picks_words_components(w, cid, p, n - 1);
        let archs = w.archetypes@;
        let a = p[n - 1].0;
        let c = p[n - 1].1;
        assert(pick_valid(archs, p[n - 1]));
        assert(arch_selected(archs[a], seq![cid], Seq::empty()));
        let arch = archs[a];
        let chunk = arch.chunks@[c];
        let col = chunk.columns@[arch.spec_column_of(cid)];
        let prev_w = picks_words(archs, p, cid, n - 1);
        let prev_e = picks_entities(archs, p, n - 1);
        let seg = Seq::new(chunk.entities@.len(), |i: int| row_word(col.data@, col.element_size as nat, i as nat, 0));
        assert(picks_words(archs, p, cid, n) == prev_w + seg);
        assert(picks_entities(archs, p, n) == prev_e + chunk.entities@);
        if w.spec_schemas()[cid as int].size >= 4 {
            w.lemma_archetype_ok(a);
            assert(seq![cid][0] == cid);
            assert(arch.component_ids@.contains(cid));
            let kc = arch.spec_column_of(cid);
            assert(0 <= kc < arch.component_ids@.len() && arch.component_ids@[kc] == cid);
            assert(chunk_fits(chunk, arch.spec_template()));
            let es = col.element_size as nat;
            assert(es >= 4);
            let ws = picks_words(archs, p, cid, n);
            let es_all = picks_entities(archs, p, n);
            assert forall|k: int| 0 <= k < ws.len() implies #[trigger] ws[k] == word_at(
                w.spec_components(es_all[k].id as int)[cid],
                0,
            ) by {
                if k < prev_w.len() {
                    assert(ws[k] == prev_w[k]);
                    assert(es_all[k] == prev_e[k]);
                } else {
                    let r = k - prev_w.len();
                    let e = chunk.entities@[r];
                    assert(es_all[k] == e);
                    w.lemma_stored_entity(a, c, r);
                    lemma_row_in_column(col.data@.len(), es, chunk.entities@.len(), r as nat);
                    let row = spec_row(col.data@, es, r as nat);
                    assert(w.spec_components(e.id as int)[cid] == row);
                    assert(row.subrange(0, 4) =~= col.data@.subrange((r * es) as int, (r * es + 4) as int));
                }
            }
        }
    }
}

/// Along a chain of flat writes to distinct entities, each written entity's
/// word at `off` holds its value, and every component keeps its ids and sizes.
proof fn lemma_flat_chain(ws: Seq<World>, ents: Seq<Entity>, cid: u32, off: int, values: Seq<u32>, m: int, j: int)
    requires
        ws.len() == m + 1,
        0 <= j <= m,
        m <= ents.len(),
        m <= values.len(),
        0 <= off,
        forall|k: int| 0 <= k < m ==> flat_step(ws[k], #[trigger] ws[k + 1], ents[k], cid, off, values[k]),
        forall|a: int, b: int| 0 <= a < b < ents.len() ==> (#[trigger] ents[a]).id != (#[trigger] ents[b]).id,
        forall|k: int|
            0 <= k < m ==> {
                &&& ws[0].spec_components((#[trigger] ents[k]).id as int).dom().contains(cid)
                &&& off + 4 <= ws[0].spec_components(ents[k].id as int)[cid].len()
            },
    ensures
        forall|k: int|
            0 <= k < j ==> {
                &&& ws[j].spec_components((#[trigger] ents[k]).id as int).dom().contains(cid)
                &&& word_at(ws[j].spec_components(ents[k].id as int)[cid], off) == values[k]
            },
        forall|x: int|
            {
                &&& (#[trigger] ws[j].spec_components(x)).dom() == ws[0].spec_components(x).dom()
                &&& ws[0].spec_components(x).dom().contains(cid) ==> ws[j].spec_components(x)[cid].len()
                    == ws[0].spec_components(x)[cid].len()
            },
    decreases j,
{
    if j > 0 {
        lemma_flat_chain(ws, ents, cid, off, values, m, j - 1);
        let i = j - 1;
        let e = ents[i];
        assert(flat_step(ws[i], ws[i + 1], e, cid, off, values[i]));
        assert(ws[0].spec_components(e.id as int).dom().contains(cid));
        let old_b = ws[i].spec_components(e.id as int)[cid];
        let new_b = spec_patch(old_b, off, spec_u32_to_le_bytes(values[i]));
        vstd::bytes::lemma_auto_spec_u32_to_from_le_bytes();
        assert(spec_u32_to_le_bytes(values[i]).len() == 4);
        assert(new_b.subrange(off, off + 4) =~= spec_u32_to_le_bytes(values[i]));
        assert forall|x: int| {
            &&& (#[trigger] ws[j].spec_components(x)).dom() == ws[0].spec_components(x).dom()
            &&& ws[0].spec_components(x).dom().contains(cid) ==> ws[j].spec_components(x)[cid].len()
                == ws[0].spec_components(x)[cid].len()
        } by {
            assert(ws[i].spec_components(x).dom() == ws[0].spec_components(x).dom());
            if x == e.id as int {
                assert(ws[j].spec_components(x).dom() =~= ws[i].spec_components(x).dom());
            } else {
                assert(ws[j].spec_components(x) == ws[i].spec_components(x));
            }
        }
        assert forall|k: int| 0 <= k < j implies {
            &&& ws[j].spec_components((#[trigger] ents[k]).id as int).dom().contains(cid)
            &&& word_at(ws[j].spec_components(ents[k].id as int)[cid], off) == values[k]
        } by {
            if k < i {
                assert(ents[k].id != ents[i].id);
                assert(ws[j].spec_components(ents[k].id as int) == ws[i].spec_components(ents[k].id as int));
            }
        }
    }
}

/// Writing the first field of every stored instance of component `cid` with
/// `set_flat_f32_buffer` (one value per instance, in query order) and reading
/// that field back with `get_flat_f32_buffer` gives exactly the written values.
pub proof fn lemma_flat_buffer_round_trip(before: World, after: World, cid: u32, values: Seq<u32>)
    requires
        before.wf(),
        after.wf(),
        (cid as int) < before.spec_schemas().len(),
        before.spec_query_entities(seq![cid]).len() > 0 ==> before.spec_schemas()[cid as int].size >= 4,
        values.len() == before.spec_query_entities(seq![cid]).len(),
        flat_written(before, after, cid, 0, values),
    ensures
        picks_words(
            after.archetypes@,
            after.spec_query_picks(seq![cid], Seq::empty()),
            cid,
            after.spec_query_picks(seq![cid], Seq::empty()).len() as int,
        ) == values,
{
    let inc = seq![cid];
    let exc = Seq::<u32>::empty();
    let ents = before.spec_query_entities(inc);
    let m = ents.len() as int;
    let ws = choose|ws: Seq<World>|
        #![trigger ws.len()]
        {
            &&& ws.len() == m + 1
            &&& ws[0] == before
            &&& ws[m] == after
            &&& forall|k: int| 0 <= k < m ==> flat_step(ws[k], #[trigger] ws[k + 1], ents[k], cid, 0, values[k])
        };
    // the layout never changes along the chain
    assert forall|j: int| 0 <= j <= m implies #[trigger] ws[j].spec_same_layout(&before) by {
        lemma_chain_layout(ws, ents, cid, values, m, j);
    }
    assert(ws[m].spec_same_layout(&before));
    assert(after.spec_same_layout(&before));
    before.lemma_query_same_layout(&after, inc, exc);
    let p = before.spec_query_picks(inc, exc);
    let archs = after.archetypes@;
    crate::world_query::lemma_arch_picks_valid(before.archetypes@, inc, exc, before.archetypes@.len() as int, true);
    assert(after.spec_schemas() == before.spec_schemas());
    assert(archs.len() == before.archetypes@.len());
    assert forall|i: int| 0 <= i < p.len() implies pick_valid(archs, #[trigger] p[i]) && arch_selected(
        archs[p[i].0],
        inc,
        Seq::empty(),
    ) by {
        assert(pick_valid(before.archetypes@, p[i]));
        assert(arch_selected(before.archetypes@[p[i].0], inc, exc));
        assert(archs[p[i].0].component_ids@ == before.archetypes@[p[i].0].component_ids@);
    }
    lemma_picks_words_components(after, cid, p, p.len() as int);
    assert(picks_entities(archs, p, p.len() as int) == ents);
    if m > 0 {
        before.lemma_query_entities_distinct(inc);
        assert forall|k: int| 0 <= k < m implies {
            &&& ws[0].spec_components((#[trigger] ents[k]).id as int).dom().contains(cid)
            &&& 0 + 4 <= ws[0].spec_components(ents[k].id as int)[cid].len()
        } by {
            before.lemma_query_entity_has(inc, k);
            assert(inc[0] == cid);
            before.lemma_component_layout(ents[k].id as int, cid);
        }
        lemma_flat_chain(ws, ents, cid, 0, values, m, m);
    }
    let out = picks_words(archs, p, cid, p.len() as int);
    assert(out =~= values);
}

/// Every world of a chain of flat writes has the layout of the first.
proof fn lemma_chain_layout(ws: Seq<World>, ents: Seq<Entity>, cid: u32, values: Seq<u32>, m: int, j: int)
    requires
        ws.len() == m + 1,
        0 <= j <= m,
        m <= ents.len(),
        m <= values.len(),
        forall|k: int| 0 <= k < m ==> flat_step(ws[k], #[trigger] ws[k + 1], ents[k], cid, 0, values[k]),
    ensures
        ws[j].spec_same_layout(&ws[0]),
    decreases j,
{
    if j > 0 {
        lemma_chain_layout(ws, ents, cid, values, m, j - 1);
        let i = j - 1;
        assert(flat_step(ws[i], ws[i + 1], ents[i], cid, 0, values[i]));
        crate::world_query::lemma_same_layout_trans(ws[0], ws[j - 1], ws[j]);
    } else {
        assert forall|a: int| 0 <= a < ws[0].archetypes@.len() implies {
            &&& (#[trigger] ws[0].archetypes@[a]).component_ids@ == ws[0].archetypes@[a].component_ids@
            &&& ws[0].archetypes@[a].chunks@.len() == ws[0].archetypes@[a].chunks@.len()
            &&& forall|c: int|
                0 <= c < ws[0].archetypes@[a].chunks@.len() ==> (#[trigger] ws[0].archetypes@[a].chunks@[c]).entities@
                    == ws[0].archetypes@[a].chunks@[c].entities@
        } by {}
    }
}

impl World {
    /// Total number of stored entities over all archetypes.
    pub open spec fn spec_total_stored(&self) -> nat {
        archetypes_total(self.archetypes@, self.archetypes@.len() as int)
    }

    /// Total number of entities stored in archetypes.
    pub fn total_entities_in_archetypes(&self) -> (r: usize)
        requires
            self.spec_total_stored() <= usize::MAX,
        ensures
            r == self.spec_total_stored(),
    {
        let n = self.archetypes.len();
        let mut total: usize = 0;
        let mut a: usize = 0;
        while a < n
            invariant
                n == self.archetypes@.len(),
                a <= n,
                total == archetypes_total(self.archetypes@, a as int),
                archetypes_total(self.archetypes@, n as int) <= usize::MAX,
            decreases n - a,
        {
            proof {
                lemma_archetypes_total_mono(self.archetypes@, a as int + 1, n as int);
            }
            total = total + self.archetypes[a].total_entities();
            a = a + 1;
        }
        total
    }

    /// A read-only two-`f32` view of alive `entity`'s component `component_id`.
    pub fn get_f32x2(&self, entity: Entity, component_id: u32) -> (r: Option<F32x2View<'_>>)
        requires
            self.wf(),
        ensures
            match r {
                Some(v) => {
                    &&& self.spec_is_alive(entity)
                    &&& self.spec_components(entity.id as int).dom().contains(component_id)
                    &&& v.data@ == self.spec_components(entity.id as int)[component_id]
                },
                None => !self.spec_is_alive(entity) || !self.spec_components(entity.id as int).dom().contains(component_id),
            },
    {
        match self.get_component_bytes(entity, component_id) {
            Some(b) => Some(F32x2View { data: b }),
            None => None,
        }
    }

    /// A mutable two-`f32` view of alive `entity`'s component `component_id`;
    /// writes through it land in that component's stored bytes.
    pub fn get_f32x2_mut(&mut self, entity: Entity, component_id: u32) -> (r: Option<F32x2ViewMut<'_>>)
        requires
            old(self).wf(),
        ensures
            match r {
                Some(v) => {
                    &&& old(self).spec_is_alive(entity)
                    &&& old(self).spec_components(entity.id as int).dom().contains(component_id)
                    &&& v.data@ == old(self).spec_components(entity.id as int)[component_id]
                },
                None => !(old(self).spec_is_alive(entity) && old(self).spec_components(entity.id as int).dom().contains(
                    component_id,
                )),
            },
    {
        if !self.is_alive(entity) {
            return None;
        }
        proof {
            self.lemma_locations_len();
        }
        let loc = self.locations[entity.id as usize];
        if !loc.is_valid() {
            return None;
        }
        proof {
            self.lemma_placed_location(entity.id as int);
            self.lemma_archetype_ok(loc.archetype_id as int);
        }
        let a = loc.archetype_id as usize;
        if !self.archetypes[a].has_component(component_id) {
            return None;
        }
        let col_idx = self.archetypes[a].column_index(component_id);
        proof {
            let ch = self.archetypes@[a as int].chunks@[loc.chunk_index as int];
            assert(chunk_fits(ch, self.archetypes@[a as int].template_columns@));
            let col = ch.columns@[col_idx as int];
            lemma_row_in_column(col.data@.len(), col.element_size as nat, ch.entities@.len(), loc.row as nat);
        }
        let bytes = self.archetypes[a].chunks[loc.chunk_index as usize].columns[col_idx].row_mut(loc.row as usize);
        Some(F32x2ViewMut { data: bytes })
    }

    /// A read-only three-`f32` view of alive `entity`'s component `component_id`.
    pub fn get_f32x3(&self, entity: Entity, component_id: u32) -> (r: Option<F32x3View<'_>>)
        requires
            self.wf(),
        ensures
            match r {
                Some(v) => {
                    &&& self.spec_is_alive(entity)
                    &&& self.spec_components(entity.id as int).dom().contains(component_id)
                    &&& v.data@ == self.spec_components(entity.id as int)[component_id]
                },
                None => !self.spec_is_alive(entity) || !self.spec_components(entity.id as int).dom().contains(component_id),
            },
    {
        match self.get_component_bytes(entity, component_id) {
            Some(b) => Some(F32x3View { data: b }),
            None => None,
        }
    }

    /// The `u32` at `byte_offset` in alive `entity`'s component `component_id`,
    /// if it has the component and the four bytes lie within it.
    pub fn read_component_u32(&self, entity: Entity, component_id: u32, byte_offset: usize) -> (r: Option<u32>)
        requires
            self.wf(),
        ensures
            ({
                let m = self.spec_components(entity.id as int);
                match r {
                    Some(v) => {
                        &&& self.spec_is_alive(entity)
                        &&& m.dom().contains(component_id)
                        &&& byte_offset + 4 <= m[component_id].len()
                        &&& v == spec_u32_from_le_bytes(m[component_id].subrange(byte_offset as int, byte_offset + 4))
                    },
                    None => !self.spec_is_alive(entity) || !m.dom().contains(component_id) || byte_offset + 4 > m[component_id].len(),
                }
            }),
    {
        if !self.is_alive(entity) {
            return None;
        }
        match self.get_component_bytes(entity, component_id) {
            Some(b) => {
                let blen = b.len();
                if byte_offset <= blen && 4 <= blen - byte_offset {
                    Some(u32_from_le_bytes(&b[byte_offset..byte_offset + 4]))
                } else {
                    None
                }
            },
            None => None,
        }
    }

    /// The byte at `byte_offset` in alive `entity`'s component `component_id`,
    /// if it has the component and the byte lies within it.
    pub fn read_component_byte(&self, entity: Entity, component_id: u32, byte_offset: usize) -> (r: Option<u8>)
        requires
            self.wf(),
        ensures
            ({
                let m = self.spec_components(entity.id as int);
                match r {
                    Some(v) => {
                        &&& self.spec_is_alive(entity)
                        &&& m.dom().contains(component_id)
                        &&& byte_offset < m[component_id].len()
                        &&& v == m[component_id][byte_offset as int]
                    },
                    None => !self.spec_is_alive(entity) || !m.dom().contains(component_id) || byte_offset >= m[component_id].len(),
                }
            }),
    {
        if !self.is_alive(entity) {
            return None;
        }
        match self.get_component_bytes(entity, component_id) {
            Some(b) => {
                if byte_offset < b.len() {
                    Some(b[byte_offset])
                } else {
                    None
                }
            },
            None => None,
        }
    }

    /// Overwrite, in place, the bytes of alive `entity`'s component
    /// `component_id` from `byte_offset` on with `bytes`, if it has the
    /// component and they lie within it; says whether it wrote.
    pub fn patch_component(&mut self, entity: Entity, component_id: u32, byte_offset: usize, bytes: &[u8]) -> (r: bool)
        requires
            old(self).wf(),
        ensures
            final(self).wf(),
            r == (old(self).spec_is_alive(entity) && old(self).spec_components(entity.id as int).dom().contains(component_id)
                && byte_offset + bytes@.len() <= old(self).spec_components(entity.id as int)[component_id].len()),
            r ==> {
                &&& final(self).spec_components(entity.id as int) == old(self).spec_components(entity.id as int).insert(
                    component_id,
                    spec_patch(old(self).spec_components(entity.id as int)[component_id], byte_offset as int, bytes@),
                )
                &&& old(self).spec_others_unchanged(final(self), entity.id as int)
                &&& final(self).spec_same_layout(old(self))
            },
            !r ==> *final(self) == *old(self),
    {
        if !self.is_alive(entity) {
            return false;
        }
        let ghost id = entity.id as int;
        proof {
            self.lemma_locations_len();
        }
        let loc = self.locations[entity.id as usize];
        if !loc.is_valid() {
            proof {
                assert(self.spec_components(id) =~= Map::<u32, Seq<u8>>::empty());
            }
            return false;
        }
        proof {
            self.lemma_placed_location(id);
            self.lemma_archetype_ok(loc.archetype_id as int);
        }
        let a = loc.archetype_id as usize;
        let c = loc.chunk_index as usize;
        let row = loc.row as usize;
        if !self.archetypes[a].has_component(component_id) {
            return false;
        }
        let col_idx = self.archetypes[a].column_index(component_id);
        let es = self.archetypes[a].template_columns[col_idx].element_size;
        if byte_offset > es || bytes.len() > es - byte_offset {
            proof {
                let ch = self.archetypes@[a as int].chunks@[c as int];
                assert(chunk_fits(ch, self.archetypes@[a as int].template_columns@));
                let col = ch.columns@[col_idx as int];
                lemma_row_in_column(col.data@.len(), col.element_size as nat, ch.entities@.len(), row as nat);
            }
            return false;
        }
        proof {
            let ch = self.archetypes@[a as int].chunks@[c as int];
            assert(chunk_fits(ch, self.archetypes@[a as int].template_columns@));
            let col = ch.columns@[col_idx as int];
            lemma_row_in_column(col.data@.len(), col.element_size as nat, ch.entities@.len(), row as nat);
        }
        let cur = self.archetypes[a].chunks[c].columns[col_idx].row(row);
        let mut updated: Vec<u8> = Vec::new();
        let mut i: usize = 0;
        while i < es
            invariant
                i <= es,
                cur@.len() == es,
                byte_offset + bytes@.len() <= es,
                updated@.len() == i,
                forall|p: int|
                    0 <= p < i ==> #[trigger] updated@[p] == if byte_offset <= p < byte_offset + bytes@.len() {
                        bytes@[p - byte_offset]
                    } else {
                        cur@[p]
                    },
            decreases es - i,
        {
            if byte_offset <= i && i - byte_offset < bytes.len() {
                updated.push(bytes[i - byte_offset]);
            } else {
                updated.push(cur[i]);
            }
            i = i + 1;
        }
        proof {
            assert(updated@ =~= spec_patch(cur@, byte_offset as int, bytes@));
            assert(self.archetypes@[a as int].component_ids@[col_idx as int] == component_id);
        }
        self.write_cell(a, c, row, col_idx, updated.as_slice());
        true
    }

    /// The first 4-byte word (an `f32`'s bit pattern for an `f32`-first
    /// component) of every stored row of component `component_id`, in
    /// archetype/chunk/row order; empty when it is not registered. A
    /// component narrower than 4 bytes must have no stored rows.
    pub fn get_flat_f32_buffer(&self, component_id: u32) -> (r: Vec<u32>)
        requires
            self.wf(),
            (component_id as int) < self.spec_schemas().len() && self.spec_schemas()[component_id as int].size < 4
                ==> self.spec_query_entities(seq![component_id]).len() == 0,
        ensures
            (component_id as int) >= self.spec_schemas().len() ==> r@.len() == 0,
            (component_id as int) < self.spec_schemas().len() ==> r@ == picks_words(
                self.archetypes@,
                self.spec_query_picks(seq![component_id], Seq::empty()),
                component_id,
                self.spec_query_picks(seq![component_id], Seq::empty()).len() as int,
            ),
    {
        let mut out: Vec<u32> = Vec::new();
        if self.component_registry.get(component_id).is_none() {
            return out;
        }
        let ghost archs = self.archetypes@;
        let ghost inc = seq![component_id];
        let ghost exc = Seq::<u32>::empty();
        let n = self.archetypes.len();
        let mut a: usize = 0;
        while a < n
            invariant
                self.wf(),
                archs == self.archetypes@,
                inc == seq![component_id],
                exc == Seq::<u32>::empty(),
                (component_id as int) < self.spec_schemas().len(),
                self.spec_schemas()[component_id as int].size < 4 ==> self.spec_query_entities(inc).len() == 0,
                n == archs.len(),
                a <= n,
                out@ == picks_words(
                    archs,
                    arch_picks(archs, inc, exc, a as int, true),
                    component_id,
                    arch_picks(archs, inc, exc, a as int, true).len() as int,
                ),
            decreases n - a,
        {
            let archetype = &self.archetypes[a];
            proof {
                self.lemma_archetype_ok(a as int);
                assert(archetype.mask@.contains(component_id as nat) == archetype.component_ids@.contains(component_id));
                assert(crate::world_query::arch_selected(*archetype, inc, exc) == archetype.component_ids@.contains(component_id)) by {
                    if archetype.component_ids@.contains(component_id) {
                        assert forall|k: int| 0 <= k < inc.len() implies archetype.component_ids@.contains(#[trigger] inc[k]) by {
                            assert(inc[k] == component_id);
                        }
                    }
                    if crate::world_query::arch_selected(*archetype, inc, exc) {
                        assert(archetype.component_ids@.contains(inc[0]));
                    }
                }
            }
            if archetype.mask.contains(component_id as usize) {
                let ghost base = arch_picks(archs, inc, exc, a as int, true);
                let ghost chs = archetype.chunks@;
                let col_idx = archetype.column_index(component_id);
                let es = archetype.template_columns[col_idx].element_size;
                let m = archetype.chunks.len();
                let mut c: usize = 0;
                while c < m
                    invariant
                        self.wf(),
                        archs == self.archetypes@,
                        a < archs.len(),
                        *archetype == archs[a as int],
                        archetype.wf(),
                        chs == archetype.chunks@,
                        m == chs.len(),
                        c <= m,
                        col_idx == archetype.spec_column_of(component_id),
                        col_idx < archetype.component_ids@.len(),
                        archetype.component_ids@.contains(component_id),
                        inc == seq![component_id],
                        exc == Seq::<u32>::empty(),
                        es == archetype.template_columns@[col_idx as int].element_size,
                        es == self.spec_schemas()[component_id as int].size,
                        es < 4 ==> self.spec_query_entities(inc).len() == 0,
                        base == arch_picks(archs, inc, exc, a as int, true),
                        out@ == picks_words(
                            archs,
                            base + crate::world_query::chunk_picks(a as int, chs, c as int, true),
                            component_id,
                            (base + crate::world_query::chunk_picks(a as int, chs, c as int, true)).len() as int,
                        ),
                    decreases m - c,
                {
                    let chunk = &archetype.chunks[c];
                    proof {
                        assert(chunk_fits(*chunk, archetype.template_columns@));
                    }
                    let col = &chunk.columns[col_idx];
                    let data = col.data.as_slice();
                    let dlen = data.len();
                    let ghost start = out@;
                    let cnt = chunk.entities.len();
                    proof {
                        if cnt > 0 && es < 4 {
                            self.lemma_query_nonempty(component_id, a as int, c as int);
                            assert(false);
                        }
                    }
                    let mut i: usize = 0;
                    while i < cnt
                        invariant
                            cnt == chunk.entities@.len(),
                            cnt > 0 ==> es >= 4,
                            data@ == col.data@,
                            dlen == data@.len(),
                            col.element_size == es,
                            data@.len() == cnt * es,
                            i <= cnt,
                            out@ == start + Seq::new(i as nat, |k: int| row_word(data@, es as nat, k as nat, 0)),
                        decreases cnt - i,
                    {
                        proof {
                            lemma_word_in_row(i as nat, cnt as nat, es as nat, data@.len());
                        }
                        let start_byte = i * es;
                        let w = u32_from_le_bytes(&data[start_byte..start_byte + 4]);
                        out.push(w);
                        proof {
                            assert(out@ =~= start + Seq::new(i as nat + 1, |k: int| row_word(data@, es as nat, k as nat, 0)));
                        }
                        i = i + 1;
                    }
                    proof {
                        let p0 = base + crate::world_query::chunk_picks(a as int, chs, c as int, true);
                        let p1 = base + crate::world_query::chunk_picks(a as int, chs, c as int + 1, true);
                        if chs[c as int].entities@.len() == 0 {
                            assert(p1 =~= p0);
                            assert(out@ =~= start);
                        } else {
                            assert(p1 =~= p0.push((a as int, c as int)));
                            lemma_picks_words_prefix(archs, p0, p1, component_id, p0.len() as int);
                            assert(out@ =~= picks_words(archs, p1, component_id, p1.len() as int));
                        }
                    }
                    c = c + 1;
                }
                proof {
                    assert(arch_picks(archs, inc, exc, a as int + 1, true) == base + crate::world_query::chunk_picks(
                        a as int,
                        chs,
                        m as int,
                        true,
                    ));
                }
            }
            a = a + 1;
        }
        out
    }

    /// Write `values[k]` (an `f32`'s bit pattern) as the 4 bytes at
    /// `field_offset` of component `component_id` of the `k`-th entity having
    /// it (in archetype/chunk/row order), for every `k` below both counts.
    /// Nothing happens when the component is not registered. When a value is
    /// written, the 4 bytes must lie within the component.
    pub fn set_flat_f32_buffer(&mut self, component_id: u32, field_offset: usize, values: &[u32])
        requires
            old(self).wf(),
            (component_id as int) < old(self).spec_schemas().len() && values@.len() > 0 && old(self).spec_query_entities(
                seq![component_id],
            ).len() > 0 ==> field_offset + 4 <= old(self).spec_schemas()[component_id as int].size,
        ensures
            final(self).wf(),
            (component_id as int) >= old(self).spec_schemas().len() ==> *final(self) == *old(self),
            (component_id as int) < old(self).spec_schemas().len() ==> flat_written(
                *old(self),
                *final(self),
                component_id,
                field_offset as int,
                values@,
            ),
    {
        if self.component_registry.get(component_id).is_none() {
            return;
        }
        let ghost w0 = *self;
        let ids: Vec<u32> = vec![component_id];
        proof {
            assert(ids@ =~= seq![component_id]);
        }
        let ents = self.collect_entities(ids.as_slice());
        let ghost e_seq = ents@;
        let m = if values.len() < ents.len() {
            values.len()
        } else {
            ents.len()
        };
        let ghost mut ws: Seq<World> = seq![w0];
        let mut k: usize = 0;
        while k < m
            invariant
                self.wf(),
                w0.wf(),
                self.spec_same_layout(&w0),
                frame_ok_flat(*self, w0, component_id),
                e_seq == ents@,
                e_seq == w0.spec_query_entities(seq![component_id]),
                m <= e_seq.len(),
                m <= values@.len(),
                (component_id as int) < w0.spec_schemas().len(),
                m > 0 ==> field_offset + 4 <= w0.spec_schemas()[component_id as int].size,
                k <= m,
                ws.len() == k + 1,
                ws[0] == w0,
                ws[k as int] == *self,
                forall|j: int| 0 <= j < k ==> flat_step(ws[j], #[trigger] ws[j + 1], e_seq[j], component_id, field_offset as int, values@[j]),
            decreases m - k,
        {
            let e = ents[k];
            proof {
                w0.lemma_query_entity_has(seq![component_id], k as int);
                assert(seq![component_id][0] == component_id);
                assert(w0.spec_components(e.id as int).dom().contains(component_id));
                w0.lemma_component_layout(e.id as int, component_id);
                assert(self.spec_components(e.id as int).dom().contains(component_id));
                self.lemma_component_layout(e.id as int, component_id);
            }
            let b = u32_to_le_bytes(values[k]);
            let ghost w1 = *self;
            let wrote = self.patch_component(e, component_id, field_offset, b.as_slice());
            proof {
                assert(wrote);
                ws = ws.push(*self);
                assert forall|j: int| 0 <= j < k + 1 implies flat_step(ws[j], #[trigger] ws[j + 1], e_seq[j], component_id, field_offset as int, values@[j]) by {
                    if j < k {
                        assert(ws[j] == ws.drop_last()[j]);
                        assert(ws[j + 1] == ws.drop_last()[j + 1]);
                    }
                }
                crate::world_query::lemma_same_layout_trans(w0, w1, *self);
                assert(frame_ok_flat(*self, w0, component_id)) by {
                    assert forall|x: int| (#[trigger] self.spec_components(x)).dom() == w0.spec_components(x).dom() by {
                        assert(w1.spec_components(x).dom() == w0.spec_components(x).dom());
                        if x == e.id as int {
                            assert(self.spec_components(x).dom() =~= w1.spec_components(x).dom());
                        }
                    }
                    assert forall|x: int, c: u32|
                        w0.spec_components(x).dom().contains(c) && c != component_id implies #[trigger] self.spec_components(x)[c]
                            == w0.spec_components(x)[c] by {
                        assert(w1.spec_components(x)[c] == w0.spec_components(x)[c]);
                    }
                }
            }
            k = k + 1;
        }
    }

    /// A non-empty chunk of an archetype having `cid` contributes entities to
    /// the query for `cid`.
    /// Interleaved `[x0, y0, x1, y1, ...]` bit patterns of a two-`f32`
    /// component, over every archetype holding it: the first two words of
    /// each 8-byte row.
    pub fn get_f32x2_interleaved(&self, component_id: u32) -> (r: Vec<u32>)
        requires
            self.wf(),
            (component_id as int) < self.spec_schemas().len() && self.spec_schemas()[component_id as int].size < 8
                ==> self.spec_query_entities(seq![component_id]).len() == 0,
        ensures
            (component_id as int) >= self.spec_schemas().len() ==> r@.len() == 0,
            (component_id as int) < self.spec_schemas().len() ==> r@ == picks_pairs(
                self.archetypes@,
                self.spec_query_picks(seq![component_id], Seq::empty()),
                component_id,
                self.spec_query_picks(seq![component_id], Seq::empty()).len() as int,
            ),
    {
        let mut out: Vec<u32> = Vec::new();
        if self.component_registry.get(component_id).is_none() {
            return out;
        }
        let ghost archs = self.archetypes@;
        let ghost inc = seq![component_id];
        let ghost exc = Seq::<u32>::empty();
        let n = self.archetypes.len();
        let mut a: usize = 0;
        while a < n
            invariant
                self.wf(),
                archs == self.archetypes@,
                inc == seq![component_id],
                exc == Seq::<u32>::empty(),
                (component_id as int) < self.spec_schemas().len(),
                self.spec_schemas()[component_id as int].size < 8 ==> self.spec_query_entities(inc).len() == 0,
                n == archs.len(),
                a <= n,
                out@ == picks_pairs(
                    archs,
                    arch_picks(archs, inc, exc, a as int, true),
                    component_id,
                    arch_picks(archs, inc, exc, a as int, true).len() as int,
                ),
            decreases n - a,
        {
            let archetype = &self.archetypes[a];
            proof {
                self.lemma_archetype_ok(a as int);
                assert(archetype.mask@.contains(component_id as nat) == archetype.component_ids@.contains(component_id));
                assert(crate::world_query::arch_selected(*archetype, inc, exc) == archetype.component_ids@.contains(component_id)) by {
                    if archetype.component_ids@.contains(component_id) {
                        assert forall|k: int| 0 <= k < inc.len() implies archetype.component_ids@.contains(#[trigger] inc[k]) by {
                            assert(inc[k] == component_id);
                        }
                    }
                    if crate::world_query::arch_selected(*archetype, inc, exc) {
                        assert(archetype.component_ids@.contains(inc[0]));
                    }
                }
            }
            if archetype.mask.contains(component_id as usize) {
                let ghost base = arch_picks(archs, inc, exc, a as int, true);
                let ghost chs = archetype.chunks@;
                let col_idx = archetype.column_index(component_id);
                let ghost es = archetype.template_columns@[col_idx as int].element_size;
                let m = archetype.chunks.len();
                let mut c: usize = 0;
                while c < m
                    invariant
                        self.wf(),
                        archs == self.archetypes@,
                        a < archs.len(),
                        *archetype == archs[a as int],
                        archetype.wf(),
                        chs == archetype.chunks@,
                        m == chs.len(),
                        c <= m,
                        col_idx == archetype.spec_column_of(component_id),
                        col_idx < archetype.component_ids@.len(),
                        archetype.component_ids@.contains(component_id),
                        inc == seq![component_id],
                        exc == Seq::<u32>::empty(),
                        es == archetype.template_columns@[col_idx as int].element_size,
                        es == self.spec_schemas()[component_id as int].size,
                        es < 8 ==> self.spec_query_entities(inc).len() == 0,
                        base == arch_picks(archs, inc, exc, a as int, true),
                        out@ == picks_pairs(
                            archs,
                            base + crate::world_query::chunk_picks(a as int, chs, c as int, true),
                            component_id,
                            (base + crate::world_query::chunk_picks(a as int, chs, c as int, true)).len() as int,
                        ),
                    decreases m - c,
                {
                    let chunk = &archetype.chunks[c];
                    proof {
                        assert(chunk_fits(*chunk, archetype.template_columns@));
                    }
                    let col = &chunk.columns[col_idx];
                    let data = col.data.as_slice();
                    let dlen = data.len();
                    let ghost start = out@;
                    let cnt = chunk.entities.len();
                    proof {
                        if cnt > 0 && es < 8 {
                            self.lemma_query_nonempty(component_id, a as int, c as int);
                            assert(false);
                        }
                    }
                    let mut i: usize = 0;
                    while i < cnt
                        invariant
                            cnt == chunk.entities@.len(),
                            cnt > 0 ==> es >= 8,
                            data@ == col.data@,
                            dlen == data@.len(),
                            col.element_size == es,
                            data@.len() == cnt * es,
                            i <= cnt,
                            out@ == start + Seq::new(2 * i as nat, |k: int| row_word(data@, 4, k as nat, 0)),
                        decreases cnt - i,
                    {
                        proof {
                            lemma_pair_in_rows(2 * i as nat, cnt as nat, es as nat, data@.len());
                            lemma_pair_in_rows(2 * i as nat + 1, cnt as nat, es as nat, data@.len());
                            assert(8 * i + 8 <= data@.len());
                        }
                        let b = 8 * i;
                        let x = u32_from_le_bytes(&data[b..b + 4]);
                        let y = u32_from_le_bytes(&data[b + 4..b + 8]);
                        out.push(x);
                        out.push(y);
                        proof {
                            assert(out@ =~= start + Seq::new(2 * (i as nat + 1), |k: int| row_word(data@, 4, k as nat, 0)));
                        }
                        i = i + 1;
                    }
                    proof {
                        let p0 = base + crate::world_query::chunk_picks(a as int, chs, c as int, true);
                        let p1 = base + crate::world_query::chunk_picks(a as int, chs, c as int + 1, true);
                        if chs[c as int].entities@.len() == 0 {
                            assert(p1 =~= p0);
                            assert(out@ =~= start);
                        } else {
                            assert(p1 =~= p0.push((a as int, c as int)));
                            lemma_picks_pairs_prefix(archs, p0, p1, component_id, p0.len() as int);
                            assert(out@ =~= picks_pairs(archs, p1, component_id, p1.len() as int));
                        }
                    }
                    c = c + 1;
                }
                proof {
                    assert(arch_picks(archs, inc, exc, a as int + 1, true) == base + crate::world_query::chunk_picks(
                        a as int,
                        chs,
                        m as int,
                        true,
                    ));
                }
            }
            a = a + 1;
        }
        out
    }

    proof fn lemma_query_nonempty(&self, cid: u32, a: int, c: int)
        requires
            self.wf(),
            0 <= a < self.archetypes@.len(),
            self.archetypes@[a].component_ids@.contains(cid),
            0 <= c < self.archetypes@[a].chunks@.len(),
            self.archetypes@[a].chunks@[c].entities@.len() > 0,
        ensures
            self.spec_query_entities(seq![cid]).len() > 0,
    {
        let archs = self.archetypes@;
        let inc = seq![cid];
        let exc = Seq::<u32>::empty();
        assert(crate::world_query::arch_selected(archs[a], inc, exc)) by {
            assert forall|k: int| 0 <= k < inc.len() implies archs[a].component_ids@.contains(#[trigger] inc[k]) by {
                assert(inc[k] == cid);
            }
        }
        lemma_chunk_picks_has(a, archs[a].chunks@, archs[a].chunks@.len() as int, c);
        lemma_arch_picks_has(archs, inc, exc, archs.len() as int, a, c);
        let p = self.spec_query_picks(inc, exc);
        let k = choose|k: int| 0 <= k < p.len() && p[k] == (a, c);
        lemma_picks_entities_len(archs, p, p.len() as int, k);
    }
}

/// A non-empty chunk `c < n` is among the first `n` chunk positions.
proof fn lemma_chunk_picks_has(a: int, chunks: Seq<crate::archetype::Chunk>, n: int, c: int)
    requires
        0 <= c < n <= chunks.len(),
        chunks[c].entities@.len() > 0,
    ensures
        exists|k: int| 0 <= k < crate::world_query::chunk_picks(a, chunks, n, true).len() && crate::world_query::chunk_picks(a, chunks, n, true)[k] == (a, c),
    decreases n,
{
    let p = crate::world_query::chunk_picks(a, chunks, n, true);
    if c == n - 1 {
        assert(p[p.len() - 1] == (a, c));
    } else {
        lemma_chunk_picks_has(a, chunks, n - 1, c);
        let q = crate::world_query::chunk_picks(a, chunks, n - 1, true);
        let k = choose|k: int| 0 <= k < q.len() && q[k] == (a, c);
        assert(p[k] == (a, c));
    }
}

/// The positions of a selected archetype `a < n` are among the query's first `n` archetypes' positions.
proof fn lemma_arch_picks_has(archs: Seq<Archetype>, inc: Seq<u32>, exc: Seq<u32>, n: int, a: int, c: int)
    requires
        0 <= a < n <= archs.len(),
        crate::world_query::arch_selected(archs[a], inc, exc),
        exists|k: int|
            0 <= k < crate::world_query::chunk_picks(a, archs[a].chunks@, archs[a].chunks@.len() as int, true).len()
                && crate::world_query::chunk_picks(a, archs[a].chunks@, archs[a].chunks@.len() as int, true)[k] == (a, c),
    ensures
        exists|k: int| 0 <= k < arch_picks(archs, inc, exc, n, true).len() && arch_picks(archs, inc, exc, n, true)[k] == (a, c),
    decreases n,
{
    let p = arch_picks(archs, inc, exc, n, true);
    if a == n - 1 {
        let q = crate::world_query::chunk_picks(a, archs[a].chunks@, archs[a].chunks@.len() as int, true);
        let k = choose|k: int| 0 <= k < q.len() && q[k] == (a, c);
        let base = arch_picks(archs, inc, exc, n - 1, true);
        assert(p == base + q);
        assert(p[base.len() + k] == (a, c));
    } else {
        lemma_arch_picks_has(archs, inc, exc, n - 1, a, c);
        let base = arch_picks(archs, inc, exc, n - 1, true);
        let k = choose|k: int| 0 <= k < base.len() && base[k] == (a, c);
        assert(p[k] == (a, c));
    }
}

/// A position among the first `n` with a non-empty chunk makes the concatenation non-empty.
proof fn lemma_picks_entities_len(archs: Seq<Archetype>, p: Seq<(int, int)>, n: int, k: int)
    requires
        0 <= k < n <= p.len(),
        archs[p[k].0].chunks@[p[k].1].entities@.len() > 0,
    ensures
        crate::world_query::picks_entities(archs, p, n).len() > 0,
    decreases n,
{
    if k < n - 1 {
        lemma_picks_entities_len(archs, p, n - 1, k);
    }
}

} // verus!
