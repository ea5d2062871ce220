use vstd::prelude::*;
use crate::archetype::{chunk_fits, lemma_row_in_column, spec_row, Archetype, Chunk};
use crate::bitset::ComponentMask;
use crate::entity::Entity;
use crate::query::{chunks_rows, QueryChunk, QueryResult, QueryRow};
use crate::query_mut::QueryRowMut;
use crate::query_view::ColumnView;
use crate::world::World;

verus! {

/// Archetype `arch` has every component of `inc` and none of `exc`.
pub open spec fn arch_selected(arch: Archetype, inc: Seq<u32>, exc: Seq<u32>) -> bool {
    &&& forall|k: int| 0 <= k < inc.len() ==> arch.component_ids@.contains(#[trigger] inc[k])
    &&& forall|k: int| 0 <= k < exc.len() ==> !arch.component_ids@.contains(#[trigger] exc[k])
}

/// Positions `(a, c)` of the first `n` chunks of archetype `a`, leaving out
/// the empty ones when `skip_empty`.
pub open spec fn chunk_picks(a: int, chunks: Seq<Chunk>, n: int, skip_empty: bool) -> Seq<(int, int)>
    decreases n,
{
    if n <= 0 {
        Seq::empty()
    } else if skip_empty && chunks[n - 1].entities@.len() == 0 {
        chunk_picks(a, chunks, n - 1, skip_empty)
    } else {
        chunk_picks(a, chunks, n - 1, skip_empty).push((a, n - 1))
    }
}

/// Chunk positions a query visits in the first `n` archetypes: the chunks of
/// each selected archetype, in order.
pub open spec fn arch_picks(
    archs: Seq<Archetype>,
    inc: Seq<u32>,
    exc: Seq<u32>,
    n: int,
    skip_empty: bool,
) -> Seq<(int, int)>
    decreases n,
{
    if n <= 0 {
        Seq::empty()
    } else if arch_selected(archs[n - 1], inc, exc) {
        arch_picks(archs, inc, exc, n - 1, skip_empty) + chunk_picks(
            n - 1,
            archs[n - 1].chunks@,
            archs[n - 1].chunks@.len() as int,
            skip_empty,
        )
    } else {
        arch_picks(archs, inc, exc, n - 1, skip_empty)
    }
}

/// `p` names an existing chunk.
pub open spec fn pick_valid(archs: Seq<Archetype>, p: (int, int)) -> bool {
    &&& 0 <= p.0 < archs.len()
    &&& 0 <= p.1 < archs[p.0].chunks@.len()
}

/// `bytes` is the column of component `cid` in the chunk at position `p`.
pub open spec fn column_shown(archs: Seq<Archetype>, bytes: Seq<u8>, p: (int, int), cid: u32) -> bool {
    &&& pick_valid(archs, p)
    &&& bytes == archs[p.0].chunks@[p.1].columns@[archs[p.0].spec_column_of(cid)].data@
}

/// The entities of the chunks at the first `n` positions of `picks`, concatenated.
pub open spec fn picks_entities(archs: Seq<Archetype>, picks: Seq<(int, int)>, n: int) -> Seq<Entity>
    decreases n,
{
    if n <= 0 {
        Seq::empty()
    } else {
        picks_entities(archs, picks, n - 1) + archs[picks[n - 1].0].chunks@[picks[n - 1].1].entities@
    }
}

/// Only the first `n` positions matter to `picks_entities`.
proof fn lemma_picks_entities_prefix(archs: Seq<Archetype>, p: Seq<(int, int)>, q: Seq<(int, int)>, n: int)
    requires
        0 <= n <= p.len(),
        n <= q.len(),
        forall|i: int| 0 <= i < n ==> p[i] == q[i],
    ensures
        picks_entities(archs, p, n) == picks_entities(archs, q, n),
    decreases n,
{
    if n > 0 {
        lemma_picks_entities_prefix(archs, p, q, n - 1);
    }
}

/// The component ids of `ids`, as bit positions.
pub open spec fn id_bits(ids: Seq<u32>) -> Set<nat> {
    Set::new(|b: nat| exists|k: int| 0 <= k < ids.len() && ids[k] as nat == b)
}

/// A mask with the bit of every id in `ids` set.
fn mask_of(ids: &[u32]) -> (m: ComponentMask)
    ensures
        m@ == id_bits(ids@),
{
    let mut m = ComponentMask::new();
    let mut i: usize = 0;
    while i < ids.len()
        invariant
            i <= ids@.len(),
            forall|b: nat| #[trigger] m@.contains(b) <==> exists|k: int| 0 <= k < i && ids@[k] as nat == b,
        decreases ids@.len() - i,
    {
        let ghost m0 = m@;
        m.set(ids[i] as usize);
        proof {
            assert forall|b: nat| #[trigger] m@.contains(b) <==> exists|k: int| 0 <= k < i + 1 && ids@[k] as nat == b by {
                if b == ids@[i as int] as nat {
                    assert(ids@[i as int] as nat == b);
                }
                if exists|k: int| 0 <= k < i + 1 && ids@[k] as nat == b {
                    let k = choose|k: int| 0 <= k < i + 1 && ids@[k] as nat == b;
                    if k < i {
                        assert(m0.contains(b));
                    }
                }
            }
        }
        i = i + 1;
    }
    assert(m@ =~= id_bits(ids@));
    m
}

/// For a well-formed archetype, the mask tests of a query are `arch_selected`.
proof fn lemma_mask_select(arch: Archetype, inc: Seq<u32>, exc: Seq<u32>)
    requires
        arch.wf(),
    ensures
        (id_bits(inc).subset_of(arch.mask@) && arch.mask@.disjoint(id_bits(exc))) == arch_selected(arch, inc, exc),
        id_bits(inc).subset_of(arch.mask@) == (forall|k: int| 0 <= k < inc.len() ==> arch.component_ids@.contains(#[trigger] inc[k])),
{
    let ids = arch.component_ids@;
    if id_bits(inc).subset_of(arch.mask@) {
        assert forall|k: int| 0 <= k < inc.len() implies ids.contains(#[trigger] inc[k]) by {
            assert(id_bits(inc).contains(inc[k] as nat));
            assert(arch.mask@.contains(inc[k] as nat));
        }
    }
    if forall|k: int| 0 <= k < inc.len() ==> ids.contains(#[trigger] inc[k]) {
        assert forall|b: nat| id_bits(inc).contains(b) implies arch.mask@.contains(b) by {
            let k = choose|k: int| 0 <= k < inc.len() && inc[k] as nat == b;
            assert(ids.contains(inc[k]));
        }
    }
    if arch.mask@.disjoint(id_bits(exc)) {
        assert forall|k: int| 0 <= k < exc.len() implies !ids.contains(#[trigger] exc[k]) by {
            assert(id_bits(exc).contains(exc[k] as nat));
        }
    }
    if forall|k: int| 0 <= k < exc.len() ==> !ids.contains(#[trigger] exc[k]) {
        assert forall|b: nat| arch.mask@.contains(b) implies !id_bits(exc).contains(b) by {
            if id_bits(exc).contains(b) {
                let k = choose|k: int| 0 <= k < exc.len() && exc[k] as nat == b;
                assert(!ids.contains(exc[k]));
            }
        }
    }
}

/// Components of `w` differ from those of `w0` only in values of the
/// components `ids` of slots that have all of them.
pub open spec fn frame_ok(w: World, w0: World, ids: Seq<u32>) -> bool {
    &&& forall|x: int| (#[trigger] w.spec_components(x)).dom() == w0.spec_components(x).dom()
    &&& forall|x: int, c: u32|
        w0.spec_components(x).dom().contains(c) && !ids.contains(c) ==> #[trigger] w.spec_components(x)[c]
            == w0.spec_components(x)[c]
    &&& forall|x: int|
        !has_all(w0.spec_components(x), ids) ==> #[trigger] w.spec_components(x) == w0.spec_components(x)
}

/// `m` has every id of `ids`.
pub open spec fn has_all(m: Map<u32, Seq<u8>>, ids: Seq<u32>) -> bool {
    forall|k: int| 0 <= k < ids.len() ==> m.dom().contains(#[trigger] ids[k])
}

/// Overwriting a queried component of a slot that has all queried components keeps `frame_ok`.
proof fn lemma_frame_step(w0: World, w1: World, w2: World, ids: Seq<u32>, id: int, q: u32, b: Seq<u8>)
    requires
        frame_ok(w1, w0, ids),
        ids.contains(q),
        has_all(w1.spec_components(id), ids),
        w2.spec_components(id) == w1.spec_components(id).insert(q, b),
        w1.spec_others_unchanged(&w2, id),
    ensures
        frame_ok(w2, w0, ids),
{
    assert(has_all(w0.spec_components(id), ids)) by {
        assert forall|k: int| 0 <= k < ids.len() implies w0.spec_components(id).dom().contains(#[trigger] ids[k]) by {
            assert(w1.spec_components(id).dom().contains(ids[k]));
            assert(w1.spec_components(id).dom() == w0.spec_components(id).dom());
        }
    }
    let k = choose|k: int| 0 <= k < ids.len() && ids[k] == q;
    assert(w1.spec_components(id).dom().contains(ids[k]));
    assert forall|x: int| (#[trigger] w2.spec_components(x)).dom() == w0.spec_components(x).dom() by {
        if x == id {
            assert(w2.spec_components(x).dom() =~= w1.spec_components(x).dom());
        }
        assert(w1.spec_components(x).dom() == w0.spec_components(x).dom());
    }
    assert forall|x: int, c: u32|
        w0.spec_components(x).dom().contains(c) && !ids.contains(c) implies #[trigger] w2.spec_components(x)[c]
            == w0.spec_components(x)[c] by {
        assert(w1.spec_components(x)[c] == w0.spec_components(x)[c]);
    }
    assert forall|x: int| !has_all(w0.spec_components(x), ids) implies #[trigger] w2.spec_components(x) == w0.spec_components(x) by {
        assert(w1.spec_components(x) == w0.spec_components(x));
    }
}

/// `frame_ok` is transitive.
proof fn lemma_frame_trans(w0: World, w1: World, w2: World, ids: Seq<u32>)
    requires
        frame_ok(w1, w0, ids),
        frame_ok(w2, w1, ids),
    ensures
        frame_ok(w2, w0, ids),
{
    assert forall|x: int| (#[trigger] w2.spec_components(x)).dom() == w0.spec_components(x).dom() by {
        assert(w1.spec_components(x).dom() == w0.spec_components(x).dom());
    }
    assert forall|x: int, c: u32|
        w0.spec_components(x).dom().contains(c) && !ids.contains(c) implies #[trigger] w2.spec_components(x)[c]
            == w0.spec_components(x)[c] by {
        assert(w1.spec_components(x).dom() == w0.spec_components(x).dom());
        assert(w1.spec_components(x)[c] == w0.spec_components(x)[c]);
    }
    assert forall|x: int| !has_all(w0.spec_components(x), ids) implies #[trigger] w2.spec_components(x) == w0.spec_components(x) by {
        assert(w1.spec_components(x) == w0.spec_components(x));
        assert(w1.spec_components(x).dom() == w0.spec_components(x).dom());
    }
}

/// `spec_same_layout` is transitive.
pub proof fn lemma_same_layout_trans(w0: World, w1: World, w2: World)
    requires
        w1.spec_same_layout(&w0),
        w2.spec_same_layout(&w1),
    ensures
        w2.spec_same_layout(&w0),
{
    assert forall|a: int| 0 <= a < w2.archetypes@.len() implies {
        &&& (#[trigger] w0.archetypes@[a]).component_ids@ == w2.archetypes@[a].component_ids@
        &&& w0.archetypes@[a].chunks@.len() == w2.archetypes@[a].chunks@.len()
        &&& forall|c: int|
            0 <= c < w2.archetypes@[a].chunks@.len() ==> (#[trigger] w0.archetypes@[a].chunks@[c]).entities@
                == w2.archetypes@[a].chunks@[c].entities@
    } by {
        assert(w0.archetypes@[a].component_ids@ == w1.archetypes@[a].component_ids@);
        assert forall|c: int| 0 <= c < w2.archetypes@[a].chunks@.len() implies (#[trigger] w0.archetypes@[a].chunks@[c]).entities@
            == w2.archetypes@[a].chunks@[c].entities@ by {
            assert(w0.archetypes@[a].chunks@[c].entities@ == w1.archetypes@[a].chunks@[c].entities@);
        }
    }
}

/// Every chunk position of archetype `a`'s first `n` chunks names one of them.
proof fn lemma_chunk_picks_valid(a: int, chunks: Seq<Chunk>, n: int, skip_empty: bool)
    requires
        0 <= n <= chunks.len(),
    ensures
        forall|i: int|
            0 <= i < chunk_picks(a, chunks, n, skip_empty).len() ==> {
                &&& (#[trigger] chunk_picks(a, chunks, n, skip_empty)[i]).0 == a
                &&& 0 <= chunk_picks(a, chunks, n, skip_empty)[i].1 < n
            },
    decreases n,
{
    if n > 0 {
        lemma_chunk_picks_valid(a, chunks, n - 1, skip_empty);
        let prev = chunk_picks(a, chunks, n - 1, skip_empty);
        let p = chunk_picks(a, chunks, n, skip_empty);
        assert forall|i: int| 0 <= i < p.len() implies {
            &&& (#[trigger] p[i]).0 == a
            &&& 0 <= p[i].1 < n
        } by {
            if i < prev.len() {
                assert(p[i] == prev[i]);
            }
        }
    }
}

/// Every position a query visits names an existing chunk of a selected archetype.
pub proof fn lemma_arch_picks_valid(archs: Seq<Archetype>, inc: Seq<u32>, exc: Seq<u32>, n: int, skip_empty: bool)
    requires
        0 <= n <= archs.len(),
    ensures
        forall|i: int|
            0 <= i < arch_picks(archs, inc, exc, n, skip_empty).len() ==> {
                &&& pick_valid(archs, #[trigger] arch_picks(archs, inc, exc, n, skip_empty)[i])
                &&& arch_selected(archs[arch_picks(archs, inc, exc, n, skip_empty)[i].0], inc, exc)
            },
    decreases n,
{
    if n > 0 {
        lemma_arch_picks_valid(archs, inc, exc, n - 1, skip_empty);
        if arch_selected(archs[n - 1], inc, exc) {
            let base = arch_picks(archs, inc, exc, n - 1, skip_empty);
            let q = chunk_picks(n - 1, archs[n - 1].chunks@, archs[n - 1].chunks@.len() as int, skip_empty);
            lemma_chunk_picks_valid(n - 1, archs[n - 1].chunks@, archs[n - 1].chunks@.len() as int, skip_empty);
            let p = arch_picks(archs, inc, exc, n, skip_empty);
            assert forall|i: int| 0 <= i < p.len() implies {
                &&& pick_valid(archs, #[trigger] p[i])
                &&& arch_selected(archs[p[i].0], inc, exc)
            } by {
                if i < base.len() {
                    assert(p[i] == base[i]);
                } else {
                    assert(p[i] == q[i - base.len()]);
                }
            }
        } else {
            let base = arch_picks(archs, inc, exc, n - 1, skip_empty);
            let p = arch_picks(archs, inc, exc, n, skip_empty);
            assert(p == base);
            assert forall|i: int| 0 <= i < p.len() implies {
                &&& pick_valid(archs, #[trigger] p[i])
                &&& arch_selected(archs[p[i].0], inc, exc)
            } by {
                assert(p[i] == base[i]);
            }
        }
    }
}

/// Entry `k` of the concatenated entities is some row of some listed chunk.
proof fn lemma_picks_entities_index(archs: Seq<Archetype>, picks: Seq<(int, int)>, n: int, k: int)
    requires
        0 <= n <= picks.len(),
        forall|i: int| 0 <= i < n ==> pick_valid(archs, #[trigger] picks[i]),
        0 <= k < picks_entities(archs, picks, n).len(),
    ensures
        exists|i: int, r: int|
            0 <= i < n && 0 <= r < archs[picks[i].0].chunks@[picks[i].1].entities@.len() && picks_entities(archs, picks, n)[k]
                == #[trigger] archs[picks[i].0].chunks@[picks[i].1].entities@[r],
    decreases n,
{
    let prev = picks_entities(archs, picks, n - 1);
    let last = archs[picks[n - 1].0].chunks@[picks[n - 1].1].entities@;
    if k < prev.len() {
        lemma_picks_entities_index(archs, picks, n - 1, k);
        let (i, r) = choose|i: int, r: int|
            0 <= i < n - 1 && 0 <= r < archs[picks[i].0].chunks@[picks[i].1].entities@.len() && prev[k]
                == #[trigger] archs[picks[i].0].chunks@[picks[i].1].entities@[r];
        assert(picks_entities(archs, picks, n)[k] == prev[k]);
        assert(picks_entities(archs, picks, n)[k] == archs[picks[i].0].chunks@[picks[i].1].entities@[r]);
    } else {
        let r = k - prev.len();
        assert(picks_entities(archs, picks, n)[k] == last[r]);
        assert(picks_entities(archs, picks, n)[k] == archs[picks[n - 1].0].chunks@[picks[n - 1].1].entities@[r]);
    }
}

/// A non-empty chunk `c < n` of archetype `a` is among the positions listed for it.
proof fn lemma_chunk_picks_contains(a: int, chunks: Seq<Chunk>, n: int, c: int)
    requires
        0 <= c < n <= chunks.len(),
        chunks[c].entities@.len() > 0,
    ensures
        chunk_picks(a, chunks, n, true).contains((a, c)),
    decreases n,
{
    if c < n - 1 {
        lemma_chunk_picks_contains(a, chunks, n - 1, c);
        let prev = chunk_picks(a, chunks, n - 1, true);
        let k = choose|k: int| 0 <= k < prev.len() && prev[k] == (a, c);
        if chunks[n - 1].entities@.len() != 0 {
            assert(chunk_picks(a, chunks, n, true)[k] == (a, c));
        }
    } else {
        let p = chunk_picks(a, chunks, n, true);
        assert(p[p.len() - 1] == (a, c));
    }
}

/// A non-empty chunk of a selected archetype among the first `n` is visited by the query.
proof fn lemma_arch_picks_contains(archs: Seq<Archetype>, inc: Seq<u32>, exc: Seq<u32>, n: int, a: int, c: int)
    requires
        0 <= a < n <= archs.len(),
        arch_selected(archs[a], inc, exc),
        0 <= c < archs[a].chunks@.len(),
        archs[a].chunks@[c].entities@.len() > 0,
    ensures
        arch_picks(archs, inc, exc, n, true).contains((a, c)),
    decreases n,
{
    let base = arch_picks(archs, inc, exc, n - 1, true);
    if a < n - 1 {
        lemma_arch_picks_contains(archs, inc, exc, n - 1, a, c);
        let k = choose|k: int| 0 <= k < base.len() && base[k] == (a, c);
        assert(arch_picks(archs, inc, exc, n, true)[k] == (a, c));
    } else {
        let q = chunk_picks(a, archs[a].chunks@, archs[a].chunks@.len() as int, true);
        lemma_chunk_picks_contains(a, archs[a].chunks@, archs[a].chunks@.len() as int, c);
        let k = choose|k: int| 0 <= k < q.len() && q[k] == (a, c);
        assert(arch_picks(archs, inc, exc, n, true) == base + q);
        assert(arch_picks(archs, inc, exc, n, true)[base.len() + k] == (a, c));
    }
}

/// Every row of a listed chunk appears among the concatenated entities.
proof fn lemma_picks_entities_contains(archs: Seq<Archetype>, picks: Seq<(int, int)>, n: int, i: int, r: int)
    requires
        0 <= i < n <= picks.len(),
        0 <= r < archs[picks[i].0].chunks@[picks[i].1].entities@.len(),
    ensures
        picks_entities(archs, picks, n).contains(archs[picks[i].0].chunks@[picks[i].1].entities@[r]),
    decreases n,
{
    let prev = picks_entities(archs, picks, n - 1);
    let e = archs[picks[i].0].chunks@[picks[i].1].entities@[r];
    if i < n - 1 {
        lemma_picks_entities_contains(archs, picks, n - 1, i, r);
        let k = choose|k: int| 0 <= k < prev.len() && prev[k] == e;
        assert(picks_entities(archs, picks, n)[k] == e);
    } else {
        assert(picks_entities(archs, picks, n)[prev.len() + r] == e);
    }
}

/// Positions listed for archetype `a` lie in it, before chunk `n`, with
/// strictly increasing chunk indices.
proof fn lemma_chunk_picks_sorted(a: int, chunks: Seq<Chunk>, n: int, skip_empty: bool)
    requires
        0 <= n <= chunks.len(),
    ensures
        forall|i: int|
            0 <= i < chunk_picks(a, chunks, n, skip_empty).len() ==> {
                &&& (#[trigger] chunk_picks(a, chunks, n, skip_empty)[i]).0 == a
                &&& 0 <= chunk_picks(a, chunks, n, skip_empty)[i].1 < n
            },
        forall|i: int, j: int|
            0 <= i < j < chunk_picks(a, chunks, n, skip_empty).len() ==> (#[trigger] chunk_picks(a, chunks, n, skip_empty)[i]).1
                < (#[trigger] chunk_picks(a, chunks, n, skip_empty)[j]).1,
    decreases n,
{
    if n > 0 {
        lemma_chunk_picks_sorted(a, chunks, n - 1, skip_empty);
        let prev = chunk_picks(a, chunks, n - 1, skip_empty);
        let p = chunk_picks(a, chunks, n, skip_empty);
        if !(skip_empty && chunks[n - 1].entities@.len() == 0) {
            assert(p == prev.push((a, n - 1)));
            assert forall|i: int| 0 <= i < p.len() implies {
                &&& (#[trigger] p[i]).0 == a
                &&& 0 <= p[i].1 < n
            } by {
                if i < prev.len() {
                    assert(p[i] == prev[i]);
                }
            }
            assert forall|i: int, j: int| 0 <= i < j < p.len() implies (#[trigger] p[i]).1 < (#[trigger] p[j]).1 by {
                assert(p[i] == prev[i]);
                if j < prev.len() {
                    assert(p[j] == prev[j]);
                }
            }
        }
    }
}

/// The positions a query visits among the first `n` archetypes are in
/// strictly increasing (archetype, chunk) order.
proof fn lemma_arch_picks_sorted(archs: Seq<Archetype>, inc: Seq<u32>, exc: Seq<u32>, n: int, skip_empty: bool)
    requires
        0 <= n <= archs.len(),
    ensures
        forall|i: int|
            0 <= i < arch_picks(archs, inc, exc, n, skip_empty).len() ==> 0 <= (#[trigger] arch_picks(
                archs,
                inc,
                exc,
                n,
                skip_empty,
            )[i]).0 < n,
        forall|i: int, j: int|
            0 <= i < j < arch_picks(archs, inc, exc, n, skip_empty).len() ==> #[trigger] arch_picks(archs, inc, exc, n, skip_empty)[i]
                != #[trigger] arch_picks(archs, inc, exc, n, skip_empty)[j],
    decreases n,
{
    if n > 0 {
        lemma_arch_picks_sorted(archs, inc, exc, n - 1, skip_empty);
        let base = arch_picks(archs, inc, exc, n - 1, skip_empty);
        let p = arch_picks(archs, inc, exc, n, skip_empty);
        if arch_selected(archs[n - 1], inc, exc) {
            let q = chunk_picks(n - 1, archs[n - 1].chunks@, archs[n - 1].chunks@.len() as int, skip_empty);
            lemma_chunk_picks_sorted(n - 1, archs[n - 1].chunks@, archs[n - 1].chunks@.len() as int, skip_empty);
            assert(p == base + q);
            assert forall|i: int| 0 <= i < p.len() implies 0 <= (#[trigger] p[i]).0 < n by {
                if i < base.len() {
                    assert(p[i] == base[i]);
                } else {
                    assert(p[i] == q[i - base.len()]);
                }
            }
            assert forall|i: int, j: int| 0 <= i < j < p.len() implies #[trigger] p[i] != #[trigger] p[j] by {
                if j < base.len() {
                    assert(p[i] == base[i] && p[j] == base[j]);
                } else if i < base.len() {
                    assert(p[i] == base[i] && p[j] == q[j - base.len()]);
                } else {
                    assert(p[i] == q[i - base.len()] && p[j] == q[j - base.len()]);
                }
            }
        } else {
            assert(p == base);
        }
    }
}

/// The positions a query visits depend only on the archetypes' component ids
/// and the entities of their chunks.
proof fn lemma_arch_picks_layout(
    archs: Seq<Archetype>,
    brchs: Seq<Archetype>,
    inc: Seq<u32>,
    exc: Seq<u32>,
    n: int,
    skip_empty: bool,
)
    requires
        0 <= n <= archs.len(),
        archs.len() == brchs.len(),
        forall|a: int|
            0 <= a < archs.len() ==> {
                &&& (#[trigger] brchs[a]).component_ids@ == archs[a].component_ids@
                &&& brchs[a].chunks@.len() == archs[a].chunks@.len()
                &&& forall|c: int|
                    0 <= c < archs[a].chunks@.len() ==> (#[trigger] brchs[a].chunks@[c]).entities@
                        == archs[a].chunks@[c].entities@
            },
    ensures
        arch_picks(brchs, inc, exc, n, skip_empty) == arch_picks(archs, inc, exc, n, skip_empty),
        picks_entities(brchs, arch_picks(archs, inc, exc, n, skip_empty), arch_picks(archs, inc, exc, n, skip_empty).len() as int)
            == picks_entities(archs, arch_picks(archs, inc, exc, n, skip_empty), arch_picks(archs, inc, exc, n, skip_empty).len() as int),
    decreases n,
{
    if n > 0 {
        lemma_arch_picks_layout(archs, brchs, inc, exc, n - 1, skip_empty);
        let a = n - 1;
        assert(brchs[a].component_ids@ == archs[a].component_ids@);
        assert(arch_selected(brchs[a], inc, exc) == arch_selected(archs[a], inc, exc));
        let m = archs[a].chunks@.len() as int;
        assert forall|c: int| 0 <= c <= m implies #[trigger] chunk_picks(a, brchs[a].chunks@, c, skip_empty) == chunk_picks(
            a,
            archs[a].chunks@,
            c,
            skip_empty,
        ) by {
            lemma_chunk_picks_layout(a, brchs[a].chunks@, archs[a].chunks@, c, skip_empty);
        }
    }
    let p = arch_picks(archs, inc, exc, n, skip_empty);
    lemma_arch_picks_valid(archs, inc, exc, n, skip_empty);
    lemma_picks_entities_layout(archs, brchs, p, p.len() as int);
}

proof fn lemma_chunk_picks_layout(a: int, xs: Seq<Chunk>, ys: Seq<Chunk>, n: int, skip_empty: bool)
    requires
        0 <= n <= ys.len(),
        xs.len() == ys.len(),
        forall|c: int| 0 <= c < ys.len() ==> (#[trigger] xs[c]).entities@ == ys[c].entities@,
    ensures
        chunk_picks(a, xs, n, skip_empty) == chunk_picks(a, ys, n, skip_empty),
    decreases n,
{
    if n > 0 {
        lemma_chunk_picks_layout(a, xs, ys, n - 1, skip_empty);
        assert(xs[n - 1].entities@ == ys[n - 1].entities@);
    }
}

proof fn lemma_picks_entities_layout(archs: Seq<Archetype>, brchs: Seq<Archetype>, p: Seq<(int, int)>, n: int)
    requires
        0 <= n <= p.len(),
        forall|i: int| 0 <= i < n ==> pick_valid(archs, #[trigger] p[i]),
        archs.len() == brchs.len(),
        forall|a: int|
            0 <= a < archs.len() ==> {
                &&& (#[trigger] brchs[a]).chunks@.len() == archs[a].chunks@.len()
                &&& forall|c: int|
                    0 <= c < archs[a].chunks@.len() ==> (#[trigger] brchs[a].chunks@[c]).entities@
                        == archs[a].chunks@[c].entities@
            },
    ensures
        picks_entities(brchs, p, n) == picks_entities(archs, p, n),
    decreases n,
{
    if n > 0 {
        lemma_picks_entities_layout(archs, brchs, p, n - 1);
        assert(pick_valid(archs, p[n - 1]));
        let a = p[n - 1].0;
        assert(brchs[a].chunks@[p[n - 1].1].entities@ == archs[a].chunks@[p[n - 1].1].entities@);
    }
}

/// Distinct positions hold entities with distinct ids.
proof fn lemma_picks_entities_distinct(w: World, p: Seq<(int, int)>, n: int)
    requires
        w.wf(),
        0 <= n <= p.len(),
        forall|i: int| 0 <= i < p.len() ==> pick_valid(w.archetypes@, #[trigger] p[i]),
        forall|i: int, j: int| 0 <= i < j < p.len() ==> #[trigger] p[i] != #[trigger] p[j],
    ensures
        forall|i: int, j: int|
            0 <= i < j < picks_entities(w.archetypes@, p, n).len() ==> (#[trigger] picks_entities(w.archetypes@, p, n)[i]).id
                != (#[trigger] picks_entities(w.archetypes@, p, n)[j]).id,
    decreases n,
{
    if n > 0 {
        lemma_picks_entities_distinct(w, p, n - 1);
        let archs = w.archetypes@;
        let prev = picks_entities(archs, p, n - 1);
        let cur = picks_entities(archs, p, n);
        let a = p[n - 1].0;
        let c = p[n - 1].1;
        assert(pick_valid(archs, p[n - 1]));
        let seg = archs[a].chunks@[c].entities@;
        assert(cur == prev + seg);
        w.lemma_archetype_ok(a);
        assert(crate::archetype::chunk_fits(archs[a].chunks@[c], archs[a].spec_template()));
        assert forall|i: int, j: int| 0 <= i < j < cur.len() implies (#[trigger] cur[i]).id != (#[trigger] cur[j]).id by {
            if j < prev.len() {
                assert(cur[i] == prev[i] && cur[j] == prev[j]);
            } else if i < prev.len() {
                let rj = j - prev.len();
                assert(cur[j] == seg[rj]);
                assert(cur[i] == prev[i]);
                assert forall|k: int| 0 <= k < n - 1 implies pick_valid(archs, #[trigger] p[k]) by {}
                lemma_picks_entities_index(archs, p, n - 1, i);
                let (ii, r) = choose|ii: int, r: int|
                    0 <= ii < n - 1 && 0 <= r < archs[p[ii].0].chunks@[p[ii].1].entities@.len() && prev[i]
                        == #[trigger] archs[p[ii].0].chunks@[p[ii].1].entities@[r];
                assert(pick_valid(archs, p[ii]));
                w.lemma_stored_entity(p[ii].0, p[ii].1, r);
                w.lemma_stored_entity(a, c, rj);
                w.lemma_archetype_ok(p[ii].0);
                assert(p[ii] != p[n - 1]);
            } else {
                let ri = i - prev.len();
                let rj = j - prev.len();
                assert(cur[i] == seg[ri] && cur[j] == seg[rj]);
                w.lemma_stored_entity(a, c, ri);
                w.lemma_stored_entity(a, c, rj);
            }
        }
    }
}

/// Query chunks that show the chunks at `picks` hold, together, as many rows
/// as those chunks hold entities.
proof fn lemma_rows_count(archs: Seq<Archetype>, picks: Seq<(int, int)>, chunks: Seq<QueryChunk>, n: int)
    requires
        0 <= n <= chunks.len(),
        n <= picks.len(),
        forall|i: int|
            0 <= i < n ==> (#[trigger] chunks[i]).rows == archs[picks[i].0].chunks@[picks[i].1].entities@.len(),
    ensures
        chunks_rows(chunks, n) == picks_entities(archs, picks, n).len(),
    decreases n,
{
    if n > 0 {
        lemma_rows_count(archs, picks, chunks, n - 1);
        assert(chunks[n - 1].rows == archs[picks[n - 1].0].chunks@[picks[n - 1].1].entities@.len());
    }
}

/// In a duplicate-free sequence the element at `k` is found at `k`.
proof fn lemma_index_of_distinct(s: Seq<u32>, k: int)
    requires
        s.no_duplicates(),
        0 <= k < s.len(),
    ensures
        s.index_of(s[k]) == k,
{
    assert(s.contains(s[k]));
}

/// The query columns a row starts with: the bytes of component `ids[k]` in
/// column `k`.
pub open spec fn row_columns(m: Map<u32, Seq<u8>>, ids: Seq<u32>) -> Seq<Seq<u8>> {
    Seq::new(ids.len(), |k: int| m[ids[k]])
}

/// Components `m` after the first `n` query columns `cols` are written back,
/// in order: column `k` replaces the bytes of component `ids[k]` when it has
/// their length, and is dropped otherwise.
pub open spec fn written_back(m: Map<u32, Seq<u8>>, ids: Seq<u32>, cols: Seq<Seq<u8>>, n: int) -> Map<u32, Seq<u8>>
    decreases n,
{
    if n <= 0 {
        m
    } else {
        let prev = written_back(m, ids, cols, n - 1);
        if n - 1 < cols.len() && cols[n - 1].len() == prev[ids[n - 1]].len() {
            prev.insert(ids[n - 1], cols[n - 1])
        } else {
            prev
        }
    }
}

/// `w1` is `w0` after entity `e`'s row was handed to a callback: the row `r`
/// started with `e`'s bytes of the components `ids` (at `e`'s row index in
/// its chunk), the callback left the columns `out` in it, and those were
/// written back to `e`; nothing else changed.
pub open spec fn row_step(w0: World, w1: World, e: Entity, ids: Seq<u32>, r: QueryRowMut, out: Seq<Seq<u8>>) -> bool {
    &&& r.spec_entity() == e
    &&& r.spec_row() == w0.locations@[e.id as int].row as usize
    &&& r.spec_columns() == row_columns(w0.spec_components(e.id as int), ids)
    &&& w1.spec_components(e.id as int) == written_back(w0.spec_components(e.id as int), ids, out, ids.len() as int)
    &&& w0.spec_others_unchanged(&w1, e.id as int)
    &&& w1.spec_same_layout(&w0)
}

/// Row `r`, handed to a read-only query callback, shows entity `e` of `w`:
/// each query column `k` below `ids.len()` exists and holds `e`'s bytes of
/// component `ids[k]`.
pub open spec fn row_shows(w: World, e: Entity, ids: Seq<u32>, r: QueryRow) -> bool {
    &&& r.spec_entity() == e
    &&& r.spec_columns_ok(ids.len() as int)
    &&& forall|k: int| 0 <= k < ids.len() ==> #[trigger] r.spec_bytes(k) == w.spec_components(e.id as int)[ids[k]]
}

/// `f` was called with a row that shows entity `e` of `w` for the
/// components `ids`.
pub open spec fn row_shown<F: for<'r> FnMut(QueryRow<'r>)>(f: F, w: World, e: Entity, ids: Seq<u32>) -> bool {
    exists|r: QueryRow| #![trigger call_ensures(f, (r,), ())] call_ensures(f, (r,), ()) && row_shows(w, e, ids, r)
}

impl World {
    /// Chunk positions visited by a query for `inc` excluding `exc` (non-empty chunks only).
    pub open spec fn spec_query_picks(&self, inc: Seq<u32>, exc: Seq<u32>) -> Seq<(int, int)> {
        arch_picks(self.archetypes@, inc, exc, self.archetypes@.len() as int, true)
    }

    /// Entities having every component of `inc`, in archetype/chunk/row order.
    pub open spec fn spec_query_entities(&self, inc: Seq<u32>) -> Seq<Entity> {
        self.spec_query_entities_excluding(inc, Seq::empty())
    }

    /// Entities having every component of `inc` and none of `exc`, in
    /// archetype/chunk/row order.
    pub open spec fn spec_query_entities_excluding(&self, inc: Seq<u32>, exc: Seq<u32>) -> Seq<Entity> {
        let p = self.spec_query_picks(inc, exc);
        picks_entities(self.archetypes@, p, p.len() as int)
    }

    /// Every entity a query lists is alive, placed, and has all queried components.
    pub proof fn lemma_query_entity_has(&self, inc: Seq<u32>, k: int)
        requires
            self.wf(),
            0 <= k < self.spec_query_entities(inc).len(),
        ensures
            self.spec_is_alive(self.spec_query_entities(inc)[k]),
            self.spec_placed(self.spec_query_entities(inc)[k].id as int),
            forall|j: int|
                0 <= j < inc.len() ==> self.spec_components(self.spec_query_entities(inc)[k].id as int).dom().contains(
                    #[trigger] inc[j],
                ),
    {
        self.lemma_query_excluding_has(inc, Seq::empty(), k);
    }

    /// Every entity a query with exclusions lists is alive, placed, has all
    /// required components and none of the excluded ones.
    pub proof fn lemma_query_excluding_has(&self, inc: Seq<u32>, exc: Seq<u32>, k: int)
        requires
            self.wf(),
            0 <= k < self.spec_query_entities_excluding(inc, exc).len(),
        ensures
            self.spec_is_alive(self.spec_query_entities_excluding(inc, exc)[k]),
            self.spec_placed(self.spec_query_entities_excluding(inc, exc)[k].id as int),
            forall|j: int|
                0 <= j < inc.len() ==> self.spec_components(self.spec_query_entities_excluding(inc, exc)[k].id as int).dom().contains(
                    #[trigger] inc[j],
                ),
            forall|j: int|
                0 <= j < exc.len() ==> !self.spec_components(self.spec_query_entities_excluding(inc, exc)[k].id as int).dom().contains(
                    #[trigger] exc[j],
                ),
    {
        let archs = self.archetypes@;
        let p = self.spec_query_picks(inc, exc);
        lemma_arch_picks_valid(archs, inc, exc, archs.len() as int, true);
        assert forall|i: int| 0 <= i < p.len() implies pick_valid(archs, #[trigger] p[i]) by {}
        lemma_picks_entities_index(archs, p, p.len() as int, k);
        let (i, r) = choose|i: int, r: int|
            0 <= i < p.len() && 0 <= r < archs[p[i].0].chunks@[p[i].1].entities@.len() && picks_entities(archs, p, p.len() as int)[k]
                == #[trigger] archs[p[i].0].chunks@[p[i].1].entities@[r];
        let e = self.spec_query_entities_excluding(inc, exc)[k];
        assert(e == archs[p[i].0].chunks@[p[i].1].entities@[r]);
        self.lemma_stored_entity(p[i].0, p[i].1, r);
        assert(arch_selected(archs[p[i].0], inc, exc));
        self.lemma_archetype_ok(p[i].0);
        assert(self.locations@[e.id as int].archetype_id as int == p[i].0);
        assert forall|j: int| 0 <= j < inc.len() implies self.spec_components(e.id as int).dom().contains(#[trigger] inc[j]) by {
            assert(archs[p[i].0].component_ids@.contains(inc[j]));
        }
        assert forall|j: int| 0 <= j < exc.len() implies !self.spec_components(e.id as int).dom().contains(#[trigger] exc[j]) by {
            assert(!archs[p[i].0].component_ids@.contains(exc[j]));
        }
    }

    /// Every alive entity stored in the archetypes that has all queried
    /// components is listed by the query.
    pub proof fn lemma_query_complete(&self, inc: Seq<u32>, e: Entity)
        requires
            self.wf(),
            self.spec_is_alive(e),
            self.spec_placed(e.id as int),
            has_all(self.spec_components(e.id as int), inc),
        ensures
            self.spec_query_entities(inc).contains(e),
    {
        self.lemma_query_excluding_complete(inc, Seq::empty(), e);
    }

    /// Every alive, placed entity with all required components and none of the
    /// excluded ones is listed by the query with exclusions.
    pub proof fn lemma_query_excluding_complete(&self, inc: Seq<u32>, exc: Seq<u32>, e: Entity)
        requires
            self.wf(),
            self.spec_is_alive(e),
            self.spec_placed(e.id as int),
            has_all(self.spec_components(e.id as int), inc),
            forall|j: int| 0 <= j < exc.len() ==> !self.spec_components(e.id as int).dom().contains(#[trigger] exc[j]),
        ensures
            self.spec_query_entities_excluding(inc, exc).contains(e),
    {
        let archs = self.archetypes@;
        let loc = self.locations@[e.id as int];
        let a = loc.archetype_id as int;
        let c = loc.chunk_index as int;
        let r = loc.row as int;
        self.lemma_placed_location(e.id as int);
        self.lemma_stored_entity(a, c, r);
        assert(arch_selected(archs[a], inc, exc)) by {
            assert forall|k: int| 0 <= k < inc.len() implies archs[a].component_ids@.contains(#[trigger] inc[k]) by {
                assert(self.spec_components(e.id as int).dom().contains(inc[k]));
            }
            assert forall|k: int| 0 <= k < exc.len() implies !archs[a].component_ids@.contains(#[trigger] exc[k]) by {
                assert(!self.spec_components(e.id as int).dom().contains(exc[k]));
            }
        }
        lemma_arch_picks_contains(archs, inc, exc, archs.len() as int, a, c);
        let p = self.spec_query_picks(inc, exc);
        let i = choose|i: int| 0 <= i < p.len() && p[i] == (a, c);
        lemma_picks_entities_contains(archs, p, p.len() as int, i, r);
        assert(archs[a].chunks@[c].entities@[r] == e);
    }

    /// No entity is listed twice by a query: the listed ids are distinct.
    pub proof fn lemma_query_entities_distinct(&self, inc: Seq<u32>)
        requires
            self.wf(),
        ensures
            forall|i: int, j: int|
                0 <= i < j < self.spec_query_entities(inc).len() ==> (#[trigger] self.spec_query_entities(inc)[i]).id
                    != (#[trigger] self.spec_query_entities(inc)[j]).id,
    {
        self.lemma_query_excluding_distinct(inc, Seq::empty());
    }

    /// No entity is listed twice by a query with exclusions.
    pub proof fn lemma_query_excluding_distinct(&self, inc: Seq<u32>, exc: Seq<u32>)
        requires
            self.wf(),
        ensures
            forall|i: int, j: int|
                0 <= i < j < self.spec_query_entities_excluding(inc, exc).len() ==> (#[trigger] self.spec_query_entities_excluding(
                    inc,
                    exc,
                )[i]).id != (#[trigger] self.spec_query_entities_excluding(inc, exc)[j]).id,
    {
        let archs = self.archetypes@;
        let p = self.spec_query_picks(inc, exc);
        lemma_arch_picks_valid(archs, inc, exc, archs.len() as int, true);
        lemma_arch_picks_sorted(archs, inc, exc, archs.len() as int, true);
        assert forall|i: int| 0 <= i < p.len() implies pick_valid(archs, #[trigger] p[i]) by {}
        lemma_picks_entities_distinct(*self, p, p.len() as int);
    }

    /// Worlds with the same layout list the same entities for every query.
    pub proof fn lemma_query_same_layout(&self, other: &World, inc: Seq<u32>, exc: Seq<u32>)
        requires
            other.spec_same_layout(self),
        ensures
            other.spec_query_picks(inc, exc) == self.spec_query_picks(inc, exc),
            other.spec_query_entities(inc) == self.spec_query_entities(inc),
    {
        let archs = self.archetypes@;
        let brchs = other.archetypes@;
        assert forall|a: int| 0 <= a < archs.len() implies {
            &&& (#[trigger] brchs[a]).component_ids@ == archs[a].component_ids@
            &&& brchs[a].chunks@.len() == archs[a].chunks@.len()
            &&& forall|c: int|
                0 <= c < archs[a].chunks@.len() ==> (#[trigger] brchs[a].chunks@[c]).entities@
                    == archs[a].chunks@[c].entities@
        } by {
            assert(brchs[a].component_ids@ == archs[a].component_ids@);
        }
        lemma_arch_picks_layout(archs, brchs, inc, exc, archs.len() as int, true);
        lemma_arch_picks_layout(archs, brchs, inc, Seq::<u32>::empty(), archs.len() as int, true);
    }

    /// `qc` shows the chunk at position `p`, with one column per id of `inc`, in that order.
    pub open spec fn spec_shows_chunk(&self, qc: QueryChunk, p: (int, int), inc: Seq<u32>) -> bool {
        let arch = self.archetypes@[p.0];
        let ch = arch.chunks@[p.1];
        &&& pick_valid(self.archetypes@, p)
        &&& qc.rows == ch.entities@.len()
        &&& qc.columns@.len() == inc.len()
        &&& forall|k: int|
            0 <= k < inc.len() ==> {
                &&& (#[trigger] qc.columns@[k]).data@ == ch.columns@[arch.spec_column_of(inc[k])].data@
                &&& qc.columns@[k].element_size == ch.columns@[arch.spec_column_of(inc[k])].element_size
            }
    }

    /// One view per non-empty chunk of every archetype having all of
    /// `required` and none of `exclude`.
    fn collect_chunks<'a>(&'a self, required: &[u32], exclude: &[u32]) -> (r: Vec<QueryChunk<'a>>)
        requires
            self.wf(),
        ensures
            r@.len() == self.spec_query_picks(required@, exclude@).len(),
            forall|i: int|
                0 <= i < r@.len() ==> self.spec_shows_chunk(
                    #[trigger] r@[i],
                    self.spec_query_picks(required@, exclude@)[i],
                    required@,
                ),
    {
        let inc_mask = mask_of(required);
        let exc_mask = mask_of(exclude);
        let ghost archs = self.archetypes@;
        let mut out: Vec<QueryChunk<'a>> = Vec::new();
        let n = self.archetypes.len();
        let mut a: usize = 0;
        while a < n
            invariant
                self.wf(),
                archs == self.archetypes@,
                n == archs.len(),
                a <= n,
                inc_mask@ == id_bits(required@),
                exc_mask@ == id_bits(exclude@),
                out@.len() == arch_picks(archs, required@, exclude@, a as int, true).len(),
                forall|i: int|
                    0 <= i < out@.len() ==> self.spec_shows_chunk(
                        #[trigger] out@[i],
                        arch_picks(archs, required@, exclude@, a as int, true)[i],
                        required@,
                    ),
            decreases n - a,
        {
            let archetype = &self.archetypes[a];
            proof {
                self.lemma_archetype_ok(a as int);
                lemma_mask_select(*archetype, required@, exclude@);
            }
            if archetype.mask.matches(&inc_mask) && archetype.mask.is_disjoint(&exc_mask) {
                let ghost base = arch_picks(archs, required@, exclude@, a as int, true);
                let ghost chs = archetype.chunks@;
                let m = archetype.chunks.len();
                let mut c: usize = 0;
                while c < m
                    invariant
                        self.wf(),
                        archs == self.archetypes@,
                        n == archs.len(),
                        a < n,
                        *archetype == archs[a as int],
                        archetype.wf(),
                        chs == archetype.chunks@,
                        m == chs.len(),
                        c <= m,
                        arch_selected(*archetype, required@, exclude@),
                        base == arch_picks(archs, required@, exclude@, a as int, true),
                        out@.len() == base.len() + chunk_picks(a as int, chs, c as int, true).len(),
                        forall|i: int|
                            0 <= i < out@.len() ==> self.spec_shows_chunk(
                                #[trigger] out@[i],
                                (base + chunk_picks(a as int, chs, c as int, true))[i],
                                required@,
                            ),
                    decreases m - c,
                {
                    let chunk = &archetype.chunks[c];
                    let ghost before = out@;
                    if !chunk.is_empty() {
                        proof {
                            assert(chunk_fits(*chunk, archetype.template_columns@));
                        }
                        let mut columns: Vec<ColumnView<'a>> = Vec::new();
                        let mut k: usize = 0;
                        while k < required.len()
                            invariant
                                archetype.wf(),
                                *chunk == chs[c as int],
                                chunk_fits(*chunk, archetype.template_columns@),
                                arch_selected(*archetype, required@, exclude@),
                                k <= required@.len(),
                                columns@.len() == k,
                                forall|j: int|
                                    0 <= j < k ==> {
                                        &&& (#[trigger] columns@[j]).data@ == chunk.columns@[archetype.spec_column_of(required@[j])].data@
                                        &&& columns@[j].element_size == chunk.columns@[archetype.spec_column_of(required@[j])].element_size
                                    },
                            decreases required@.len() - k,
                        {
                            proof {
                                assert(archetype.component_ids@.contains(required@[k as int]));
                            }
                            let col_idx = archetype.column_index(required[k]);
                            let col = &chunk.columns[col_idx];
                            columns.push(ColumnView { data: col.data.as_slice(), element_size: col.element_size });
                            k = k + 1;
                        }
                        out.push(QueryChunk { rows: chunk.len(), columns });
                    }
                    proof {
                        let p0 = base + chunk_picks(a as int, chs, c as int, true);
                        let p1 = base + chunk_picks(a as int, chs, c as int + 1, true);
                        if chs[c as int].entities@.len() == 0 {
                            assert(p1 =~= p0);
                        } else {
                            assert(p1 =~= p0.push((a as int, c as int)));
                            assert forall|i: int| 0 <= i < out@.len() implies self.spec_shows_chunk(#[trigger] out@[i], p1[i], required@) by {
                                if i < before.len() {
                                    assert(out@[i] == before[i]);
                                }
                            }
                        }
                    }
                    c = c + 1;
                }
                proof {
                    assert(arch_picks(archs, required@, exclude@, a as int + 1, true) == base + chunk_picks(a as int, chs, m as int, true));
                }
            }
            a = a + 1;
        }
        out
    }

    /// Every entity having all of `component_ids`, one view per non-empty chunk,
    /// with its columns in the order of `component_ids`.
    pub fn query(&self, component_ids: &[u32]) -> (r: QueryResult<'_>)
        requires
            self.wf(),
        ensures
            r.chunks@.len() == self.spec_query_picks(component_ids@, Seq::empty()).len(),
            forall|i: int|
                0 <= i < r.chunks@.len() ==> self.spec_shows_chunk(
                    #[trigger] r.chunks@[i],
                    self.spec_query_picks(component_ids@, Seq::empty())[i],
                    component_ids@,
                ),
            r.spec_total_rows() == self.spec_query_entities(component_ids@).len(),
    {
        let none: Vec<u32> = Vec::new();
        proof {
            assert(none@ =~= Seq::<u32>::empty());
        }
        let chunks = self.collect_chunks(component_ids, none.as_slice());
        proof {
            let p = self.spec_query_picks(component_ids@, Seq::empty());
            assert forall|i: int| 0 <= i < chunks@.len() implies (#[trigger] chunks@[i]).rows
                == self.archetypes@[p[i].0].chunks@[p[i].1].entities@.len() by {
                assert(self.spec_shows_chunk(chunks@[i], p[i], component_ids@));
            }
            lemma_rows_count(self.archetypes@, p, chunks@, chunks@.len() as int);
        }
        QueryResult { chunks }
    }

    /// Like `query`, but leaving out archetypes that have any of `exclude`.
    pub fn query_with_exclude(&self, required: &[u32], exclude: &[u32]) -> (r: QueryResult<'_>)
        requires
            self.wf(),
        ensures
            r.chunks@.len() == self.spec_query_picks(required@, exclude@).len(),
            forall|i: int|
                0 <= i < r.chunks@.len() ==> self.spec_shows_chunk(
                    #[trigger] r.chunks@[i],
                    self.spec_query_picks(required@, exclude@)[i],
                    required@,
                ),
            r.spec_total_rows() == self.spec_query_entities_excluding(required@, exclude@).len(),
    {
        let chunks = self.collect_chunks(required, exclude);
        proof {
            let p = self.spec_query_picks(required@, exclude@);
            assert forall|i: int| 0 <= i < chunks@.len() implies (#[trigger] chunks@[i]).rows
                == self.archetypes@[p[i].0].chunks@[p[i].1].entities@.len() by {
                assert(self.spec_shows_chunk(chunks@[i], p[i], required@));
            }
            lemma_rows_count(self.archetypes@, p, chunks@, chunks@.len() as int);
        }
        QueryResult { chunks }
    }

    /// The raw column bytes of `component_id` in every chunk (empty ones
    /// too) of every archetype having it.
    pub fn query_column(&self, component_id: u32) -> (r: Vec<&[u8]>)
        requires
            self.wf(),
        ensures
            r@.len() == arch_picks(self.archetypes@, seq![component_id], Seq::empty(), self.archetypes@.len() as int, false).len(),
            forall|i: int|
                0 <= i < r@.len() ==> column_shown(
                    self.archetypes@,
                    (#[trigger] r@[i])@,
                    arch_picks(self.archetypes@, seq![component_id], Seq::empty(), self.archetypes@.len() as int, false)[i],
                    component_id,
                ),
    {
        let ghost archs = self.archetypes@;
        let ghost inc = seq![component_id];
        let ghost exc = Seq::<u32>::empty();
        let mut out: Vec<&[u8]> = Vec::new();
        let n = self.archetypes.len();
        let mut a: usize = 0;
        while a < n
            invariant
                self.wf(),
                archs == self.archetypes@,
                inc == seq![component_id],
                exc == Seq::<u32>::empty(),
                n == archs.len(),
                a <= n,
                out@.len() == arch_picks(archs, inc, exc, a as int, false).len(),
                forall|i: int|
                    0 <= i < out@.len() ==> column_shown(
                        archs,
                        (#[trigger] out@[i])@,
                        arch_picks(archs, inc, exc, a as int, false)[i],
                        component_id,
                    ),
            decreases n - a,
        {
            let archetype = &self.archetypes[a];
            proof {
                self.lemma_archetype_ok(a as int);
                assert(archetype.mask@.contains(component_id as nat) == archetype.component_ids@.contains(component_id));
                assert(arch_selected(*archetype, inc, exc) == archetype.component_ids@.contains(component_id)) by {
                    if archetype.component_ids@.contains(component_id) {
                        assert forall|k: int| 0 <= k < inc.len() implies archetype.component_ids@.contains(#[trigger] inc[k]) by {
                            assert(inc[k] == component_id);
                        }
                    }
                    if arch_selected(*archetype, inc, exc) {
                        assert(archetype.component_ids@.contains(inc[0]));
                    }
                }
            }
            if archetype.mask.contains(component_id as usize) {
                let ghost base = arch_picks(archs, inc, exc, a as int, false);
                let ghost chs = archetype.chunks@;
                let col_idx = archetype.column_index(component_id);
                let m = archetype.chunks.len();
                let mut c: usize = 0;
                proof {
                    assert(base + chunk_picks(a as int, chs, 0, false) =~= base);
                }
                while c < m
                    invariant
                        archs == self.archetypes@,
                        a < archs.len(),
                        *archetype == archs[a as int],
                        archetype.wf(),
                        chs == archetype.chunks@,
                        m == chs.len(),
                        c <= m,
                        col_idx == archetype.spec_column_of(component_id),
                        col_idx < archetype.component_ids@.len(),
                        base == arch_picks(archs, inc, exc, a as int, false),
                        out@.len() == base.len() + chunk_picks(a as int, chs, c as int, false).len(),
                        forall|i: int|
                            0 <= i < out@.len() ==> column_shown(
                                archs,
                                (#[trigger] out@[i])@,
                                (base + chunk_picks(a as int, chs, c as int, false))[i],
                                component_id,
                            ),
                    decreases m - c,
                {
                    let ghost before = out@;
                    proof {
                        assert(chunk_fits(chs[c as int], archetype.template_columns@));
                    }
                    out.push(archetype.chunks[c].columns[col_idx].data.as_slice());
                    proof {
                        let p0 = base + chunk_picks(a as int, chs, c as int, false);
                        let p1 = base + chunk_picks(a as int, chs, c as int + 1, false);
                        assert(p1 =~= p0.push((a as int, c as int)));
                        assert forall|i: int| 0 <= i < out@.len() implies column_shown(archs, (#[trigger] out@[i])@, p1[i], component_id) by {
                            if i < before.len() {
                                assert(out@[i] == before[i]);
                            }
                        }
                    }
                    c = c + 1;
                }
                proof {
                    assert(arch_picks(archs, inc, exc, a as int + 1, false) == base + chunk_picks(a as int, chs, m as int, false));
                }
            }
            a = a + 1;
        }
        out
    }

    /// The entities having every component of `component_ids`, in query order.
    pub(crate) fn collect_entities(&self, component_ids: &[u32]) -> (r: Vec<Entity>)
        requires
            self.wf(),
        ensures
            r@ == self.spec_query_entities(component_ids@),
    {
        let ghost archs = self.archetypes@;
        let ghost inc = component_ids@;
        let ghost exc = Seq::<u32>::empty();
        let inc_mask = mask_of(component_ids);
        let mut out: Vec<Entity> = Vec::new();
        let n = self.archetypes.len();
        let mut a: usize = 0;
        while a < n
            invariant
                self.wf(),
                archs == self.archetypes@,
                inc == component_ids@,
                exc == Seq::<u32>::empty(),
                n == archs.len(),
                a <= n,
                inc_mask@ == id_bits(inc),
                out@ == picks_entities(
                    archs,
                    arch_picks(archs, inc, exc, a as int, true),
                    arch_picks(archs, inc, exc, a as int, true).len() as int,
                ),
            decreases n - a,
        {
            let archetype = &self.archetypes[a];
            proof {
                self.lemma_archetype_ok(a as int);
                lemma_mask_select(*archetype, inc, exc);
            }
            if archetype.mask.matches(&inc_mask) {
                let ghost base = arch_picks(archs, inc, exc, a as int, true);
                let ghost chs = archetype.chunks@;
                let m = archetype.chunks.len();
                let mut c: usize = 0;
                while c < m
                    invariant
                        archs == self.archetypes@,
                        a < archs.len(),
                        *archetype == archs[a as int],
                        chs == archetype.chunks@,
                        m == chs.len(),
                        c <= m,
                        base == arch_picks(archs, inc, exc, a as int, true),
                        out@ == picks_entities(
                            archs,
                            base + chunk_picks(a as int, chs, c as int, true),
                            (base + chunk_picks(a as int, chs, c as int, true)).len() as int,
                        ),
                    decreases m - c,
                {
                    let chunk = &archetype.chunks[c];
                    let ghost start = out@;
                    let cnt = chunk.entities.len();
                    let mut row: usize = 0;
                    while row < cnt
                        invariant
                            *chunk == chs[c as int],
                            cnt == chunk.entities@.len(),
                            row <= cnt,
                            out@ == start + chunk.entities@.subrange(0, row as int),
                        decreases cnt - row,
                    {
                        out.push(chunk.entities[row]);
                        proof {
                            assert(chunk.entities@.subrange(0, row as int + 1) =~= chunk.entities@.subrange(0, row as int).push(
                                chunk.entities@[row as int],
                            ));
                        }
                        row = row + 1;
                    }
                    proof {
                        assert(chunk.entities@.subrange(0, cnt as int) =~= chunk.entities@);
                        let p0 = base + chunk_picks(a as int, chs, c as int, true);
                        let p1 = base + chunk_picks(a as int, chs, c as int + 1, true);
                        if chs[c as int].entities@.len() == 0 {
                            assert(p1 =~= p0);
                            assert(out@ =~= start);
                        } else {
                            assert(p1 =~= p0.push((a as int, c as int)));
                            lemma_picks_entities_prefix(archs, p0, p1, p0.len() as int);
                        }
                    }
                    c = c + 1;
                }
                proof {
                    assert(arch_picks(archs, inc, exc, a as int + 1, true) == base + chunk_picks(a as int, chs, m as int, true));
                }
            }
            a = a + 1;
        }
        out
    }

    /// `(id, generation)` of every entity having all of `component_ids`, in
    /// archetype/chunk/row order.
    pub fn query_entity_ids(&self, component_ids: &[u32]) -> (r: Vec<(u32, u32)>)
        requires
            self.wf(),
        ensures
            r@.len() == self.spec_query_entities(component_ids@).len(),
            forall|i: int|
                0 <= i < r@.len() ==> #[trigger] r@[i] == (
                    self.spec_query_entities(component_ids@)[i].id,
                    self.spec_query_entities(component_ids@)[i].generation,
                ),
    {
        let ents = self.collect_entities(component_ids);
        let mut out: Vec<(u32, u32)> = Vec::new();
        let mut i: usize = 0;
        while i < ents.len()
            invariant
                i <= ents@.len(),
                out@.len() == i,
                forall|j: int| 0 <= j < i ==> #[trigger] out@[j] == (ents@[j].id, ents@[j].generation),
            decreases ents@.len() - i,
        {
            out.push((ents[i].id, ents[i].generation));
            i = i + 1;
        }
        out
    }

    /// `(id, generation)` of the first entity having all of `component_ids`.
    pub fn query_first_id(&self, component_ids: &[u32]) -> (r: Option<(u32, u32)>)
        requires
            self.wf(),
        ensures
            self.spec_query_entities(component_ids@).len() == 0 ==> r is None,
            self.spec_query_entities(component_ids@).len() > 0 ==> r == Some(
                (
                    self.spec_query_entities(component_ids@)[0].id,
                    self.spec_query_entities(component_ids@)[0].generation,
                ),
            ),
    {
        let ents = self.collect_entities(component_ids);
        if ents.len() == 0 {
            None
        } else {
            Some((ents[0].id, ents[0].generation))
        }
    }

    /// Number of entities having all of `component_ids`.
    pub fn query_match_count(&self, component_ids: &[u32]) -> (r: usize)
        requires
            self.wf(),
        ensures
            r == self.spec_query_entities(component_ids@).len(),
    {
        let ents = self.collect_entities(component_ids);
        ents.len()
    }

    /// Call `f` once per entity having all of `component_ids`, in query order,
    /// with a row whose query column `k` is component `component_ids[k]`.
    pub fn query_each<F>(&self, component_ids: &[u32], mut f: F)
        where
            F: for<'r> FnMut(QueryRow<'r>),
        requires
            self.wf(),
            forall|row: QueryRow| row.spec_columns_ok(component_ids@.len() as int) ==> #[trigger] call_requires(f, (row,)),
        ensures
            forall|k: int|
                0 <= k < self.spec_query_entities(component_ids@).len() ==> #[trigger] row_shown(
                    f,
                    *self,
                    self.spec_query_entities(component_ids@)[k],
                    component_ids@,
                ),
    {
        let ghost f0 = f;
        let ghost archs0 = self.archetypes@;
        let ghost inc = component_ids@;
        let ghost exc = Seq::<u32>::empty();
        let ghost mut seen: Seq<Entity> = Seq::empty();
        let inc_mask = mask_of(component_ids);
        let n = self.archetypes.len();
        let mut a: usize = 0;
        proof {
            assert(seen =~= picks_entities(archs0, arch_picks(archs0, inc, exc, 0, true), 0));
        }
        while a < n
            invariant
                self.wf(),
                n == self.archetypes@.len(),
                archs0 == self.archetypes@,
                inc == component_ids@,
                exc == Seq::<u32>::empty(),
                a <= n,
                inc_mask@ == id_bits(component_ids@),
                f == f0,
                forall|row: QueryRow| row.spec_columns_ok(component_ids@.len() as int) ==> #[trigger] call_requires(f, (row,)),
                seen == picks_entities(archs0, arch_picks(archs0, inc, exc, a as int, true), arch_picks(archs0, inc, exc, a as int, true).len() as int),
                forall|k: int| 0 <= k < seen.len() ==> #[trigger] row_shown(f0, *self, seen[k], inc),
            decreases n - a,
        {
            let archetype = &self.archetypes[a];
            proof {
                self.lemma_archetype_ok(a as int);
                lemma_mask_select(*archetype, component_ids@, Seq::empty());
            }
            let ghost base = arch_picks(archs0, inc, exc, a as int, true);
            let ghost chs = archs0[a as int].chunks@;
            if archetype.mask.matches(&inc_mask) {
                let mut col_indices: Vec<usize> = Vec::new();
                let mut k: usize = 0;
                while k < component_ids.len()
                    invariant
                        archetype.wf(),
                        forall|j: int| 0 <= j < component_ids@.len() ==> archetype.component_ids@.contains(#[trigger] component_ids@[j]),
                        k <= component_ids@.len(),
                        col_indices@.len() == k,
                        forall|j: int|
                            0 <= j < k ==> {
                                &&& (#[trigger] col_indices@[j]) < archetype.component_ids@.len()
                                &&& archetype.component_ids@[col_indices@[j] as int] == component_ids@[j]
                            },
                    decreases component_ids@.len() - k,
                {
                    proof {
                        assert(archetype.component_ids@.contains(component_ids@[k as int]));
                    }
                    col_indices.push(archetype.column_index(component_ids[k]));
                    k = k + 1;
                }
                let m = archetype.chunks.len();
                let mut c: usize = 0;
                proof {
                    assert(base + chunk_picks(a as int, chs, 0, true) =~= base);
                }
                while c < m
                    invariant
                        self.wf(),
                        n == self.archetypes@.len(),
                        a < n,
                        archs0 == self.archetypes@,
                        inc == component_ids@,
                        exc == Seq::<u32>::empty(),
                        *archetype == archs0[a as int],
                        archetype.wf(),
                        chs == archetype.chunks@,
                        m == chs.len(),
                        c <= m,
                        arch_selected(archs0[a as int], inc, exc),
                        base == arch_picks(archs0, inc, exc, a as int, true),
                        col_indices@.len() == component_ids@.len(),
                        forall|j: int|
                            0 <= j < col_indices@.len() ==> {
                                &&& (#[trigger] col_indices@[j]) < archetype.component_ids@.len()
                                &&& archetype.component_ids@[col_indices@[j] as int] == component_ids@[j]
                            },
                        f == f0,
                        forall|row: QueryRow| row.spec_columns_ok(component_ids@.len() as int) ==> #[trigger] call_requires(f, (row,)),
                        seen == picks_entities(
                            archs0,
                            base + chunk_picks(a as int, chs, c as int, true),
                            (base + chunk_picks(a as int, chs, c as int, true)).len() as int,
                        ),
                        forall|k: int| 0 <= k < seen.len() ==> #[trigger] row_shown(f0, *self, seen[k], inc),
                    decreases m - c,
                {
                    let chunk = &archetype.chunks[c];
                    proof {
                        assert(chunk_fits(*chunk, archetype.template_columns@));
                    }
                    let count = chunk.entities.len();
                    let ghost seen_c = seen;
                    let ghost cents = chunk.entities@;
                    proof {
                        assert(cents.take(0) =~= Seq::<Entity>::empty());
                        assert(seen =~= seen_c + cents.take(0));
                    }
                    let mut row: usize = 0;
                    while row < count
                        invariant
                            self.wf(),
                            a < self.archetypes@.len(),
                            *archetype == self.archetypes@[a as int],
                            archetype.wf(),
                            c < archetype.chunks@.len(),
                            *chunk == archetype.chunks@[c as int],
                            chunk_fits(*chunk, archetype.template_columns@),
                            archetype.template_columns@.len() == archetype.component_ids@.len(),
                            count == chunk.entities@.len(),
                            cents == chunk.entities@,
                            row <= count,
                            inc == component_ids@,
                            col_indices@.len() == component_ids@.len(),
                            forall|j: int|
                                0 <= j < col_indices@.len() ==> {
                                    &&& (#[trigger] col_indices@[j]) < archetype.component_ids@.len()
                                    &&& archetype.component_ids@[col_indices@[j] as int] == component_ids@[j]
                                },
                            f == f0,
                            forall|row: QueryRow| row.spec_columns_ok(component_ids@.len() as int) ==> #[trigger] call_requires(f, (row,)),
                            seen == seen_c + cents.take(row as int),
                            forall|k: int| 0 <= k < seen.len() ==> #[trigger] row_shown(f0, *self, seen[k], inc),
                        decreases count - row,
                    {
                        let qr = QueryRow::new(chunk.columns.as_slice(), col_indices.as_slice(), chunk.entities[row], row);
                        proof {
                            self.lemma_archetype_ok(a as int);
                            self.lemma_stored_entity(a as int, c as int, row as int);
                            let e = cents[row as int];
                            let ids_a = archetype.component_ids@;
                            assert forall|j: int|
                                #![trigger qr.spec_has_column(j)]
                                #![trigger qr.spec_bytes(j)]
                                0 <= j < component_ids@.len() implies qr.spec_has_column(j) && qr.spec_bytes(j) == self.spec_components(e.id as int)[inc[j]] by {
                                let ci = col_indices@[j] as int;
                                let col = chunk.columns@[ci];
                                lemma_row_in_column(col.data@.len(), col.element_size as nat, count as nat, row as nat);
                                assert(qr.spec_has_column(j));
                                assert(qr.spec_bytes(j) == spec_row(col.data@, col.element_size as nat, row as nat));
                                lemma_index_of_distinct(ids_a, ci);
                                assert(ids_a.contains(inc[j]));
                                assert(ids_a.index_of(inc[j]) == ci);
                                assert((a as u32) as int == a as int);
                                assert((c as u32) as int == c as int);
                                assert((row as u32) as int == row as int);
                                assert(self.spec_placed(e.id as int));
                                assert(self.spec_components(e.id as int)[inc[j]] == self.spec_cell(a as int, c as int, inc[j], row as nat));
                            }
                            assert(row_shows(*self, e, inc, qr));
                        }
                        f(qr);
                        proof {
                            let seen1 = seen;
                            seen = seen1.push(cents[row as int]);
                            assert(seen =~= seen_c + cents.take(row as int + 1));
                            assert forall|k: int| 0 <= k < seen.len() implies #[trigger] row_shown(f0, *self, seen[k], inc) by {
                                if k < seen1.len() {
                                    assert(seen[k] == seen1[k]);
                                } else {
                                    assert(seen[k] == cents[row as int]);
                                    assert(call_ensures(f0, (qr,), ()));
                                }
                            }
                        }
                        row = row + 1;
                    }
                    proof {
                        let p0 = base + chunk_picks(a as int, chs, c as int, true);
                        let p1 = base + chunk_picks(a as int, chs, c as int + 1, true);
                        assert(cents.take(count as int) =~= cents);
                        if cents.len() == 0 {
                            assert(p1 =~= p0);
                            assert(seen =~= seen_c);
                        } else {
                            assert(p1 =~= p0.push((a as int, c as int)));
                            lemma_picks_entities_prefix(archs0, p0, p1, p0.len() as int);
                            assert(seen =~= picks_entities(archs0, p1, p1.len() as int));
                        }
                    }
                    c = c + 1;
                }
                proof {
                    assert(arch_picks(archs0, inc, exc, a as int + 1, true) == base + chunk_picks(a as int, chs, m as int, true));
                }
            } else {
                proof {
                    assert(arch_picks(archs0, inc, exc, a as int + 1, true) == base);
                }
            }
            a = a + 1;
        }
        proof {
            assert(seen == self.spec_query_entities(inc));
        }
    }

    /// Call `f` once per entity having all of `component_ids`, in query order,
    /// with a mutable row holding that entity's bytes of each queried
    /// component; what `f` leaves in a query column is written back to
    /// storage (a column whose length `f` changed is left as it was).
    pub fn query_each_mut<F>(&mut self, component_ids: &[u32], mut f: F)
        where
            F: FnMut(&mut QueryRowMut),
        requires
            old(self).wf(),
            forall|row: &mut QueryRowMut| #[trigger] call_requires(f, (row,)),
        ensures
            final(self).wf(),
            final(self).spec_same_layout(old(self)),
            frame_ok(*final(self), *old(self), component_ids@),
            exists|ws: Seq<World>|
                #![trigger ws.len()]
                {
                    let ents = old(self).spec_query_entities(component_ids@);
                    &&& ws.len() == ents.len() + 1
                    &&& ws[0] == *old(self)
                    &&& ws[ents.len() as int] == *final(self)
                    &&& forall|k: int|
                        #![trigger ws[k]]
                        0 <= k < ents.len() ==> exists|r: &mut QueryRowMut|
                            #![trigger call_ensures(f, (r,), ())]
                            {
                                &&& call_ensures(f, (r,), ())
                                &&& row_step(ws[k], ws[k + 1], ents[k], component_ids@, *r, (*final(r)).spec_columns())
                            }
                },
    {
        let ghost w0 = *self;
        let ghost f0 = f;
        let ghost archs0 = w0.archetypes@;
        let ghost inc = component_ids@;
        let ghost exc = Seq::<u32>::empty();
        let ghost mut ws: Seq<World> = seq![w0];
        let ghost mut seen: Seq<Entity> = Seq::empty();
        let inc_mask = mask_of(component_ids);
        let n = self.archetypes.len();
        let mut a: usize = 0;
        proof {
            assert(seen =~= picks_entities(archs0, arch_picks(archs0, inc, exc, 0, true), 0));
        }
        while a < n
            invariant
                self.wf(),
                n == self.archetypes@.len(),
                archs0 == w0.archetypes@,
                inc == component_ids@,
                exc == Seq::<u32>::empty(),
                a <= n,
                inc_mask@ == id_bits(component_ids@),
                self.spec_same_layout(&w0),
                frame_ok(*self, w0, component_ids@),
                f == f0,
                forall|row: &mut QueryRowMut| #[trigger] call_requires(f, (row,)),
                seen == picks_entities(archs0, arch_picks(archs0, inc, exc, a as int, true), arch_picks(archs0, inc, exc, a as int, true).len() as int),
                ws.len() == seen.len() + 1,
                ws[0] == w0,
                ws[seen.len() as int] == *self,
                forall|k: int|
                    #![trigger ws[k]]
                    0 <= k < seen.len() ==> exists|r: &mut QueryRowMut|
                        #![trigger call_ensures(f0, (r,), ())]
                        {
                            &&& call_ensures(f0, (r,), ())
                            &&& row_step(ws[k], ws[k + 1], seen[k], inc, *r, (*final(r)).spec_columns())
                        },
            decreases n - a,
        {
            proof {
                self.lemma_archetype_ok(a as int);
                lemma_mask_select(self.archetypes@[a as int], component_ids@, Seq::empty());
                assert(self.archetypes@[a as int].component_ids@ == archs0[a as int].component_ids@);
                assert(arch_selected(self.archetypes@[a as int], inc, exc) == arch_selected(archs0[a as int], inc, exc));
            }
            let ghost base = arch_picks(archs0, inc, exc, a as int, true);
            let ghost chs = archs0[a as int].chunks@;
            if self.archetypes[a].mask.matches(&inc_mask) {
                let mut col_indices: Vec<usize> = Vec::new();
                let mut k: usize = 0;
                while k < component_ids.len()
                    invariant
                        self.wf(),
                        a < self.archetypes@.len(),
                        self.archetypes@[a as int].wf(),
                        forall|j: int| 0 <= j < component_ids@.len() ==> self.archetypes@[a as int].component_ids@.contains(#[trigger] component_ids@[j]),
                        k <= component_ids@.len(),
                        col_indices@.len() == k,
                        forall|j: int|
                            0 <= j < k ==> {
                                &&& (#[trigger] col_indices@[j]) < self.archetypes@[a as int].component_ids@.len()
                                &&& self.archetypes@[a as int].component_ids@[col_indices@[j] as int] == component_ids@[j]
                            },
                    decreases component_ids@.len() - k,
                {
                    proof {
                        assert(self.archetypes@[a as int].component_ids@.contains(component_ids@[k as int]));
                    }
                    col_indices.push(self.archetypes[a].column_index(component_ids[k]));
                    k = k + 1;
                }
                let ghost ids_a = self.archetypes@[a as int].component_ids@;
                let m = self.archetypes[a].chunks.len();
                let mut c: usize = 0;
                proof {
                    assert(base + chunk_picks(a as int, chs, 0, true) =~= base);
                }
                while c < m
                    invariant
                        self.wf(),
                        n == self.archetypes@.len(),
                        a < n,
                        archs0 == w0.archetypes@,
                        inc == component_ids@,
                        exc == Seq::<u32>::empty(),
                        ids_a == self.archetypes@[a as int].component_ids@,
                        chs == archs0[a as int].chunks@,
                        m == self.archetypes@[a as int].chunks@.len(),
                        m == chs.len(),
                        c <= m,
                        arch_selected(archs0[a as int], inc, exc),
                        base == arch_picks(archs0, inc, exc, a as int, true),
                        col_indices@.len() == component_ids@.len(),
                        forall|j: int| 0 <= j < component_ids@.len() ==> ids_a.contains(#[trigger] component_ids@[j]),
                        forall|j: int|
                            0 <= j < col_indices@.len() ==> {
                                &&& (#[trigger] col_indices@[j]) < ids_a.len()
                                &&& ids_a[col_indices@[j] as int] == component_ids@[j]
                            },
                        self.spec_same_layout(&w0),
                        frame_ok(*self, w0, component_ids@),
                        f == f0,
                        forall|row: &mut QueryRowMut| #[trigger] call_requires(f, (row,)),
                        seen == picks_entities(
                            archs0,
                            base + chunk_picks(a as int, chs, c as int, true),
                            (base + chunk_picks(a as int, chs, c as int, true)).len() as int,
                        ),
                        ws.len() == seen.len() + 1,
                        ws[0] == w0,
                        ws[seen.len() as int] == *self,
                        forall|k: int|
                            #![trigger ws[k]]
                            0 <= k < seen.len() ==> exists|r: &mut QueryRowMut|
                                #![trigger call_ensures(f0, (r,), ())]
                                {
                                    &&& call_ensures(f0, (r,), ())
                                    &&& row_step(ws[k], ws[k + 1], seen[k], inc, *r, (*final(r)).spec_columns())
                                },
                    decreases m - c,
                {
                    let count = self.archetypes[a].chunks[c].entities.len();
                    let ghost seen_c = seen;
                    let ghost cents = chs[c as int].entities@;
                    proof {
                        assert(self.archetypes@[a as int].chunks@[c as int].entities@ == cents);
                        assert(cents.take(0) =~= Seq::<Entity>::empty());
                        assert(seen =~= seen_c + cents.take(0));
                    }
                    let mut row: usize = 0;
                    while row < count
                        invariant
                            self.wf(),
                            n == self.archetypes@.len(),
                            a < n,
                            ids_a == self.archetypes@[a as int].component_ids@,
                            m == self.archetypes@[a as int].chunks@.len(),
                            c < m,
                            count == self.archetypes@[a as int].chunks@[c as int].entities@.len(),
                            cents == self.archetypes@[a as int].chunks@[c as int].entities@,
                            row <= count,
                            col_indices@.len() == component_ids@.len(),
                            forall|j: int| 0 <= j < component_ids@.len() ==> ids_a.contains(#[trigger] component_ids@[j]),
                            forall|j: int|
                                0 <= j < col_indices@.len() ==> {
                                    &&& (#[trigger] col_indices@[j]) < ids_a.len()
                                    &&& ids_a[col_indices@[j] as int] == component_ids@[j]
                                },
                            self.spec_same_layout(&w0),
                            frame_ok(*self, w0, component_ids@),
                            f == f0,
                            inc == component_ids@,
                            forall|row: &mut QueryRowMut| #[trigger] call_requires(f, (row,)),
                            seen == seen_c + cents.take(row as int),
                            ws.len() == seen.len() + 1,
                            ws[0] == w0,
                            ws[seen.len() as int] == *self,
                            forall|k: int|
                                #![trigger ws[k]]
                                0 <= k < seen.len() ==> exists|r: &mut QueryRowMut|
                                    #![trigger call_ensures(f0, (r,), ())]
                                    {
                                        &&& call_ensures(f0, (r,), ())
                                        &&& row_step(ws[k], ws[k + 1], seen[k], inc, *r, (*final(r)).spec_columns())
                                    },
                        decreases count - row,
                    {
                        let ghost w1 = *self;
                        let ghost ws1 = ws;
                        let ghost seen1 = seen;
                        self.visit_row_mut(a, c, row, component_ids, &col_indices, &mut f);
                        proof {
                            lemma_same_layout_trans(w0, w1, *self);
                            lemma_frame_trans(w0, w1, *self, inc);
                            ws = ws1.push(*self);
                            seen = seen1.push(cents[row as int]);
                            assert(seen =~= seen_c + cents.take(row as int + 1));
                            assert forall|k: int|
                                #![trigger ws[k]]
                                0 <= k < seen.len() implies exists|r: &mut QueryRowMut|
                                    #![trigger call_ensures(f0, (r,), ())]
                                    {
                                        &&& call_ensures(f0, (r,), ())
                                        &&& row_step(ws[k], ws[k + 1], seen[k], inc, *r, (*final(r)).spec_columns())
                                    } by {
                                if k < seen1.len() {
                                    assert(ws[k] == ws1[k]);
                                    assert(ws[k + 1] == ws1[k + 1]);
                                    assert(seen[k] == seen1[k]);
                                } else {
                                    assert(ws[k] == w1);
                                    assert(ws[k + 1] == *self);
                                    assert(seen[k] == cents[row as int]);
                                }
                            }
                        }
                        row = row + 1;
                    }
                    proof {
                        let p0 = base + chunk_picks(a as int, chs, c as int, true);
                        let p1 = base + chunk_picks(a as int, chs, c as int + 1, true);
                        assert(cents.take(count as int) =~= cents);
                        if cents.len() == 0 {
                            assert(p1 =~= p0);
                            assert(seen =~= seen_c);
                        } else {
                            assert(p1 =~= p0.push((a as int, c as int)));
                            lemma_picks_entities_prefix(archs0, p0, p1, p0.len() as int);
                            assert(seen =~= picks_entities(archs0, p1, p1.len() as int));
                        }
                    }
                    c = c + 1;
                }
                proof {
                    assert(arch_picks(archs0, inc, exc, a as int + 1, true) == base + chunk_picks(a as int, chs, m as int, true));
                }
            } else {
                proof {
                    assert(arch_picks(archs0, inc, exc, a as int + 1, true) == base);
                }
            }
            a = a + 1;
        }
        proof {
            assert(seen == w0.spec_query_entities(inc));
        }
    }

    /// One step of `query_each_mut`: hand the row at archetype `a`, chunk `c`,
    /// row `row` to `f` and write its query columns back.
    fn visit_row_mut<F>(&mut self, a: usize, c: usize, row: usize, component_ids: &[u32], col_indices: &Vec<usize>, f: &mut F)
        where
            F: FnMut(&mut QueryRowMut),
        requires
            old(self).wf(),
            a < old(self).archetypes@.len(),
            c < old(self).archetypes@[a as int].chunks@.len(),
            row < old(self).archetypes@[a as int].chunks@[c as int].entities@.len(),
            col_indices@.len() == component_ids@.len(),
            forall|j: int| 0 <= j < component_ids@.len() ==> old(self).archetypes@[a as int].component_ids@.contains(#[trigger] component_ids@[j]),
            forall|j: int|
                0 <= j < col_indices@.len() ==> {
                    &&& (#[trigger] col_indices@[j]) < old(self).archetypes@[a as int].component_ids@.len()
                    &&& old(self).archetypes@[a as int].component_ids@[col_indices@[j] as int] == component_ids@[j]
                },
            forall|r: &mut QueryRowMut| #[trigger] call_requires(*old(f), (r,)),
        ensures
            final(self).wf(),
            final(self).spec_same_layout(old(self)),
            frame_ok(*final(self), *old(self), component_ids@),
            *final(f) == *old(f),
            exists|r: &mut QueryRowMut|
                #![trigger call_ensures(*old(f), (r,), ())]
                {
                    &&& call_ensures(*old(f), (r,), ())
                    &&& row_step(
                        *old(self),
                        *final(self),
                        old(self).archetypes@[a as int].chunks@[c as int].entities@[row as int],
                        component_ids@,
                        *r,
                        (*final(r)).spec_columns(),
                    )
                },
    {
        let ghost w0 = *self;
        let ghost f0 = *f;
        proof {
            self.lemma_archetype_ok(a as int);
            self.lemma_stored_entity(a as int, c as int, row as int);
        }
        let entity = self.archetypes[a].chunks[c].entities[row];
        let ghost eid = entity.id as int;
        let ghost m0 = w0.spec_components(eid);
        proof {
            assert(chunk_fits(self.archetypes@[a as int].chunks@[c as int], self.archetypes@[a as int].template_columns@));
            assert((a as u32) as int == a as int);
            assert((c as u32) as int == c as int);
            assert((row as u32) as int == row as int);
            assert(has_all(self.spec_components(eid), component_ids@)) by {
                assert forall|k: int| 0 <= k < component_ids@.len() implies self.spec_components(eid).dom().contains(#[trigger] component_ids@[k]) by {
                    assert(self.archetypes@[a as int].component_ids@.contains(component_ids@[k]));
                }
            }
            assert(frame_ok(*self, w0, component_ids@)) by {
                assert forall|x: int| !has_all(w0.spec_components(x), component_ids@) implies #[trigger] self.spec_components(x) == w0.spec_components(x) by {}
            }
        }
        let mut cols: Vec<Vec<u8>> = Vec::new();
        let mut k: usize = 0;
        while k < col_indices.len()
            invariant
                *self == w0,
                self.wf(),
                a < self.archetypes@.len(),
                c < self.archetypes@[a as int].chunks@.len(),
                row < self.archetypes@[a as int].chunks@[c as int].entities@.len(),
                self.archetypes@[a as int].wf(),
                self.archetypes@[a as int].chunks@[c as int].entities@[row as int] == entity,
                eid == entity.id as int,
                m0 == w0.spec_components(eid),
                self.locations@[eid] == (crate::location::EntityLocation { archetype_id: a as u32, chunk_index: c as u32, row: row as u32 }),
                self.spec_placed(eid),
                (a as u32) as int == a as int,
                (c as u32) as int == c as int,
                (row as u32) as int == row as int,
                col_indices@.len() == component_ids@.len(),
                forall|j: int|
                    0 <= j < col_indices@.len() ==> {
                        &&& (#[trigger] col_indices@[j]) < self.archetypes@[a as int].component_ids@.len()
                        &&& self.archetypes@[a as int].component_ids@[col_indices@[j] as int] == component_ids@[j]
                    },
                k <= col_indices@.len(),
                cols@.len() == k,
                forall|j: int| 0 <= j < k ==> (#[trigger] cols@[j])@ == m0[component_ids@[j]],
            decreases col_indices@.len() - k,
        {
            let ci = col_indices[k];
            proof {
                let ch = self.archetypes@[a as int].chunks@[c as int];
                assert(chunk_fits(ch, self.archetypes@[a as int].template_columns@));
                let col = ch.columns@[ci as int];
                lemma_row_in_column(col.data@.len(), col.element_size as nat, ch.entities@.len(), row as nat);
                let ids = self.archetypes@[a as int].component_ids@;
                lemma_index_of_distinct(ids, ci as int);
                assert(ids.contains(component_ids@[k as int]));
            }
            let b = self.archetypes[a].chunks[c].columns[ci].row(row);
            let ghost cols0 = cols@;
            cols.push(vstd::slice::slice_to_vec(b));
            proof {
                assert forall|j: int| 0 <= j < k + 1 implies (#[trigger] cols@[j])@ == m0[component_ids@[j]] by {
                    if j < k {
                        assert(cols@[j] == cols0[j]);
                    }
                }
            }
            k = k + 1;
        }
        let ghost row_in = row_columns(m0, component_ids@);
        let mut qr = QueryRowMut::new(cols, entity, row);
        proof {
            assert(qr.spec_columns() =~= row_in);
        }
        f(&mut qr);
        let ghost out = qr.spec_columns();
        proof {
            assert(m0.dom() == self.spec_components(eid).dom());
        }
        let mut k: usize = 0;
        while k < col_indices.len()
            invariant
                self.wf(),
                a < self.archetypes@.len(),
                c < self.archetypes@[a as int].chunks@.len(),
                row < self.archetypes@[a as int].chunks@[c as int].entities@.len(),
                self.archetypes@[a as int].chunks@[c as int].entities@[row as int] == entity,
                eid == entity.id as int,
                m0 == w0.spec_components(eid),
                out == qr.spec_columns(),
                has_all(self.spec_components(eid), component_ids@),
                self.archetypes@[a as int].component_ids@ == w0.archetypes@[a as int].component_ids@,
                col_indices@.len() == component_ids@.len(),
                forall|j: int| 0 <= j < component_ids@.len() ==> w0.archetypes@[a as int].component_ids@.contains(#[trigger] component_ids@[j]),
                forall|j: int|
                    0 <= j < col_indices@.len() ==> {
                        &&& (#[trigger] col_indices@[j]) < w0.archetypes@[a as int].component_ids@.len()
                        &&& w0.archetypes@[a as int].component_ids@[col_indices@[j] as int] == component_ids@[j]
                    },
                k <= col_indices@.len(),
                self.spec_same_layout(&w0),
                frame_ok(*self, w0, component_ids@),
                self.spec_components(eid) == written_back(m0, component_ids@, out, k as int),
                w0.spec_others_unchanged(self, eid),
            decreases col_indices@.len() - k,
        {
            let ghost prev = self.spec_components(eid);
            if k < qr.column_count() {
                let ci = col_indices[k];
                let b = qr.column_bytes(k);
                proof {
                    self.lemma_archetype_ok(a as int);
                    assert(component_ids@.contains(component_ids@[k as int]));
                    assert(prev.dom().contains(component_ids@[k as int]));
                    self.lemma_component_layout(eid, component_ids@[k as int]);
                }
                if b.len() == self.archetypes[a].template_columns[ci].element_size {
                    let ghost w1 = *self;
                    self.write_cell(a, c, row, ci, b);
                    proof {
                        lemma_frame_step(w0, w1, *self, component_ids@, eid, component_ids@[k as int], b@);
                        lemma_same_layout_trans(w0, w1, *self);
                        assert(self.spec_components(eid).dom() == w1.spec_components(eid).dom());
                        assert(has_all(self.spec_components(eid), component_ids@)) by {
                            assert forall|q: int| 0 <= q < component_ids@.len() implies self.spec_components(eid).dom().contains(#[trigger] component_ids@[q]) by {
                                assert(w1.spec_components(eid).dom().contains(component_ids@[q]));
                            }
                        }
                        assert forall|x: int| x != eid implies #[trigger] self.spec_components(x) == w0.spec_components(x) by {
                            assert(w1.spec_components(x) == w0.spec_components(x));
                        }
                    }
                }
            }
            k = k + 1;
        }
        proof {
            assert(written_back(m0, component_ids@, out, component_ids@.len() as int) == self.spec_components(eid));
        }
    }
}

} // verus!
