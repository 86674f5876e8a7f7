//! In-memory model of the vector-index collection.
//!
//! One point per `(url, tool)` pair, keyed by its id string; an upsert with
//! an existing id overwrites the point in place, so re-ingestion never grows
//! the collection. The collection's vector dimension is pinned by the first
//! call that establishes it and never re-validated.

use vstd::prelude::*;

use crate::kv::{kv_map, kv_distinct, lemma_kv_map_contains, lemma_kv_map_get, lemma_kv_map_push,
    lemma_kv_map_update};
use crate::state::url_set;

verus! {

/// One indexed tool: its point id and payload. The embedding vector itself
/// stays with the store; the model carries what the selection engine reads.
pub struct ToolPoint {
    pub id: String,
    pub name: String,
    pub description: String,
    pub mcp_url: String,
    pub schema_json: String,
}

/// What the selection engine returns per cluster.
pub struct ToolResult {
    pub name: String,
    pub mcp_url: String,
}

/// The id/point pairs of a point list.
pub open spec fn point_pairs(s: Seq<ToolPoint>) -> Seq<(Seq<char>, ToolPoint)> {
    s.map_values(|p: ToolPoint| (p.id@, p))
}

/// An element-wise copy of a point.
pub fn clone_point(p: &ToolPoint) -> (r: ToolPoint)
    ensures
        r == *p,
{
    ToolPoint {
        id: p.id.clone(),
        name: p.name.clone(),
        description: p.description.clone(),
        mcp_url: p.mcp_url.clone(),
        schema_json: p.schema_json.clone(),
    }
}

/// The modelled vector-index collection.
pub struct ToolIndex {
    /// Vector dimension, fixed by the first ingestion that reaches the
    /// store.
    pub dim: Option<u64>,
    /// The points, with pairwise-distinct ids.
    pub points: Vec<ToolPoint>,
}

impl ToolIndex {
    pub open spec fn wf(self) -> bool {
        kv_distinct(point_pairs(self.points@))
    }

    /// The collection as a map from point id to point.
    pub open spec fn id_map(self) -> Map<Seq<char>, ToolPoint> {
        kv_map(point_pairs(self.points@))
    }

    /// An empty collection, not yet created on the store.
    pub fn new() -> (r: ToolIndex)
        ensures
            r.wf(),
            r.dim is None,
            r.points@ =~= Seq::<ToolPoint>::empty(),
    {
        ToolIndex { dim: None, points: Vec::new() }
    }

    /// Pin the collection's dimension if no ingestion has done so yet; a
    /// later call with another dimension is a no-op (the recorded dimension
    /// is whatever the first call established).
    pub fn ensure_collection(&mut self, dim: u64)
        ensures
            final(self).points == old(self).points,
            final(self).dim == (match old(self).dim {
                Option::None => Option::Some(dim),
                Option::Some(d) => Option::Some(d),
            }),
    {
        if self.dim.is_none() {
            self.dim = Some(dim);
        }
    }

    /// Insert or overwrite the point with `p`'s id.
    pub fn upsert(&mut self, p: ToolPoint)
        requires
            old(self).wf(),
        ensures
            final(self).wf(),
            final(self).dim == old(self).dim,
            final(self).id_map() =~= old(self).id_map().insert(p.id@, p),
            old(self).id_map().contains_key(p.id@) ==> exists|i: int|
                0 <= i < old(self).points@.len() && (#[trigger] old(self).points@[i]).id@ == p.id@
                    && final(self).points@ == old(self).points@.update(i, p),
            !old(self).id_map().contains_key(p.id@) ==> final(self).points@ == old(
                self,
            ).points@.push(p),
    {
        let ghost pre = *self;
        let n = self.points.len();
        let mut i: usize = 0;
        while i < n
            invariant
                i <= n,
                n == self.points@.len(),
                *self == pre,
                pre == *old(self),
                pre.wf(),
                forall|j: int| 0 <= j < i ==> (#[trigger] self.points@[j]).id@ != p.id@,
            decreases n - i,
        {
            if self.points[i].id == p.id {
                let ghost pid = p.id@;
                self.points.remove(i);
                self.points.insert(i, p);
                proof {
                    assert(self.points@ =~= pre.points@.update(i as int, self.points@[i as int]));
                    assert(point_pairs(self.points@) =~= point_pairs(pre.points@).update(
                        i as int,
                        (pid, self.points@[i as int]),
                    ));
                    assert(point_pairs(pre.points@)[i as int].0 == pid);
                    lemma_kv_map_update(point_pairs(pre.points@), i as int, self.points@[i as int]);
                    lemma_kv_map_contains(point_pairs(pre.points@), pid);
                }
                return ;
            }
            i += 1;
        }
        proof {
            lemma_kv_map_contains(point_pairs(self.points@), p.id@);
        }
        let ghost pid = p.id@;
        self.points.push(p);
        proof {
            assert(point_pairs(self.points@) =~= point_pairs(pre.points@).push((
                pid,
                self.points@.last(),
            )));
            lemma_kv_map_push(point_pairs(pre.points@), pid, self.points@.last());
        }
    }

    /// The points whose URL is in `urls`, in index order.
    pub fn scroll_by_urls(&self, urls: &Vec<String>) -> (r: Vec<ToolPoint>)
        ensures
            r@ == self.points@.filter(
                |p: ToolPoint| url_set(urls@).contains(p.mcp_url@),
            ),
    {
        let n = self.points.len();
        let mut r: Vec<ToolPoint> = Vec::new();
        let mut i: usize = 0;
        while i < n
            invariant
                i <= n,
                n == self.points@.len(),
                r@ == self.points@.take(i as int).filter(
                    |p: ToolPoint| url_set(urls@).contains(p.mcp_url@),
                ),
            decreases n - i,
        {
            proof {
                reveal(Seq::filter);
                assert(self.points@.take(i + 1).drop_last() =~= self.points@.take(i as int));
                assert(self.points@.take(i + 1).last() == self.points@[i as int]);
            }
            let point = &self.points[i];
            if contains_string(urls, &point.mcp_url) {
                r.push(clone_point(point));
            }
            i += 1;
        }
        proof {
            assert(self.points@.take(n as int) =~= self.points@);
        }
        r
    }
}

/// Whether `s` occurs in `v` (by character content).
fn contains_string(v: &Vec<String>, s: &String) -> (r: bool)
    ensures
        r <==> url_set(v@).contains(s@),
{
    let n = v.len();
    let mut i: usize = 0;
    while i < n
        invariant
            i <= n,
            n == v@.len(),
            forall|j: int| 0 <= j < i ==> (#[trigger] v@[j])@ != s@,
        decreases n - i,
    {
        if v[i] == *s {
            proof {
                crate::state::lemma_url_set_contains(v@, s@);
            }
            return true;
        }
        i += 1;
    }
    proof {
        crate::state::lemma_url_set_contains(v@, s@);
    }
    false
}

/// Re-ingesting a tool overwrites its point: two upserts under the same id
/// leave the collection exactly as the second alone would, so exactly one
/// point carries that id.
pub proof fn lemma_reingest_idempotent(
    m: Map<Seq<char>, ToolPoint>,
    p1: ToolPoint,
    p2: ToolPoint,
)
    requires
        p1.id@ == p2.id@,
    ensures
        m.insert(p1.id@, p1).insert(p2.id@, p2) =~= m.insert(p2.id@, p2),
{
}

/// In a well-formed collection no id occurs on two points.
pub proof fn lemma_one_point_per_id(idx: ToolIndex, i: int, j: int)
    requires
        idx.wf(),
        0 <= i < idx.points@.len(),
        0 <= j < idx.points@.len(),
        idx.points@[i].id@ == idx.points@[j].id@,
    ensures
        i == j,
{
    assert(point_pairs(idx.points@)[i].0 == idx.points@[i].id@);
    assert(point_pairs(idx.points@)[j].0 == idx.points@[j].id@);
}

} // verus!
