//! Tool ingestion: from a server's tool list to points in the index.
//!
//! Each tool is embedded from its name and description; its point id is the
//! name-based UUID of `"{url}:{name}"`, so re-ingesting the same tool at the
//! same URL always derives the same id and overwrites the existing point.

use vstd::prelude::*;
use vstd::string::StringExecFns;

use crate::ids::{uuid5_url_of, uuid5_url_string};
use crate::index::{ToolIndex, ToolPoint};

verus! {

/// The text whose embedding represents a tool: `"name: description"`, or
/// the name alone when the description is empty.
pub open spec fn embed_text(name: Seq<char>, desc: Seq<char>) -> Seq<char> {
    if desc.len() == 0 {
        name
    } else {
        name + seq![':', ' '] + desc
    }
}

/// The key string a point id is derived from: `"url:name"`.
pub open spec fn point_key(url: Seq<char>, name: Seq<char>) -> Seq<char> {
    url + seq![':'] + name
}

/// The id of the point representing tool `name` at `url`: a pure function
/// of the two, which makes re-ingestion an overwrite.
pub open spec fn point_id(url: Seq<char>, name: Seq<char>) -> Seq<char> {
    uuid5_url_of(point_key(url, name))
}

/// Build the text to embed for a tool.
pub fn embedding_input(name: &String, description: &String) -> (r: String)
    ensures
        r@ == embed_text(name@, description@),
{
    let mut out = name.clone();
    if !description.as_str().is_empty() {
        out.append(": ");
        out.append(description.as_str());
        proof {
            reveal_strlit(": ");
            assert((": ")@ =~= seq![':', ' ']);
        }
    }
    out
}

/// Derive the point id for tool `name` at `mcp_url`, in UUID text form.
pub fn point_id_for(mcp_url: &String, name: &String) -> (r: String)
    ensures
        r@ == point_id(mcp_url@, name@),
        r@.len() == 36,
{
    let mut key = mcp_url.clone();
    key.append(":");
    key.append(name.as_str());
    proof {
        reveal_strlit(":");
        assert((":")@ =~= seq![':']);
        assert(key@ == point_key(mcp_url@, name@));
    }
    uuid5_url_string(key.as_str())
}

/// Build the point for one tool.
pub fn build_point(mcp_url: &String, name: &String, description: &String, schema_json: &String)
    -> (p: ToolPoint)
    ensures
        p.id@ == point_id(mcp_url@, name@),
        p.name == *name,
        p.description == *description,
        p.mcp_url == *mcp_url,
        p.schema_json == *schema_json,
{
    ToolPoint {
        id: point_id_for(mcp_url, name),
        name: name.clone(),
        description: description.clone(),
        mcp_url: mcp_url.clone(),
        schema_json: schema_json.clone(),
    }
}

/// The index entry derived for tool `j` of an ingested batch is present
/// and carries the name, url, description and schema of some tool of the
/// batch that derives the same id.
pub open spec fn tool_indexed(
    m: Map<Seq<char>, ToolPoint>,
    url: Seq<char>,
    tools: Seq<(String, String, String)>,
    j: int,
) -> bool {
    exists|j2: int|
        0 <= j2 < tools.len() && point_id(url, (#[trigger] tools[j2]).0@) == point_id(
            url,
            tools[j].0@,
        ) && ({
            let p = m[point_id(url, tools[j].0@)];
            &&& p.id@ == point_id(url, tools[j2].0@)
            &&& p.name@ == tools[j2].0@
            &&& p.mcp_url@ == url
            &&& p.description@ == tools[j2].1@
            &&& p.schema_json@ == tools[j2].2@
        })
}

/// Ingest a server's embedded tools, `(name, description, schema)` each:
/// pin the collection's dimension, then upsert one point per tool in order.
/// Every tool ends up indexed under its derived id; any point under an id
/// that no ingested tool derives is untouched.
pub fn ingest_tools(
    index: &mut ToolIndex,
    mcp_url: &String,
    dim: u64,
    tools: &Vec<(String, String, String)>,
)
    requires
        old(index).wf(),
    ensures
        final(index).wf(),
        final(index).dim == (match old(index).dim {
            Option::None => Option::Some(dim),
            Option::Some(d) => Option::Some(d),
        }),
        forall|j: int|
            0 <= j < tools@.len() ==> final(index).id_map().contains_key(
                point_id(mcp_url@, (#[trigger] tools@[j]).0@),
            ),
        forall|j: int|
            0 <= j < tools@.len() ==> #[trigger] tool_indexed(
                final(index).id_map(),
                mcp_url@,
                tools@,
                j,
            ),
        forall|id: Seq<char>|
            (forall|j: int|
                0 <= j < tools@.len() ==> id != point_id(mcp_url@, (#[trigger] tools@[j]).0@))
                ==> ((#[trigger] final(index).id_map().contains_key(id)) == old(index).id_map().contains_key(id) && (old(index).id_map().contains_key(id) ==> final(index).id_map()[id] == old(index).id_map()[id])),
{
    index.ensure_collection(dim);
    let ghost mid = *index;
    let n = tools.len();
    let mut i: usize = 0;
    while i < n
        invariant
            i <= n,
            n == tools@.len(),
            index.wf(),
            index.dim == mid.dim,
            forall|j: int|
                0 <= j < i ==> index.id_map().contains_key(
                    point_id(mcp_url@, (#[trigger] tools@[j]).0@),
                ),
            forall|j: int|
                0 <= j < i ==> #[trigger] tool_indexed(index.id_map(), mcp_url@, tools@, j),
            forall|id: Seq<char>|
                (forall|j: int|
                    0 <= j < tools@.len() ==> id != point_id(mcp_url@, (#[trigger] tools@[j]).0@))
                    ==> ((#[trigger] index.id_map().contains_key(id)) == mid.id_map().contains_key(
                    id,
                ) && (mid.id_map().contains_key(id) ==> index.id_map()[id] == mid.id_map()[id])),
        decreases n - i,
    {
        let ghost pre = *index;
        let tool = &tools[i];
        let p = build_point(mcp_url, &tool.0, &tool.1, &tool.2);
        let ghost pid = p.id@;
        index.upsert(p);
        proof {
            assert(pid == point_id(mcp_url@, tools@[i as int].0@));
            assert forall|j: int|
                0 <= j < i + 1 implies #[trigger] tool_indexed(
                index.id_map(),
                mcp_url@,
                tools@,
                j,
            ) by {
                if point_id(mcp_url@, tools@[j].0@) == pid {
                    let q = index.id_map()[point_id(mcp_url@, tools@[j].0@)];
                    assert(q.id@ == point_id(mcp_url@, tools@[i as int].0@));
                    assert(q.name@ == tools@[i as int].0@ && q.mcp_url@ == mcp_url@
                        && q.description@ == tools@[i as int].1@ && q.schema_json@
                        == tools@[i as int].2@);
                    assert(0 <= i < tools@.len() && point_id(mcp_url@, (tools@[i as int]).0@)
                        == point_id(mcp_url@, tools@[j].0@));
                    assert(tool_indexed(index.id_map(), mcp_url@, tools@, j));
                } else {
                    assert(j < i);
                    assert(tool_indexed(pre.id_map(), mcp_url@, tools@, j));
                    let j2 = choose|j2: int|
                        0 <= j2 < tools@.len() && point_id(mcp_url@, (#[trigger] tools@[j2]).0@)
                            == point_id(mcp_url@, tools@[j].0@) && ({
                            let q = pre.id_map()[point_id(mcp_url@, tools@[j].0@)];
                            &&& q.id@ == point_id(mcp_url@, tools@[j2].0@)
                            &&& q.name@ == tools@[j2].0@
                            &&& q.mcp_url@ == mcp_url@
                            &&& q.description@ == tools@[j2].1@
                            &&& q.schema_json@ == tools@[j2].2@
                        });
                    assert(index.id_map()[point_id(mcp_url@, tools@[j].0@)] == pre.id_map()[
                        point_id(mcp_url@, tools@[j].0@)]);
                    assert(tool_indexed(index.id_map(), mcp_url@, tools@, j));
                }
            }
            assert forall|id: Seq<char>|
                (forall|j: int|
                    0 <= j < tools@.len() ==> id != point_id(mcp_url@, (#[trigger] tools@[j]).0@))
                implies ((#[trigger] index.id_map().contains_key(id)) == mid.id_map().contains_key(
                id,
            ) && (mid.id_map().contains_key(id) ==> index.id_map()[id] == mid.id_map()[id])) by {
                assert(id != point_id(mcp_url@, (tools@[i as int]).0@));
                assert(pre.id_map().contains_key(id) == mid.id_map().contains_key(id));
                assert(index.id_map().contains_key(id) == pre.id_map().contains_key(id));
                if mid.id_map().contains_key(id) {
                    assert(pre.id_map()[id] == mid.id_map()[id]);
                    assert(index.id_map()[id] == pre.id_map()[id]);
                }
            }
        }
        i += 1;
    }
}

} // verus!
