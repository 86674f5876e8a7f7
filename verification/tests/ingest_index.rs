use scheduler::index::{ToolIndex, ToolPoint};
use scheduler::ingest::{build_point, embedding_input, ingest_tools, point_id_for};

fn tool(name: &str, desc: &str, schema: &str) -> (String, String, String) {
    (name.to_string(), desc.to_string(), schema.to_string())
}

#[test]
fn embedding_input_joins_name_and_description() {
    let text = embedding_input(&"sum".to_string(), &"adds two numbers".to_string());
    assert_eq!(text, "sum: adds two numbers");
    let text = embedding_input(&"sum".to_string(), &String::new());
    assert_eq!(text, "sum");
}

#[test]
fn point_id_matches_the_name_based_uuid() {
    let id = point_id_for(&"http://a".to_string(), &"scrape".to_string());
    let expected = uuid::Uuid::new_v5(&uuid::Uuid::NAMESPACE_URL, "http://a:scrape".as_bytes())
        .to_string();
    assert_eq!(id, expected);
    assert_eq!(id.len(), 36);
    // deterministic: the same pair derives the same id
    assert_eq!(id, point_id_for(&"http://a".to_string(), &"scrape".to_string()));
    // and a different pair a different one
    assert_ne!(id, point_id_for(&"http://a".to_string(), &"fetch".to_string()));
}

#[test]
fn reingestion_leaves_one_point() {
    let mut index = ToolIndex::new();
    let url = "http://a".to_string();
    let p1 = build_point(&url, &"scrape".to_string(), &"v1".to_string(), &"{}".to_string());
    index.upsert(p1);
    assert_eq!(index.points.len(), 1);
    let p2 = build_point(&url, &"scrape".to_string(), &"v2".to_string(), &"{}".to_string());
    index.upsert(p2);
    assert_eq!(index.points.len(), 1);
    assert_eq!(index.points[0].description, "v2");
    // a different tool gets its own point
    let p3 = build_point(&url, &"fetch".to_string(), &"v1".to_string(), &"{}".to_string());
    index.upsert(p3);
    assert_eq!(index.points.len(), 2);
}

#[test]
fn ingest_pins_the_dimension_once() {
    let mut index = ToolIndex::new();
    let url = "http://a".to_string();
    ingest_tools(&mut index, &url, 1536, &vec![tool("a", "d", "{}")]);
    assert_eq!(index.dim, Some(1536));
    ingest_tools(&mut index, &url, 3072, &vec![tool("b", "d", "{}")]);
    // the first ever dimension stays, unvalidated
    assert_eq!(index.dim, Some(1536));
    assert_eq!(index.points.len(), 2);
}

#[test]
fn ingest_twice_is_idempotent() {
    let mut index = ToolIndex::new();
    let url = "http://a".to_string();
    let tools = vec![tool("scrape", "reads a page", "{}"), tool("sum", "adds", "{}")];
    ingest_tools(&mut index, &url, 2, &tools);
    assert_eq!(index.points.len(), 2);
    ingest_tools(&mut index, &url, 2, &tools);
    assert_eq!(index.points.len(), 2);
}

#[test]
fn scroll_filters_by_url_in_index_order() {
    let mut index = ToolIndex::new();
    let a = "http://a".to_string();
    let b = "http://b".to_string();
    ingest_tools(&mut index, &a, 2, &vec![tool("t1", "", "{}"), tool("t2", "", "{}")]);
    ingest_tools(&mut index, &b, 2, &vec![tool("t3", "", "{}")]);
    let got = index.scroll_by_urls(&vec![a.clone()]);
    let names: Vec<&str> = got.iter().map(|p| p.name.as_str()).collect();
    assert_eq!(names, vec!["t1", "t2"]);
    let got = index.scroll_by_urls(&vec![a.clone(), b.clone()]);
    assert_eq!(got.len(), 3);
    let got = index.scroll_by_urls(&vec!["http://c".to_string()]);
    assert!(got.is_empty());
}

#[test]
fn scrolled_points_carry_the_payload() {
    let mut index = ToolIndex::new();
    let url = "http://a".to_string();
    let p = ToolPoint {
        id: point_id_for(&url, &"scrape".to_string()),
        name: "scrape".to_string(),
        description: "reads a page".to_string(),
        mcp_url: url.clone(),
        schema_json: "{\"type\":\"object\"}".to_string(),
    };
    index.upsert(p);
    let got = index.scroll_by_urls(&vec![url.clone()]);
    assert_eq!(got.len(), 1);
    assert_eq!(got[0].name, "scrape");
    assert_eq!(got[0].description, "reads a page");
    assert_eq!(got[0].mcp_url, "http://a");
    assert_eq!(got[0].schema_json, "{\"type\":\"object\"}");
}
