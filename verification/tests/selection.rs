use scheduler::calllog::CallLog;
use scheduler::cluster::cluster_points;
use scheduler::index::ToolPoint;
use scheduler::select::{select_tools, stats_from_log, PairStats};

fn point(name: &str, url: &str) -> ToolPoint {
    ToolPoint {
        id: format!("{}:{}", url, name),
        name: name.to_string(),
        description: String::new(),
        mcp_url: url.to_string(),
        schema_json: "{}".to_string(),
    }
}

fn cosine(a: &[f32], b: &[f32]) -> f32 {
    let dot: f32 = a.iter().zip(b).map(|(x, y)| x * y).sum();
    let na: f32 = a.iter().map(|x| x * x).sum::<f32>().sqrt();
    let nb: f32 = b.iter().map(|x| x * x).sum::<f32>().sqrt();
    if na == 0.0 || nb == 0.0 {
        0.0
    } else {
        dot / (na * nb)
    }
}

fn sim_matrix(vectors: &[Vec<f32>], threshold: f32) -> Vec<Vec<bool>> {
    let n = vectors.len();
    (0..n)
        .map(|i| (0..n).map(|j| cosine(&vectors[i], &vectors[j]) >= threshold).collect())
        .collect()
}

#[test]
fn clustering_groups_similar_vectors() {
    let norm = (0.99f32 * 0.99 + 0.01 * 0.01).sqrt();
    let vectors = vec![
        vec![1.0f32, 0.0],
        vec![0.99 / norm, 0.01 / norm],
        vec![0.0, 1.0],
    ];
    let sim = sim_matrix(&vectors, 0.75);
    let has_vec = vec![true, true, true];
    let clusters = cluster_points(3, &has_vec, &sim);
    assert_eq!(clusters, vec![vec![0usize, 1], vec![2usize]]);
}

#[test]
fn cluster_output_is_a_partition() {
    // an arbitrary symmetric similarity on five points
    let sim_pairs = [(0usize, 2usize), (1, 3), (2, 4)];
    let n = 5usize;
    let mut sim = vec![vec![false; n]; n];
    for i in 0..n {
        sim[i][i] = true;
    }
    for (i, j) in sim_pairs {
        sim[i][j] = true;
        sim[j][i] = true;
    }
    let has_vec = vec![true, true, false, true, true];
    let clusters = cluster_points(n, &has_vec, &sim);
    let mut seen = vec![0usize; n];
    for cluster in &clusters {
        assert!(!cluster.is_empty());
        for &m in cluster {
            seen[m] += 1;
        }
    }
    assert_eq!(seen, vec![1usize; n]);
    // the point without a vector stands alone
    assert!(clusters.iter().any(|c| c == &vec![2usize]));
}

#[test]
fn search_returns_first_of_each_cluster_without_history() {
    let points = vec![point("t1", "http://a"), point("t2", "http://a"), point("t3", "http://a")];
    let norm = (0.99f32 * 0.99 + 0.01 * 0.01).sqrt();
    let vectors = vec![
        vec![1.0f32, 0.0],
        vec![0.99 / norm, 0.01 / norm],
        vec![0.0, 1.0],
    ];
    let sim = sim_matrix(&vectors, 0.75);
    let clusters = cluster_points(3, &vec![true; 3], &sim);
    let log = CallLog::new();
    let stats = stats_from_log(&points, &log, 1000);
    let results = select_tools(&points, &clusters, &stats);
    assert_eq!(results.len(), 2);
    assert_eq!(results[0].name, "t1");
    assert_eq!(results[1].name, "t3");
}

#[test]
fn error_gated_selection_with_fallback() {
    let points = vec![point("T", "http://a"), point("T", "http://b")];
    let clusters = vec![vec![0usize, 1]];
    let now = 10_000u64;

    let mut log = CallLog::new();
    // successful history: A is faster than B
    for t in [10u64, 20, 30] {
        log.append("T".to_string(), "http://a".to_string(), t, false, 100);
    }
    for t in [50u64, 60, 70] {
        log.append("T".to_string(), "http://b".to_string(), t, false, 200);
    }
    // five recent errors make (T, A) unhealthy
    for _ in 0..5 {
        log.append("T".to_string(), "http://a".to_string(), 1, true, now - 100);
    }
    let stats = stats_from_log(&points, &log, now);
    let results = select_tools(&points, &clusters, &stats);
    assert_eq!(results.len(), 1);
    assert_eq!(results[0].mcp_url, "http://b");

    // five recent errors for (T, B) as well: fall back to the whole cluster
    // and pick the lower mean of the last three successful times, which is A
    for _ in 0..5 {
        log.append("T".to_string(), "http://b".to_string(), 1, true, now - 50);
    }
    let stats = stats_from_log(&points, &log, now);
    let results = select_tools(&points, &clusters, &stats);
    assert_eq!(results.len(), 1);
    assert_eq!(results[0].mcp_url, "http://a");
}

#[test]
fn old_errors_fall_out_of_the_window() {
    let mut log = CallLog::new();
    // errors older than the ten-minute window do not count
    for _ in 0..5 {
        log.append("T".to_string(), "http://a".to_string(), 1, true, 100);
    }
    let now = 100 + 601;
    assert_eq!(log.error_count(&"T".to_string(), &"http://a".to_string(), now), 0);
    // still inside the window one second before the boundary
    assert_eq!(log.error_count(&"T".to_string(), &"http://a".to_string(), 699), 5);
}

#[test]
fn unexplored_tool_beats_measured_one() {
    // a pair with no successful history scores zero and wins
    let points = vec![point("old", "http://a"), point("new", "http://b")];
    let clusters = vec![vec![0usize, 1]];
    let mut log = CallLog::new();
    for t in [5u64, 5, 5] {
        log.append("old".to_string(), "http://a".to_string(), t, false, 10);
    }
    let stats = stats_from_log(&points, &log, 1000);
    let results = select_tools(&points, &clusters, &stats);
    assert_eq!(results[0].name, "new");
}

#[test]
fn mean_uses_only_last_three_successes() {
    let mut log = CallLog::new();
    // four successes: the oldest (1000) must not enter the mean
    for (ts, t) in [(1u64, 1000u64), (2, 10), (3, 20), (4, 30)] {
        log.append("T".to_string(), "http://a".to_string(), t, false, ts);
    }
    let (sum, count) = log.recent_ok_stats(&"T".to_string(), &"http://a".to_string(), 3);
    assert_eq!(count, 3);
    assert_eq!(sum, 60);
}

#[test]
fn tie_on_equal_scores_prefers_the_earlier_point() {
    let points = vec![point("x", "http://a"), point("y", "http://b")];
    let clusters = vec![vec![0usize, 1]];
    let stats = vec![
        PairStats { err_count: 0, ok_sum: 40, ok_count: 2 },
        PairStats { err_count: 0, ok_sum: 20, ok_count: 1 },
    ];
    // both means are 20: the first member of the cluster wins
    let results = select_tools(&points, &clusters, &stats);
    assert_eq!(results[0].name, "x");
}
