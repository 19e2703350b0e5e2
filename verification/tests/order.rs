use beatmap_downloader::catalog::EmbeddingPoint;
use beatmap_downloader::order::order_points;

fn point(id: &str, x: u32) -> EmbeddingPoint {
    EmbeddingPoint { score_id: id.to_string(), x, y: 0 }
}

fn ids(points: &[EmbeddingPoint]) -> Vec<&str> {
    points.iter().map(|p| p.score_id.as_str()).collect()
}

#[test]
fn points_are_ordered_by_identifier() {
    let points = vec![point("3_DT", 0), point("1_", 1), point("20_HR", 2), point("1_HD", 3)];
    let ordered = order_points(&points);
    assert_eq!(ids(&ordered), vec!["1_", "1_HD", "20_HR", "3_DT"]);
    assert_eq!(ordered[0], points[1]);
    assert_eq!(ordered[3], points[0]);
}

#[test]
fn the_order_is_that_of_the_bytes() {
    let points = vec![
        point("b", 0),
        point("", 0),
        point("ab", 0),
        point("a", 0),
        point("B", 0),
        point("\u{e9}", 0),
        point("z", 0),
        point("10_", 0),
        point("9_", 0),
    ];
    let ordered = order_points(&points);
    let mut expected = points.clone();
    expected.sort_by(|p, q| p.score_id.as_bytes().cmp(q.score_id.as_bytes()));
    assert_eq!(ordered, expected);
    assert_eq!(ids(&ordered), vec!["", "10_", "9_", "B", "a", "ab", "b", "z", "\u{e9}"]);
}

#[test]
fn points_with_one_identifier_keep_their_order() {
    let points = vec![point("2_", 0), point("1_", 1), point("2_", 2), point("1_", 3)];
    let ordered = order_points(&points);
    let xs: Vec<u32> = ordered.iter().map(|p| p.x).collect();
    assert_eq!(xs, vec![1, 3, 0, 2]);
}

#[test]
fn short_lists_and_long_ones() {
    assert_eq!(order_points(&vec![]), vec![]);
    assert_eq!(order_points(&vec![point("7_", 7)]), vec![point("7_", 7)]);
    let points: Vec<EmbeddingPoint> =
        (0..1000u32).map(|i| point(&format!("{}_", (i * 7919) % 1000), i)).collect();
    let ordered = order_points(&points);
    let mut expected = points.clone();
    expected.sort_by(|p, q| p.score_id.cmp(&q.score_id));
    assert_eq!(ordered, expected);
    assert_eq!(order_points(&ordered), ordered);
}
