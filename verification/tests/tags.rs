use lily_nest::api::normalize_tags;
use lily_nest::db::{join_tags, photo_record_from_row, split_tags, tags_column_present};

fn strings(items: &[&str]) -> Vec<String> {
    items.iter().map(|s| s.to_string()).collect()
}

#[test]
fn split_tags_trims_and_drops_empty_pieces() {
    assert_eq!(split_tags(" a, b ,,c ,".to_string()), strings(&["a", "b", "c"]));
    assert_eq!(split_tags(String::new()), Vec::<String>::new());
    assert_eq!(split_tags(" , \t,".to_string()), Vec::<String>::new());
    assert_eq!(split_tags("风景,人像".to_string()), strings(&["风景", "人像"]));
}

#[test]
fn join_tags_trims_and_drops_empty_tags() {
    assert_eq!(join_tags(&strings(&[" a ", "", "b", "  "])), "a,b");
    assert_eq!(join_tags(&[]), "");
    assert_eq!(join_tags(&strings(&["x"])), "x");
}

#[test]
fn tags_survive_a_store_and_read() {
    let tags = strings(&[" sea ", "", "sky", "night city"]);
    assert_eq!(split_tags(join_tags(&tags)), strings(&["sea", "sky", "night city"]));
    let raw = " a ,, b,c ".to_string();
    let once = split_tags(raw.clone());
    assert_eq!(split_tags(join_tags(&once)), once);
}

#[test]
fn normalize_tags_keeps_sixteen_tags_of_at_most_24_chars() {
    let raw: Vec<String> = (0..20).map(|i| format!("t{i}")).collect();
    let tags = normalize_tags(&raw.join(","));
    assert_eq!(tags.len(), 16);
    assert_eq!(tags[0], "t0");
    assert_eq!(tags[15], "t15");

    let long = "abcdefghijklmnopqrstuvwxyz";
    assert_eq!(normalize_tags(long), strings(&["abcdefghijklmnopqrstuvwx"]));
    let wide = "一二三四五六七八九十一二三四五六七八九十一二三四五六";
    assert_eq!(normalize_tags(wide)[0].chars().count(), 24);
    assert_eq!(normalize_tags(" , a ,, b "), strings(&["a", "b"]));
    assert_eq!(normalize_tags(""), Vec::<String>::new());
}

#[test]
fn rows_become_records_with_split_tags() {
    let photo = photo_record_from_row(
        7,
        "t".to_string(),
        "d".to_string(),
        "x, y".to_string(),
        Some("f.png".to_string()),
        "image/png".to_string(),
        vec![1, 2, 3],
        "2024-01-01 00:00:00".to_string(),
    );
    assert_eq!(photo.id, 7);
    assert_eq!(photo.tags, strings(&["x", "y"]));
    assert_eq!(photo.filename.as_deref(), Some("f.png"));
    assert_eq!(photo.data, vec![1, 2, 3]);
}

#[test]
fn tags_column_is_found_by_name() {
    assert!(tags_column_present(&strings(&["id", "title", "tags"])));
    assert!(!tags_column_present(&strings(&["id", "title", "tag"])));
    assert!(!tags_column_present(&Vec::new()));
}
