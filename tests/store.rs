use deep_archive::record::{build_record, ArtifactRecord, Enrichment, FrameOutcome};
use deep_archive::store::{StoreError, TransactionManager};
use rusqlite::Connection;

fn record(hash: &str, path: &str, tags: &[&str], score: Option<&str>) -> ArtifactRecord {
    ArtifactRecord {
        hash_sha256: hash.to_string(),
        original_path: path.to_string(),
        media_type: "text/plain".to_string(),
        width: None,
        height: None,
        tags: tags.iter().map(|t| t.to_string()).collect(),
        nsfw_score: score.map(|s| s.to_string()),
    }
}

fn open_pair(name: &str) -> (Connection, TransactionManager) {
    let uri = format!("file:{}?mode=memory&cache=shared", name);
    let reader = Connection::open(&uri).unwrap();
    let tm = match TransactionManager::new(&uri) {
        Ok(tm) => tm,
        Err(e) => panic!("store did not open: {:?}", e),
    };
    (reader, tm)
}

fn count(conn: &Connection, sql: &str) -> i64 {
    conn.query_row(sql, [], |row| row.get(0)).unwrap()
}

#[test]
fn flush_of_empty_buffer_is_a_no_op() {
    let (reader, mut tm) = open_pair("empty_flush");
    assert!(tm.flush().is_ok());
    assert_eq!(count(&reader, "SELECT COUNT(*) FROM artifacts"), 0);
    assert_eq!(count(&reader, "SELECT COUNT(*) FROM search_index"), 0);
}

#[test]
fn add_buffers_until_flush() {
    let (reader, mut tm) = open_pair("add_buffers");
    assert!(tm.add(record("h1", "/a.txt", &[], None)).is_ok());
    assert_eq!(tm.pending_len(), 1);
    assert_eq!(count(&reader, "SELECT COUNT(*) FROM artifacts"), 0);
    assert!(tm.flush().is_ok());
    assert_eq!(tm.pending_len(), 0);
    assert_eq!(count(&reader, "SELECT COUNT(*) FROM artifacts"), 1);
}

#[test]
fn add_flushes_at_the_limit() {
    let (reader, mut tm) = open_pair("add_limit");
    for i in 0..999 {
        assert!(tm.add(record(&format!("h{}", i), "/p", &[], None)).is_ok());
    }
    assert_eq!(tm.pending_len(), 999);
    assert_eq!(count(&reader, "SELECT COUNT(*) FROM artifacts"), 0);
    assert!(tm.add(record("h999", "/p", &[], None)).is_ok());
    assert_eq!(tm.pending_len(), 0);
    assert_eq!(count(&reader, "SELECT COUNT(*) FROM artifacts"), 1000);
}

#[test]
fn same_content_under_two_paths_is_one_artifact() {
    let (reader, mut tm) = open_pair("dedup");
    assert!(tm.add(record("same", "/first.txt", &[], None)).is_ok());
    assert!(tm.add(record("same", "/second.txt", &[], None)).is_ok());
    assert!(tm.flush().is_ok());
    assert_eq!(count(&reader, "SELECT COUNT(*) FROM artifacts"), 1);
    let path: String = reader
        .query_row("SELECT original_path FROM artifacts WHERE hash_sha256 = 'same'", [], |r| r.get(0))
        .unwrap();
    assert_eq!(path, "/second.txt");
}

#[test]
fn upsert_keeps_media_type_of_first_insert() {
    let (reader, mut tm) = open_pair("keep_media");
    let mut first = record("k", "/one", &[], None);
    first.media_type = "image/png".to_string();
    first.width = Some(224);
    first.height = Some(224);
    assert!(tm.add(first).is_ok());
    assert!(tm.flush().is_ok());
    assert!(tm.add(record("k", "/two", &[], None)).is_ok());
    assert!(tm.flush().is_ok());
    let (media, width, path): (String, Option<i64>, String) = reader
        .query_row("SELECT media_type, width, original_path FROM artifacts", [], |r| {
            Ok((r.get(0)?, r.get(1)?, r.get(2)?))
        })
        .unwrap();
    assert_eq!(media, "image/png");
    assert_eq!(width, Some(224));
    assert_eq!(path, "/two");
}

#[test]
fn same_tag_twice_across_flushes_links_once() {
    let (reader, mut tm) = open_pair("tag_idem");
    assert!(tm.add(record("t", "/x", &["cat"], None)).is_ok());
    assert!(tm.flush().is_ok());
    assert!(tm.add(record("t", "/x", &["cat"], None)).is_ok());
    assert!(tm.flush().is_ok());
    assert_eq!(count(&reader, "SELECT COUNT(*) FROM artifact_tags"), 1);
    assert_eq!(count(&reader, "SELECT COUNT(*) FROM tags"), 1);
}

#[test]
fn later_score_replaces_earlier() {
    let (reader, mut tm) = open_pair("score_replace");
    assert!(tm.add(record("s", "/x", &[], Some("0.25"))).is_ok());
    assert!(tm.flush().is_ok());
    assert!(tm.add(record("s", "/x", &[], Some("0.75"))).is_ok());
    assert!(tm.flush().is_ok());
    assert_eq!(count(&reader, "SELECT COUNT(*) FROM safety_scores"), 1);
    let score: f64 = reader.query_row("SELECT nsfw_score FROM safety_scores", [], |r| r.get(0)).unwrap();
    assert_eq!(score, 0.75);
}

#[test]
fn record_without_score_keeps_previous_score() {
    let (reader, mut tm) = open_pair("score_keep");
    assert!(tm.add(record("s", "/x", &[], Some("0.5"))).is_ok());
    assert!(tm.add(record("s", "/x", &[], None)).is_ok());
    assert!(tm.flush().is_ok());
    let score: f64 = reader.query_row("SELECT nsfw_score FROM safety_scores", [], |r| r.get(0)).unwrap();
    assert_eq!(score, 0.5);
}

#[test]
fn failed_batch_persists_nothing() {
    let (reader, mut tm) = open_pair("atomic");
    reader
        .execute_batch(
            "CREATE TRIGGER refuse_bad BEFORE INSERT ON artifacts WHEN NEW.original_path = '/bad'
             BEGIN SELECT RAISE(ABORT, 'refused'); END;",
        )
        .unwrap();
    assert!(tm.add(record("g1", "/good1", &["a"], Some("0.1"))).is_ok());
    assert!(tm.add(record("b", "/bad", &[], None)).is_ok());
    assert!(tm.add(record("g2", "/good2", &[], None)).is_ok());
    assert_eq!(tm.flush(), Err(StoreError::Write));
    assert_eq!(tm.pending_len(), 3);
    assert_eq!(count(&reader, "SELECT COUNT(*) FROM artifacts"), 0);
    assert_eq!(count(&reader, "SELECT COUNT(*) FROM tags"), 0);
    assert_eq!(count(&reader, "SELECT COUNT(*) FROM safety_scores"), 0);
    assert_eq!(count(&reader, "SELECT COUNT(*) FROM search_index"), 0);
}

#[test]
fn search_entry_joins_tags_with_spaces_and_repeats() {
    let (reader, mut tm) = open_pair("search_rows");
    assert!(tm.add(record("q", "/p.jpg", &["red", "car"], None)).is_ok());
    assert!(tm.add(record("q", "/p.jpg", &["red", "car"], None)).is_ok());
    assert!(tm.flush().is_ok());
    assert_eq!(count(&reader, "SELECT COUNT(*) FROM search_index"), 2);
    let text: String = reader
        .query_row("SELECT tags_concatenated FROM search_index LIMIT 1", [], |r| r.get(0))
        .unwrap();
    assert_eq!(text, "red car");
}

#[test]
fn text_file_and_jpeg_end_to_end() {
    let (reader, mut tm) = open_pair("end_to_end");
    let text = build_record(
        "aa".repeat(32),
        "/in/note.txt".to_string(),
        "application/octet-stream".to_string(),
        FrameOutcome::NotVisual,
    );
    let jpeg = build_record(
        "bb".repeat(32),
        "/in/photo.jpg".to_string(),
        "image/jpeg".to_string(),
        FrameOutcome::Decoded(Enrichment {
            tags: vec!["simulated_tag".to_string()],
            nsfw_score: Some("0.01".to_string()),
        }),
    );
    assert!(tm.add(text).is_ok());
    assert!(tm.add(jpeg).is_ok());
    assert!(tm.flush().is_ok());
    assert_eq!(count(&reader, "SELECT COUNT(*) FROM artifacts"), 2);
    let jpeg_dims: (Option<i64>, Option<i64>) = reader
        .query_row("SELECT width, height FROM artifacts WHERE original_path = '/in/photo.jpg'", [], |r| {
            Ok((r.get(0)?, r.get(1)?))
        })
        .unwrap();
    assert_eq!(jpeg_dims, (Some(224), Some(224)));
    let text_dims: (Option<i64>, Option<i64>) = reader
        .query_row("SELECT width, height FROM artifacts WHERE original_path = '/in/note.txt'", [], |r| {
            Ok((r.get(0)?, r.get(1)?))
        })
        .unwrap();
    assert_eq!(text_dims, (None, None));
    assert_eq!(count(&reader, "SELECT COUNT(*) FROM search_index"), 2);
}

#[test]
fn reopening_keeps_existing_rows() {
    let (reader, mut tm) = open_pair("reopen");
    assert!(tm.add(record("r", "/kept", &["t"], None)).is_ok());
    assert!(tm.flush().is_ok());
    let again = TransactionManager::new("file:reopen?mode=memory&cache=shared");
    assert!(again.is_ok());
    assert_eq!(count(&reader, "SELECT COUNT(*) FROM artifacts"), 1);
    assert_eq!(count(&reader, "SELECT COUNT(*) FROM artifact_tags"), 1);
}
