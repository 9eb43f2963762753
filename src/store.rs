use vstd::prelude::*;
use rusqlite::Connection;
use crate::record::{ArtifactRecord, RecordView, joined, join_tags};

verus! {

#[verifier::external_type_specification]
#[verifier::external_body]
pub struct ExConnection(rusqlite::Connection);

#[verifier::external_type_specification]
#[verifier::external_body]
pub struct ExSqlError(rusqlite::Error);

/// The relational schema: artifacts, tags, their links, safety scores and
/// the full-text search index.
pub const SCHEMA: &'static str = "
    CREATE TABLE IF NOT EXISTS artifacts (
        id INTEGER PRIMARY KEY,
        hash_sha256 TEXT UNIQUE NOT NULL,
        original_path TEXT NOT NULL,
        media_type TEXT NOT NULL,
        width INTEGER,
        height INTEGER
    );

    CREATE TABLE IF NOT EXISTS tags (
        id INTEGER PRIMARY KEY,
        name TEXT UNIQUE NOT NULL
    );

    CREATE TABLE IF NOT EXISTS artifact_tags (
        artifact_id INTEGER NOT NULL,
        tag_id INTEGER NOT NULL,
        FOREIGN KEY(artifact_id) REFERENCES artifacts(id),
        FOREIGN KEY(tag_id) REFERENCES tags(id),
        PRIMARY KEY(artifact_id, tag_id)
    );

    CREATE TABLE IF NOT EXISTS safety_scores (
        artifact_id INTEGER PRIMARY KEY,
        nsfw_score REAL NOT NULL,
        FOREIGN KEY(artifact_id) REFERENCES artifacts(id)
    );

    CREATE VIRTUAL TABLE IF NOT EXISTS search_index USING fts5(original_path, tags_concatenated);
";

pub const BEGIN_SQL: &'static str = "BEGIN DEFERRED";

pub const COMMIT_SQL: &'static str = "COMMIT";

pub const ROLLBACK_SQL: &'static str = "ROLLBACK";

pub const UPSERT_ARTIFACT_SQL: &'static str = "INSERT INTO artifacts (hash_sha256, original_path, media_type, width, height)
     VALUES (?1, ?2, ?3, ?4, ?5)
     ON CONFLICT(hash_sha256) DO UPDATE SET original_path=excluded.original_path";

pub const INSERT_TAG_SQL: &'static str = "INSERT OR IGNORE INTO tags (name) VALUES (?1)";

pub const LINK_TAG_SQL: &'static str = "INSERT OR IGNORE INTO artifact_tags (artifact_id, tag_id)
     SELECT artifacts.id, tags.id FROM artifacts, tags
     WHERE artifacts.hash_sha256 = ?1 AND tags.name = ?2";

pub const REPLACE_SCORE_SQL: &'static str = "INSERT OR REPLACE INTO safety_scores (artifact_id, nsfw_score)
     SELECT id, CAST(?2 AS REAL) FROM artifacts WHERE hash_sha256 = ?1";

pub const SEARCH_ENTRY_SQL: &'static str = "INSERT INTO search_index (original_path, tags_concatenated) VALUES (?1, ?2)";

/// Number of buffered records at which `add` flushes on its own.
pub const BUFFER_LIMIT: usize = 1000;

/// Why a store operation failed.
#[derive(Clone, Copy, Debug, PartialEq, Eq, Structural)]
pub enum StoreError {
    /// The database file could not be opened.
    Open,
    /// The schema could not be created.
    Schema,
    /// The batch transaction could not be started.
    Begin,
    /// A statement of the batch failed; the batch was rolled back.
    Write,
    /// The batch could not be committed; it was rolled back.
    Commit,
    /// The batch failed and rolling it back failed too. Nothing of it was
    /// committed, but the connection may still hold the open transaction, in
    /// which case later batches fail to begin.
    Rollback,
}

// ---------------------------------------------------------------------------
// The tables as a mathematical value, keyed by the natural keys (content hash,
// tag name) rather than by the row identities the database assigns. A score is
// kept as the decimal text that was bound; the column holds its numeric value.

pub struct ArtifactRow {
    pub path: Seq<char>,
    pub media_type: Seq<char>,
    pub width: Option<u32>,
    pub height: Option<u32>,
}

pub struct StoreView {
    /// The five tables of `SCHEMA` exist.
    pub schema_created: bool,
    /// One row per distinct content hash.
    pub artifacts: Map<Seq<char>, ArtifactRow>,
    /// Every tag name ever applied.
    pub tags: Set<Seq<char>>,
    /// (content hash, tag name) links.
    pub links: Set<(Seq<char>, Seq<char>)>,
    /// The latest safety score of each content hash.
    pub scores: Map<Seq<char>, Seq<char>>,
    /// Full-text entries (path, space-joined tags), in insertion order.
    pub search: Seq<(Seq<char>, Seq<char>)>,
}

/// Insert the artifact if its hash is new; otherwise only its path changes.
pub open spec fn upsert_artifact(a: Map<Seq<char>, ArtifactRow>, r: RecordView) -> Map<Seq<char>, ArtifactRow> {
    if a.contains_key(r.hash) {
        a.insert(r.hash, ArtifactRow { path: r.path, ..a[r.hash] })
    } else {
        a.insert(
            r.hash,
            ArtifactRow { path: r.path, media_type: r.media_type, width: r.width, height: r.height },
        )
    }
}

/// The effect of writing one record.
pub open spec fn apply_record(s: StoreView, r: RecordView) -> StoreView {
    StoreView {
        artifacts: upsert_artifact(s.artifacts, r),
        tags: s.tags + r.tags.to_set(),
        links: s.links + Set::new(|p: (Seq<char>, Seq<char>)| p.0 == r.hash && r.tags.contains(p.1)),
        scores: match r.score {
            Some(x) => s.scores.insert(r.hash, x),
            None => s.scores,
        },
        search: s.search.push((r.path, joined(r.tags))),
        ..s
    }
}

/// The effect of writing the records in order.
pub open spec fn apply_batch(s: StoreView, rs: Seq<RecordView>) -> StoreView
    decreases rs.len(),
{
    if rs.len() == 0 {
        s
    } else {
        apply_record(apply_batch(s, rs.drop_last()), rs.last())
    }
}

/// Splitting a run of records into two consecutive batches writes the same
/// tables as writing them as one batch.
pub proof fn lemma_batches_compose(s: StoreView, first: Seq<RecordView>, second: Seq<RecordView>)
    ensures
        apply_batch(apply_batch(s, first), second) == apply_batch(s, first + second),
    decreases second.len(),
{
    if second.len() == 0 {
        assert(first + second =~= first);
    } else {
        lemma_batches_compose(s, first, second.drop_last());
        assert((first + second).drop_last() =~= first + second.drop_last());
        assert((first + second).last() == second.last());
    }
}

proof fn lemma_pair(s: StoreView, a: RecordView, b: RecordView)
    ensures
        apply_batch(s, seq![a, b]) == apply_record(apply_record(s, a), b),
        apply_batch(apply_batch(s, seq![a]), seq![b]) == apply_record(apply_record(s, a), b),
{
    let e = Seq::<RecordView>::empty();
    assert(seq![a, b].drop_last() =~= seq![a]);
    assert(seq![a].drop_last() =~= e);
    assert(seq![b].drop_last() =~= e);
    assert(apply_batch(s, e) == s);
    assert(apply_batch(s, seq![a]) == apply_record(apply_batch(s, e), a));
    assert(apply_batch(s, seq![a, b]) == apply_record(apply_batch(s, seq![a]), b));
    let s1 = apply_batch(s, seq![a]);
    assert(apply_batch(s1, e) == s1);
    assert(apply_batch(s1, seq![b]) == apply_record(apply_batch(s1, e), b));
}

/// However the records are split into batches (see `lemma_batches_compose`),
/// the one artifact of a hash carries the path of the last record with that
/// hash.
pub proof fn lemma_last_path_wins(s: StoreView, rs: Seq<RecordView>, i: int)
    requires
        0 <= i < rs.len(),
        forall|j: int| i < j < rs.len() ==> rs[j].hash != rs[i].hash,
    ensures
        apply_batch(s, rs).artifacts.contains_key(rs[i].hash),
        apply_batch(s, rs).artifacts[rs[i].hash].path == rs[i].path,
    decreases rs.len(),
{
    if i < rs.len() - 1 {
        let prefix = rs.drop_last();
        assert forall|j: int| i < j < prefix.len() implies prefix[j].hash != prefix[i].hash by {
            assert(prefix[j] == rs[j]);
        }
        lemma_last_path_wins(s, prefix, i);
        assert(prefix[i] == rs[i]);
    }
}

/// An artifact keeps the media type and dimensions of the record that first
/// brought its hash in.
pub proof fn lemma_first_media_kept(s: StoreView, rs: Seq<RecordView>, i: int)
    requires
        0 <= i < rs.len(),
        !s.artifacts.contains_key(rs[i].hash),
        forall|j: int| 0 <= j < i ==> rs[j].hash != rs[i].hash,
    ensures
        apply_batch(s, rs).artifacts.contains_key(rs[i].hash),
        apply_batch(s, rs).artifacts[rs[i].hash].media_type == rs[i].media_type,
        apply_batch(s, rs).artifacts[rs[i].hash].width == rs[i].width,
        apply_batch(s, rs).artifacts[rs[i].hash].height == rs[i].height,
    decreases rs.len(),
{
    let prefix = rs.drop_last();
    if i < rs.len() - 1 {
        assert forall|j: int| 0 <= j < i implies prefix[j].hash != prefix[i].hash by {
            assert(prefix[j] == rs[j]);
        }
        assert(prefix[i] == rs[i]);
        lemma_first_media_kept(s, prefix, i);
    } else {
        lemma_hash_absent(s, prefix, rs[i].hash);
    }
}

proof fn lemma_hash_absent(s: StoreView, rs: Seq<RecordView>, h: Seq<char>)
    requires
        !s.artifacts.contains_key(h),
        forall|j: int| 0 <= j < rs.len() ==> rs[j].hash != h,
    ensures
        !apply_batch(s, rs).artifacts.contains_key(h),
    decreases rs.len(),
{
    if rs.len() > 0 {
        let prefix = rs.drop_last();
        assert forall|j: int| 0 <= j < prefix.len() implies prefix[j].hash != h by {
            assert(prefix[j] == rs[j]);
        }
        lemma_hash_absent(s, prefix, h);
        assert(rs.last().hash != h);
    }
}

/// However the records are split into batches, the score of a hash is the one
/// of the last record with that hash that carries a score.
pub proof fn lemma_last_score_wins(s: StoreView, rs: Seq<RecordView>, i: int)
    requires
        0 <= i < rs.len(),
        rs[i].score is Some,
        forall|j: int| i < j < rs.len() && rs[j].hash == rs[i].hash ==> rs[j].score is None,
    ensures
        apply_batch(s, rs).scores.contains_key(rs[i].hash),
        apply_batch(s, rs).scores[rs[i].hash] == rs[i].score.unwrap(),
    decreases rs.len(),
{
    if i < rs.len() - 1 {
        let prefix = rs.drop_last();
        assert forall|j: int| i < j < prefix.len() && prefix[j].hash == prefix[i].hash implies prefix[j].score is None by {
            assert(prefix[j] == rs[j]);
        }
        assert(prefix[i] == rs[i]);
        lemma_last_score_wins(s, prefix, i);
    }
}

/// Two records of different content written into an empty store leave two
/// artifacts, each with its own record's dimensions, and two search entries.
pub proof fn lemma_two_new_artifacts(s: StoreView, a: RecordView, b: RecordView)
    requires
        s.artifacts.dom() == Set::<Seq<char>>::empty(),
        s.search.len() == 0,
        a.hash != b.hash,
    ensures
        apply_batch(s, seq![a, b]).artifacts.dom() == set![a.hash, b.hash],
        apply_batch(s, seq![a, b]).artifacts.dom().len() == 2,
        apply_batch(s, seq![a, b]).artifacts[a.hash].width == a.width,
        apply_batch(s, seq![a, b]).artifacts[a.hash].height == a.height,
        apply_batch(s, seq![a, b]).artifacts[b.hash].width == b.width,
        apply_batch(s, seq![a, b]).artifacts[b.hash].height == b.height,
        apply_batch(s, seq![a, b]).search.len() == 2,
{
    lemma_pair(s, a, b);
    let t = apply_batch(s, seq![a, b]);
    assert(!s.artifacts.contains_key(a.hash));
    assert(t.artifacts.dom() =~= set![a.hash, b.hash]);
    assert(set![a.hash, b.hash].len() == 2) by {
        assert(set![a.hash, b.hash] =~= set![a.hash].insert(b.hash));
    }
}

/// Content identity deduplicates: two records with the same hash, written in
/// one batch or in two consecutive ones, leave exactly one artifact for that
/// hash, whose path is the later record's.
pub proof fn lemma_same_content_single_artifact(s: StoreView, a: RecordView, b: RecordView)
    requires
        a.hash == b.hash,
    ensures
        apply_batch(s, seq![a, b]) == apply_batch(apply_batch(s, seq![a]), seq![b]),
        apply_batch(s, seq![a, b]).artifacts.dom() == s.artifacts.dom().insert(a.hash),
        apply_batch(s, seq![a, b]).artifacts[a.hash].path == b.path,
{
    lemma_pair(s, a, b);
    let s2 = apply_batch(s, seq![a, b]);
    assert(s2.artifacts.dom() =~= s.artifacts.dom().insert(a.hash));
}

/// Linking a tag is idempotent: once a record has linked its tags to its
/// content, a later record for the same content with no other tags adds no
/// link and no tag.
pub proof fn lemma_tag_links_idempotent(s: StoreView, a: RecordView, b: RecordView)
    requires
        a.hash == b.hash,
        b.tags.to_set().subset_of(a.tags.to_set()),
    ensures
        apply_batch(apply_batch(s, seq![a]), seq![b]).links == apply_batch(s, seq![a]).links,
        apply_batch(apply_batch(s, seq![a]), seq![b]).tags == apply_batch(s, seq![a]).tags,
{
    lemma_pair(s, a, b);
    let e = Seq::<RecordView>::empty();
    assert(seq![a].drop_last() =~= e);
    assert(apply_batch(s, e) == s);
    assert(apply_batch(s, seq![a]) == apply_record(apply_batch(s, e), a));
    let s1 = apply_record(s, a);
    let s2 = apply_record(s1, b);
    assert forall|p: (Seq<char>, Seq<char>)| s2.links.contains(p) == s1.links.contains(p) by {
        if p.0 == a.hash && b.tags.contains(p.1) {
            assert(b.tags.to_set().contains(p.1));
            assert(a.tags.to_set().contains(p.1));
        }
    }
    assert(s2.links =~= s1.links);
    assert(s2.tags =~= s1.tags);
}

/// Scores are replaced: after two records for the same content, the stored
/// score is the later record's whenever it carries one.
pub proof fn lemma_score_latest_wins(s: StoreView, a: RecordView, b: RecordView)
    requires
        a.hash == b.hash,
        b.score is Some,
    ensures
        apply_batch(apply_batch(s, seq![a]), seq![b]).scores[a.hash] == b.score.unwrap(),
        apply_batch(apply_batch(s, seq![a]), seq![b]).scores.dom() == s.scores.dom().insert(a.hash),
{
    lemma_pair(s, a, b);
    let s2 = apply_record(apply_record(s, a), b);
    assert(s2.scores.dom() =~= s.scores.dom().insert(a.hash));
}

/// Every record written appends exactly one search entry, with its path and
/// its space-joined tags, whatever the tables held before.
pub proof fn lemma_one_search_entry_per_record(s: StoreView, rs: Seq<RecordView>)
    ensures
        apply_batch(s, rs).search.len() == s.search.len() + rs.len(),
        forall|i: int|
            0 <= i < rs.len() ==> #[trigger] apply_batch(s, rs).search[s.search.len() + i] == (
            rs[i].path,
            joined(rs[i].tags),
        ),
    decreases rs.len(),
{
    if rs.len() > 0 {
        lemma_one_search_entry_per_record(s, rs.drop_last());
        let prev = apply_batch(s, rs.drop_last());
        assert forall|i: int| 0 <= i < rs.len() implies #[trigger] apply_batch(s, rs).search[s.search.len() + i] == (
            rs[i].path,
            joined(rs[i].tags),
        ) by {
            if i < rs.len() - 1 {
                assert(rs.drop_last()[i] == rs[i]);
                assert(prev.search[s.search.len() + i] == (rs[i].path, joined(rs[i].tags)));
            }
        }
    }
}

pub open spec fn records_view(v: Seq<ArtifactRecord>) -> Seq<RecordView> {
    v.map_values(|r: ArtifactRecord| r@)
}

/// An open database connection, with models of what its tables hold as this
/// connection sees them, of what is committed, and of whether a transaction
/// is open.
pub struct Database {
    conn: Connection,
    tables: Ghost<StoreView>,
    committed: Ghost<StoreView>,
    in_tx: Ghost<bool>,
}

impl Database {
    /// The tables as this connection sees them, uncommitted writes included.
    pub closed spec fn tables(&self) -> StoreView {
        self.tables@
    }

    /// The tables as last committed.
    pub closed spec fn committed(&self) -> StoreView {
        self.committed@
    }

    pub closed spec fn in_tx(&self) -> bool {
        self.in_tx@
    }
}

/// Relies on rusqlite::Connection::open: opens or creates the database file,
/// whatever it already holds; a new connection has no open transaction.
#[verifier::external_body]
fn open_database(path: &str) -> (r: Result<Database, rusqlite::Error>)
    ensures
        r matches Ok(db) ==> !db.in_tx() && db.committed() == db.tables(),
{
    match Connection::open(path) {
        Ok(conn) => Ok(Database { conn, tables: Ghost(arbitrary()), committed: Ghost(arbitrary()), in_tx: Ghost(false) }),
        Err(e) => Err(e),
    }
}

/// Relies on rusqlite::Connection::execute_batch running `SCHEMA`: each table
/// is created if missing; existing rows stay. Outside a transaction each
/// statement commits on its own.
#[verifier::external_body]
fn exec_schema(db: &mut Database) -> (r: Result<(), rusqlite::Error>)
    ensures
        r is Ok ==> final(db).tables() == (StoreView { schema_created: true, ..old(db).tables() }),
        r is Ok ==> final(db).in_tx() == old(db).in_tx(),
        r is Ok && !old(db).in_tx() ==> final(db).committed() == final(db).tables(),
        old(db).in_tx() ==> final(db).committed() == old(db).committed(),
{
    db.conn.execute_batch(SCHEMA)
}

/// Relies on rusqlite::Connection::execute_batch running `BEGIN_SQL`: it
/// succeeds only outside a transaction, where what the connection sees is what
/// is committed, and opens one; nothing changes.
#[verifier::external_body]
fn exec_begin(db: &mut Database) -> (r: Result<(), rusqlite::Error>)
    ensures
        final(db).tables() == old(db).tables(),
        final(db).committed() == old(db).committed(),
        r is Ok ==> !old(db).in_tx() && old(db).tables() == old(db).committed() && final(db).in_tx(),
        r is Err ==> final(db).in_tx() == old(db).in_tx(),
{
    db.conn.execute_batch(BEGIN_SQL)
}

/// Relies on rusqlite::Connection::execute_batch running `COMMIT_SQL`: when it
/// succeeds, what the connection sees becomes what is committed and the
/// transaction ends; when it fails, nothing more is committed.
#[verifier::external_body]
fn exec_commit(db: &mut Database) -> (r: Result<(), rusqlite::Error>)
    ensures
        r is Ok ==> final(db).tables() == old(db).tables() && final(db).committed() == old(db).tables()
            && !final(db).in_tx(),
        r is Err ==> final(db).committed() == old(db).committed(),
{
    db.conn.execute_batch(COMMIT_SQL)
}

/// Relies on rusqlite::Connection::execute_batch running `ROLLBACK_SQL`: it
/// commits nothing; when it succeeds, the connection sees what is committed
/// again and the transaction ends.
#[verifier::external_body]
fn exec_rollback(db: &mut Database) -> (r: Result<(), rusqlite::Error>)
    ensures
        final(db).committed() == old(db).committed(),
        r is Ok ==> final(db).tables() == old(db).committed() && !final(db).in_tx(),
{
    db.conn.execute_batch(ROLLBACK_SQL)
}

/// Relies on rusqlite::Connection::execute running `UPSERT_ARTIFACT_SQL`: the
/// artifact is inserted, or only its path is updated when its hash is known.
#[verifier::external_body]
fn exec_upsert_artifact(db: &mut Database, rec: &ArtifactRecord) -> (r: Result<usize, rusqlite::Error>)
    ensures
        old(db).in_tx() ==> final(db).committed() == old(db).committed(),
        r is Ok ==> final(db).in_tx() == old(db).in_tx(),
        r is Ok ==> final(db).tables() == (StoreView {
            artifacts: upsert_artifact(old(db).tables().artifacts, rec@),
            ..old(db).tables()
        }),
{
    db.conn.execute(
        UPSERT_ARTIFACT_SQL,
        (&rec.hash_sha256, &rec.original_path, &rec.media_type, rec.width, rec.height),
    )
}

/// Relies on rusqlite::Connection::execute running `INSERT_TAG_SQL`: the tag
/// name is added unless present.
#[verifier::external_body]
fn exec_insert_tag(db: &mut Database, name: &String) -> (r: Result<usize, rusqlite::Error>)
    ensures
        old(db).in_tx() ==> final(db).committed() == old(db).committed(),
        r is Ok ==> final(db).in_tx() == old(db).in_tx(),
        r is Ok ==> final(db).tables() == (StoreView { tags: old(db).tables().tags.insert(name@), ..old(db).tables() }),
{
    db.conn.execute(INSERT_TAG_SQL, (name,))
}

/// Relies on rusqlite::Connection::execute running `LINK_TAG_SQL`: the link is
/// added unless present, when both the artifact and the tag exist.
#[verifier::external_body]
fn exec_link_tag(db: &mut Database, hash: &String, name: &String) -> (r: Result<usize, rusqlite::Error>)
    ensures
        old(db).in_tx() ==> final(db).committed() == old(db).committed(),
        r is Ok ==> final(db).in_tx() == old(db).in_tx(),
        r is Ok ==> final(db).tables() == (StoreView {
            links: if old(db).tables().artifacts.contains_key(hash@) && old(db).tables().tags.contains(name@) {
                old(db).tables().links.insert((hash@, name@))
            } else {
                old(db).tables().links
            },
            ..old(db).tables()
        }),
{
    db.conn.execute(LINK_TAG_SQL, (hash, name))
}

/// Relies on rusqlite::Connection::execute running `REPLACE_SCORE_SQL`: the
/// artifact's score is replaced, when the artifact exists.
#[verifier::external_body]
fn exec_replace_score(db: &mut Database, hash: &String, score: &String) -> (r: Result<usize, rusqlite::Error>)
    ensures
        old(db).in_tx() ==> final(db).committed() == old(db).committed(),
        r is Ok ==> final(db).in_tx() == old(db).in_tx(),
        r is Ok ==> final(db).tables() == (StoreView {
            scores: if old(db).tables().artifacts.contains_key(hash@) {
                old(db).tables().scores.insert(hash@, score@)
            } else {
                old(db).tables().scores
            },
            ..old(db).tables()
        }),
{
    db.conn.execute(REPLACE_SCORE_SQL, (hash, score))
}

/// Relies on rusqlite::Connection::execute running `SEARCH_ENTRY_SQL`: one
/// full-text entry is appended.
#[verifier::external_body]
fn exec_search_entry(db: &mut Database, path: &String, tags: &String) -> (r: Result<usize, rusqlite::Error>)
    ensures
        old(db).in_tx() ==> final(db).committed() == old(db).committed(),
        r is Ok ==> final(db).in_tx() == old(db).in_tx(),
        r is Ok ==> final(db).tables() == (StoreView {
            search: old(db).tables().search.push((path@, tags@)),
            ..old(db).tables()
        }),
{
    db.conn.execute(SEARCH_ENTRY_SQL, (path, tags))
}

/// Writes one record's rows: the artifact upsert, each tag with its link,
/// the score if there is one, and a search entry.
fn write_record(db: &mut Database, rec: &ArtifactRecord) -> (r: Result<(), StoreError>)
    ensures
        old(db).in_tx() ==> final(db).committed() == old(db).committed(),
        r is Ok ==> final(db).in_tx() == old(db).in_tx(),
        r is Ok ==> final(db).tables() == apply_record(old(db).tables(), rec@),
        r matches Err(e) ==> e == StoreError::Write,
{
    let ghost t0 = db.tables();
    let ghost tags = rec@.tags;
    let ghost hash = rec@.hash;
    if exec_upsert_artifact(db, rec).is_err() {
        return Err(StoreError::Write);
    }
    let ghost t1 = db.tables();
    assert(t1.artifacts.contains_key(hash));
    assert(t0.tags + tags.subrange(0, 0).to_set() =~= t1.tags);
    assert(t0.links + Set::new(|p: (Seq<char>, Seq<char>)| p.0 == hash && tags.subrange(0, 0).contains(p.1))
        =~= t1.links);
    let mut i: usize = 0;
    while i < rec.tags.len()
        invariant
            i <= rec.tags.len(),
            tags == rec@.tags,
            hash == rec@.hash,
            t1.artifacts.contains_key(hash),
            tags.len() == rec.tags.len(),
            db.in_tx() == old(db).in_tx(),
            old(db).in_tx() ==> db.committed() == old(db).committed(),
            db.tables() == (StoreView {
                tags: t0.tags + tags.subrange(0, i as int).to_set(),
                links: t0.links + Set::new(
                    |p: (Seq<char>, Seq<char>)| p.0 == hash && tags.subrange(0, i as int).contains(p.1),
                ),
                ..t1
            }),
        decreases rec.tags.len() - i,
    {
        let ghost before = db.tables();
        let tag = &rec.tags[i];
        assert(tag@ == tags[i as int]);
        if exec_insert_tag(db, tag).is_err() {
            return Err(StoreError::Write);
        }
        let ghost mid = db.tables();
        assert(mid.artifacts.contains_key(hash) && mid.tags.contains(tag@));
        if exec_link_tag(db, &rec.hash_sha256, tag).is_err() {
            return Err(StoreError::Write);
        }
        assert(db.tables().links == before.links.insert((hash, tags[i as int])));
        assert(db.tables().tags == before.tags.insert(tags[i as int]));
        proof {
            let pre = tags.subrange(0, i as int);
            let post = tags.subrange(0, i + 1);
            assert(post =~= pre.push(tags[i as int]));
            pre.lemma_push_to_set_commute(tags[i as int]);
            assert forall|x: Seq<char>| post.contains(x) == (pre.contains(x) || x == tags[i as int]) by {
                assert(post.to_set().contains(x) == post.contains(x));
                assert(pre.to_set().contains(x) == pre.contains(x));
            }
            assert(t0.tags + post.to_set() =~= before.tags.insert(tags[i as int]));
            assert(t0.links + Set::new(|p: (Seq<char>, Seq<char>)| p.0 == hash && post.contains(p.1))
                =~= before.links.insert((hash, tags[i as int])));
            assert(db.tables() == (StoreView {
                tags: t0.tags + post.to_set(),
                links: t0.links + Set::new(|p: (Seq<char>, Seq<char>)| p.0 == hash && post.contains(p.1)),
                ..t1
            }));
        }
        i = i + 1;
    }
    assert(tags.subrange(0, tags.len() as int) =~= tags);
    match &rec.nsfw_score {
        Some(score) => {
            if exec_replace_score(db, &rec.hash_sha256, score).is_err() {
                return Err(StoreError::Write);
            }
        },
        None => {},
    }
    let tags_concat = join_tags(&rec.tags);
    if exec_search_entry(db, &rec.original_path, &tags_concat).is_err() {
        return Err(StoreError::Write);
    }
    assert(db.tables() =~= apply_record(t0, rec@));
    Ok(())
}

/// The single writer of the store: buffers records and commits them in
/// atomic batches.
pub struct TransactionManager {
    db: Database,
    buffer: Vec<ArtifactRecord>,
    buffer_limit: usize,
}

impl TransactionManager {
    /// Records waiting for the next flush, in arrival order.
    pub closed spec fn pending(&self) -> Seq<RecordView> {
        records_view(self.buffer@)
    }

    /// What the store's tables hold, as committed.
    pub closed spec fn tables(&self) -> StoreView {
        self.db.committed()
    }

    pub closed spec fn limit(&self) -> nat {
        self.buffer_limit as nat
    }

    pub open spec fn wf(&self) -> bool {
        self.limit() == BUFFER_LIMIT
    }

    /// How many records wait for the next flush.
    pub fn pending_len(&self) -> (r: usize)
        ensures
            r == self.pending().len(),
    {
        self.buffer.len()
    }

    /// Opens the database at `path` and creates the schema where missing.
    pub fn new(path: &str) -> (r: Result<TransactionManager, StoreError>)
        ensures
            r matches Ok(tm) ==> tm.wf() && tm.pending() == Seq::<RecordView>::empty()
                && tm.tables().schema_created,
            r matches Err(e) ==> e == StoreError::Open || e == StoreError::Schema,
    {
        let mut db = match open_database(path) {
            Ok(d) => d,
            Err(_) => return Err(StoreError::Open),
        };
        if exec_schema(&mut db).is_err() {
            return Err(StoreError::Schema);
        }
        let tm = TransactionManager { db, buffer: Vec::new(), buffer_limit: BUFFER_LIMIT };
        assert(tm.pending() =~= Seq::<RecordView>::empty());
        Ok(tm)
    }

    /// Buffers `record`; once the buffer reaches its limit, flushes it.
    pub fn add(&mut self, record: ArtifactRecord) -> (r: Result<(), StoreError>)
        requires
            old(self).wf(),
        ensures
            final(self).wf(),
            final(self).limit() == old(self).limit(),
            ({
                let pushed = old(self).pending().push(record@);
                if pushed.len() < old(self).limit() {
                    r is Ok && final(self).pending() == pushed && final(self).tables() == old(self).tables()
                } else {
                    match r {
                        Ok(_) => final(self).pending() == Seq::<RecordView>::empty()
                            && final(self).tables() == apply_batch(old(self).tables(), pushed),
                        Err(e) => e != StoreError::Open && e != StoreError::Schema
                            && final(self).pending() == pushed
                            && final(self).tables() == old(self).tables(),
                    }
                }
            }),
    {
        self.buffer.push(record);
        proof {
            assert(self.pending() =~= old(self).pending().push(record@));
        }
        if self.buffer.len() >= self.buffer_limit {
            self.flush()
        } else {
            Ok(())
        }
    }

    /// Writes every buffered record, in order, in one transaction: either all
    /// of them reach the tables and the buffer is emptied, or the tables are
    /// left as they were and the buffer stays.
    pub fn flush(&mut self) -> (r: Result<(), StoreError>)
        requires
            old(self).wf(),
        ensures
            final(self).wf(),
            final(self).limit() == old(self).limit(),
            old(self).pending().len() == 0 ==> r is Ok && final(self).pending() == old(self).pending()
                && final(self).tables() == old(self).tables(),
            old(self).pending().len() > 0 ==> match r {
                Ok(_) => final(self).pending() == Seq::<RecordView>::empty()
                    && final(self).tables() == apply_batch(old(self).tables(), old(self).pending()),
                Err(e) => e != StoreError::Open && e != StoreError::Schema
                    && final(self).pending() == old(self).pending()
                    && final(self).tables() == old(self).tables(),
            },
    {
        if self.buffer.len() == 0 {
            return Ok(());
        }
        if exec_begin(&mut self.db).is_err() {
            return Err(StoreError::Begin);
        }
        let ghost start = self.db.tables();
        let ghost batch = self.pending();
        let mut i: usize = 0;
        while i < self.buffer.len()
            invariant
                i <= self.buffer.len(),
                self.wf(),
                self.buffer_limit == old(self).buffer_limit,
                self.buffer@ == old(self).buffer@,
                batch == self.pending(),
                start == old(self).tables(),
                self.db.in_tx(),
                self.db.committed() == start,
                self.db.tables() == apply_batch(start, batch.subrange(0, i as int)),
            decreases self.buffer.len() - i,
        {
            assert(batch.subrange(0, i + 1).drop_last() =~= batch.subrange(0, i as int));
            if write_record(&mut self.db, &self.buffer[i]).is_err() {
                if exec_rollback(&mut self.db).is_err() {
                    return Err(StoreError::Rollback);
                }
                return Err(StoreError::Write);
            }
            i = i + 1;
        }
        assert(batch.subrange(0, self.buffer.len() as int) =~= batch);
        if exec_commit(&mut self.db).is_err() {
            if exec_rollback(&mut self.db).is_err() {
                return Err(StoreError::Rollback);
            }
            return Err(StoreError::Commit);
        }
        self.buffer.clear();
        assert(self.pending() =~= Seq::<RecordView>::empty());
        Ok(())
    }
}

} // verus!
