use vstd::prelude::*;

verus! {

/// What one pass of the processing stage hands to the ingest store.
///
/// The safety score travels as the decimal text of the classifier's value
/// (as `f64`'s `Display` writes it); the store casts it to REAL, so text that
/// is not a number would be stored as 0.
#[derive(Clone, Debug)]
pub struct ArtifactRecord {
    pub hash_sha256: String,
    pub original_path: String,
    pub media_type: String,
    pub width: Option<u32>,
    pub height: Option<u32>,
    pub tags: Vec<String>,
    pub nsfw_score: Option<String>,
}

/// The mathematical value of an [`ArtifactRecord`].
pub struct RecordView {
    pub hash: Seq<char>,
    pub path: Seq<char>,
    pub media_type: Seq<char>,
    pub width: Option<u32>,
    pub height: Option<u32>,
    pub tags: Seq<Seq<char>>,
    pub score: Option<Seq<char>>,
}

pub open spec fn strings_view(v: Seq<String>) -> Seq<Seq<char>> {
    v.map_values(|s: String| s@)
}

pub open spec fn opt_string_view(o: Option<String>) -> Option<Seq<char>> {
    match o {
        Some(s) => Some(s@),
        None => None,
    }
}

impl View for ArtifactRecord {
    type V = RecordView;

    open spec fn view(&self) -> RecordView {
        RecordView {
            hash: self.hash_sha256@,
            path: self.original_path@,
            media_type: self.media_type@,
            width: self.width,
            height: self.height,
            tags: strings_view(self.tags@),
            score: opt_string_view(self.nsfw_score),
        }
    }
}

/// Tag names joined by single spaces, as the search index stores them.
pub open spec fn joined(tags: Seq<Seq<char>>) -> Seq<char>
    decreases tags.len(),
{
    if tags.len() == 0 {
        Seq::empty()
    } else if tags.len() == 1 {
        tags[0]
    } else {
        joined(tags.drop_last()) + seq![' '] + tags.last()
    }
}

/// Joins the tag names with a single space between neighbours.
pub fn join_tags(tags: &Vec<String>) -> (r: String)
    ensures
        r@ == joined(strings_view(tags@)),
{
    let mut out = String::new();
    let mut i: usize = 0;
    while i < tags.len()
        invariant
            i <= tags.len(),
            out@ == joined(strings_view(tags@.subrange(0, i as int))),
        decreases tags.len() - i,
    {
        let ghost pre = strings_view(tags@.subrange(0, i as int));
        let ghost post = strings_view(tags@.subrange(0, i + 1));
        let ghost before = out@;
        proof {
            reveal_strlit(" ");
            assert(post.drop_last() =~= pre);
            assert(post.last() == tags@[i as int]@);
        }
        if i > 0 {
            out.append(" ");
        }
        out.append(tags[i].as_str());
        proof {
            if i == 0 {
                assert(out@ =~= post[0]);
            } else {
                assert(out@ =~= before + seq![' '] + post.last());
            }
        }
        i = i + 1;
    }
    assert(tags@.subrange(0, tags.len() as int) =~= tags@);
    out
}

/// Number of leading bytes of a file that MIME sniffing looks at.
pub const SNIFF_LEN: usize = 8192;

/// Side of the square RGB frame that the decoder samples.
pub const FRAME_SIDE: u32 = 224;

/// The MIME type recognised from a file's leading bytes, if any.
pub uninterp spec fn sniffed_mime(header: Seq<u8>) -> Option<Seq<char>>;

/// Relies on infer::get and infer::Type::mime_type: the MIME type that the
/// signature table recognises in the leading bytes, if any.
#[verifier::external_body]
fn sniff(header: &[u8]) -> (r: Option<String>)
    requires
        header@.len() <= SNIFF_LEN,
    ensures
        opt_string_view(r) == sniffed_mime(header@),
{
    infer::get(header).map(|kind| kind.mime_type().to_string())
}

pub open spec fn octet_stream() -> Seq<char> {
    seq!['a', 'p', 'p', 'l', 'i', 'c', 'a', 't', 'i', 'o', 'n', '/', 'o', 'c', 't', 'e', 't', '-', 's', 't', 'r', 'e', 'a', 'm']
}

pub open spec fn media_type_or_default_spec(sniffed: Option<Seq<char>>) -> Seq<char> {
    match sniffed {
        Some(m) => m,
        None => octet_stream(),
    }
}

/// The sniffed MIME type, or `application/octet-stream` when none was recognised.
pub fn media_type_or_default(sniffed: Option<String>) -> (r: String)
    ensures
        r@ == media_type_or_default_spec(opt_string_view(sniffed)),
{
    match sniffed {
        Some(m) => m,
        None => {
            let d = String::from_str("application/octet-stream");
            proof {
                reveal_strlit("application/octet-stream");
                assert(d@ =~= octet_stream());
            }
            d
        },
    }
}

/// The media type of a file from its leading bytes (at most `SNIFF_LEN` of them).
pub fn detect_mimetype(header: &[u8]) -> (r: String)
    requires
        header@.len() <= SNIFF_LEN,
    ensures
        r@ == media_type_or_default_spec(sniffed_mime(header@)),
{
    media_type_or_default(sniff(header))
}

pub open spec fn starts_with(s: Seq<char>, p: Seq<char>) -> bool {
    p.len() <= s.len() && s.subrange(0, p.len() as int) == p
}

/// Whether `s` begins with `p`.
pub fn has_prefix(s: &str, p: &str) -> (r: bool)
    ensures
        r == starts_with(s@, p@),
{
    let n = p.unicode_len();
    if s.unicode_len() < n {
        return false;
    }
    let mut i: usize = 0;
    while i < n
        invariant
            n == p@.len(),
            n <= s@.len(),
            i <= n,
            s@.subrange(0, i as int) == p@.subrange(0, i as int),
        decreases n - i,
    {
        if s.get_char(i) != p.get_char(i) {
            assert(s@.subrange(0, n as int)[i as int] != p@[i as int]);
            return false;
        }
        assert(s@.subrange(0, i + 1) =~= s@.subrange(0, i as int).push(s@[i as int]));
        assert(p@.subrange(0, i + 1) =~= p@.subrange(0, i as int).push(p@[i as int]));
        i = i + 1;
    }
    assert(p@.subrange(0, n as int) =~= p@);
    true
}

pub open spec fn is_visual_spec(m: Seq<char>) -> bool {
    starts_with(m, seq!['v', 'i', 'd', 'e', 'o', '/']) || starts_with(m, seq!['i', 'm', 'a', 'g', 'e', '/'])
}

/// Whether frames are sampled from media of this type: video and images.
pub fn is_visual_media(media_type: &str) -> (r: bool)
    ensures
        r == is_visual_spec(media_type@),
{
    proof {
        reveal_strlit("video/");
        reveal_strlit("image/");
        assert("video/"@ =~= seq!['v', 'i', 'd', 'e', 'o', '/']);
        assert("image/"@ =~= seq!['i', 'm', 'a', 'g', 'e', '/']);
    }
    has_prefix(media_type, "video/") || has_prefix(media_type, "image/")
}

/// What analysis of a sampled frame produced: tags, and the safety score as
/// decimal text.
pub struct Enrichment {
    pub tags: Vec<String>,
    pub nsfw_score: Option<String>,
}

/// What became of a job's visual content.
pub enum FrameOutcome {
    /// The media type is not one that frames are sampled from.
    NotVisual,
    /// The decoder could not produce a frame; the job goes on unenriched.
    DecodeFailed,
    /// A frame was sampled and analysed.
    Decoded(Enrichment),
}

/// The completed record of one job. Dimensions are the frame's only when a
/// frame was sampled; tags and score come from its analysis, else are empty.
pub fn build_record(hash: String, path: String, media_type: String, outcome: FrameOutcome) -> (r: ArtifactRecord)
    ensures
        r.hash_sha256@ == hash@,
        r.original_path@ == path@,
        r.media_type@ == media_type@,
        match outcome {
            FrameOutcome::Decoded(e) => r.width == Some(FRAME_SIDE) && r.height == Some(FRAME_SIDE)
                && r.tags@ == e.tags@ && r.nsfw_score == e.nsfw_score,
            _ => r.width is None && r.height is None && r.tags@.len() == 0 && r.nsfw_score is None,
        },
{
    match outcome {
        FrameOutcome::Decoded(e) => ArtifactRecord {
            hash_sha256: hash,
            original_path: path,
            media_type,
            width: Some(FRAME_SIDE),
            height: Some(FRAME_SIDE),
            tags: e.tags,
            nsfw_score: e.nsfw_score,
        },
        _ => ArtifactRecord {
            hash_sha256: hash,
            original_path: path,
            media_type,
            width: None,
            height: None,
            tags: Vec::new(),
            nsfw_score: None,
        },
    }
}

} // verus!
