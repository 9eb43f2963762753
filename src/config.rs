use vstd::prelude::*;
use crate::record::{has_prefix, opt_string_view};

verus! {

/// Where the two inference models live.
pub struct ModelPaths {
    pub nsfw: String,
    pub tagger: String,
}

/// Why no model paths could be settled on.
#[derive(Clone, Copy, Debug, PartialEq, Eq, Structural)]
pub enum ConfigError {
    NsfwModelNotFound,
    TaggerModelNotFound,
}

pub const NSFW_KEY: &'static str = "NSFW_MODEL_PATH";

pub const TAGGER_KEY: &'static str = "TAGGER_MODEL_PATH";

/// File names searched for when the settings file does not name both models.
pub const NSFW_MODEL_FILE: &'static str = "nsfw.onnx";

pub const TAGGER_MODEL_FILE: &'static str = "tagger.onnx";

/// How deep below the start directory the model search descends.
pub const MODEL_SEARCH_DEPTH: usize = 5;

/// Unicode white space, as `char::is_whitespace` classifies it.
pub open spec fn is_ws(c: char) -> bool {
    c == '\t' || c == '\n' || c == '\x0B' || c == '\x0C' || c == '\r' || c == ' ' || c == '\u{85}'
        || c == '\u{A0}' || c == '\u{1680}' || ('\u{2000}' <= c && c <= '\u{200A}') || c == '\u{2028}'
        || c == '\u{2029}' || c == '\u{202F}' || c == '\u{205F}' || c == '\u{3000}'
}

pub fn is_ws_char(c: char) -> (r: bool)
    ensures
        r == is_ws(c),
{
    c == '\t' || c == '\n' || c == '\x0B' || c == '\x0C' || c == '\r' || c == ' ' || c == '\u{85}'
        || c == '\u{A0}' || c == '\u{1680}' || ('\u{2000}' <= c && c <= '\u{200A}') || c == '\u{2028}'
        || c == '\u{2029}' || c == '\u{202F}' || c == '\u{205F}' || c == '\u{3000}'
}

pub open spec fn trim_start(s: Seq<char>) -> Seq<char>
    decreases s.len(),
{
    if s.len() > 0 && is_ws(s[0]) {
        trim_start(s.drop_first())
    } else {
        s
    }
}

pub open spec fn trim_end(s: Seq<char>) -> Seq<char>
    decreases s.len(),
{
    if s.len() > 0 && is_ws(s.last()) {
        trim_end(s.drop_last())
    } else {
        s
    }
}

/// `s` without leading and trailing white space.
pub open spec fn trim(s: Seq<char>) -> Seq<char> {
    trim_end(trim_start(s))
}

/// Characters `from..to` of `s`, without leading and trailing white space.
pub fn trimmed_range(s: &str, from: usize, to: usize) -> (r: String)
    requires
        from <= to <= s@.len(),
    ensures
        r@ == trim(s@.subrange(from as int, to as int)),
{
    let mut a: usize = from;
    while a < to && is_ws_char(s.get_char(a))
        invariant
            from <= a <= to,
            to <= s@.len(),
            trim_start(s@.subrange(from as int, to as int)) == trim_start(s@.subrange(a as int, to as int)),
        decreases to - a,
    {
        assert(s@.subrange(a as int, to as int).drop_first() =~= s@.subrange(a + 1, to as int));
        a = a + 1;
    }
    assert(trim_start(s@.subrange(a as int, to as int)) == s@.subrange(a as int, to as int));
    let mut b: usize = to;
    while b > a && is_ws_char(s.get_char(b - 1))
        invariant
            a <= b <= to,
            to <= s@.len(),
            trim_end(s@.subrange(a as int, to as int)) == trim_end(s@.subrange(a as int, b as int)),
        decreases b - a,
    {
        assert(s@.subrange(a as int, b as int).drop_last() =~= s@.subrange(a as int, b - 1));
        b = b - 1;
    }
    assert(trim_end(s@.subrange(a as int, b as int)) == s@.subrange(a as int, b as int));
    String::from_str(s.substring_char(a, b))
}

/// Whether the two strings hold the same characters.
pub fn same_text(a: &str, b: &str) -> (r: bool)
    ensures
        r == (a@ == b@),
{
    if a.unicode_len() != b.unicode_len() {
        return false;
    }
    let r = has_prefix(a, b);
    assert(a@.subrange(0, b@.len() as int) =~= a@);
    r
}

/// `k` is the position of the first `=` of `line`.
pub open spec fn first_eq(line: Seq<char>, k: int) -> bool {
    0 <= k < line.len() && line[k] == '=' && forall|j: int| 0 <= j < k ==> line[j] != '='
}

/// A settings line `key=value`, split at its first `=`, both sides trimmed;
/// a line without `=` holds no entry.
pub open spec fn line_entry(line: Seq<char>) -> Option<(Seq<char>, Seq<char>)> {
    if exists|k: int| first_eq(line, k) {
        let k = choose|k: int| first_eq(line, k);
        Some((trim(line.subrange(0, k)), trim(line.subrange(k + 1, line.len() as int))))
    } else {
        None
    }
}

/// `j` is the position of the last line break of `text`.
pub open spec fn last_break(text: Seq<char>, j: int) -> bool {
    0 <= j < text.len() && text[j] == '\n' && forall|i: int| j < i < text.len() ==> text[i] != '\n'
}

/// Where the last line of `text` begins.
pub open spec fn last_line_start(text: Seq<char>) -> int {
    if exists|j: int| last_break(text, j) {
        (choose|j: int| last_break(text, j)) + 1
    } else {
        0
    }
}

/// The value that the settings text gives `key`: that of the last line whose
/// trimmed key is `key`.
pub open spec fn env_value(text: Seq<char>, key: Seq<char>) -> Option<Seq<char>>
    decreases text.len(),
{
    let start = last_line_start(text);
    let entry = line_entry(text.subrange(start, text.len() as int));
    if entry is Some && entry.unwrap().0 == key {
        Some(entry.unwrap().1)
    } else if 0 < start <= text.len() {
        env_value(text.subrange(0, start - 1), key)
    } else {
        None
    }
}

pub open spec fn env_paths(text: Seq<char>) -> Option<(Seq<char>, Seq<char>)> {
    match (env_value(text, NSFW_KEY@), env_value(text, TAGGER_KEY@)) {
        (Some(n), Some(t)) => Some((n, t)),
        _ => None,
    }
}

/// The entry of characters `start..end` of `text`, a line of it.
fn parse_line(text: &str, start: usize, end: usize) -> (r: Option<(String, String)>)
    requires
        start <= end <= text@.len(),
    ensures
        match (r, line_entry(text@.subrange(start as int, end as int))) {
            (Some((k, v)), Some((ks, vs))) => k@ == ks && v@ == vs,
            (None, None) => true,
            _ => false,
        },
{
    let ghost line = text@.subrange(start as int, end as int);
    let mut k: usize = start;
    while k < end && text.get_char(k) != '='
        invariant
            start <= k <= end,
            end <= text@.len(),
            line == text@.subrange(start as int, end as int),
            forall|j: int| 0 <= j < k - start ==> line[j] != '=',
        decreases end - k,
    {
        k = k + 1;
    }
    if k == end {
        assert(!exists|x: int| first_eq(line, x));
        return None;
    }
    let ghost kk = (k - start) as int;
    assert(first_eq(line, kk));
    proof {
        let c = choose|x: int| first_eq(line, x);
        assert(c == kk) by {
            if c < kk {
                assert(line[c] != '=');
            } else if c > kk {
                assert(line[kk] != '=');
            }
        }
        assert(line.subrange(0, kk) =~= text@.subrange(start as int, k as int));
        assert(line.subrange(kk + 1, line.len() as int) =~= text@.subrange(k + 1, end as int));
    }
    let key = trimmed_range(text, start, k);
    let value = trimmed_range(text, k + 1, end);
    Some((key, value))
}

/// The model paths that settings text names, when it names both: each key's
/// last `KEY=value` line wins, keys and values trimmed, other lines ignored.
pub fn parse_env(text: &str) -> (r: Option<ModelPaths>)
    ensures
        match (r, env_paths(text@)) {
            (Some(p), Some((n, t))) => p.nsfw@ == n && p.tagger@ == t,
            (None, None) => true,
            _ => false,
        },
{
    let n = text.unicode_len();
    let mut nsfw: Option<String> = None;
    let mut tagger: Option<String> = None;
    let mut start: usize = 0;
    let mut done = false;
    while !done
        invariant
            n == text@.len(),
            start <= n,
            done ==> opt_string_view(nsfw) == env_value(text@, NSFW_KEY@),
            done ==> opt_string_view(tagger) == env_value(text@, TAGGER_KEY@),
            !done && start > 0 ==> text@[start - 1] == '\n',
            !done && start == 0 ==> opt_string_view(nsfw) is None && opt_string_view(tagger) is None,
            !done && start > 0 ==> opt_string_view(nsfw) == env_value(text@.subrange(0, start - 1), NSFW_KEY@),
            !done && start > 0 ==> opt_string_view(tagger) == env_value(text@.subrange(0, start - 1), TAGGER_KEY@),
        decreases n - start + if done { 0int } else { 1int },
    {
        let mut end: usize = start;
        while end < n && text.get_char(end) != '\n'
            invariant
                start <= end <= n,
                n == text@.len(),
                forall|i: int| start <= i < end ==> text@[i] != '\n',
            decreases n - end,
        {
            end = end + 1;
        }
        let ghost upto = text@.subrange(0, end as int);
        let ghost line = text@.subrange(start as int, end as int);
        proof {
            if start > 0 {
                assert(last_break(upto, start - 1));
                let c = choose|j: int| last_break(upto, j);
                assert(c == start - 1) by {
                    if c < start - 1 {
                        assert(upto[start - 1] == '\n');
                    } else if c > start - 1 {
                        assert(upto[c] == '\n');
                    }
                }
                assert(upto.subrange(0, start - 1) =~= text@.subrange(0, start - 1));
            } else {
                assert(!exists|j: int| last_break(upto, j)) by {
                    assert forall|j: int| !last_break(upto, j) by {
                        if 0 <= j < upto.len() {
                            assert(upto[j] == text@[j]);
                        }
                    }
                }
            }
            assert(last_line_start(upto) == start);
            assert(upto.subrange(start as int, end as int) =~= line);
        }
        let entry = parse_line(text, start, end);
        match entry {
            Some((key, value)) => {
                if same_text(key.as_str(), NSFW_KEY) {
                    nsfw = Some(value);
                } else if same_text(key.as_str(), TAGGER_KEY) {
                    tagger = Some(value);
                }
            },
            None => {},
        }
        proof {
            reveal_strlit("NSFW_MODEL_PATH");
            reveal_strlit("TAGGER_MODEL_PATH");
            assert(NSFW_KEY@.len() != TAGGER_KEY@.len());
            assert(opt_string_view(nsfw) == env_value(upto, NSFW_KEY@));
            assert(opt_string_view(tagger) == env_value(upto, TAGGER_KEY@));
        }
        if end == n {
            assert(upto =~= text@);
            done = true;
        } else {
            start = end + 1;
        }
    }
    match (nsfw, tagger) {
        (Some(a), Some(b)) => Some(ModelPaths { nsfw: a, tagger: b }),
        _ => None,
    }
}

/// The settings text that records both model paths, one `KEY=value` line each.
pub fn render_env(nsfw: &str, tagger: &str) -> (r: String)
    ensures
        r@ == NSFW_KEY@ + seq!['='] + nsfw@ + seq!['\n'] + TAGGER_KEY@ + seq!['='] + tagger@ + seq!['\n'],
{
    proof {
        reveal_strlit("=");
        reveal_strlit("\n");
    }
    let mut out = String::from_str(NSFW_KEY);
    out.append("=");
    out.append(nsfw);
    out.append("\n");
    out.append(TAGGER_KEY);
    out.append("=");
    out.append(tagger);
    out.append("\n");
    out
}

proof fn lemma_last_line_starts_after(text: Seq<char>, j: int)
    requires
        0 <= j < text.len(),
        text[j] == '\n',
        forall|i: int| j < i < text.len() ==> text[i] != '\n',
    ensures
        last_line_start(text) == j + 1,
{
    assert(last_break(text, j));
    let c = choose|x: int| last_break(text, x);
    assert(c == j) by {
        if c < j {
            assert(text[j] == '\n');
        } else if c > j {
            assert(text[c] == '\n');
        }
    }
}

proof fn lemma_single_line(text: Seq<char>)
    requires
        forall|i: int| 0 <= i < text.len() ==> text[i] != '\n',
    ensures
        last_line_start(text) == 0,
{
    assert(!exists|j: int| last_break(text, j));
}

proof fn lemma_entry_splits_at(line: Seq<char>, k: int)
    requires
        0 <= k < line.len(),
        line[k] == '=',
        forall|j: int| 0 <= j < k ==> line[j] != '=',
    ensures
        line_entry(line) == Some((trim(line.subrange(0, k)), trim(line.subrange(k + 1, line.len() as int)))),
{
    assert(first_eq(line, k));
    let c = choose|x: int| first_eq(line, x);
    assert(c == k) by {
        if c < k {
            assert(line[c] != '=');
        } else if c > k {
            assert(line[k] != '=');
        }
    }
}

proof fn lemma_keys()
    ensures
        forall|i: int| 0 <= i < NSFW_KEY@.len() ==> NSFW_KEY@[i] != '\n' && NSFW_KEY@[i] != '=',
        forall|i: int| 0 <= i < TAGGER_KEY@.len() ==> TAGGER_KEY@[i] != '\n' && TAGGER_KEY@[i] != '=',
        trim(NSFW_KEY@) == NSFW_KEY@,
        trim(TAGGER_KEY@) == TAGGER_KEY@,
        NSFW_KEY@ != TAGGER_KEY@,
{
    reveal_strlit("NSFW_MODEL_PATH");
    reveal_strlit("TAGGER_MODEL_PATH");
    let nk = NSFW_KEY@;
    let tk = TAGGER_KEY@;
    assert(nk =~= seq!['N', 'S', 'F', 'W', '_', 'M', 'O', 'D', 'E', 'L', '_', 'P', 'A', 'T', 'H']);
    assert(tk =~= seq!['T', 'A', 'G', 'G', 'E', 'R', '_', 'M', 'O', 'D', 'E', 'L', '_', 'P', 'A', 'T', 'H']);
    assert(trim_start(nk) == nk);
    assert(trim_end(nk) == nk);
    assert(trim_start(tk) == tk);
    assert(trim_end(tk) == tk);
    assert(nk.len() != tk.len());
}

/// A line `key=value` with a plain key holds that key and the trimmed value.
proof fn lemma_key_value_line(key: Seq<char>, value: Seq<char>)
    requires
        forall|i: int| 0 <= i < key.len() ==> key[i] != '\n' && key[i] != '=',
        forall|i: int| 0 <= i < value.len() ==> value[i] != '\n',
        trim(key) == key,
    ensures
        forall|i: int| 0 <= i < (key + seq!['='] + value).len() ==> (key + seq!['='] + value)[i] != '\n',
        line_entry(key + seq!['='] + value) == Some((key, trim(value))),
{
    let l = key + seq!['='] + value;
    assert forall|i: int| 0 <= i < l.len() implies l[i] != '\n' by {
        if i < key.len() {
            assert(l[i] == key[i]);
        } else if i > key.len() {
            assert(l[i] == value[i - key.len() - 1]);
        }
    }
    assert forall|j: int| 0 <= j < key.len() implies l[j] != '=' by {
        assert(l[j] == key[j]);
    }
    lemma_entry_splits_at(l, key.len() as int);
    assert(l.subrange(0, key.len() as int) =~= key);
    assert(l.subrange(key.len() as int + 1, l.len() as int) =~= value);
}

/// What `render_env` writes, `parse_env` reads back: the two paths, trimmed,
/// provided neither holds a line break.
pub proof fn lemma_render_then_parse(nsfw: Seq<char>, tagger: Seq<char>)
    requires
        forall|i: int| 0 <= i < nsfw.len() ==> nsfw[i] != '\n',
        forall|i: int| 0 <= i < tagger.len() ==> tagger[i] != '\n',
    ensures
        env_paths(NSFW_KEY@ + seq!['='] + nsfw + seq!['\n'] + TAGGER_KEY@ + seq!['='] + tagger + seq!['\n'])
            == Some((trim(nsfw), trim(tagger))),
{
    let nk = NSFW_KEY@;
    let tk = TAGGER_KEY@;
    lemma_keys();
    let text = nk + seq!['='] + nsfw + seq!['\n'] + tk + seq!['='] + tagger + seq!['\n'];
    let l1 = nk + seq!['='] + nsfw;
    let l2 = tk + seq!['='] + tagger;
    lemma_key_value_line(nk, nsfw);
    lemma_key_value_line(tk, tagger);
    let s2 = l1 + seq!['\n'] + l2;
    assert(text.subrange(0, text.len() - 1) =~= s2);

    // The text ends with a line break: its last line is empty.
    assert(text =~= s2 + seq!['\n']);
    lemma_last_line_starts_after(text, text.len() - 1);
    let empty = text.subrange(text.len() as int, text.len() as int);
    assert(!exists|k: int| first_eq(empty, k));
    assert(env_value(text, nk) == env_value(s2, nk));
    assert(env_value(text, tk) == env_value(s2, tk));

    // Before it, the tagger line.
    assert forall|i: int| l1.len() < i < s2.len() implies s2[i] != '\n' by {
        assert(s2[i] == l2[i - l1.len() - 1]);
    }
    lemma_last_line_starts_after(s2, l1.len() as int);
    assert(s2.subrange(l1.len() as int + 1, s2.len() as int) =~= l2);
    assert(s2.subrange(0, l1.len() as int) =~= l1);
    assert(env_value(s2, tk) == Some(trim(tagger)));
    assert(env_value(s2, nk) == env_value(l1, nk));

    // Before that, the first line.
    lemma_single_line(l1);
    assert(l1.subrange(0, l1.len() as int) =~= l1);
    assert(env_value(l1, nk) == Some(trim(nsfw)));
}

/// Settles the model paths: those the settings text names when it names
/// both, else those the search found.
pub fn get_model_paths(env_text: Option<&str>, nsfw_found: Option<String>, tagger_found: Option<String>) -> (r: Result<ModelPaths, ConfigError>)
    ensures
        ({
            let from_env = match env_text {
                Some(t) => env_paths(t@),
                None => None,
            };
            match from_env {
                Some((n, t)) => r matches Ok(p) && p.nsfw@ == n && p.tagger@ == t,
                None => match (nsfw_found, tagger_found) {
                    (Some(n), Some(t)) => r matches Ok(p) && p.nsfw@ == n@ && p.tagger@ == t@,
                    (None, _) => r == Err::<ModelPaths, ConfigError>(ConfigError::NsfwModelNotFound),
                    (Some(_), None) => r == Err::<ModelPaths, ConfigError>(ConfigError::TaggerModelNotFound),
                },
            }
        }),
{
    match env_text {
        Some(t) => match parse_env(t) {
            Some(p) => return Ok(p),
            None => {},
        },
        None => {},
    }
    match nsfw_found {
        None => Err(ConfigError::NsfwModelNotFound),
        Some(n) => match tagger_found {
            None => Err(ConfigError::TaggerModelNotFound),
            Some(t) => Ok(ModelPaths { nsfw: n, tagger: t }),
        },
    }
}

} // verus!
