//! Text normalisation of memories: trimming, whitespace collapsing, the
//! content hash that deduplicates `(topic, summary)` pairs, and the checks a
//! memory passes before it is written.
use vstd::prelude::*;
use vstd::string::StringSliceAdditionalSpecFns;
use vstd::utf8::encode_utf8;
use sha2::Digest;
use crate::text::{byte_len, char_is_whitespace, chars_of, is_whitespace, lowercase, owned, push_char, string_of, to_lowercase, utf8_len};

verus! {

/// `s` without its leading whitespace.
pub open spec fn trim_start(s: Seq<char>) -> Seq<char>
    decreases s.len(),
{
    if s.len() > 0 && char_is_whitespace(s[0]) {
        trim_start(s.drop_first())
    } else {
        s
    }
}

/// `s` without its trailing whitespace.
pub open spec fn trim_end(s: Seq<char>) -> Seq<char>
    decreases s.len(),
{
    if s.len() > 0 && char_is_whitespace(s.last()) {
        trim_end(s.drop_last())
    } else {
        s
    }
}

/// `s` without leading or trailing whitespace (`str::trim`).
pub open spec fn trimmed(s: Seq<char>) -> Seq<char> {
    trim_end(trim_start(s))
}

/// `str::trim`: drop leading and trailing whitespace.
pub fn trim(s: &str) -> (r: String)
    ensures
        r@ == trimmed(s@),
{
    let cs = chars_of(s);
    let n = cs.len();
    let mut lo: usize = 0;
    proof {
        assert(cs@.skip(0) =~= cs@);
    }
    while lo < n && is_whitespace(cs[lo])
        invariant
            lo <= n == cs@.len(),
            trim_start(cs@) == trim_start(cs@.skip(lo as int)),
        decreases n - lo,
    {
        proof {
            assert(cs@.skip(lo as int)[0] == cs@[lo as int]);
            assert(cs@.skip(lo as int).drop_first() =~= cs@.skip(lo + 1));
        }
        lo += 1;
    }
    proof {
        if lo < n {
            assert(cs@.skip(lo as int)[0] == cs@[lo as int]);
        }
        assert(trim_start(cs@) == cs@.skip(lo as int));
    }
    let mut hi: usize = n;
    while hi > lo && is_whitespace(cs[hi - 1])
        invariant
            lo <= hi <= n == cs@.len(),
            trim_end(cs@.skip(lo as int)) == trim_end(cs@.subrange(lo as int, hi as int)),
        decreases hi - lo,
    {
        proof {
            let u = cs@.subrange(lo as int, hi as int);
            assert(u.last() == cs@[hi - 1]);
            assert(u.drop_last() =~= cs@.subrange(lo as int, hi - 1));
        }
        hi -= 1;
    }
    proof {
        assert(cs@.skip(lo as int) =~= cs@.subrange(lo as int, n as int)) by {
        }
        let u = cs@.subrange(lo as int, hi as int);
        if hi > lo {
            assert(u.last() == cs@[hi - 1]);
        }
        assert(trim_end(u) == u);
    }
    let mut out: Vec<char> = Vec::new();
    let mut i: usize = lo;
    while i < hi
        invariant
            lo <= i <= hi <= cs@.len(),
            out@ == cs@.subrange(lo as int, i as int),
        decreases hi - i,
    {
        out.push(cs[i]);
        proof {
            assert(cs@.subrange(lo as int, i + 1) =~= cs@.subrange(lo as int, i as int).push(cs@[i as int]));
        }
        i += 1;
    }
    string_of(&out)
}

/// Maximal runs of non-whitespace characters of `s`, left to right
/// (`str::split_whitespace`).
pub open spec fn words(s: Seq<char>) -> Seq<Seq<char>>
    decreases s.len(),
{
    if s.len() == 0 {
        seq![]
    } else {
        let prev = words(s.drop_last());
        let c = s.last();
        if char_is_whitespace(c) {
            prev
        } else if s.len() >= 2 && !char_is_whitespace(s[s.len() - 2]) {
            prev.drop_last().push(prev.last().push(c))
        } else {
            prev.push(seq![c])
        }
    }
}

/// Words joined by single spaces.
pub open spec fn space_join(ts: Seq<Seq<char>>) -> Seq<char>
    decreases ts.len(),
{
    if ts.len() == 0 {
        seq![]
    } else if ts.len() == 1 {
        ts[0]
    } else {
        space_join(ts.drop_last()) + seq![' '] + ts.last()
    }
}

/// The views of a vector of character vectors.
pub open spec fn char_views(v: Seq<Vec<char>>) -> Seq<Seq<char>> {
    Seq::new(v.len(), |j: int| v[j]@)
}

/// `s` with every run of whitespace collapsed to one space and no leading
/// or trailing whitespace.
pub fn collapse_whitespace(s: &str) -> (r: String)
    ensures
        r@ == space_join(words(s@)),
{
    let cs = chars_of(s);
    let mut done: Vec<Vec<char>> = Vec::new();
    let mut cur: Vec<char> = Vec::new();
    let mut i: usize = 0;
    while i < cs.len()
        invariant
            i <= cs.len(),
            (if cur@.len() > 0 { char_views(done@).push(cur@) } else { char_views(done@) }) == words(cs@.take(i as int)),
            cur@.len() > 0 <==> (i > 0 && !char_is_whitespace(cs@[i - 1])),
        decreases cs.len() - i,
    {
        let c = cs[i];
        proof {
            assert(cs@.take(i + 1).drop_last() =~= cs@.take(i as int));
            assert(cs@.take(i + 1).last() == c);
            if i > 0 {
                assert(cs@.take(i + 1)[i - 1] == cs@[i - 1]);
            }
        }
        if !is_whitespace(c) {
            let ghost before = cur@;
            cur.push(c);
            proof {
                if before.len() > 0 {
                    assert(char_views(done@).push(before).drop_last() =~= char_views(done@));
                    assert(char_views(done@).push(cur@) =~= char_views(done@).push(before).drop_last().push(before.push(c)));
                } else {
                    assert(cur@ =~= seq![c]);
                }
            }
        } else if cur.len() > 0 {
            let ghost before = char_views(done@);
            let full = cur;
            cur = Vec::new();
            done.push(full);
            proof {
                assert(char_views(done@) =~= before.push(full@));
            }
        }
        i += 1;
    }
    if cur.len() > 0 {
        let ghost before = char_views(done@);
        done.push(cur);
        proof {
            assert(char_views(done@) =~= before.push(cur@));
        }
    }
    proof {
        assert(cs@.take(cs.len() as int) =~= cs@);
    }
    let ghost toks = char_views(done@);
    let mut out = String::new();
    let mut j: usize = 0;
    while j < done.len()
        invariant
            j <= done.len(),
            toks == char_views(done@),
            out@ == space_join(toks.take(j as int)),
        decreases done.len() - j,
    {
        proof {
            assert(toks.take(j + 1).drop_last() =~= toks.take(j as int));
            assert(toks.take(j + 1).last() == done@[j as int]@);
        }
        if j > 0 {
            push_char(&mut out, ' ');
        }
        let mut t: usize = 0;
        let ghost base = out@;
        while t < done[j].len()
            invariant
                j < done.len(),
                t <= done@[j as int]@.len(),
                out@ == base + done@[j as int]@.take(t as int),
            decreases done@[j as int]@.len() - t,
        {
            push_char(&mut out, done[j][t]);
            proof {
                assert(done@[j as int]@.take(t + 1) =~= done@[j as int]@.take(t as int).push(done@[j as int]@[t as int]));
            }
            t += 1;
        }
        proof {
            assert(done@[j as int]@.take(t as int) =~= done@[j as int]@);
            if j == 0 {
                assert(toks.take(1) =~= seq![done@[0]@]);
                assert(out@ =~= space_join(toks.take(1)));
            } else {
                assert(out@ =~= space_join(toks.take(j + 1)));
            }
        }
        j += 1;
    }
    proof {
        assert(toks.take(done.len() as int) =~= toks);
    }
    out
}

/// SHA-256 of a byte string, as 64 lower-case hexadecimal characters.
pub uninterp spec fn sha256_hex(data: Seq<u8>) -> Seq<char>;

/// `sha2::Sha256::digest(data)` formatted with `{:x}`: the digest is 32
/// bytes, printed as 64 lower-case hex digits. The digest itself is named,
/// not described.
#[verifier::external_body]
fn sha256_hex_of(data: &[u8]) -> (r: String)
    ensures
        r@ == sha256_hex(data@),
        r@.len() == 64,
{
    format!("{:x}", <sha2::Sha256 as Digest>::digest(data))
}

/// The normalised topic a content hash covers: trimmed, lower-cased.
pub open spec fn hash_topic(topic: Seq<char>) -> Seq<char> {
    lowercase(trimmed(topic))
}

/// The normalised summary a content hash covers: whitespace collapsed,
/// lower-cased.
pub open spec fn hash_summary(summary: Seq<char>) -> Seq<char> {
    lowercase(space_join(words(summary)))
}

/// The content hash of a `(topic, summary)` pair.
pub open spec fn content_hash(topic: Seq<char>, summary: Seq<char>) -> Seq<char> {
    sha256_hex(encode_utf8(hash_topic(topic)) + seq![0u8] + encode_utf8(hash_summary(summary)))
}

/// SHA-256 over the normalised `(topic, summary)` pair, hex-encoded:
/// the topic trimmed and lower-cased, the summary with whitespace collapsed
/// and lower-cased, joined by a NUL byte. Two memories with the same hash
/// are duplicates.
pub fn summary_hash(topic: &str, summary: &str) -> (r: String)
    ensures
        r@ == content_hash(topic@, summary@),
        r@.len() == 64,
{
    let t = trim(topic);
    let tn = to_lowercase(t.as_str());
    let c = collapse_whitespace(summary);
    let sn = to_lowercase(c.as_str());
    let mut data: Vec<u8> = Vec::new();
    let tb = tn.as_str().as_bytes();
    let mut i: usize = 0;
    while i < tb.len()
        invariant
            i <= tb@.len(),
            data@ == tb@.take(i as int),
        decreases tb.len() - i,
    {
        data.push(tb[i]);
        proof {
            assert(tb@.take(i + 1) =~= tb@.take(i as int).push(tb@[i as int]));
        }
        i += 1;
    }
    data.push(0u8);
    let sb = sn.as_str().as_bytes();
    let ghost base = data@;
    let mut j: usize = 0;
    while j < sb.len()
        invariant
            j <= sb@.len(),
            data@ == base + sb@.take(j as int),
        decreases sb.len() - j,
    {
        data.push(sb[j]);
        proof {
            assert(sb@.take(j + 1) =~= sb@.take(j as int).push(sb@[j as int]));
        }
        j += 1;
    }
    proof {
        assert(tb@.take(tb@.len() as int) =~= tb@);
        assert(sb@.take(sb@.len() as int) =~= sb@);
        assert(data@ =~= encode_utf8(hash_topic(topic@)) + seq![0u8] + encode_utf8(hash_summary(summary@)));
    }
    sha256_hex_of(data.as_slice())
}

/// Whether `c` occurs in `s`.
pub fn has_char(s: &str, c: char) -> (b: bool)
    ensures
        b == s@.contains(c),
{
    let cs = chars_of(s);
    let mut i: usize = 0;
    while i < cs.len()
        invariant
            i <= cs.len(),
            cs@ == s@,
            forall|j: int| 0 <= j < i ==> cs@[j] != c,
        decreases cs.len() - i,
    {
        if cs[i] == c {
            return true;
        }
        i += 1;
    }
    false
}

/// Largest summary a memory may carry, in bytes of UTF-8.
pub const MAX_SUMMARY_BYTES: usize = 65_536;

/// Why a memory's topic and summary cannot be stored, if they cannot.
pub open spec fn memory_input_error(topic: Seq<char>, summary: Seq<char>) -> Option<Seq<char>> {
    if trimmed(topic).len() == 0 {
        Some("topic cannot be empty"@)
    } else if trimmed(summary).len() == 0 {
        Some("summary cannot be empty"@)
    } else if topic.contains('\0') {
        Some("topic contains a NUL byte"@)
    } else if summary.contains('\0') {
        Some("summary contains a NUL byte"@)
    } else if topic.contains('\n') || topic.contains('\r') {
        Some("topic cannot contain a newline"@)
    } else if utf8_len(summary) > MAX_SUMMARY_BYTES {
        Some("summary exceeds 65536 bytes"@)
    } else {
        None
    }
}

/// The checks a memory's topic and summary must pass before any write:
/// neither may be blank, neither may hold a NUL (the database would cut the
/// text there), the topic may not hold a line break, and the summary may
/// not exceed 64 KiB of UTF-8. Answers the reason for the first check that
/// fails.
pub fn check_memory_input(topic: &str, summary: &str) -> (r: Option<String>)
    ensures
        r matches Some(m) ==> memory_input_error(topic@, summary@) == Some(m@),
        r is None ==> memory_input_error(topic@, summary@) is None,
{
    if trim(topic).as_str().is_empty() {
        return Some(owned("topic cannot be empty"));
    }
    if trim(summary).as_str().is_empty() {
        return Some(owned("summary cannot be empty"));
    }
    if has_char(topic, '\0') {
        return Some(owned("topic contains a NUL byte"));
    }
    if has_char(summary, '\0') {
        return Some(owned("summary contains a NUL byte"));
    }
    if has_char(topic, '\n') || has_char(topic, '\r') {
        return Some(owned("topic cannot contain a newline"));
    }
    if byte_len(summary) > MAX_SUMMARY_BYTES {
        return Some(owned("summary exceeds 65536 bytes"));
    }
    None
}

} // verus!
