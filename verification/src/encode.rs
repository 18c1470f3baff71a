//! Escaping and quoting of caller-supplied text before it reaches a URL, a
//! SQLite URI, a `LIKE` pattern or an FTS5 `MATCH` expression.
use vstd::prelude::*;
use vstd::string::StringSliceAdditionalSpecFns;
use crate::text::{char_is_alphanumeric, is_alphanumeric, char_width, chars_of, lemma_utf8_len_take_next, push_char, utf8_len, width_of};

verus! {

/// Upper-case hexadecimal digit for a value below 16.
pub open spec fn hex_digit(n: u8) -> char
    recommends
        n < 16,
{
    if n < 10 {
        (48 + n) as char
    } else {
        (55 + n) as char
    }
}

fn hex_digit_exec(n: u8) -> (c: char)
    requires
        n < 16,
    ensures
        c == hex_digit(n),
{
    if n < 10 {
        (48 + n) as char
    } else {
        (55 + n) as char
    }
}

/// RFC 3986 unreserved bytes: `A-Z a-z 0-9 - _ . ~`.
pub open spec fn is_unreserved(b: u8) -> bool {
    (65 <= b <= 90) || (97 <= b <= 122) || (48 <= b <= 57) || b == 45 || b == 95 || b == 46
        || b == 126
}

/// How one byte appears in a percent-encoded path segment.
pub open spec fn percent_encode_byte(b: u8) -> Seq<char> {
    if is_unreserved(b) {
        seq![b as char]
    } else {
        seq!['%', hex_digit(b / 16), hex_digit(b % 16)]
    }
}

/// Percent-encoding of a byte string, byte by byte.
pub open spec fn percent_encoded(bytes: Seq<u8>) -> Seq<char>
    decreases bytes.len(),
{
    if bytes.len() == 0 {
        seq![]
    } else {
        percent_encoded(bytes.drop_last()) + percent_encode_byte(bytes.last())
    }
}

/// Percent-encode a value for safe use as a single path segment in a REST
/// URL: every byte of its UTF-8 encoding outside the unreserved set becomes
/// `%XX` (upper-case hex), so `/`, `..`, `?` or `#` in a caller-controlled id
/// cannot redirect the request.
pub fn url_encode_path_segment(s: &str) -> (out: String)
    ensures
        out@ == percent_encoded(s.spec_bytes()),
{
    let bytes = s.as_bytes();
    let mut out = String::new();
    let mut i: usize = 0;
    while i < bytes.len()
        invariant
            i <= bytes@.len(),
            bytes@ == s.spec_bytes(),
            out@ == percent_encoded(bytes@.take(i as int)),
        decreases bytes.len() - i,
    {
        let b = bytes[i];
        proof {
            assert(bytes@.take(i + 1).drop_last() =~= bytes@.take(i as int));
        }
        if (65 <= b && b <= 90) || (97 <= b && b <= 122) || (48 <= b && b <= 57) || b == 45
            || b == 95 || b == 46 || b == 126 {
            push_char(&mut out, b as char);
        } else {
            push_char(&mut out, '%');
            push_char(&mut out, hex_digit_exec(b / 16));
            push_char(&mut out, hex_digit_exec(b % 16));
        }
        proof {
            assert(out@ =~= percent_encoded(bytes@.take(i + 1)));
        }
        i += 1;
    }
    proof {
        assert(bytes@.take(bytes@.len() as int) =~= bytes@);
    }
    out
}

/// The value of an upper-case hexadecimal digit.
pub open spec fn hex_value(c: char) -> int {
    if (c as u32) <= 57 { (c as u32) - 48 } else { (c as u32) - 55 }
}

/// Percent-decoding, left to right: `%` and two hex digits stand for one
/// byte, any other character for the byte of its code.
pub open spec fn percent_decoded(cs: Seq<char>) -> Seq<u8>
    decreases cs.len(),
{
    if cs.len() == 0 {
        seq![]
    } else if cs[0] == '%' && cs.len() >= 3 {
        seq![(hex_value(cs[1]) * 16 + hex_value(cs[2])) as u8] + percent_decoded(cs.skip(3))
    } else {
        seq![(cs[0] as u32) as u8] + percent_decoded(cs.skip(1))
    }
}

proof fn lemma_encoded_concat(a: Seq<u8>, b: Seq<u8>)
    ensures
        percent_encoded(a + b) == percent_encoded(a) + percent_encoded(b),
    decreases b.len(),
{
    if b.len() == 0 {
        assert(a + b =~= a);
        assert(percent_encoded(a) + percent_encoded(b) =~= percent_encoded(a));
    } else {
        lemma_encoded_concat(a, b.drop_last());
        assert((a + b).drop_last() =~= a + b.drop_last());
        assert((a + b).last() == b.last());
        assert(percent_encoded(a + b) =~= percent_encoded(a) + percent_encoded(b));
    }
}

proof fn lemma_decode_piece(x: u8, rest: Seq<char>)
    ensures
        percent_decoded(percent_encode_byte(x) + rest) == seq![x] + percent_decoded(rest),
{
    let cs = percent_encode_byte(x) + rest;
    if is_unreserved(x) {
        assert(cs[0] == x as char);
        assert(cs.skip(1) =~= rest);
        assert(((x as char) as u32) as u8 == x);
    } else {
        let hi = x / 16;
        let lo = x % 16;
        assert(cs[0] == '%' && cs[1] == hex_digit(hi) && cs[2] == hex_digit(lo));
        assert(cs.skip(3) =~= rest);
        assert(hex_value(hex_digit(hi)) == hi as int);
        assert(hex_value(hex_digit(lo)) == lo as int);
        assert(hi * 16 + lo == x);
    }
}

/// Percent-decoding gives back the bytes that were encoded, so distinct
/// byte strings encode to distinct segments; and an encoded segment holds
/// only `%` and unreserved characters (no `/`, `?`, `#` or space).
pub proof fn law_percent_encoding_round_trip(bytes: Seq<u8>)
    ensures
        percent_decoded(percent_encoded(bytes)) == bytes,
        forall|i: int| 0 <= i < percent_encoded(bytes).len() ==> {
            let c = #[trigger] percent_encoded(bytes)[i];
            c == '%' || ((c as u32) < 256 && is_unreserved((c as u32) as u8))
        },
    decreases bytes.len(),
{
    if bytes.len() > 0 {
        let rest = bytes.skip(1);
        law_percent_encoding_round_trip(rest);
        assert(bytes =~= seq![bytes[0]] + rest);
        lemma_encoded_concat(seq![bytes[0]], rest);
        let one = seq![bytes[0]];
        assert(one.drop_last() =~= Seq::<u8>::empty());
        assert(percent_encoded(Seq::<u8>::empty()) == Seq::<char>::empty());
        assert(percent_encoded(one) == percent_encoded(one.drop_last()) + percent_encode_byte(one.last()));
        assert(percent_encoded(one) =~= percent_encode_byte(bytes[0]));
        lemma_decode_piece(bytes[0], percent_encoded(rest));
        let e = percent_encoded(bytes);
        let p = percent_encode_byte(bytes[0]);
        assert(e == p + percent_encoded(rest));
        assert forall|i: int| 0 <= i < e.len() implies {
            let c = #[trigger] e[i];
            c == '%' || ((c as u32) < 256 && is_unreserved((c as u32) as u8))
        } by {
            if i >= p.len() {
                assert(e[i] == percent_encoded(rest)[i - p.len()]);
            } else if !is_unreserved(bytes[0]) && i > 0 {
                let n: u8 = if i == 1 { bytes[0] / 16 } else { bytes[0] % 16 };
                assert(e[i] == hex_digit(n));
            }
        }
    } else {
        assert(percent_decoded(percent_encoded(bytes)) =~= bytes);
    }
}

/// The text of a percent-encoded segment, decoded: what
/// `url_encode_path_segment` encoded, byte for byte.
pub proof fn law_url_segment_decodes(s: &str, out: Seq<char>)
    requires
        out == percent_encoded(s.spec_bytes()),
    ensures
        percent_decoded(out) == s.spec_bytes(),
{
    law_percent_encoding_round_trip(s.spec_bytes());
}

/// How one character appears once `LIKE` wildcards are escaped.
pub open spec fn like_escape_char(c: char) -> Seq<char> {
    if c == '\\' || c == '%' || c == '_' {
        seq!['\\', c]
    } else {
        seq![c]
    }
}

/// `s` with `\`, `%` and `_` each preceded by a backslash.
pub open spec fn like_escaped(s: Seq<char>) -> Seq<char>
    decreases s.len(),
{
    if s.len() == 0 {
        seq![]
    } else {
        like_escaped(s.drop_last()) + like_escape_char(s.last())
    }
}

/// Escape the `LIKE` wildcards `%` and `_` (and the escape character `\`
/// itself) so that `s` matches only literally inside a pattern declared with
/// `ESCAPE '\'`.
pub fn escape_like_wildcards(s: &str) -> (out: String)
    ensures
        out@ == like_escaped(s@),
{
    let mut out = String::new();
    for c in it: s.chars()
        invariant
            out@ == like_escaped(it.seq().take(it.index() as int)),
    {
        proof {
            let k = it.index() as int;
            assert(it.seq().take(k + 1).drop_last() =~= it.seq().take(k));
        }
        if c == '\\' || c == '%' || c == '_' {
            push_char(&mut out, '\\');
        }
        push_char(&mut out, c);
        proof {
            let k = it.index() as int;
            assert(out@ =~= like_escaped(it.seq().take(k + 1)));
        }
    }
    proof {
        assert(s@.take(s@.len() as int) =~= s@);
    }
    out
}

/// How one character of a filesystem path appears in a SQLite `file:` URI.
pub open spec fn uri_path_char(c: char) -> Seq<char> {
    if c == '?' {
        seq!['%', '3', 'F']
    } else if c == '#' {
        seq!['%', '2', '3']
    } else if c == '%' {
        seq!['%', '2', '5']
    } else if c == '\\' {
        seq!['/']
    } else {
        seq![c]
    }
}

/// A filesystem path encoded for a SQLite `file:` URI.
pub open spec fn uri_path_encoded(s: Seq<char>) -> Seq<char>
    decreases s.len(),
{
    if s.len() == 0 {
        seq![]
    } else {
        uri_path_encoded(s.drop_last()) + uri_path_char(s.last())
    }
}

/// URI-encode a filesystem path (already converted to text) for a SQLite
/// `file:` URI: `?`, `#` and `%` are percent-encoded so they cannot break the
/// URI parser, and Windows backslashes become `/`.
pub fn encode_sqlite_uri_path(path: &str) -> (out: String)
    ensures
        out@ == uri_path_encoded(path@),
{
    let mut out = String::new();
    for c in it: path.chars()
        invariant
            out@ == uri_path_encoded(it.seq().take(it.index() as int)),
    {
        proof {
            let k = it.index() as int;
            assert(it.seq().take(k + 1).drop_last() =~= it.seq().take(k));
        }
        if c == '?' {
            push_char(&mut out, '%');
            push_char(&mut out, '3');
            push_char(&mut out, 'F');
        } else if c == '#' {
            push_char(&mut out, '%');
            push_char(&mut out, '2');
            push_char(&mut out, '3');
        } else if c == '%' {
            push_char(&mut out, '%');
            push_char(&mut out, '2');
            push_char(&mut out, '5');
        } else if c == '\\' {
            push_char(&mut out, '/');
        } else {
            push_char(&mut out, c);
        }
        proof {
            let k = it.index() as int;
            assert(out@ =~= uri_path_encoded(it.seq().take(k + 1)));
        }
    }
    proof {
        assert(path@.take(path@.len() as int) =~= path@);
    }
    out
}

/// The longest prefix of `s` whose UTF-8 encoding fits in `max_bytes`.
pub open spec fn is_char_boundary_truncation(s: Seq<char>, max_bytes: nat, k: int) -> bool {
    &&& 0 <= k <= s.len()
    &&& utf8_len(s.take(k)) <= max_bytes
    &&& (k < s.len() ==> utf8_len(s.take(k + 1)) > max_bytes)
}

/// The longest prefix of `s` of whole characters that fits in
/// `max_bytes` bytes of UTF-8.
pub open spec fn cut_to_bytes(s: Seq<char>, max_bytes: nat) -> Seq<char> {
    s.take(choose|k: int| is_char_boundary_truncation(s, max_bytes, k))
}

/// Only one prefix length is the longest that fits.
pub proof fn lemma_truncation_unique(s: Seq<char>, max_bytes: nat, k1: int, k2: int)
    requires
        is_char_boundary_truncation(s, max_bytes, k1),
        is_char_boundary_truncation(s, max_bytes, k2),
    ensures
        k1 == k2,
{
    if k1 < k2 {
        crate::text::lemma_utf8_len_take_mono(s, k1 + 1, k2);
    } else if k2 < k1 {
        crate::text::lemma_utf8_len_take_mono(s, k2 + 1, k1);
    }
}

/// A prefix that is the longest that fits is the cut.
pub proof fn lemma_cut_is(s: Seq<char>, max_bytes: nat, k: int)
    requires
        is_char_boundary_truncation(s, max_bytes, k),
    ensures
        cut_to_bytes(s, max_bytes) == s.take(k),
{
    let c = choose|c: int| is_char_boundary_truncation(s, max_bytes, c);
    lemma_truncation_unique(s, max_bytes, c, k);
}

/// Truncate `s` to at most `max_bytes` bytes of UTF-8 without splitting a
/// character: the result is the longest prefix of whole characters that fits.
pub fn truncate_at_char_boundary(s: &str, max_bytes: usize) -> (out: String)
    ensures
        exists|k: int| is_char_boundary_truncation(s@, max_bytes as nat, k) && out@ == s@.take(k),
        out@ == cut_to_bytes(s@, max_bytes as nat),
{
    let cs = chars_of(s);
    let mut out = String::new();
    let mut used: usize = 0;
    let mut i: usize = 0;
    while i < cs.len()
        invariant
            i <= cs.len(),
            cs@ == s@,
            used == utf8_len(cs@.take(i as int)),
            used <= max_bytes,
            out@ == cs@.take(i as int),
        decreases cs.len() - i,
    {
        proof {
            lemma_utf8_len_take_next(cs@, i as int);
        }
        let w = width_of(cs[i]);
        if w > max_bytes - used {
            proof {
                assert(is_char_boundary_truncation(s@, max_bytes as nat, i as int));
                lemma_cut_is(s@, max_bytes as nat, i as int);
            }
            return out;
        }
        used = used + w;
        push_char(&mut out, cs[i]);
        proof {
            assert(cs@.take(i + 1) =~= cs@.take(i as int).push(cs@[i as int]));
        }
        i += 1;
    }
    proof {
        assert(cs@.take(cs.len() as int) =~= cs@);
        assert(is_char_boundary_truncation(s@, max_bytes as nat, cs.len() as int));
        lemma_cut_is(s@, max_bytes as nat, cs.len() as int);
    }
    out
}

/// Maximal runs of alphanumeric characters of `s`, left to right.
pub open spec fn alnum_runs(s: Seq<char>) -> Seq<Seq<char>>
    decreases s.len(),
{
    if s.len() == 0 {
        seq![]
    } else {
        let prev = alnum_runs(s.drop_last());
        let c = s.last();
        if !char_is_alphanumeric(c) {
            prev
        } else if s.len() >= 2 && char_is_alphanumeric(s[s.len() - 2]) {
            prev.drop_last().push(prev.last().push(c))
        } else {
            prev.push(seq![c])
        }
    }
}

/// Each token wrapped in double quotes, joined by single spaces.
pub open spec fn quoted_join(ts: Seq<Seq<char>>) -> Seq<char>
    decreases ts.len(),
{
    if ts.len() == 0 {
        seq![]
    } else if ts.len() == 1 {
        seq!['"'] + ts[0] + seq!['"']
    } else {
        quoted_join(ts.drop_last()) + seq![' ', '"'] + ts.last() + seq!['"']
    }
}

/// Byte cap on the raw query before it is tokenised.
pub const FTS_MAX_QUERY_BYTES: usize = 10_000;

/// Cap on the number of tokens kept.
pub const FTS_MAX_TOKENS: usize = 100;

/// At most the first `FTS_MAX_TOKENS` tokens.
pub open spec fn capped_tokens(ts: Seq<Seq<char>>) -> Seq<Seq<char>> {
    if ts.len() <= FTS_MAX_TOKENS { ts } else { ts.take(FTS_MAX_TOKENS as int) }
}

/// The views of a vector of character vectors.
pub open spec fn views(v: Seq<Vec<char>>) -> Seq<Seq<char>> {
    Seq::new(v.len(), |j: int| v[j]@)
}

/// The maximal runs of alphanumeric characters of `cs`, left to right.
pub fn alnum_tokens(cs: &Vec<char>) -> (done: Vec<Vec<char>>)
    ensures
        views(done@) == alnum_runs(cs@),
{
    let mut done: Vec<Vec<char>> = Vec::new();
    let mut cur: Vec<char> = Vec::new();
    let mut i: usize = 0;
    while i < cs.len()
        invariant
            i <= cs.len(),
            (if cur@.len() > 0 { views(done@).push(cur@) } else { views(done@) }) == alnum_runs(cs@.take(i as int)),
            cur@.len() > 0 <==> (i > 0 && char_is_alphanumeric(cs@[i - 1])),
        decreases cs.len() - i,
    {
        let c = cs[i];
        proof {
            assert(cs@.take(i + 1).drop_last() =~= cs@.take(i as int));
            assert(cs@.take(i + 1).last() == c);
            if i > 0 {
                assert(cs@.take(i + 1)[i - 1] == cs@[i - 1]);
            }
        }
        if is_alphanumeric(c) {
            let ghost before = cur@;
            cur.push(c);
            proof {
                if before.len() > 0 {
                    assert(views(done@).push(before).drop_last() =~= views(done@));
                    assert(views(done@).push(cur@) =~= views(done@).push(before).drop_last().push(before.push(c)));
                } else {
                    assert(cur@ =~= seq![c]);
                }
            }
        } else if cur.len() > 0 {
            let ghost before = views(done@);
            let full = cur;
            cur = Vec::new();
            done.push(full);
            proof {
                assert(views(done@) =~= before.push(full@));
            }
        }
        i += 1;
    }
    if cur.len() > 0 {
        let ghost before = views(done@);
        done.push(cur);
        proof {
            assert(views(done@) =~= before.push(cur@));
        }
    }
    proof {
        assert(cs@.take(cs.len() as int) =~= cs@);
    }
    done
}

/// The search terms of free text, as `sanitize_fts_query` quotes them: the
/// alphanumeric runs of its first 10 000 bytes, at most 100 of them.
pub fn fts_terms(query: &str) -> (v: Vec<Vec<char>>)
    ensures
        exists|k: int|
            is_char_boundary_truncation(query@, FTS_MAX_QUERY_BYTES as nat, k) && views(v@)
                == capped_tokens(alnum_runs(query@.take(k))),
{
    let truncated = truncate_at_char_boundary(query, FTS_MAX_QUERY_BYTES);
    let cs = chars_of(truncated.as_str());
    let mut done = alnum_tokens(&cs);
    if done.len() > FTS_MAX_TOKENS {
        let ghost all = views(done@);
        done.truncate(FTS_MAX_TOKENS);
        proof {
            assert(views(done@) =~= all.take(FTS_MAX_TOKENS as int));
        }
    }
    done
}

/// Turn free text into a safe FTS5 `MATCH` expression: the input is cut to
/// 10 000 bytes on a character boundary, every character that is not
/// alphanumeric (FTS5 operators, quotes, punctuation) separates tokens, at
/// most 100 tokens are kept, and each is quoted so FTS5 reads it as a plain
/// term. Text with no alphanumeric character gives the empty string.
pub fn sanitize_fts_query(query: &str) -> (out: String)
    ensures
        exists|k: int|
            is_char_boundary_truncation(query@, FTS_MAX_QUERY_BYTES as nat, k) && out@
                == quoted_join(capped_tokens(alnum_runs(query@.take(k)))),
{
    let truncated = truncate_at_char_boundary(query, FTS_MAX_QUERY_BYTES);
    let cs = chars_of(truncated.as_str());
    let done = alnum_tokens(&cs);
    let ghost toks = views(done@);
    let n = if done.len() < FTS_MAX_TOKENS { done.len() } else { FTS_MAX_TOKENS };
    let mut out = String::new();
    let mut j: usize = 0;
    while j < n
        invariant
            j <= n <= done.len(),
            n == if done.len() < FTS_MAX_TOKENS { done.len() } else { FTS_MAX_TOKENS },
            toks == views(done@),
            out@ == quoted_join(toks.take(j as int)),
        decreases n - j,
    {
        proof {
            assert(toks.take(j + 1).drop_last() =~= toks.take(j as int));
            assert(toks.take(j + 1).last() == done@[j as int]@);
        }
        if j > 0 {
            push_char(&mut out, ' ');
        }
        push_char(&mut out, '"');
        let mut t: usize = 0;
        let ghost base = out@;
        while t < done[j].len()
            invariant
                j < done.len(),
                t <= done@[j as int]@.len(),
                out@ == base + done@[j as int]@.take(t as int),
            decreases done@[j as int]@.len() - t,
        {
            push_char(&mut out, done[j][t]);
            proof {
                assert(done@[j as int]@.take(t + 1) =~= done@[j as int]@.take(t as int).push(done@[j as int]@[t as int]));
            }
            t += 1;
        }
        push_char(&mut out, '"');
        proof {
            assert(done@[j as int]@.take(t as int) =~= done@[j as int]@);
            if j == 0 {
                assert(toks.take(1) =~= seq![done@[0]@]);
                assert(out@ =~= quoted_join(toks.take(1)));
            } else {
                assert(out@ =~= quoted_join(toks.take(j + 1)));
            }
        }
        j += 1;
    }
    proof {
        assert(toks.take(n as int) =~= capped_tokens(toks));
    }
    out
}

} // verus!
