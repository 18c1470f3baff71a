//! SQL `LIKE` pattern matching: `%` matches any run of characters, `_` any
//! single character. SQLite compares ASCII letters case-insensitively and
//! knows no escape character unless one is declared; PostgreSQL's `LIKE`
//! with `ESCAPE '\'` is case-sensitive and takes the character after `\`
//! literally.
use vstd::prelude::*;

verus! {

/// ASCII upper-case letters folded to lower case; other characters as is.
pub open spec fn fold_ascii(c: char) -> int {
    if 65 <= (c as u32) <= 90 {
        (c as u32) + 32
    } else {
        c as u32 as int
    }
}

/// Whether pattern character `pc` matches text character `tc`.
pub open spec fn like_char_eq(pc: char, tc: char, case_insensitive: bool) -> bool {
    if case_insensitive {
        fold_ascii(pc) == fold_ascii(tc)
    } else {
        pc == tc
    }
}

/// Whether the pattern `p` matches all of the text `t`. With `escaping`, a
/// `\` makes the next pattern character literal (a trailing `\` matches
/// nothing).
pub open spec fn like_match(p: Seq<char>, t: Seq<char>, case_insensitive: bool, escaping: bool) -> bool
    decreases p.len() + t.len(),
{
    if p.len() == 0 {
        t.len() == 0
    } else if escaping && p[0] == '\\' {
        p.len() >= 2 && t.len() > 0 && p[1] == t[0] && like_match(
            p.skip(2),
            t.drop_first(),
            case_insensitive,
            escaping,
        )
    } else if p[0] == '%' {
        like_match(p.drop_first(), t, case_insensitive, escaping) || (t.len() > 0 && like_match(
            p,
            t.drop_first(),
            case_insensitive,
            escaping,
        ))
    } else if t.len() == 0 {
        false
    } else if p[0] == '_' || like_char_eq(p[0], t[0], case_insensitive) {
        like_match(p.drop_first(), t.drop_first(), case_insensitive, escaping)
    } else {
        false
    }
}

fn fold_ascii_exec(c: char) -> (r: u32)
    ensures
        r == fold_ascii(c),
{
    let v = c as u32;
    if 65 <= v && v <= 90 {
        v + 32
    } else {
        v
    }
}

fn like_at(p: &Vec<char>, i: usize, t: &Vec<char>, j: usize, ci: bool, esc: bool) -> (r: bool)
    requires
        i <= p.len(),
        j <= t.len(),
    ensures
        r == like_match(p@.skip(i as int), t@.skip(j as int), ci, esc),
    decreases (p.len() - i) + (t.len() - j),
{
    let ghost ps = p@.skip(i as int);
    let ghost ts = t@.skip(j as int);
    if i == p.len() {
        return j == t.len();
    }
    assert(ps[0] == p@[i as int]);
    assert(ps.drop_first() =~= p@.skip(i + 1));
    if j < t.len() {
        assert(ts[0] == t@[j as int]);
        assert(ts.drop_first() =~= t@.skip(j + 1));
    }
    if esc && p[i] == '\\' {
        if i + 1 < p.len() && j < t.len() {
            assert(ps[1] == p@[i + 1]);
            assert(ps.skip(2) =~= p@.skip(i + 2));
            if p[i + 1] == t[j] {
                return like_at(p, i + 2, t, j + 1, ci, esc);
            }
        }
        return false;
    }
    if p[i] == '%' {
        if like_at(p, i + 1, t, j, ci, esc) {
            return true;
        }
        if j < t.len() {
            return like_at(p, i, t, j + 1, ci, esc);
        }
        return false;
    }
    if j == t.len() {
        return false;
    }
    let same = if ci {
        fold_ascii_exec(p[i]) == fold_ascii_exec(t[j])
    } else {
        p[i] == t[j]
    };
    if p[i] == '_' || same {
        like_at(p, i + 1, t, j + 1, ci, esc)
    } else {
        false
    }
}

/// Whether `pattern` matches all of `text` under SQL `LIKE` rules.
pub fn like_matches(pattern: &Vec<char>, text: &Vec<char>, case_insensitive: bool, escaping: bool) -> (r: bool)
    ensures
        r == like_match(pattern@, text@, case_insensitive, escaping),
{
    proof {
        assert(pattern@.skip(0) =~= pattern@);
        assert(text@.skip(0) =~= text@);
    }
    like_at(pattern, 0, text, 0, case_insensitive, escaping)
}

} // verus!
