//! File-watch matching for tasks declared with `watch = "<glob>"`.
//!
//! A change re-runs the task when the changed path matches the glob. The directory to
//! watch is the part of the glob before its first wildcard segment.
use vstd::prelude::*;

use crate::text::{str_chars, string_from_chars};

verus! {

// ── Matching a path ─────────────────────────────────────────────────────────

/// Whether `glob::Pattern::new` accepts `pattern`.
pub uninterp spec fn glob_compiles(pattern: Seq<char>) -> bool;

/// Whether the compiled `pattern` matches `path` (`glob::Pattern::matches_path`).
pub uninterp spec fn glob_accepts(pattern: Seq<char>, path: Seq<char>) -> bool;

/// Compiles `pattern` with `glob::Pattern::new` and, when that succeeds, tests `path`
/// with `glob::Pattern::matches_path`. Both results depend on the two strings and on
/// the platform the program is built for (on Windows the glob crate also takes `\` as
/// a path separator), so within one program equal calls agree; the contract names the
/// two results and claims nothing more. The two calls share one wrapper because the
/// compiled `glob::Pattern` is opaque: a wrapper of `matches_path` alone could not tie
/// its result to the pattern's text.
#[verifier::external_body]
fn compile_and_match(pattern: &str, path: &str) -> (r: Option<bool>)
    ensures
        r is Some == glob_compiles(pattern@),
        r matches Some(b) ==> b == glob_accepts(pattern@, path@),
{
    match glob::Pattern::new(pattern) {
        Ok(p) => Some(p.matches_path(std::path::Path::new(path))),
        Err(_) => None,
    }
}

/// Whether `path` matches the glob `pattern`; an invalid pattern matches nothing.
pub fn glob_matches(pattern: &str, path: &str) -> (r: bool)
    ensures
        r == (glob_compiles(pattern@) && glob_accepts(pattern@, path@)),
{
    match compile_and_match(pattern, path) {
        Some(b) => b,
        None => false,
    }
}

// ── The directory to watch ──────────────────────────────────────────────────

/// The segments of `s[i..]` between `/` separators, the first of them continuing `cur`.
pub open spec fn split_from(s: Seq<char>, i: int, cur: Seq<char>) -> Seq<Seq<char>>
    decreases s.len() - i,
{
    if i >= s.len() {
        seq![cur]
    } else if s[i] == '/' {
        seq![cur] + split_from(s, i + 1, Seq::empty())
    } else {
        split_from(s, i + 1, cur.push(s[i]))
    }
}

/// The segments of `s` between `/` separators, empty ones included.
pub open spec fn segments(s: Seq<char>) -> Seq<Seq<char>> {
    split_from(s, 0, Seq::empty())
}

/// A segment holds a wildcard: `*`, `?` or `[`.
pub open spec fn has_wildcard(seg: Seq<char>) -> bool {
    seg.contains('*') || seg.contains('?') || seg.contains('[')
}

/// `root` extended by the segments from `k` on, up to the first that holds a wildcard:
/// the first one replaces a root of `.`, the others are joined with `/`.
pub open spec fn root_from(segs: Seq<Seq<char>>, k: int, root: Seq<char>) -> Seq<char>
    decreases segs.len() - k,
{
    if k < 0 || k >= segs.len() || has_wildcard(segs[k]) {
        root
    } else {
        root_from(
            segs,
            k + 1,
            if root == seq!['.'] {
                segs[k]
            } else {
                root + seq!['/'] + segs[k]
            },
        )
    }
}

/// The directory to watch for the glob `pattern`: its segments before the first that
/// holds a wildcard, joined with `/`, or `.` when the first segment does.
pub open spec fn glob_root_of(pattern: Seq<char>) -> Seq<char> {
    root_from(segments(pattern), 0, seq!['.'])
}

pub open spec fn char_vec_views(v: Seq<Vec<char>>) -> Seq<Seq<char>> {
    v.map_values(|x: Vec<char>| x@)
}

/// The segments of `s` between `/` separators.
fn split_slash(s: &Vec<char>) -> (segs: Vec<Vec<char>>)
    ensures
        char_vec_views(segs@) == segments(s@),
{
    let mut segs: Vec<Vec<char>> = Vec::new();
    let mut cur: Vec<char> = Vec::new();
    let mut i: usize = 0;
    while i < s.len()
        invariant
            i <= s.len(),
            char_vec_views(segs@) + split_from(s@, i as int, cur@) == segments(s@),
        decreases s.len() - i,
    {
        let ghost before = char_vec_views(segs@);
        let ghost cur0 = cur@;
        if s[i] == '/' {
            let done = cur;
            cur = Vec::new();
            segs.push(done);
            proof {
                assert(char_vec_views(segs@) =~= before.push(cur0));
                assert(before + split_from(s@, i as int, cur0) =~= char_vec_views(segs@)
                    + split_from(s@, i + 1, cur@));
            }
        } else {
            cur.push(s[i]);
        }
        i += 1;
    }
    let ghost before = char_vec_views(segs@);
    let ghost last = cur@;
    segs.push(cur);
    proof {
        assert(char_vec_views(segs@) =~= before.push(last));
        assert(before + split_from(s@, i as int, last) =~= char_vec_views(segs@));
    }
    segs
}

/// Whether the segment `seg` holds a wildcard.
fn segment_has_wildcard(seg: &Vec<char>) -> (r: bool)
    ensures
        r == has_wildcard(seg@),
{
    let mut i: usize = 0;
    while i < seg.len()
        invariant
            i <= seg.len(),
            forall|j: int| 0 <= j < i ==> seg@[j] != '*' && seg@[j] != '?' && seg@[j] != '[',
        decreases seg.len() - i,
    {
        let c = seg[i];
        if c == '*' || c == '?' || c == '[' {
            assert(seg@[i as int] == c);
            return true;
        }
        i += 1;
    }
    false
}

/// The directory to watch for the glob `pattern`: `"src/**/*.rs"` gives `"src"`,
/// `"*.rs"` gives `"."` and `"src/main.rs"` gives `"src/main.rs"`.
pub fn glob_root(pattern: &str) -> (r: String)
    ensures
        r@ == glob_root_of(pattern@),
{
    let chars = str_chars(pattern);
    let segs = split_slash(&chars);
    let ghost sv = char_vec_views(segs@);
    let mut root: Vec<char> = Vec::new();
    root.push('.');
    assert(root@ =~= seq!['.']);
    let mut k: usize = 0;
    while k < segs.len()
        invariant
            k <= segs.len(),
            sv == char_vec_views(segs@),
            sv == segments(pattern@),
            root_from(sv, k as int, root@) == glob_root_of(pattern@),
        ensures
            root@ == glob_root_of(pattern@),
        decreases segs.len() - k,
    {
        let seg = &segs[k];
        proof {
            assert(seg@ == sv[k as int]);
        }
        if segment_has_wildcard(seg) {
            break;
        }
        let ghost root0 = root@;
        if root.len() == 1 && root[0] == '.' {
            assert(root0 =~= seq!['.']);
            root = seg.clone();
            proof {
                assert(root@ == sv[k as int]);
            }
        } else {
            assert(root0 != seq!['.']) by {
                if root0 == seq!['.'] {
                    assert(root0.len() == 1 && root0[0] == '.');
                }
            }
            root.push('/');
            let mut j: usize = 0;
            while j < seg.len()
                invariant
                    j <= seg.len(),
                    root@ == root0 + seq!['/'] + seg@.subrange(0, j as int),
                decreases seg.len() - j,
            {
                root.push(seg[j]);
                j += 1;
                assert(root@ =~= root0 + seq!['/'] + seg@.subrange(0, j as int));
            }
            assert(seg@.subrange(0, seg.len() as int) =~= seg@);
        }
        k += 1;
    }
    string_from_chars(&root, 0, root.len())
}

} // verus!
