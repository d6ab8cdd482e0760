//! Support for building a runnable package from bare source: detecting an
//! entry point, wrapping entry-point-less source into one with the library
//! imports it needs, and the candidate paths tried when locating a script.
use vstd::prelude::*;

use crate::split::skip_ws;
use crate::text::{is_space, is_space_char};

verus! {

/// `p` occurs in `s` at position `i`.
pub open spec fn contains_at(s: Seq<char>, p: Seq<char>, i: int) -> bool {
    0 <= i && i + p.len() <= s.len() && s.subrange(i, i + p.len()) == p
}

/// `p` occurs somewhere in `s`.
pub open spec fn contains_seq(s: Seq<char>, p: Seq<char>) -> bool {
    exists|i: int| #[trigger] contains_at(s, p, i)
}

/// Whether the source already carries an entry point, textually: does it
/// contain `fn main` anywhere?
pub fn contains_fn_main(s: &str) -> (r: bool)
    ensures
        r == contains_seq(s@, "fn main"@),
{
    proof {
        reveal_strlit("fn main");
    }
    let n = s.unicode_len();
    if n < 7 {
        proof {
            assert forall|i: int| !(#[trigger] contains_at(s@, "fn main"@, i)) by {}
        }
        return false;
    }
    let mut i: usize = 0;
    while i <= n - 7
        invariant
            0 <= i <= n,
            n == s@.len(),
            n >= 7,
            "fn main"@.len() == 7,
            forall|j: int| 0 <= j < i ==> !(#[trigger] contains_at(s@, "fn main"@, j)),
        decreases n - i,
    {
        let c0 = s.get_char(i);
        let c1 = s.get_char(i + 1);
        let c2 = s.get_char(i + 2);
        let c3 = s.get_char(i + 3);
        let c4 = s.get_char(i + 4);
        let c5 = s.get_char(i + 5);
        let c6 = s.get_char(i + 6);
        let hit = c0 == 'f' && c1 == 'n' && c2 == ' ' && c3 == 'm' && c4 == 'a' && c5 == 'i' && c6
            == 'n';
        proof {
            reveal_strlit("fn main");
            let sub = s@.subrange(i as int, i + 7);
            assert(forall|t: int| 0 <= t < 7 ==> sub[t] == s@[i + t]);
            if hit {
                assert(sub =~= "fn main"@);
                assert(contains_at(s@, "fn main"@, i as int));
            } else {
                if sub == "fn main"@ {
                    assert(sub[0] == "fn main"@[0]);
                    assert(sub[1] == "fn main"@[1]);
                    assert(sub[2] == "fn main"@[2]);
                    assert(sub[3] == "fn main"@[3]);
                    assert(sub[4] == "fn main"@[4]);
                    assert(sub[5] == "fn main"@[5]);
                    assert(sub[6] == "fn main"@[6]);
                    assert(false);
                }
                assert(!contains_at(s@, "fn main"@, i as int));
            }
        }
        if hit {
            return true;
        }
        i = i + 1;
    }
    proof {
        assert forall|j: int| !(#[trigger] contains_at(s@, "fn main"@, j)) by {
            if 0 <= j < i {
            }
        }
    }
    false
}

/// Index one past the last non-whitespace character before `e`, or 0.
pub open spec fn ws_end(s: Seq<char>, e: int) -> int
    decreases e,
{
    if e <= 0 {
        0
    } else if is_space_char(s[e - 1]) {
        ws_end(s, e - 1)
    } else {
        e
    }
}

/// The text with whitespace removed from both ends.
pub open spec fn spec_trimmed(s: Seq<char>) -> Seq<char> {
    if skip_ws(s, 0) == s.len() {
        Seq::empty()
    } else {
        s.subrange(skip_ws(s, 0), ws_end(s, s.len() as int))
    }
}

/// Trims whitespace from both ends of the text.
fn trimmed(s: &str) -> (r: String)
    ensures
        r@ == spec_trimmed(s@),
{
    let n = s.unicode_len();
    let mut a: usize = 0;
    while a < n && is_space(s.get_char(a))
        invariant
            0 <= a <= n,
            n == s@.len(),
            skip_ws(s@, 0) == skip_ws(s@, a as int),
        decreases n - a,
    {
        a = a + 1;
    }
    proof {
        assert(skip_ws(s@, 0) == a);
    }
    if a == n {
        let r = String::new();
        return r;
    }
    let mut e: usize = n;
    while e > 0 && is_space(s.get_char(e - 1))
        invariant
            0 <= e <= n,
            n == s@.len(),
            ws_end(s@, n as int) == ws_end(s@, e as int),
            forall|t: int| e <= t < n ==> is_space_char(#[trigger] s@[t]),
        decreases e,
    {
        e = e - 1;
    }
    proof {
        assert(ws_end(s@, e as int) == e);
        if e <= a {
            assert(is_space_char(s@[a as int]));
            assert(false);
        }
    }
    s.substring_char(a, e).to_owned()
}

/// The import lines for the discovered library names, one per line.
pub open spec fn extern_lines(libs: Seq<String>) -> Seq<char>
    decreases libs,
{
    if libs.len() == 0 {
        Seq::empty()
    } else {
        extern_lines(libs.drop_last()) + "extern crate "@ + libs.last()@ + ";\n"@
    }
}

/// A source without an entry point, wrapped into one: the import lines for
/// the libraries it links, then the trimmed source inside a fresh `main`.
pub open spec fn spec_with_externs(script: Seq<char>, libs: Seq<String>) -> Seq<char> {
    extern_lines(libs) + "\nfn main() {\n"@ + spec_trimmed(script) + "\n}"@
}

/// Wraps an entry-point-less source: the named libraries are imported and
/// the trimmed source becomes the body of a fresh `main`.
pub fn script_with_externs(script: &str, libs: &Vec<String>) -> (r: String)
    ensures
        r@ == spec_with_externs(script@, libs@),
{
    let mut out = String::new();
    let mut i: usize = 0;
    proof {
        assert(libs@.take(0) =~= Seq::<String>::empty());
    }
    while i < libs.len()
        invariant
            0 <= i <= libs@.len(),
            out@ == extern_lines(libs@.take(i as int)),
        decreases libs@.len() - i,
    {
        out.append("extern crate ");
        out.append(libs[i].as_str());
        out.append(";\n");
        proof {
            assert(libs@.take(i + 1).drop_last() =~= libs@.take(i as int));
            assert(libs@.take(i + 1).last() == libs@[i as int]);
        }
        i = i + 1;
    }
    proof {
        assert(libs@.take(libs@.len() as int) =~= libs@);
    }
    out.append("\nfn main() {\n");
    let body = trimmed(script);
    out.append(body.as_str());
    out.append("\n}");
    out
}

/// Index right after the last path separator before `e`, or 0.
pub open spec fn file_start(s: Seq<char>, e: int) -> int
    decreases e,
{
    if e <= 0 {
        0
    } else if s[e - 1] == '/' {
        e
    } else {
        file_start(s, e - 1)
    }
}

/// Whether the path's final component carries an extension: a dot after
/// its first character.
pub open spec fn has_extension(s: Seq<char>) -> bool {
    exists|i: int| file_start(s, s.len() as int) < i < s.len() && #[trigger] s[i] == '.'
}

/// The paths tried, in order, when locating a script: the path as given,
/// and, when it has no extension of its own, the path with each known
/// script extension added.
pub fn script_candidates(path: &str) -> (r: Vec<String>)
    ensures
        has_extension(path@) ==> r@.len() == 1,
        !has_extension(path@) ==> r@.len() == 3 && r@[1]@ == path@ + ".crs"@ && r@[2]@ == path@
            + ".rs"@,
        r@.len() >= 1 && r@[0]@ == path@,
{
    let n = path.unicode_len();
    let mut fs: usize = n;
    while fs > 0 && path.get_char(fs - 1) != '/'
        invariant
            0 <= fs <= n,
            n == path@.len(),
            file_start(path@, n as int) == file_start(path@, fs as int),
        decreases fs,
    {
        fs = fs - 1;
    }
    proof {
        assert(file_start(path@, fs as int) == fs);
    }
    let mut dotted = false;
    let mut k: usize = fs;
    while k < n && !dotted
        invariant
            fs <= k <= n,
            n == path@.len(),
            fs == file_start(path@, n as int),
            dotted ==> exists|i: int|
                file_start(path@, path@.len() as int) < i < path@.len() && #[trigger] path@[i]
                    == '.',
            !dotted ==> forall|i: int| fs < i < k ==> path@[i] != '.',
        decreases n - k,
    {
        if k > fs && path.get_char(k) == '.' {
            dotted = true;
        }
        k = k + 1;
    }
    let mut out: Vec<String> = Vec::new();
    out.push(path.to_owned());
    if !dotted {
        proof {
            assert(!has_extension(path@));
        }
        out.push(path.to_owned().concat(".crs"));
        out.push(path.to_owned().concat(".rs"));
    }
    out
}

} // verus!
