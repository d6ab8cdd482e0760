//! The cache-slot identity: a deterministic identifier computed from the
//! input and the dependency set.  File inputs hash only their absolute
//! path; expressions and closures hash the dependency set and their own
//! text, since they have no path or timestamp of their own.
use vstd::prelude::*;

use crate::input::Input;

verus! {

/// How many digest characters enter the identifier.
pub const ID_DIGEST_LEN_MAX: usize = 16;

/// The hex digest that the hashing library computes for a text.
pub uninterp spec fn sha1_hex_of(s: Seq<char>) -> Seq<char>;

/// Relies on shaman's `Sha1` (`input_str` then `result_str`): the digest is
/// a function of the input text alone, rendered as 40 hex characters for
/// the 20-byte result.
#[verifier::external_body]
fn sha1_hex(s: &str) -> (r: String)
    ensures
        r@ == sha1_hex_of(s@),
        r@.len() == 40,
{
    let mut h = shaman::sha1::Sha1::new();
    shaman::digest::Digest::input_str(&mut h, s);
    shaman::digest::Digest::result_str(&mut h)
}

/// The text fed to the hasher for a dependency list: each entry in order,
/// framed as `dep=<name>=<version>;`.
pub open spec fn deps_preimage(ds: Seq<(String, String)>) -> Seq<char>
    decreases ds,
{
    if ds.len() == 0 {
        Seq::empty()
    } else {
        deps_preimage(ds.drop_last()) + "dep="@ + ds.last().0@ + "="@ + ds.last().1@ + ";"@
    }
}

/// The digest part of an identifier: a fixed-size prefix of the hex
/// digest, or the fixed word `stub` when stub hashing is chosen.
pub open spec fn digest_part(text: Seq<char>, stub: bool) -> Seq<char> {
    if stub {
        "stub"@
    } else {
        sha1_hex_of(text).subrange(0, ID_DIGEST_LEN_MAX as int)
    }
}

/// The identifier for an input and its dependency list.
pub open spec fn spec_compute_id(input: Input, ds: Seq<(String, String)>, stub: bool) -> Seq<
    char,
> {
    match input {
        Input::File { name, path, .. } => "file-"@ + name@ + "-"@ + digest_part(path@, stub),
        Input::Expr { content } => "expr-"@ + digest_part(deps_preimage(ds) + content@, stub),
        Input::Loop { content, count } => "loop-"@ + digest_part(
            deps_preimage(ds) + "count:"@ + (if count {
                "true;"@
            } else {
                "false;"@
            }) + content@,
            stub,
        ),
    }
}

/// Builds the hasher text for a dependency list.
fn deps_hash_text(deps: &Vec<(String, String)>) -> (r: String)
    ensures
        r@ == deps_preimage(deps@),
{
    let mut out = String::new();
    let mut i: usize = 0;
    proof {
        assert(deps@.take(0) =~= Seq::<(String, String)>::empty());
    }
    while i < deps.len()
        invariant
            0 <= i <= deps@.len(),
            out@ == deps_preimage(deps@.take(i as int)),
        decreases deps@.len() - i,
    {
        out.append("dep=");
        out.append(deps[i].0.as_str());
        out.append("=");
        out.append(deps[i].1.as_str());
        out.append(";");
        proof {
            assert(deps@.take(i + 1).drop_last() =~= deps@.take(i as int));
            assert(deps@.take(i + 1).last() == deps@[i as int]);
        }
        i = i + 1;
    }
    proof {
        assert(deps@.take(deps@.len() as int) =~= deps@);
    }
    out
}

/// Truncates a digest to the identifier length, or substitutes the stub.
fn digest_for(text: &str, stub: bool) -> (r: String)
    ensures
        r@ == digest_part(text@, stub),
{
    if stub {
        let r = String::from_str("stub");
        proof {
            assert(r@ == "stub"@);
        }
        r
    } else {
        let d = sha1_hex(text);
        d.as_str().substring_char(0, ID_DIGEST_LEN_MAX).to_owned()
    }
}

impl Input {
    /// Compute the package identifier for the input: the cache directory
    /// name for the generated package.  It is a pure function of the
    /// variant's hashed fields and, except for files, the dependency list.
    pub fn compute_id(&self, deps: &Vec<(String, String)>, stub: bool) -> (r: String)
        ensures
            r@ == spec_compute_id(*self, deps@, stub),
    {
        match self {
            Input::File { name, path, .. } => {
                let mut id = String::from_str("file-");
                id.append(name.as_str());
                id.append("-");
                let d = digest_for(path.as_str(), stub);
                id.append(d.as_str());
                id
            },
            Input::Expr { content } => {
                let mut text = deps_hash_text(deps);
                text.append(content.as_str());
                let mut id = String::from_str("expr-");
                let d = digest_for(text.as_str(), stub);
                id.append(d.as_str());
                id
            },
            Input::Loop { content, count } => {
                let mut text = deps_hash_text(deps);
                text.append("count:");
                if *count {
                    text.append("true;");
                } else {
                    text.append("false;");
                }
                text.append(content.as_str());
                let mut id = String::from_str("loop-");
                let d = digest_for(text.as_str(), stub);
                id.append(d.as_str());
                id
            },
        }
    }
}

/// The identifier is a pure function: the same input and dependency list
/// always give the same identifier, and a file's identifier does not
/// depend on the dependency list at all.
pub proof fn lemma_id_pure(input: Input, ds1: Seq<(String, String)>, ds2: Seq<(String, String)>)
    ensures
        input is File ==> spec_compute_id(input, ds1, false) == spec_compute_id(
            input,
            ds2,
            false,
        ),
{
}

} // verus!
