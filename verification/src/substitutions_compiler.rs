//! The token-substitution stage: four textual passes over one scope's
//! content, in order — `$this` to the scope's reference name, `$namespace`
//! to the owning namespace's name, `#[value]` to a short content-derived
//! identifier, and `name@board` to the two-token scoreboard operand form.
use vstd::prelude::*;
use crate::scope::{Scope, spec_reference_name};
use crate::datapack::is_valid_name_char;
use crate::util::{replace_all, replace_all_exec, str_to_chars, chars_to_string};

verus! {

/// The SHA-256 digest of a text's characters. Computed only by the digest
/// wrapper below; the same characters always give the same digest.
pub uninterp spec fn sha256_of(s: Seq<char>) -> Seq<u8>;

/// The RFC 4648 base32 rendering of a byte sequence, with padding.
/// Computed only by the encoding wrapper below.
pub uninterp spec fn base32_of(b: Seq<u8>) -> Seq<char>;

/// Relies on `sha2::Sha256::digest`: the digest is a function of the input
/// bytes alone and is exactly 32 bytes long.
#[verifier::external_body]
fn sha256_digest(s: &str) -> (r: Vec<u8>)
    ensures
        r@ == sha256_of(s@),
        r@.len() == 32,
{
    let d = <sha2::Sha256 as sha2::Digest>::digest(s.as_bytes());
    d.to_vec()
}

/// Relies on `data_encoding::BASE32.encode`: RFC 4648 base32 with padding;
/// the output is ASCII, a function of the input alone, of exactly
/// `ceil(n / 5) * 8` characters for `n` input bytes. The length bound keeps
/// the input far below the size `encode` itself asserts on; the one caller
/// hands it a 32-byte digest.
#[verifier::external_body]
fn base32_encode(b: &Vec<u8>) -> (r: String)
    requires
        b@.len() < 1000000,
    ensures
        r@ == base32_of(b@),
        r@.len() == ((b@.len() + 4) / 5) * 8,
{
    data_encoding::BASE32.encode(b.as_slice())
}

/// The lowercase form of an uppercase ASCII letter; any other character
/// stands unchanged.
pub open spec fn ascii_lower(c: char) -> char {
    if c == 'A' {
        'a'
    } else if c == 'B' {
        'b'
    } else if c == 'C' {
        'c'
    } else if c == 'D' {
        'd'
    } else if c == 'E' {
        'e'
    } else if c == 'F' {
        'f'
    } else if c == 'G' {
        'g'
    } else if c == 'H' {
        'h'
    } else if c == 'I' {
        'i'
    } else if c == 'J' {
        'j'
    } else if c == 'K' {
        'k'
    } else if c == 'L' {
        'l'
    } else if c == 'M' {
        'm'
    } else if c == 'N' {
        'n'
    } else if c == 'O' {
        'o'
    } else if c == 'P' {
        'p'
    } else if c == 'Q' {
        'q'
    } else if c == 'R' {
        'r'
    } else if c == 'S' {
        's'
    } else if c == 'T' {
        't'
    } else if c == 'U' {
        'u'
    } else if c == 'V' {
        'v'
    } else if c == 'W' {
        'w'
    } else if c == 'X' {
        'x'
    } else if c == 'Y' {
        'y'
    } else if c == 'Z' {
        'z'
    } else {
        c
    }
}

fn ascii_lower_exec(c: char) -> (r: char)
    ensures
        r == ascii_lower(c),
{
    if c == 'A' {
        'a'
    } else if c == 'B' {
        'b'
    } else if c == 'C' {
        'c'
    } else if c == 'D' {
        'd'
    } else if c == 'E' {
        'e'
    } else if c == 'F' {
        'f'
    } else if c == 'G' {
        'g'
    } else if c == 'H' {
        'h'
    } else if c == 'I' {
        'i'
    } else if c == 'J' {
        'j'
    } else if c == 'K' {
        'k'
    } else if c == 'L' {
        'l'
    } else if c == 'M' {
        'm'
    } else if c == 'N' {
        'n'
    } else if c == 'O' {
        'o'
    } else if c == 'P' {
        'p'
    } else if c == 'Q' {
        'q'
    } else if c == 'R' {
        'r'
    } else if c == 'S' {
        's'
    } else if c == 'T' {
        't'
    } else if c == 'U' {
        'u'
    } else if c == 'V' {
        'v'
    } else if c == 'W' {
        'w'
    } else if c == 'X' {
        'x'
    } else if c == 'Y' {
        'y'
    } else if c == 'Z' {
        'z'
    } else {
        c
    }
}

/// The first sixteen characters (or all of them, of a shorter text),
/// lowercased.
pub open spec fn lower16(s: Seq<char>) -> Seq<char> {
    (if s.len() >= 16 {
        s.subrange(0, 16)
    } else {
        s
    }).map_values(|c: char| ascii_lower(c))
}

/// The short identifier a `#[value]` form compiles to: the first sixteen
/// characters of the base32 rendering of the SHA-256 digest of the value,
/// lowercased.
pub open spec fn hash16_of(v: Seq<char>) -> Seq<char> {
    lower16(base32_of(sha256_of(v)))
}

fn hash16(v: &Vec<char>) -> (r: Vec<char>)
    ensures
        r@ == hash16_of(v@),
{
    let s = chars_to_string(v);
    let digest = sha256_digest(s.as_str());
    let b32 = base32_encode(&digest);
    let cs = str_to_chars(b32.as_str());
    assert(cs@.len() == 56);
    let mut r: Vec<char> = Vec::new();
    let mut i: usize = 0;
    while i < 16
        invariant
            0 <= i <= 16,
            cs@.len() == 56,
            cs@ == base32_of(sha256_of(v@)),
            r@.len() == i,
            forall|j: int| 0 <= j < i ==> r@[j] == ascii_lower(cs@[j]),
        decreases 16 - i,
    {
        r.push(ascii_lower_exec(cs[i]));
        i += 1;
    }
    assert(r@ =~= hash16_of(v@));
    r
}

/// A character accepted inside a `#[...]` value: a name character or `.`.
pub open spec fn is_hash_char(c: char) -> bool {
    is_valid_name_char(c) || c == '.'
}

fn is_hash_char_exec(c: char) -> (r: bool)
    ensures
        r == is_hash_char(c),
{
    crate::datapack::Datapack::is_char_valid(c) || c == '.'
}

/// The length of the run of hash-value characters opening `s`.
pub open spec fn hash_run(s: Seq<char>) -> int
    decreases s.len(),
{
    if s.len() > 0 && is_hash_char(s[0]) {
        1 + hash_run(s.skip(1))
    } else {
        0
    }
}

pub proof fn lemma_hash_run(s: Seq<char>)
    ensures
        0 <= hash_run(s) <= s.len(),
    decreases s.len(),
{
    if s.len() > 0 && is_hash_char(s[0]) {
        lemma_hash_run(s.skip(1));
    }
}

fn hash_run_exec(v: &[char]) -> (r: usize)
    ensures
        r as int == hash_run(v@),
    decreases v@.len(),
{
    proof {
        lemma_hash_run(v@);
    }
    if v.len() > 0 && is_hash_char_exec(v[0]) {
        let rec = hash_run_exec(vstd::slice::slice_subrange(v, 1, v.len()));
        proof {
            lemma_hash_run(v@.skip(1));
        }
        1 + rec
    } else {
        0
    }
}

/// One left-to-right pass that rewrites each `#[value]` form, the value a
/// non-empty run of hash-value characters, into its short identifier.
pub open spec fn hash_pass(s: Seq<char>) -> Seq<char>
    decreases s.len(),
    via hash_pass_decreases
{
    if s.len() < 2 {
        s
    } else if s[0] == '#' && s[1] == '[' {
        let k = hash_run(s.skip(2));
        if k > 0 && 2 + k < s.len() && s[2 + k] == ']' {
            hash16_of(s.subrange(2, 2 + k)) + hash_pass(s.skip(3 + k))
        } else {
            seq![s[0]] + hash_pass(s.skip(1))
        }
    } else {
        seq![s[0]] + hash_pass(s.skip(1))
    }
}

#[via_fn]
proof fn hash_pass_decreases(s: Seq<char>) {
    if s.len() >= 2 {
        lemma_hash_run(s.skip(2));
    }
}

fn hash_pass_exec(v: &[char]) -> (r: Vec<char>)
    ensures
        r@ == hash_pass(v@),
    decreases v@.len(),
{
    let n = v.len();
    if n < 2 {
        return vstd::slice::slice_to_vec(v);
    }
    if v[0] == '#' && v[1] == '[' {
        proof {
            lemma_hash_run(v@.skip(2));
        }
        let k = hash_run_exec(vstd::slice::slice_subrange(v, 2, n));
        if k > 0 && 2 + k < n && v[2 + k] == ']' {
            let value = vstd::slice::slice_to_vec(vstd::slice::slice_subrange(v, 2, 2 + k));
            assert(value@ =~= v@.subrange(2, 2 + k as int));
            let mut r = hash16(&value);
            let mut rest = hash_pass_exec(vstd::slice::slice_subrange(v, 3 + k, n));
            r.append(&mut rest);
            assert(r@ =~= hash16_of(v@.subrange(2, 2 + k as int)) + hash_pass(
                v@.skip(3 + k as int),
            ));
            return r;
        }
    }
    let mut r: Vec<char> = Vec::new();
    r.push(v[0]);
    let mut rest = hash_pass_exec(vstd::slice::slice_subrange(v, 1, n));
    r.append(&mut rest);
    assert(r@ =~= seq![v@[0]] + hash_pass(v@.skip(1)));
    r
}

/// The length of the run of scoreboard-name characters opening `s`.
pub open spec fn score_run(s: Seq<char>) -> int
    decreases s.len(),
{
    if s.len() > 0 && is_valid_name_char(s[0]) {
        1 + score_run(s.skip(1))
    } else {
        0
    }
}

pub proof fn lemma_score_run(s: Seq<char>)
    ensures
        0 <= score_run(s) <= s.len(),
    decreases s.len(),
{
    if s.len() > 0 && is_valid_name_char(s[0]) {
        lemma_score_run(s.skip(1));
    }
}

fn score_run_exec(v: &[char]) -> (r: usize)
    ensures
        r as int == score_run(v@),
    decreases v@.len(),
{
    proof {
        lemma_score_run(v@);
    }
    if v.len() > 0 && crate::datapack::Datapack::is_char_valid(v[0]) {
        let rec = score_run_exec(vstd::slice::slice_subrange(v, 1, v.len()));
        proof {
            lemma_score_run(v@.skip(1));
        }
        1 + rec
    } else {
        0
    }
}

/// One left-to-right pass that rewrites each `name@board` form, both sides
/// non-empty runs of name characters, into `name board`.
pub open spec fn score_pass(s: Seq<char>) -> Seq<char>
    decreases s.len(),
    via score_pass_decreases
{
    if s.len() == 0 {
        s
    } else if is_valid_name_char(s[0]) {
        let k = score_run(s);
        if k < s.len() && s[k] == '@' {
            let m = score_run(s.skip(k + 1));
            if m > 0 {
                s.take(k) + seq![' '] + s.subrange(k + 1, k + 1 + m) + score_pass(s.skip(k + 1 + m))
            } else {
                s.take(k + 1) + score_pass(s.skip(k + 1))
            }
        } else {
            s.take(k) + score_pass(s.skip(k))
        }
    } else {
        seq![s[0]] + score_pass(s.skip(1))
    }
}

#[via_fn]
proof fn score_pass_decreases(s: Seq<char>) {
    if s.len() > 0 && is_valid_name_char(s[0]) {
        lemma_score_run(s);
        lemma_score_run(s.skip(1));
        let k = score_run(s);
        assert(k >= 1);
        if k < s.len() && s[k] == '@' {
            lemma_score_run(s.skip(k + 1));
        }
    }
}

fn score_pass_exec(v: &[char]) -> (r: Vec<char>)
    ensures
        r@ == score_pass(v@),
    decreases v@.len(),
{
    let n = v.len();
    if n == 0 {
        return Vec::new();
    }
    if crate::datapack::Datapack::is_char_valid(v[0]) {
        proof {
            lemma_score_run(v@);
        }
        let k = score_run_exec(v);
        if k < n && v[k] == '@' {
            proof {
                lemma_score_run(v@.skip(k + 1));
            }
            let m = score_run_exec(vstd::slice::slice_subrange(v, k + 1, n));
            if m > 0 {
                let mut r = vstd::slice::slice_to_vec(vstd::slice::slice_subrange(v, 0, k));
                r.push(' ');
                let mut board = vstd::slice::slice_to_vec(
                    vstd::slice::slice_subrange(v, k + 1, k + 1 + m),
                );
                r.append(&mut board);
                let mut rest = score_pass_exec(vstd::slice::slice_subrange(v, k + 1 + m, n));
                r.append(&mut rest);
                assert(r@ =~= v@.take(k as int) + seq![' '] + v@.subrange(
                    k + 1,
                    k + 1 + m as int,
                ) + score_pass(v@.skip(k + 1 + m as int)));
                return r;
            } else {
                let mut r = vstd::slice::slice_to_vec(vstd::slice::slice_subrange(v, 0, k + 1));
                let mut rest = score_pass_exec(vstd::slice::slice_subrange(v, k + 1, n));
                r.append(&mut rest);
                assert(r@ =~= v@.take(k + 1 as int) + score_pass(v@.skip(k + 1 as int)));
                return r;
            }
        } else {
            proof {
                lemma_score_run(v@.skip(1));
                assert(k >= 1);
            }
            let mut r = vstd::slice::slice_to_vec(vstd::slice::slice_subrange(v, 0, k));
            let mut rest = score_pass_exec(vstd::slice::slice_subrange(v, k, n));
            r.append(&mut rest);
            assert(r@ =~= v@.take(k as int) + score_pass(v@.skip(k as int)));
            return r;
        }
    }
    let mut r: Vec<char> = Vec::new();
    r.push(v[0]);
    let mut rest = score_pass_exec(vstd::slice::slice_subrange(v, 1, n));
    r.append(&mut rest);
    assert(r@ =~= seq![v@[0]] + score_pass(v@.skip(1)));
    r
}

/// What the whole stage leaves of a scope's content: the four passes in
/// order, `$this` first, then `$namespace`, then `#[...]`, then `@`.
pub open spec fn spec_substitute(content: Seq<char>, ns_name: Seq<char>, name: Seq<char>) -> Seq<
    char,
> {
    score_pass(
        hash_pass(
            replace_all(
                replace_all(content, "$this"@, spec_reference_name(ns_name, name)),
                "$namespace"@,
                ns_name,
            ),
        ),
    )
}

/// The stage that performs the four reserved-token substitutions.
pub struct SubstitutionsCompiler {}

impl SubstitutionsCompiler {
    /// A fresh substitution stage.
    pub fn new() -> (r: SubstitutionsCompiler) {
        SubstitutionsCompiler {  }
    }

    /// Rewrites one scope through the four substitution passes.
    pub fn process(&self, scope: Scope) -> (r: Scope)
        ensures
            r.name == scope.name,
            r.namespace == scope.namespace,
            r.content@ == spec_substitute(scope.content@, scope.namespace.name@, scope.name@),
    {
        let chars = str_to_chars(scope.content.as_str());
        let this_pat = str_to_chars("$this");
        let ns_pat = str_to_chars("$namespace");
        let reference = scope.get_reference_name();
        let ref_chars = str_to_chars(reference.as_str());
        let ns_chars = str_to_chars(scope.namespace.name.as_str());
        let step1 = replace_all_exec(chars.as_slice(), this_pat.as_slice(), ref_chars.as_slice());
        let step2 = replace_all_exec(step1.as_slice(), ns_pat.as_slice(), ns_chars.as_slice());
        let step3 = hash_pass_exec(step2.as_slice());
        let step4 = score_pass_exec(step3.as_slice());
        Scope { name: scope.name, namespace: scope.namespace, content: chars_to_string(&step4) }
    }
}

} // verus!
