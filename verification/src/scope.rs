//! The unit of compilation: a named, namespace-owned block of text,
//! rewritten in place by every stage it passes through; and the
//! anonymous-naming scheme that mints collision-free names for
//! compiler-generated scopes from a 32-bit counter.
use vstd::prelude::*;
use crate::namespace::Namespace;

verus! {

/// The lowercase hexadecimal digit of a value below sixteen.
pub open spec fn hex_digit(n: int) -> char {
    if n == 0 {
        '0'
    } else if n == 1 {
        '1'
    } else if n == 2 {
        '2'
    } else if n == 3 {
        '3'
    } else if n == 4 {
        '4'
    } else if n == 5 {
        '5'
    } else if n == 6 {
        '6'
    } else if n == 7 {
        '7'
    } else if n == 8 {
        '8'
    } else if n == 9 {
        '9'
    } else if n == 10 {
        'a'
    } else if n == 11 {
        'b'
    } else if n == 12 {
        'c'
    } else if n == 13 {
        'd'
    } else if n == 14 {
        'e'
    } else {
        'f'
    }
}

/// Two lowercase hexadecimal digits of a byte value.
pub open spec fn hex_byte(b: u32) -> Seq<char> {
    seq![hex_digit((b >> 4u32) as int), hex_digit((b & 0xfu32) as int)]
}

/// The anonymous path a 32-bit counter value names: four 2-digit lowercase
/// hexadecimal segments under `_`, most significant byte first.
pub open spec fn spec_anonymous_name(id: u32) -> Seq<char> {
    seq!['_', '/'] + hex_byte((id >> 24u32) & 0xffu32) + seq!['/'] + hex_byte(
        (id >> 16u32) & 0xffu32,
    ) + seq!['/'] + hex_byte((id >> 8u32) & 0xffu32) + seq!['/'] + hex_byte(id & 0xffu32)
}

/// The reference under which other compiled files call this scope.
pub open spec fn spec_reference_name(ns_name: Seq<char>, name: Seq<char>) -> Seq<char> {
    ns_name + seq![':'] + name
}

proof fn lemma_hex_digit_injective(m: int, n: int)
    requires
        0 <= m < 16,
        0 <= n < 16,
        hex_digit(m) == hex_digit(n),
    ensures
        m == n,
{
}

proof fn lemma_hex_byte_injective(a: u32, b: u32)
    requires
        a < 256,
        b < 256,
        hex_byte(a) == hex_byte(b),
    ensures
        a == b,
{
    assert((a >> 4u32) < 16 && (a & 0xfu32) < 16 && a == ((a >> 4u32) << 4u32 | (a & 0xfu32)))
        by (bit_vector)
        requires
            a < 256,
    ;
    assert((b >> 4u32) < 16 && (b & 0xfu32) < 16 && b == ((b >> 4u32) << 4u32 | (b & 0xfu32)))
        by (bit_vector)
        requires
            b < 256,
    ;
    assert(hex_byte(a)[0] == hex_byte(b)[0]);
    assert(hex_byte(a)[1] == hex_byte(b)[1]);
    lemma_hex_digit_injective((a >> 4u32) as int, (b >> 4u32) as int);
    lemma_hex_digit_injective((a & 0xfu32) as int, (b & 0xfu32) as int);
}

/// No two counter values name the same anonymous scope: the allocators,
/// which never hand out a counter value twice within one run, therefore
/// never mint a duplicate name.
pub proof fn lemma_anonymous_name_injective(a: u32, b: u32)
    requires
        spec_anonymous_name(a) == spec_anonymous_name(b),
    ensures
        a == b,
{
    let sa = spec_anonymous_name(a);
    let sb = spec_anonymous_name(b);
    assert(hex_byte((a >> 24u32) & 0xffu32) =~= seq![sa[2], sa[3]]);
    assert(hex_byte((a >> 16u32) & 0xffu32) =~= seq![sa[5], sa[6]]);
    assert(hex_byte((a >> 8u32) & 0xffu32) =~= seq![sa[8], sa[9]]);
    assert(hex_byte(a & 0xffu32) =~= seq![sa[11], sa[12]]);
    assert(hex_byte((b >> 24u32) & 0xffu32) =~= seq![sb[2], sb[3]]);
    assert(hex_byte((b >> 16u32) & 0xffu32) =~= seq![sb[5], sb[6]]);
    assert(hex_byte((b >> 8u32) & 0xffu32) =~= seq![sb[8], sb[9]]);
    assert(hex_byte(b & 0xffu32) =~= seq![sb[11], sb[12]]);
    assert(((a >> 24u32) & 0xffu32) < 256 && ((a >> 16u32) & 0xffu32) < 256 && ((a >> 8u32)
        & 0xffu32) < 256 && (a & 0xffu32) < 256) by (bit_vector);
    assert(((b >> 24u32) & 0xffu32) < 256 && ((b >> 16u32) & 0xffu32) < 256 && ((b >> 8u32)
        & 0xffu32) < 256 && (b & 0xffu32) < 256) by (bit_vector);
    lemma_hex_byte_injective((a >> 24u32) & 0xffu32, (b >> 24u32) & 0xffu32);
    lemma_hex_byte_injective((a >> 16u32) & 0xffu32, (b >> 16u32) & 0xffu32);
    lemma_hex_byte_injective((a >> 8u32) & 0xffu32, (b >> 8u32) & 0xffu32);
    lemma_hex_byte_injective(a & 0xffu32, b & 0xffu32);
    assert(((a >> 24u32) & 0xffu32 == (b >> 24u32) & 0xffu32 && (a >> 16u32) & 0xffu32 == (b
        >> 16u32) & 0xffu32 && (a >> 8u32) & 0xffu32 == (b >> 8u32) & 0xffu32 && a & 0xffu32 == b
        & 0xffu32) ==> a == b) by (bit_vector);
}

fn hex_digit_exec(n: u32) -> (c: char)
    requires
        n < 16,
    ensures
        c == hex_digit(n as int),
{
    if n == 0 {
        '0'
    } else if n == 1 {
        '1'
    } else if n == 2 {
        '2'
    } else if n == 3 {
        '3'
    } else if n == 4 {
        '4'
    } else if n == 5 {
        '5'
    } else if n == 6 {
        '6'
    } else if n == 7 {
        '7'
    } else if n == 8 {
        '8'
    } else if n == 9 {
        '9'
    } else if n == 10 {
        'a'
    } else if n == 11 {
        'b'
    } else if n == 12 {
        'c'
    } else if n == 13 {
        'd'
    } else if n == 14 {
        'e'
    } else {
        'f'
    }
}

fn push_hex_byte(out: &mut Vec<char>, b: u32)
    requires
        b < 256,
    ensures
        final(out)@ == old(out)@ + hex_byte(b),
{
    proof {
        assert((b >> 4u32) < 16 && (b & 0xfu32) < 16) by (bit_vector)
            requires
                b < 256,
        ;
    }
    out.push(hex_digit_exec(b >> 4));
    out.push(hex_digit_exec(b & 0xf));
    assert(out@ =~= old(out)@ + hex_byte(b));
}

/// The anonymous path of a counter value, as text.
pub fn anonymous_name(id: u32) -> (r: String)
    ensures
        r@ == spec_anonymous_name(id),
{
    let mut v: Vec<char> = Vec::new();
    v.push('_');
    v.push('/');
    proof {
        assert(((id >> 24u32) & 0xffu32) < 256 && ((id >> 16u32) & 0xffu32) < 256 && ((id >> 8u32)
            & 0xffu32) < 256 && (id & 0xffu32) < 256) by (bit_vector);
    }
    push_hex_byte(&mut v, (id >> 24) & 0xff);
    v.push('/');
    push_hex_byte(&mut v, (id >> 16) & 0xff);
    v.push('/');
    push_hex_byte(&mut v, (id >> 8) & 0xff);
    v.push('/');
    push_hex_byte(&mut v, id & 0xff);
    assert(v@ =~= spec_anonymous_name(id));
    crate::util::chars_to_string(&v)
}

/// One unit of compilation: a named block of command text owned by a
/// namespace. Stages consume a scope, rewrite its content, and may mint
/// further anonymous scopes beside it.
#[derive(Debug)]
pub struct Scope {
    /// Relative path of the compiled file, user-supplied or anonymous.
    pub name: String,
    /// The owning namespace.
    pub namespace: Namespace,
    /// The text this scope currently holds.
    pub content: String,
}

impl Scope {
    /// The reference other compiled files call this scope by:
    /// `<namespace>:<name>`.
    pub fn get_reference_name(&self) -> (r: String)
        ensures
            r@ == spec_reference_name(self.namespace.name@, self.name@),
    {
        let mut r = self.namespace.name.clone();
        r.append(":");
        r.append(self.name.as_str());
        proof {
            reveal_strlit(":");
            assert(r@ =~= spec_reference_name(self.namespace.name@, self.name@));
        }
        r
    }

    /// A fresh, empty scope named by the anonymous path of `id`.
    pub fn new_unnamed(id: u32, namespace: &Namespace) -> (r: Scope)
        ensures
            r.name@ == spec_anonymous_name(id),
            r.namespace == *namespace,
            r.content@ == Seq::<char>::empty(),
    {
        Scope { name: anonymous_name(id), namespace: namespace.duplicate(), content: String::new() }
    }

    /// Renames the scope to the anonymous path of `id`.
    pub fn set_reference_id(&mut self, id: u32)
        ensures
            final(self).name@ == spec_anonymous_name(id),
            final(self).namespace == old(self).namespace,
            final(self).content == old(self).content,
    {
        self.name = anonymous_name(id);
    }

    /// A named, empty scope of the given namespace.
    pub fn new(name: String, namespace: &Namespace) -> (r: Scope)
        ensures
            r.name@ == name@,
            r.namespace == *namespace,
            r.content@ == Seq::<char>::empty(),
    {
        Scope { name, namespace: namespace.duplicate(), content: String::new() }
    }

    /// A copy of the scope: same name, namespace and content.
    pub fn duplicate(&self) -> (r: Scope)
        ensures
            r == *self,
    {
        let r = Scope {
            name: self.name.clone(),
            namespace: self.namespace.duplicate(),
            content: self.content.clone(),
        };
        r
    }
}

} // verus!
