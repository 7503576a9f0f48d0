//! The enclosing data pack: the organizational unit a namespace belongs to.
//! Its name is validated at construction and the pack is immutable afterwards.
use vstd::prelude::*;
use crate::CompileError;

verus! {

/// The game versions a pack can target.
#[derive(Debug, Clone, Copy, PartialEq, Eq, Structural)]
pub enum McVersion {
    V1_17_4,
}

/// A character accepted in pack and namespace names: a lowercase ASCII
/// letter, a digit, `-` or `_`.
pub open spec fn is_valid_name_char(c: char) -> bool {
    ('a' as u32 <= c as u32 && c as u32 <= 'z' as u32) || ('0' as u32 <= c as u32 && c as u32
        <= '9' as u32) || c == '-' || c == '_'
}

/// Whether every character of the name is accepted.
pub open spec fn spec_name_valid(s: Seq<char>) -> bool {
    forall|i: int| 0 <= i < s.len() ==> is_valid_name_char(s[i])
}

/// A data pack: a named root under which one or more namespaces store their
/// compiled functions on durable storage.
#[derive(Debug)]
pub struct Datapack {
    pub name: String,
    pub version: McVersion,
    pub description: String,
    /// Path of the directory the pack is stored in, as text.
    pub path: String,
}

impl Datapack {
    /// Whether `c` may appear in a pack name.
    pub fn is_char_valid(c: char) -> (r: bool)
        ensures
            r == is_valid_name_char(c),
    {
        let u = c as u32;
        ('a' as u32 <= u && u <= 'z' as u32) || ('0' as u32 <= u && u <= '9' as u32) || c == '-'
            || c == '_'
    }

    /// Whether every character of `name` may appear in a pack name.
    pub fn is_name_valid(name: &str) -> (r: bool)
        ensures
            r == spec_name_valid(name@),
    {
        let v = crate::util::str_to_chars(name);
        is_chars_valid(&v)
    }

    /// Builds a pack with the given name, rejecting a name with a character
    /// outside the accepted set. The empty name passes: the validated
    /// identifier of the addressing scheme is the namespace, not the pack.
    pub fn try_new(name: String) -> (r: Result<Datapack, CompileError>)
        ensures
            r.is_ok() <==> spec_name_valid(name@),
            r.is_ok() ==> r.unwrap().name@ == name@ && r.unwrap().version == McVersion::V1_17_4
                && r.unwrap().description@ == Seq::<char>::empty() && r.unwrap().path@ == "."@,
            r.is_err() ==> (r matches Err(CompileError::InvalidName)),
    {
        if Self::is_name_valid(name.as_str()) {
            Ok(
                Datapack {
                    name,
                    version: McVersion::V1_17_4,
                    description: String::new(),
                    path: String::from_str("."),
                },
            )
        } else {
            Err(CompileError::InvalidName)
        }
    }

    /// A field-for-field copy of the pack.
    pub fn duplicate(&self) -> (r: Datapack)
        ensures
            r == *self,
    {
        let r = Datapack {
            name: self.name.clone(),
            version: self.version,
            description: self.description.clone(),
            path: self.path.clone(),
        };
        r
    }
}

/// Whether every character of the buffer is accepted in a name.
pub fn is_chars_valid(v: &Vec<char>) -> (r: bool)
    ensures
        r == spec_name_valid(v@),
{
    let mut i: usize = 0;
    while i < v.len()
        invariant
            0 <= i <= v@.len(),
            forall|j: int| 0 <= j < i ==> is_valid_name_char(v@[j]),
        decreases v@.len() - i,
    {
        if !Datapack::is_char_valid(v[i]) {
            return false;
        }
        i += 1;
    }
    true
}

} // verus!
