//! A namespace: the addressing root that groups compiled functions and
//! prefixes every cross-file reference name.
use vstd::prelude::*;
use crate::CompileError;
use crate::datapack::{Datapack, spec_name_valid, is_valid_name_char};

verus! {

/// A validated namespace of one data pack.
#[derive(Debug)]
pub struct Namespace {
    pub datapack: Datapack,
    pub name: String,
}

impl Namespace {
    /// Whether `c` may appear in a namespace name.
    pub fn is_char_valid(c: char) -> (r: bool)
        ensures
            r == is_valid_name_char(c),
    {
        Datapack::is_char_valid(c)
    }

    /// Whether every character of `name` may appear in a namespace name.
    pub fn is_name_valid(name: &str) -> (r: bool)
        ensures
            r == spec_name_valid(name@),
    {
        Datapack::is_name_valid(name)
    }

    /// Builds a namespace of the given pack, rejecting the empty name and
    /// a name with a character outside the accepted set: a namespace
    /// identifier is one or more accepted characters.
    pub fn try_new(datapack: &Datapack, name: String) -> (r: Result<Namespace, CompileError>)
        ensures
            r.is_ok() <==> spec_name_valid(name@) && name@.len() > 0,
            r.is_ok() ==> r.unwrap().name@ == name@ && r.unwrap().datapack == *datapack,
            r.is_err() ==> (r matches Err(CompileError::InvalidName)),
    {
        if !name.as_str().is_empty() && Self::is_name_valid(name.as_str()) {
            Ok(Namespace { datapack: datapack.duplicate(), name })
        } else {
            Err(CompileError::InvalidName)
        }
    }

    /// Path of the directory holding this namespace's function sources,
    /// as text: `<pack path>/<pack name>/data/<namespace>/functions`.
    pub fn get_functions_path(&self) -> (r: String)
        ensures
            r@ == self.datapack.path@ + "/"@ + self.datapack.name@ + "/data/"@ + self.name@
                + "/functions"@,
    {
        let mut r = self.datapack.path.clone();
        r.append("/");
        r.append(self.datapack.name.as_str());
        r.append("/data/");
        r.append(self.name.as_str());
        r.append("/functions");
        r
    }

    /// A field-for-field copy of the namespace.
    pub fn duplicate(&self) -> (r: Namespace)
        ensures
            r == *self,
    {
        let r = Namespace { datapack: self.datapack.duplicate(), name: self.name.clone() };
        r
    }
}

} // verus!
