//! Types as the completion engine reads them: handles into an environment
//! that knows which types are aliases and which are records.

use crate::interner::InternedStr;
use vstd::prelude::*;

verus! {

/// The name of a variable, a field or a type: an interned string.
pub type Symbol = InternedStr;

/// A type, named by its place in a type environment.
#[derive(Clone, Copy, Debug, PartialEq, Eq, Structural, Hash)]
pub struct TcType {
    pub id: usize,
}

/// An identifier with its type.
#[derive(Clone, Copy, Debug, PartialEq, Eq, Structural, Hash)]
pub struct TcIdent {
    pub name: Symbol,
    pub typ: TcType,
}

/// What a type environment knows of one type.
#[derive(Debug)]
pub enum Type {
    /// A type of which only the name matters here: a built-in type, a
    /// function, a variant type.
    Opaque,
    /// Another name for the type it holds.
    Alias(TcType),
    /// A record with its fields in the order of their declaration.
    Record(Vec<TcIdent>),
}

/// The type that `typ` stands for once at most `fuel` aliases are unfolded.
pub open spec fn unfolded(types: Seq<Type>, typ: TcType, fuel: nat) -> TcType
    decreases fuel,
{
    if fuel > 0 && typ.id < types.len() {
        match types[typ.id as int] {
            Type::Alias(target) => unfolded(types, target, (fuel - 1) as nat),
            _ => typ,
        }
    } else {
        typ
    }
}

/// The type that `typ` stands for, with its aliases removed. As many aliases
/// are unfolded as the environment has types, so that a chain of aliases that
/// runs in a circle ends too.
pub open spec fn unaliased(types: Seq<Type>, typ: TcType) -> TcType {
    unfolded(types, typ, types.len())
}

/// The fields of `typ` where the environment knows it as a record.
pub open spec fn fields_of(types: Seq<Type>, typ: TcType) -> Option<Seq<TcIdent>> {
    if typ.id < types.len() {
        match types[typ.id as int] {
            Type::Record(fields) => Some(fields@),
            _ => None,
        }
    } else {
        None
    }
}

/// The types that a program declares.
pub struct TypeEnv {
    types: Vec<Type>,
}

impl View for TypeEnv {
    type V = Seq<Type>;

    closed spec fn view(&self) -> Seq<Type> {
        self.types@
    }
}

impl TypeEnv {
    /// An environment without types.
    pub fn new() -> (env: TypeEnv)
        ensures
            env@ == Seq::<Type>::empty(),
    {
        TypeEnv { types: Vec::new() }
    }

    /// Adds a type and returns its handle.
    pub fn declare(&mut self, typ: Type) -> (handle: TcType)
        ensures
            final(self)@ == old(self)@.push(typ),
            handle.id == old(self)@.len(),
    {
        let id = self.types.len();
        self.types.push(typ);
        TcType { id }
    }

    /// The fields of `typ` where it is a record.
    pub fn record_fields(&self, typ: TcType) -> (fields: Option<&Vec<TcIdent>>)
        ensures
            fields is Some <==> fields_of(self@, typ) is Some,
            fields matches Some(list) ==> fields_of(self@, typ) == Some(list@),
    {
        if typ.id < self.types.len() {
            match &self.types[typ.id] {
                Type::Record(fields) => Some(fields),
                _ => None,
            }
        } else {
            None
        }
    }

    /// The type that `typ` stands for, with its aliases removed.
    pub fn remove_aliases(&self, typ: TcType) -> (plain: TcType)
        ensures
            plain == unaliased(self@, typ),
    {
        let mut current = typ;
        let mut fuel = self.types.len();
        while fuel > 0
            invariant
                unfolded(self@, current, fuel as nat) == unaliased(self@, typ),
            decreases fuel,
        {
            if current.id >= self.types.len() {
                return current;
            }
            match &self.types[current.id] {
                Type::Alias(target) => {
                    current = *target;
                    fuel -= 1;
                },
                _ => {
                    return current;
                },
            }
        }
        current
    }
}

} // verus!
