//! The identifiers that are visible at a point of the program, each with its
//! type.

use crate::types::{Symbol, TcIdent, TcType};
use vstd::prelude::*;

verus! {

/// The place of the binding of `name` in `scope`; the length of `scope` where
/// it binds no such name.
pub open spec fn place_of(scope: Seq<TcIdent>, name: Symbol) -> int
    decreases scope.len(),
{
    if scope.len() == 0 {
        0
    } else if scope[0].name == name {
        0
    } else {
        1 + place_of(scope.drop_first(), name)
    }
}

/// The scope once `name` is bound to `typ`: a binding of the same name is
/// replaced where it stands, a new name is added at the end.
pub open spec fn bound(scope: Seq<TcIdent>, name: Symbol, typ: TcType) -> Seq<TcIdent> {
    let place = place_of(scope, name);
    if place < scope.len() {
        scope.update(place, TcIdent { name, typ })
    } else {
        scope.push(TcIdent { name, typ })
    }
}

/// The scope once all of `bindings` are bound, one after the other.
pub open spec fn bound_all(scope: Seq<TcIdent>, bindings: Seq<TcIdent>) -> Seq<TcIdent>
    decreases bindings.len(),
{
    if bindings.len() == 0 {
        scope
    } else {
        let last = bindings.last();
        bound(bound_all(scope, bindings.drop_last()), last.name, last.typ)
    }
}

/// Whether no name is bound twice in `scope`.
pub open spec fn unique(scope: Seq<TcIdent>) -> bool {
    forall|i: int, j: int| 0 <= i < j < scope.len() ==> scope[i].name != scope[j].name
}

/// The place of a name lies in the scope or directly behind it; where it lies
/// in the scope it is the first place with that name.
pub proof fn lemma_place_of(scope: Seq<TcIdent>, name: Symbol)
    ensures
        0 <= place_of(scope, name) <= scope.len(),
        place_of(scope, name) < scope.len() ==> scope[place_of(scope, name)].name == name,
        forall|i: int| 0 <= i < place_of(scope, name) ==> (#[trigger] scope[i]).name != name,
    decreases scope.len(),
{
    if scope.len() > 0 && scope[0].name != name {
        let rest = scope.drop_first();
        lemma_place_of(rest, name);
        assert forall|i: int| 0 <= i < place_of(scope, name) implies (#[trigger] scope[i]).name
            != name by {
            if i > 0 {
                assert(scope[i] == rest[i - 1]);
            }
        }
    }
}

/// Binding a name keeps the names unique, and binds that name to that type.
pub proof fn lemma_bound(scope: Seq<TcIdent>, name: Symbol, typ: TcType)
    requires
        unique(scope),
    ensures
        unique(bound(scope, name, typ)),
        bound(scope, name, typ).contains(TcIdent { name, typ }),
        bound(scope, name, typ).len() >= scope.len(),
{
    lemma_place_of(scope, name);
    let place = place_of(scope, name);
    let after = bound(scope, name, typ);
    if place < scope.len() {
        assert(after[place] == TcIdent { name, typ });
        assert forall|i: int, j: int| 0 <= i < j < after.len() implies after[i].name
            != after[j].name by {
            assert(after[i].name == scope[i].name);
            assert(after[j].name == scope[j].name);
        }
    } else {
        assert(after[scope.len() as int] == TcIdent { name, typ });
        assert forall|i: int, j: int| 0 <= i < j < after.len() implies after[i].name
            != after[j].name by {
            if j < scope.len() {
            } else {
                assert(scope[i].name != name);
            }
        }
    }
}

/// Binding any number of names keeps the names unique.
pub proof fn lemma_bound_all(scope: Seq<TcIdent>, bindings: Seq<TcIdent>)
    requires
        unique(scope),
    ensures
        unique(bound_all(scope, bindings)),
    decreases bindings.len(),
{
    if bindings.len() > 0 {
        lemma_bound_all(scope, bindings.drop_last());
        let last = bindings.last();
        lemma_bound(bound_all(scope, bindings.drop_last()), last.name, last.typ);
    }
}

/// Binding one list of names and then another is binding the two lists put
/// together.
pub proof fn lemma_bound_all_append(scope: Seq<TcIdent>, first: Seq<TcIdent>, second: Seq<TcIdent>)
    ensures
        bound_all(bound_all(scope, first), second) == bound_all(scope, first + second),
    decreases second.len(),
{
    if second.len() == 0 {
        assert(first + second =~= first);
    } else {
        lemma_bound_all_append(scope, first, second.drop_last());
        assert((first + second).drop_last() =~= first + second.drop_last());
        assert((first + second).last() == second.last());
    }
}

/// A map from names to types in which a later binding of a name replaces the
/// earlier one.
pub struct ScopedMap {
    bindings: Vec<TcIdent>,
}

impl View for ScopedMap {
    type V = Seq<TcIdent>;

    closed spec fn view(&self) -> Seq<TcIdent> {
        self.bindings@
    }
}

impl ScopedMap {
    /// Whether every name has one binding.
    pub open spec fn wf(&self) -> bool {
        unique(self@)
    }

    /// A map without bindings.
    pub fn new() -> (map: ScopedMap)
        ensures
            map@ == Seq::<TcIdent>::empty(),
            map.wf(),
    {
        ScopedMap { bindings: Vec::new() }
    }

    /// Binds `name` to `typ`.
    pub fn insert(&mut self, name: Symbol, typ: TcType)
        requires
            old(self).wf(),
        ensures
            final(self).wf(),
            final(self)@ == bound(old(self)@, name, typ),
    {
        let mut i: usize = 0;
        assert(self@.skip(0) =~= self@);
        while i < self.bindings.len()
            invariant
                unique(old(self)@),
                self.bindings == old(self).bindings,
                i <= self.bindings@.len(),
                place_of(self@, name) == i + place_of(self@.skip(i as int), name),
            decreases self.bindings@.len() - i,
        {
            if self.bindings[i].name == name {
                assert(self@.skip(i as int)[0] == self@[i as int]);
                assert(place_of(old(self)@, name) == i);
                self.bindings[i] = TcIdent { name, typ };
                assert(self@ == old(self)@.update(i as int, TcIdent { name, typ }));
                proof {
                    lemma_bound(old(self)@, name, typ);
                }
                return ;
            }
            assert(self@.skip(i as int)[0] == self@[i as int]);
            assert(self@.skip(i as int).drop_first() =~= self@.skip(i + 1));
            i += 1;
        }
        assert(self@.skip(i as int).len() == 0);
        proof {
            lemma_bound(self@, name, typ);
        }
        self.bindings.push(TcIdent { name, typ });
    }

    /// The binding of `name`, if it has one.
    pub fn get(&self, name: Symbol) -> (typ: Option<TcType>)
        requires
            self.wf(),
        ensures
            typ is Some <==> place_of(self@, name) < self@.len(),
            typ matches Some(t) ==> self@[place_of(self@, name)] == (TcIdent { name, typ: t }),
    {
        let mut i: usize = 0;
        assert(self@.skip(0) =~= self@);
        while i < self.bindings.len()
            invariant
                i <= self.bindings@.len(),
                place_of(self@, name) == i + place_of(self@.skip(i as int), name),
            decreases self.bindings@.len() - i,
        {
            assert(self@.skip(i as int)[0] == self@[i as int]);
            if self.bindings[i].name == name {
                return Some(self.bindings[i].typ);
            }
            assert(self@.skip(i as int).drop_first() =~= self@.skip(i + 1));
            i += 1;
        }
        assert(self@.skip(i as int).len() == 0);
        None
    }

    /// All bindings, in the order in which their names were first bound.
    pub fn bindings(&self) -> (all: &Vec<TcIdent>)
        ensures
            all@ == self@,
    {
        &self.bindings
    }
}

} // verus!
