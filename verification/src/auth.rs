//! Who a request comes from, and what they may do.

use crate::text::starts_with;
use vstd::prelude::*;

verus! {

/// What a key may be used for.
#[derive(Debug, Clone, Copy, PartialEq, Eq, Structural)]
pub enum Scope {
    Read,
    Write,
    Admin,
}

/// The holder of a key.
#[derive(Debug, Clone)]
pub struct Principal {
    pub key_id: u64,
    pub read: bool,
    pub write: bool,
    pub admin: bool,
    /// The name prefixes the key is limited to; without any it is not limited.
    pub prefixes: Vec<String>,
}

impl Principal {
    /// The key holds the scope.
    pub open spec fn holds(self, scope: Scope) -> bool {
        match scope {
            Scope::Read => self.read,
            Scope::Write => self.write,
            Scope::Admin => self.admin,
        }
    }

    /// The key reaches the name.
    pub open spec fn reaches(self, name: Seq<char>) -> bool {
        self.prefixes@.len() == 0 || exists|i: int|
            0 <= i < self.prefixes@.len() && (#[trigger] self.prefixes@[i])@.is_prefix_of(name)
    }

    /// The holder of every scope on every name.
    pub fn full_access(key_id: u64) -> (r: Self)
        ensures
            r.key_id == key_id,
            forall|scope: Scope| #[trigger] r.holds(scope),
            forall|name: Seq<char>| #[trigger] r.reaches(name),
    {
        Principal { key_id, read: true, write: true, admin: true, prefixes: Vec::new() }
    }

    /// Whether the key holds the scope.
    pub fn allows_scope(&self, scope: Scope) -> (r: bool)
        ensures
            r == self.holds(scope),
    {
        match scope {
            Scope::Read => self.read,
            Scope::Write => self.write,
            Scope::Admin => self.admin,
        }
    }

    /// Whether the key reaches the name.
    pub fn allows_name(&self, name: &str) -> (r: bool)
        ensures
            r == self.reaches(name@),
    {
        if self.prefixes.len() == 0 {
            return true;
        }
        let mut i: usize = 0;
        while i < self.prefixes.len()
            invariant
                0 < self.prefixes@.len(),
                i <= self.prefixes@.len(),
                forall|j: int|
                    0 <= j < i ==> !(#[trigger] self.prefixes@[j])@.is_prefix_of(name@),
            decreases self.prefixes@.len() - i,
        {
            if starts_with(name, self.prefixes[i].as_str()) {
                assert(self.prefixes@[i as int]@.is_prefix_of(name@));
                return true;
            }
            i += 1;
        }
        false
    }
}

/// A key may read, write and administer exactly where it was given each of these.
pub proof fn law_scopes_are_what_was_given(p: Principal)
    ensures
        p.holds(Scope::Read) <==> p.read,
        p.holds(Scope::Write) <==> p.write,
        p.holds(Scope::Admin) <==> p.admin,
{
}

/// A key without prefixes reaches every name; one with prefixes reaches a name
/// exactly when the name goes on from one of them, character by character.
pub proof fn law_prefixes_bound_the_reach(p: Principal, name: Seq<char>, i: int)
    ensures
        p.prefixes@.len() == 0 ==> p.reaches(name),
        0 <= i < p.prefixes@.len() && p.prefixes@[i]@.len() <= name.len() && (forall|k: int|
            0 <= k < p.prefixes@[i]@.len() ==> #[trigger] p.prefixes@[i]@[k] == name[k])
            ==> p.reaches(name),
        p.prefixes@.len() > 0 && p.reaches(name) ==> exists|j: int|
            0 <= j < p.prefixes@.len() && name.len() >= (#[trigger] p.prefixes@[j])@.len()
                && name.take(p.prefixes@[j]@.len() as int) == p.prefixes@[j]@,
{
    if 0 <= i < p.prefixes@.len() && p.prefixes@[i]@.len() <= name.len() && (forall|k: int|
        0 <= k < p.prefixes@[i]@.len() ==> #[trigger] p.prefixes@[i]@[k] == name[k]) {
        assert(p.prefixes@[i]@.is_prefix_of(name)) by {
            assert(p.prefixes@[i]@ =~= name.subrange(0, p.prefixes@[i]@.len() as int));
        }
    }
    if p.prefixes@.len() > 0 && p.reaches(name) {
        let j = choose|j: int|
            0 <= j < p.prefixes@.len() && (#[trigger] p.prefixes@[j])@.is_prefix_of(name);
        assert(name.take(p.prefixes@[j]@.len() as int) =~= p.prefixes@[j]@);
    }
}

}
