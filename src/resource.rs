use vstd::prelude::*;

verus! {

/// Number of resource kinds.
pub const N_RESOURCES: usize = 5;

/// The five resource kinds, in their fixed order.
#[derive(Debug, Clone, Copy, PartialEq, Eq)]
pub enum Resource {
    Lumber,
    Brick,
    Wool,
    Grain,
    Ore,
}

/// The position of a resource kind in a count vector.
pub open spec fn resource_index(r: Resource) -> int {
    match r {
        Resource::Lumber => 0,
        Resource::Brick => 1,
        Resource::Wool => 2,
        Resource::Grain => 3,
        Resource::Ore => 4,
    }
}

/// The resource kind whose lower-case name is `s`, if any.
pub open spec fn resource_named(s: Seq<char>) -> Option<Resource> {
    if s == "lumber"@ {
        Some(Resource::Lumber)
    } else if s == "brick"@ {
        Some(Resource::Brick)
    } else if s == "wool"@ {
        Some(Resource::Wool)
    } else if s == "grain"@ {
        Some(Resource::Grain)
    } else if s == "ore"@ {
        Some(Resource::Ore)
    } else {
        None
    }
}

/// Compares a string with a literal, character by character.
pub fn str_is(s: &str, lit: &str) -> (r: bool)
    ensures
        r == (s@ == lit@),
{
    let n = s.unicode_len();
    if n != lit.unicode_len() {
        return false;
    }
    let mut i: usize = 0;
    while i < n
        invariant
            n == s@.len(),
            n == lit@.len(),
            i <= n,
            forall|k: int| 0 <= k < i ==> s@[k] == lit@[k],
        decreases n - i,
    {
        if s.get_char(i) != lit.get_char(i) {
            return false;
        }
        i += 1;
    }
    assert(s@ =~= lit@);
    true
}

impl Resource {
    /// The position of this kind in a count vector.
    pub fn index(self) -> (r: usize)
        ensures
            r as int == resource_index(self),
            r < N_RESOURCES,
    {
        match self {
            Resource::Lumber => 0,
            Resource::Brick => 1,
            Resource::Wool => 2,
            Resource::Grain => 3,
            Resource::Ore => 4,
        }
    }

    /// The kind at position `i` of a count vector.
    pub fn from_index(i: usize) -> (r: Resource)
        requires
            i < N_RESOURCES,
        ensures
            resource_index(r) == i,
    {
        if i == 0 {
            Resource::Lumber
        } else if i == 1 {
            Resource::Brick
        } else if i == 2 {
            Resource::Wool
        } else if i == 3 {
            Resource::Grain
        } else {
            Resource::Ore
        }
    }

    /// Reads a resource kind from its lower-case name.
    pub fn from_name(s: &str) -> (r: Option<Resource>)
        ensures
            r == resource_named(s@),
    {
        if str_is(s, "lumber") {
            Some(Resource::Lumber)
        } else if str_is(s, "brick") {
            Some(Resource::Brick)
        } else if str_is(s, "wool") {
            Some(Resource::Wool)
        } else if str_is(s, "grain") {
            Some(Resource::Grain)
        } else if str_is(s, "ore") {
            Some(Resource::Ore)
        } else {
            None
        }
    }
}

} // verus!
