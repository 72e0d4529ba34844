use vstd::prelude::*;

verus! {

/// What an entity does in the simulation; fixed for its whole life.
#[derive(Clone, Copy, Debug, PartialEq, Eq, Structural)]
pub enum Role {
    Commander,
    Scout,
    Messenger,
    Attacker,
}

/// The lower-case name under which a role appears in scenarios and logs.
pub open spec fn role_name(r: Role) -> Seq<char> {
    match r {
        Role::Commander => "commander"@,
        Role::Scout => "scout"@,
        Role::Messenger => "messenger"@,
        Role::Attacker => "attacker"@,
    }
}

impl Role {
    /// The role's name as written in scenarios and logs.
    pub fn as_str(&self) -> (r: &'static str)
        ensures
            r@ == role_name(*self),
    {
        match self {
            Role::Commander => "commander",
            Role::Scout => "scout",
            Role::Messenger => "messenger",
            Role::Attacker => "attacker",
        }
    }
}

} // verus!
