//! Clients, characters and their permissions.

use vstd::prelude::*;

verus! {

/// Permission bit that lets a character teleport.
pub const TELEPORT: i16 = 1;

/// Identity of a connection, as the transport hands it out.
#[derive(Clone, Copy, Debug, PartialEq, Eq, Structural, Hash)]
pub struct ClientId(pub u128);

/// The transport's handle on a connected player.
#[derive(Clone, Copy, Debug)]
pub struct Client {
    pub id: ClientId,
    pub width: u16,
}

/// Settings that a player chose for their character.
#[derive(Clone, Copy, Debug)]
pub struct CharacterConfig {
    pub brief: bool,
}

/// A character that a player is logged in as.
#[derive(Debug)]
pub struct Character {
    pub id: i64,
    pub name: String,
    pub role: i16,
    pub config: CharacterConfig,
}

/// What a [`Character`] is, with its name as a sequence of characters.
pub struct CharacterView {
    pub id: i64,
    pub name: Seq<char>,
    pub role: i16,
    pub config: CharacterConfig,
}

impl View for Character {
    type V = CharacterView;

    open spec fn view(&self) -> CharacterView {
        CharacterView { id: self.id, name: self.name@, role: self.role, config: self.config }
    }
}

/// Whether bit `bit` is set in `mask`.
pub open spec fn has_bit(mask: i16, bit: u16) -> bool {
    (mask as u16) & (1u16 << bit) != 0
}

/// Whether a role carries every bit of a permission mask.
pub open spec fn grants(role: i16, permission: i16) -> bool {
    role & permission == permission
}

impl Character {
    /// Whether this character holds `permission`: every bit set in
    /// `permission` must be set in the character's role.
    pub fn can(&self, permission: i16) -> (r: bool)
        ensures
            r == grants(self.role, permission),
    {
        self.role & permission == permission
    }
}

/// Whether `permission` asks for bit `bit` and `role` lacks it.
pub open spec fn lacks(role: i16, permission: i16, bit: u16) -> bool {
    has_bit(permission, bit) && !has_bit(role, bit)
}

/// Whether `permission` asks for some bit that `role` lacks.
pub open spec fn lacks_a_bit(role: i16, permission: i16) -> bool {
    ||| lacks(role, permission, 0)
    ||| lacks(role, permission, 1)
    ||| lacks(role, permission, 2)
    ||| lacks(role, permission, 3)
    ||| lacks(role, permission, 4)
    ||| lacks(role, permission, 5)
    ||| lacks(role, permission, 6)
    ||| lacks(role, permission, 7)
    ||| lacks(role, permission, 8)
    ||| lacks(role, permission, 9)
    ||| lacks(role, permission, 10)
    ||| lacks(role, permission, 11)
    ||| lacks(role, permission, 12)
    ||| lacks(role, permission, 13)
    ||| lacks(role, permission, 14)
    ||| lacks(role, permission, 15)
}

/// A role grants a permission exactly when each bit of the permission is a
/// bit of the role.
pub proof fn lemma_grants_is_subset(role: i16, permission: i16)
    ensures
        grants(role, permission) <==> forall|bit: u16|
            bit < 16 && #[trigger] has_bit(permission, bit) ==> has_bit(role, bit),
{
    if grants(role, permission) {
        assert forall|bit: u16| bit < 16 && #[trigger] has_bit(permission, bit) implies has_bit(
            role,
            bit,
        ) by {
            assert(bit < 16 && grants(role, permission) && has_bit(permission, bit) ==> has_bit(
                role,
                bit,
            )) by (bit_vector);
        }
    } else {
        assert(!grants(role, permission) ==> lacks_a_bit(role, permission)) by (bit_vector);
    }
}

/// The empty role grants no permission but the empty one.
pub proof fn lemma_empty_role_grants_nothing(permission: i16)
    requires
        permission != 0,
    ensures
        !grants(0, permission),
{
    assert(permission != 0 ==> 0i16 & permission != permission) by (bit_vector);
}

} // verus!
