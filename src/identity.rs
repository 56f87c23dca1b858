use vstd::prelude::*;

use crate::packet::make_uuid;

verus! {

/// Builds the identifier of the user named `uid`.
pub fn make_user_id(uid: String) -> (r: UserId)
    ensures
        r@ == uid@,
{
    UserId { id: uid }
}

/// Mints a fresh group chat identifier.
pub fn make_group_chat_id() -> GroupChatId {
    GroupChatId { id: make_uuid() }
}

/// Identifies a user; two identifiers denote the same user exactly when
/// their names agree.
#[derive(Debug, Hash)]
pub struct UserId {
    id: String,
}

impl View for UserId {
    type V = Seq<char>;

    closed spec fn view(&self) -> Seq<char> {
        self.id@
    }
}

impl UserId {
    /// The name this identifier was made from.
    pub fn to_string(&self) -> (r: String)
        ensures
            r@ == self@,
    {
        self.id.clone()
    }

    /// Whether `self` and `other` name the same user.
    pub fn same_user(&self, other: &UserId) -> (r: bool)
        ensures
            r == (self@ == other@),
    {
        self.id == other.id
    }
}

impl Clone for UserId {
    fn clone(&self) -> (r: UserId)
        ensures
            r == *self,
    {
        UserId { id: self.id.clone() }
    }
}

impl PartialEq for UserId {
    fn eq(&self, other: &UserId) -> (r: bool) {
        self.id == other.id
    }
}

impl vstd::std_specs::cmp::PartialEqSpecImpl for UserId {
    open spec fn obeys_eq_spec() -> bool {
        true
    }

    open spec fn eq_spec(&self, other: &UserId) -> bool {
        self@ == other@
    }
}

impl Eq for UserId {
}

/// A pair of users: the two sides of a direct conversation.
pub type UserPair = (UserId, UserId);

/// Identifies a group conversation by a 128-bit UUID value.
#[derive(Debug, Clone, Copy, PartialEq, Eq, Structural, Hash)]
pub struct GroupChatId {
    pub id: u128,
}

} // verus!
