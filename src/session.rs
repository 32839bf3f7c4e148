//! The session identity: the username chosen on the entry screen and read by
//! the chat screen when it is created.
use vstd::prelude::*;

verus! {

/// A shared cell holding the chosen username; empty at start.
#[derive(Debug)]
pub struct SessionIdentity {
    username: String,
}

impl View for SessionIdentity {
    type V = Seq<char>;

    closed spec fn view(&self) -> Seq<char> {
        self.username@
    }
}

impl SessionIdentity {
    /// An empty identity.
    pub fn new() -> (r: SessionIdentity)
        ensures
            r@.len() == 0,
    {
        SessionIdentity { username: String::new() }
    }

    /// Overwrites the username.
    pub fn set(&mut self, name: &str)
        ensures
            final(self)@ == name@,
    {
        self.username = String::from_str(name);
    }

    /// The current username.
    pub fn get(&self) -> (r: String)
        ensures
            r@ == self@,
    {
        self.username.clone()
    }
}

/// The entry screen's action: a non-empty username is stored in the session
/// identity and `true` is returned (go on to the chat); an empty one is
/// refused and leaves the identity unchanged.
pub fn login(identity: &mut SessionIdentity, entered: &str) -> (r: bool)
    ensures
        r == (entered@.len() > 0),
        r ==> final(identity)@ == entered@,
        !r ==> final(identity)@ == old(identity)@,
{
    let chars = crate::text::chars_of(entered);
    if chars.len() == 0 {
        false
    } else {
        identity.set(entered);
        true
    }
}

} // verus!
