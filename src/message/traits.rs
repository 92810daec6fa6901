use crate::text::is_text_of;
use vstd::prelude::*;

verus! {

/// Access to the command of a message.
pub trait Message {
    /// The bytes of the command.
    spec fn command_bytes(&self) -> Seq<u8>;

    fn command(&self) -> (r: String)
        ensures
            is_text_of(r@, self.command_bytes()),
    ;
}

/// `r` holds the text of `b` when there are bytes, and nothing when there are none.
pub open spec fn is_opt_text_of(r: Option<String>, b: Option<Seq<u8>>) -> bool {
    match b {
        Some(x) => r is Some && is_text_of(r->0@, x),
        None => r is None,
    }
}

/// Access to the origin of a message: the whole prefix and its parts.
pub trait Prefixed {
    spec fn prefix_bytes(&self) -> Option<Seq<u8>>;

    spec fn nick_bytes(&self) -> Option<Seq<u8>>;

    spec fn user_bytes(&self) -> Option<Seq<u8>>;

    spec fn host_bytes(&self) -> Option<Seq<u8>>;

    fn prefix(&self) -> (r: Option<String>)
        ensures
            is_opt_text_of(r, self.prefix_bytes()),
    ;

    fn nick(&self) -> (r: Option<String>)
        ensures
            is_opt_text_of(r, self.nick_bytes()),
    ;

    fn user(&self) -> (r: Option<String>)
        ensures
            is_opt_text_of(r, self.user_bytes()),
    ;

    fn host(&self) -> (r: Option<String>)
        ensures
            is_opt_text_of(r, self.host_bytes()),
    ;
}

/// Access to the parameters of a message, in wire order.
pub trait Parameterized {
    spec fn param_bytes(&self) -> Seq<Seq<u8>>;

    fn params(&self) -> (r: Vec<String>)
        ensures
            r@.len() == self.param_bytes().len(),
            forall|i: int| 0 <= i < r@.len() ==> is_text_of(#[trigger] r@[i]@, self.param_bytes()[i]),
    ;
}

/// All three kinds of access at once.
pub trait IRCMessage: Message + Prefixed + Parameterized {

}

impl<T> IRCMessage for T where T: Message + Prefixed + Parameterized {

}

} // verus!
