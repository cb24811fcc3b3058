//! A single addressable connection: an id and the session it sends through.

use vstd::prelude::*;

verus! {

/// The session handle of actix-ws, carried through as an opaque value.
#[verifier::external_type_specification]
#[verifier::external_body]
pub struct ExSession(actix_ws::Session);

/// Relies on the derived `Clone` of `actix_ws::Session`, which hands out a
/// second handle on the same websocket channel. Nothing is promised of it.
pub assume_specification[ <actix_ws::Session as Clone>::clone ](s: &actix_ws::Session) -> (r: actix_ws::Session);

/// What a connection is, for contracts: its id and its session handle.
pub ghost struct ConnView {
    pub id: Seq<char>,
    pub session: actix_ws::Session,
}

#[derive(Clone)]
pub struct Connection {
    pub id: String,
    pub session: actix_ws::Session,
}

impl View for Connection {
    type V = ConnView;

    open spec fn view(&self) -> ConnView {
        ConnView { id: self.id@, session: self.session }
    }
}

impl Connection {
    /// Creates a connection with the given id and session.
    pub fn create(id: String, session: actix_ws::Session) -> (r: Self)
        ensures
            r@ == (ConnView { id: id@, session }),
    {
        Connection { id, session }
    }

    /// Whether `condition` holds of this connection; the condition is asked
    /// once. A conditional send goes out exactly when this is true (or, for
    /// the negated form, false).
    pub fn meets<F: Fn(&Connection) -> bool>(&self, condition: F) -> (r: bool)
        requires
            condition.requires((self,)),
        ensures
            condition.ensures((self,), r),
    {
        condition(self)
    }

    /// A copy of this connection: the same id and a second handle on its session.
    pub(crate) fn duplicate(&self) -> (r: Self)
        ensures
            r.id@ == self.id@,
    {
        Connection { id: self.id.clone(), session: self.session.clone() }
    }
}

} // verus!
