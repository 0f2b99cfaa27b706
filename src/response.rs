use vstd::prelude::*;

verus! {

/// A response as the router decides it: a status code and a body. The
/// serving layer turns it into a response of its protocol.
pub struct Reply {
    pub status: u16,
    pub body: String,
}

/// The response to a request that no route matches: status 404 and an
/// empty body.
pub fn default_not_found_handler() -> (r: Reply)
    ensures
        r.status == 404,
        r.body@ == Seq::<char>::empty(),
{
    Reply { status: 404, body: String::new() }
}

/// The response to a request whose handler failed: status 500, with the
/// error's textual description as the body.
pub fn default_error_handler(description: String) -> (r: Reply)
    ensures
        r.status == 500,
        r.body@ == description@,
{
    Reply { status: 500, body: description }
}

} // verus!
