use vstd::prelude::*;
use crate::alias::RegistrationInfo;

verus! {

/// An authenticated request: its body and what is known of its sender.
pub struct Ruma<T> {
    pub body: T,
    pub sender_user: Option<String>,
    pub sender_device: Option<String>,
    pub sender_servername: Option<String>,
    /// The application service that made the request, if one did.
    pub appservice_info: Option<RegistrationInfo>,
}

/// A response on its way to the client.
#[derive(Clone)]
pub struct RumaResponse<T>(pub T);

impl<T> From<T> for RumaResponse<T> {
    fn from(t: T) -> (r: Self)
        ensures
            r.0 == t,
    {
        RumaResponse(t)
    }
}

impl<T> vstd::std_specs::convert::FromSpecImpl<T> for RumaResponse<T> {
    open spec fn obeys_from_spec() -> bool {
        true
    }

    open spec fn from_spec(v: T) -> Self {
        RumaResponse(v)
    }
}

} // verus!
