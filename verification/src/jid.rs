//! Jabber-style identifiers with their wire decorations.

use vstd::prelude::*;

verus! {

/// An identifier `user@server`, optionally decorated with an 8-bit raw
/// agent, a 16-bit device and a 16-bit integrator.
#[derive(Debug, Clone)]
pub struct JID {
    pub user: Option<String>,
    pub raw_agent: Option<u8>,
    pub device: Option<u16>,
    pub integrator: Option<u16>,
    pub server: Option<String>,
}

/// Mathematical image of a `JID`.
pub struct JidView {
    pub user: Option<Seq<char>>,
    pub raw_agent: Option<u8>,
    pub device: Option<u16>,
    pub integrator: Option<u16>,
    pub server: Option<Seq<char>>,
}

impl View for JID {
    type V = JidView;

    open spec fn view(&self) -> JidView {
        JidView {
            user: match &self.user {
                Some(u) => Some(u@),
                None => None,
            },
            raw_agent: self.raw_agent,
            device: self.device,
            integrator: self.integrator,
            server: match &self.server {
                Some(s) => Some(s@),
                None => None,
            },
        }
    }
}

impl JID {
    /// Builds an identifier from its parts.
    pub fn new(
        user: Option<String>,
        raw_agent: Option<u8>,
        device: Option<u16>,
        integrator: Option<u16>,
        server: Option<String>,
    ) -> (j: JID)
        ensures
            j@ == (JidView {
                user: match user {
                    Some(u) => Some(u@),
                    None => None::<Seq<char>>,
                },
                raw_agent,
                device,
                integrator,
                server: match server {
                    Some(s) => Some(s@),
                    None => None::<Seq<char>>,
                },
            }),
    {
        JID { user, raw_agent, device, integrator, server }
    }
}

} // verus!
