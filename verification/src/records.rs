//! Co-authorization application records.
//!
//! These travel inside Noise transport messages. Byte and string fields are
//! borrowed, so building and checking a record allocates nothing. Their
//! encoding on the wire is CBOR, which the host crate derives for copies of
//! these types.
use vstd::prelude::*;

use crate::consts::REQ_ID_LEN;

verus! {

/// Length of a SHA-256 client-data hash.
pub const CLIENT_DATA_HASH_LEN: usize = 32;

/// Shortest authenticator data: that of a getAssertion.
pub const AUTH_DATA_MIN_LEN: usize = 37;

/// Operation being co-authorized.
#[derive(Debug, Clone, Copy, PartialEq, Eq, Structural)]
pub enum Op {
    SshUserauth,
    Fido2Assert,
    Fido2MakeCred,
}

/// Daemon to device: authorize signing `tbs`. For SSH this is the exact
/// userauth blob; `verified_hostkey`/`nickname`/`is_forwarding` drive the
/// honest display.
#[derive(Debug, Clone)]
pub struct SignReq<'a> {
    pub req_id: &'a [u8],
    pub op: Op,
    pub tbs: &'a [u8],
    pub verified_hostkey: &'a [u8],
    pub hostkey_nickname: &'a str,
    pub is_forwarding: bool,
    pub username: &'a str,
}

impl SignReq<'_> {
    /// The message of the first shape check that the request fails, if any.
    pub open spec fn shape_error(&self) -> Option<Seq<char>> {
        if self.req_id@.len() != REQ_ID_LEN {
            Some("req_id length"@)
        } else if self.tbs@.len() == 0 {
            Some("empty tbs"@)
        } else {
            None
        }
    }

    /// Validates a decoded request before acting on it: the req_id must be
    /// exactly `REQ_ID_LEN` bytes, and `tbs` non-empty. The first failed check
    /// names the error.
    pub fn validate(&self) -> (r: Result<(), &'static str>)
        ensures
            r is Ok <==> self.req_id@.len() == REQ_ID_LEN && self.tbs@.len() > 0,
            self.req_id@.len() != REQ_ID_LEN ==> (r matches Err(m) && m@ == "req_id length"@),
            self.req_id@.len() == REQ_ID_LEN && self.tbs@.len() == 0 ==> (r matches Err(m) && m@
                == "empty tbs"@),
            match r {
                Ok(_) => self.shape_error() is None,
                Err(m) => self.shape_error() == Some(m@),
            },
    {
        if self.req_id.len() != REQ_ID_LEN {
            return Err("req_id length");
        }
        if self.tbs.is_empty() {
            return Err("empty tbs");
        }
        Ok(())
    }
}

/// Device to daemon: the signature (after the button), or an error.
#[derive(Debug, Clone)]
pub struct SignResp<'a> {
    pub req_id: &'a [u8],
    pub signature: &'a [u8],
    /// Present iff signing was refused (deny / timeout / no button / parse fail).
    pub error: Option<&'a str>,
}

impl<'a> SignResp<'a> {
    /// A successful response carrying `signature`.
    pub fn ok(req_id: &'a [u8], signature: &'a [u8]) -> (r: Self)
        ensures
            r.req_id == req_id,
            r.signature == signature,
            r.error is None,
    {
        Self { req_id, signature, error: None }
    }

    /// A refusal: no signature, and the reason.
    pub fn err(req_id: &'a [u8], error: &'a str) -> (r: Self)
        ensures
            r.req_id == req_id,
            r.signature@.len() == 0,
            r.error == Some(error),
    {
        let empty: &[u8] = &[];
        Self { req_id, signature: empty, error: Some(error) }
    }
}

/// Device to daemon: FIDO2 wants to co-authorize an operation before the
/// button. The device already built `auth_data`; `client_data_hash` is opaque
/// request bytes.
#[derive(Debug, Clone)]
pub struct CoauthReq<'a> {
    pub req_id: &'a [u8],
    pub op: Op,
    pub rp_id: &'a str,
    pub client_data_hash: &'a [u8],
    pub auth_data: &'a [u8],
    pub credential_id: &'a [u8],
    pub user_name: Option<&'a str>,
    pub user_handle: Option<&'a [u8]>,
}

impl CoauthReq<'_> {
    /// Whether a request has the shape that `validate` accepts.
    pub open spec fn well_shaped(&self) -> bool {
        &&& self.req_id@.len() == REQ_ID_LEN
        &&& self.rp_id@.len() > 0
        &&& self.client_data_hash@.len() == CLIENT_DATA_HASH_LEN
        &&& self.auth_data@.len() >= AUTH_DATA_MIN_LEN
        &&& self.credential_id@.len() > 0
    }

    /// The message of the first shape check that the request fails, if any.
    pub open spec fn shape_error(&self) -> Option<Seq<char>> {
        if self.req_id@.len() != REQ_ID_LEN {
            Some("req_id length"@)
        } else if self.rp_id@.len() == 0 {
            Some("empty rp_id"@)
        } else if self.client_data_hash@.len() != CLIENT_DATA_HASH_LEN {
            Some("client_data_hash length"@)
        } else if self.auth_data@.len() < AUTH_DATA_MIN_LEN {
            Some("auth_data too short"@)
        } else if self.credential_id@.len() == 0 {
            Some("empty credential_id"@)
        } else {
            None
        }
    }

    /// Shape-checks a decoded request; the first failed check names the
    /// error. The daemon additionally verifies `SHA-256(rp_id) ==
    /// auth_data[0..32]` and applies RP policy and dedup before approving.
    pub fn validate(&self) -> (r: Result<(), &'static str>)
        ensures
            r is Ok <==> self.well_shaped(),
            r is Ok <==> (self.req_id@.len() == REQ_ID_LEN && self.rp_id@.len() > 0
                && self.client_data_hash@.len() == CLIENT_DATA_HASH_LEN && self.auth_data@.len()
                >= AUTH_DATA_MIN_LEN && self.credential_id@.len() > 0),
            self.req_id@.len() != REQ_ID_LEN ==> (r matches Err(m) && m@ == "req_id length"@),
            self.req_id@.len() == REQ_ID_LEN && self.rp_id@.len() == 0 ==> (r matches Err(m) && m@
                == "empty rp_id"@),
            self.req_id@.len() == REQ_ID_LEN && self.rp_id@.len() > 0
                && self.client_data_hash@.len() != CLIENT_DATA_HASH_LEN ==> (r matches Err(m) && m@
                == "client_data_hash length"@),
            self.req_id@.len() == REQ_ID_LEN && self.rp_id@.len() > 0
                && self.client_data_hash@.len() == CLIENT_DATA_HASH_LEN && self.auth_data@.len()
                < AUTH_DATA_MIN_LEN ==> (r matches Err(m) && m@ == "auth_data too short"@),
            self.req_id@.len() == REQ_ID_LEN && self.rp_id@.len() > 0
                && self.client_data_hash@.len() == CLIENT_DATA_HASH_LEN && self.auth_data@.len()
                >= AUTH_DATA_MIN_LEN && self.credential_id@.len() == 0 ==> (r matches Err(m) && m@
                == "empty credential_id"@),
            match r {
                Ok(_) => self.shape_error() is None,
                Err(m) => self.shape_error() == Some(m@),
            },
    {
        if self.req_id.len() != REQ_ID_LEN {
            return Err("req_id length");
        }
        if self.rp_id.is_empty() {
            return Err("empty rp_id");
        }
        if self.client_data_hash.len() != CLIENT_DATA_HASH_LEN {
            return Err("client_data_hash length");
        }
        if self.auth_data.len() < AUTH_DATA_MIN_LEN {
            return Err("auth_data too short");
        }
        if self.credential_id.is_empty() {
            return Err("empty credential_id");
        }
        Ok(())
    }
}

/// Daemon to device: the co-authorization verdict. `approve == false` means
/// the desktop policy denied (or timed out); the device then answers the host
/// with an operation-denied error and never lights the button.
#[derive(Debug, Clone)]
pub struct CoauthResp<'a> {
    pub req_id: &'a [u8],
    pub approve: bool,
    pub reason: Option<&'a str>,
}

impl<'a> CoauthResp<'a> {
    /// An approval, with no reason.
    pub fn approve(req_id: &'a [u8]) -> (r: Self)
        ensures
            r.req_id == req_id,
            r.approve,
            r.reason is None,
    {
        Self { req_id, approve: true, reason: None }
    }

    /// A denial, with its reason.
    pub fn deny(req_id: &'a [u8], reason: &'a str) -> (r: Self)
        ensures
            r.req_id == req_id,
            !r.approve,
            r.reason == Some(reason),
    {
        Self { req_id, approve: false, reason: Some(reason) }
    }
}

} // verus!
