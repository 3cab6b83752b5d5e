use corekeys_protocol::records::{CoauthReq, CoauthResp, Op, SignReq, SignResp};

#[test]
fn coauthreq_validate_rejects_bad_shapes() {
    let good = [0u8; 37];
    let base = CoauthReq {
        req_id: &[0; 8], op: Op::Fido2Assert, rp_id: "rp",
        client_data_hash: &[0; 32], auth_data: &good, credential_id: &[1; 4],
        user_name: None, user_handle: None,
    };
    base.validate().unwrap();
    assert!(CoauthReq { req_id: &[0; 7], ..base.clone() }.validate().is_err());
    assert!(CoauthReq { rp_id: "", ..base.clone() }.validate().is_err());
    assert!(CoauthReq { client_data_hash: &[0; 31], ..base.clone() }.validate().is_err());
    assert!(CoauthReq { auth_data: &[0; 36], ..base.clone() }.validate().is_err());
    assert!(CoauthReq { credential_id: &[], ..base.clone() }.validate().is_err());
}

#[test]
fn coauthreq_validate_names_the_first_failure() {
    let good = [0u8; 37];
    let base = CoauthReq {
        req_id: &[0; 8], op: Op::Fido2MakeCred, rp_id: "example.com",
        client_data_hash: &[0; 32], auth_data: &good, credential_id: &[1; 4],
        user_name: Some("felipe"), user_handle: Some(&[0xCD; 16]),
    };
    assert_eq!(CoauthReq { req_id: &[0; 9], rp_id: "", ..base.clone() }.validate(), Err("req_id length"));
    assert_eq!(CoauthReq { rp_id: "", auth_data: &[], ..base.clone() }.validate(), Err("empty rp_id"));
    assert_eq!(CoauthReq { client_data_hash: &[0; 33], ..base.clone() }.validate(), Err("client_data_hash length"));
    assert_eq!(CoauthReq { auth_data: &[0; 36], credential_id: &[], ..base.clone() }.validate(), Err("auth_data too short"));
    assert_eq!(CoauthReq { credential_id: &[], ..base.clone() }.validate(), Err("empty credential_id"));
    let long_auth = [0u8; 200];
    assert_eq!(CoauthReq { auth_data: &long_auth, ..base.clone() }.validate(), Ok(()));
}

#[test]
fn signreq_validate_checks_req_id_then_tbs() {
    let req = SignReq {
        req_id: &[1, 2, 3, 4, 5, 6, 7, 8],
        op: Op::SshUserauth,
        tbs: &[0xde, 0xad, 0xbe, 0xef],
        verified_hostkey: &[0x11; 32],
        hostkey_nickname: "prod-db",
        is_forwarding: false,
        username: "felipe",
    };
    assert_eq!(req.validate(), Ok(()));
    assert_eq!(SignReq { req_id: &[1; 7], tbs: &[], ..req.clone() }.validate(), Err("req_id length"));
    assert_eq!(SignReq { tbs: &[], ..req.clone() }.validate(), Err("empty tbs"));
}

#[test]
fn signresp_constructors() {
    let ok = SignResp::ok(&[9; 8], &[0xAB; 64]);
    assert_eq!(ok.req_id, &[9; 8]);
    assert_eq!(ok.signature, &[0xAB; 64]);
    assert!(ok.error.is_none());
    let err = SignResp::err(&[9; 8], "user-denied");
    assert_eq!(err.req_id, &[9; 8]);
    assert!(err.signature.is_empty());
    assert_eq!(err.error, Some("user-denied"));
}

#[test]
fn coauthresp_constructors() {
    let a = CoauthResp::approve(&[7; 8]);
    assert!(a.approve);
    assert!(a.reason.is_none());
    assert_eq!(a.req_id, &[7; 8]);
    let d = CoauthResp::deny(&[7; 8], "rp-not-allowed");
    assert!(!d.approve);
    assert_eq!(d.reason, Some("rp-not-allowed"));
}

#[test]
fn coauthreq_full_request_validates() {
    let auth_data = [0x5a; 37]; // getAssertion authData floor
    let req = CoauthReq {
        req_id: &[1, 2, 3, 4, 5, 6, 7, 8],
        op: Op::Fido2Assert,
        rp_id: "example.com",
        client_data_hash: &[0x11; 32],
        auth_data: &auth_data,
        credential_id: &[0xAB; 93],
        user_name: Some("felipe"),
        user_handle: Some(&[0xCD; 16]),
    };
    req.validate().unwrap();
    assert_eq!(req.op, Op::Fido2Assert);
    assert_eq!(req.user_handle, Some(&[0xCD; 16][..]));
}
