use turbowire::signature::{
    constant_time_eq, create_connection_token, is_valid_room_name, sign_room, verify_signature,
    TokenError,
};

const SIG_K_R1: &str = "rI2pAeNF0ofFYCZWdXdESED5l79SvPimpZNJZK5TFJg";

#[test]
fn sign_room_matches_known_hmac() {
    assert_eq!(sign_room("k", "r1"), SIG_K_R1);
    assert_eq!(
        sign_room("secret", "room-42"),
        "QVXLfS01HsiLATBwihF88f5l8fMaiC5kg7o9pw5B-ZU"
    );
}

#[test]
fn signature_has_no_padding() {
    let sig = sign_room("k", "r1");
    assert_eq!(sig.len(), 43);
    assert!(!sig.contains('='));
    assert!(!sig.contains('+'));
    assert!(!sig.contains('/'));
}

#[test]
fn signed_admission_accepts_valid_signature() {
    assert!(verify_signature(Some("k"), "r1", SIG_K_R1));
}

#[test]
fn signed_admission_rejects_wrong_signature() {
    assert!(!verify_signature(Some("k"), "r1", "zzz"));
    assert!(!verify_signature(Some("k"), "r2", SIG_K_R1));
    assert!(!verify_signature(Some("other"), "r1", SIG_K_R1));
}

#[test]
fn verify_without_key_rejects() {
    assert!(!verify_signature(None, "r1", SIG_K_R1));
}

#[test]
fn constant_time_eq_cases() {
    assert!(constant_time_eq("", ""));
    assert!(constant_time_eq("abc", "abc"));
    assert!(!constant_time_eq("abc", "abd"));
    assert!(!constant_time_eq("abc", "ab"));
    assert!(constant_time_eq("héllo", "héllo"));
    assert!(!constant_time_eq("héllo", "hello"));
}

#[test]
fn room_name_grammar() {
    assert!(is_valid_room_name("r1"));
    assert!(is_valid_room_name("My-Room-2"));
    assert!(is_valid_room_name("-"));
    assert!(!is_valid_room_name(""));
    assert!(!is_valid_room_name("bad room"));
    assert!(!is_valid_room_name("a_b"));
    assert!(!is_valid_room_name("r1&signature=x"));
    assert!(!is_valid_room_name("café"));
}

#[test]
fn mint_returns_signed_url() {
    let url = create_connection_token("ws://localhost:8080", "k", Some("k"), "r1").unwrap();
    assert_eq!(url, format!("ws://localhost:8080/?room=r1&signature={}", SIG_K_R1));
}

#[test]
fn mint_then_verify_round_trip() {
    for room in ["r1", "a", "Room-7", "x-y-z-0123456789"] {
        let url = create_connection_token("wss://example.org", "key", Some("key"), room).unwrap();
        let (_, sig) = url.rsplit_once("&signature=").unwrap();
        assert!(verify_signature(Some("key"), room, sig));
    }
}

#[test]
fn mint_rejects_invalid_room_names() {
    for room in ["", "a b", "room!", "ümlaut", "a/b", "x_y"] {
        assert_eq!(
            create_connection_token("ws://localhost:8080", "k", Some("k"), room),
            Err(TokenError::InvalidRoomName)
        );
    }
}

#[test]
fn mint_requires_signing_key_as_api_key() {
    assert_eq!(
        create_connection_token("ws://localhost:8080", "k", Some("wrong"), "r1"),
        Err(TokenError::InvalidApiKey)
    );
    assert_eq!(
        create_connection_token("ws://localhost:8080", "k", None, "r1"),
        Err(TokenError::InvalidApiKey)
    );
    assert_eq!(
        create_connection_token("ws://localhost:8080", "k", None, "bad room"),
        Err(TokenError::InvalidApiKey)
    );
}
