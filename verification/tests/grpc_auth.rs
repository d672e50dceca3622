use convex_cluster::grpc_auth::{
    constant_time_eq,
    AuthError,
    ClusterGrpcAuth,
    CLUSTER_GRPC_AUTH_HEADER,
};
use sha2::Digest;

#[test]
fn test_authenticate_requires_matching_token() -> Result<(), AuthError> {
    let auth = ClusterGrpcAuth::for_test("secret")?;
    assert_eq!(auth.authenticate(None), Err(AuthError::MissingToken));
    assert_eq!(auth.authenticate(Some(b"wrong")), Err(AuthError::WrongToken));
    auth.authenticate(Some(auth.header_value().as_bytes()))?;
    Ok(())
}

#[test]
fn test_authenticate_accepts_previous_token_during_rotation() -> Result<(), AuthError> {
    let auth = ClusterGrpcAuth::for_test_with_previous("current", "previous")?;
    let previous = ClusterGrpcAuth::for_test("previous")?;
    let current = ClusterGrpcAuth::for_test("current")?;

    auth.authenticate(Some(previous.header_value().as_bytes()))?;
    auth.authenticate(Some(current.header_value().as_bytes()))?;

    assert_eq!(
        auth.header_value(),
        current.header_value(),
        "rotating nodes should send the current token, not the previous token",
    );
    Ok(())
}

#[test]
fn test_auth_debug_does_not_expose_token_material() -> Result<(), AuthError> {
    let auth = ClusterGrpcAuth::for_test_with_previous("current-secret", "previous-secret")?;
    let debug = auth.describe();
    assert!(debug.contains(CLUSTER_GRPC_AUTH_HEADER));
    assert!(debug.contains("accepted_token_count"));
    assert!(!debug.contains("current-secret"));
    assert!(!debug.contains("previous-secret"));
    assert_eq!(
        debug,
        "ClusterGrpcAuth { header: \"x-convex-cluster-auth\", accepted_token_count: 2, .. }"
    );
    Ok(())
}

fn refused(result: Result<ClusterGrpcAuth, AuthError>) -> AuthError {
    match result {
        Ok(_) => panic!("accepted"),
        Err(error) => error,
    }
}

#[test]
fn unusable_tokens_are_refused() {
    assert_eq!(refused(ClusterGrpcAuth::for_test("  ")), AuthError::EmptyToken);
    assert_eq!(refused(ClusterGrpcAuth::for_test("a\u{0}b")), AuthError::InvalidToken);
    assert_eq!(
        refused(ClusterGrpcAuth::for_test_with_previous("a", "")),
        AuthError::EmptyPreviousToken
    );
    assert_eq!(
        refused(ClusterGrpcAuth::for_test_with_previous("a", "b\u{7f}")),
        AuthError::InvalidPreviousToken
    );
    assert_eq!(AuthError::WrongToken.message(), "Invalid cluster gRPC auth token");
    assert_eq!(AuthError::MissingToken.message(), "Missing cluster gRPC auth token");
}

#[test]
fn tokens_are_trimmed() -> Result<(), AuthError> {
    let auth = ClusterGrpcAuth::for_test(" token\t")?;
    assert_eq!(auth.header_value(), "token");
    auth.authenticate(Some(b"token"))
}

#[test]
fn the_token_of_a_secret_is_a_digest() -> Result<(), AuthError> {
    let auth = ClusterGrpcAuth::from_shared_secret(b"s")?;
    let expected = hex::encode(sha2::Sha256::digest(b"convex-cluster-grpc-v1s"));
    assert_eq!(auth.header_value(), expected);
    assert_eq!(auth.header_value().len(), 64);

    let rotated = ClusterGrpcAuth::from_shared_secret_with_previous(b"t", b"s")?;
    rotated.authenticate(Some(auth.header_value().as_bytes()))?;
    assert_eq!(
        auth.authenticate(Some(rotated.header_value().as_bytes())),
        Err(AuthError::WrongToken)
    );
    Ok(())
}

#[test]
fn digests_are_compared_whole() {
    assert!(constant_time_eq(b"", b""));
    assert!(constant_time_eq(b"abc", b"abc"));
    assert!(!constant_time_eq(b"abc", b"abd"));
    assert!(!constant_time_eq(b"abc", b"ab"));
    let auth = ClusterGrpcAuth::for_test("x").unwrap();
    assert!(!auth.accepts_digest(&vec![0; 32]));
}
