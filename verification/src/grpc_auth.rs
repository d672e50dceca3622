//! The token by which nodes of a cluster know each other's calls.
//!
//! The token is derived from a secret that all nodes share. While a secret is
//! replaced, the tokens of both are accepted and that of the new one is sent.
//! Only digests of the accepted tokens are kept.

use vstd::prelude::*;

use crate::digest;
use crate::text;

verus! {

/// The header that carries the token.
pub const CLUSTER_GRPC_AUTH_HEADER: &'static str = "x-convex-cluster-auth";

/// The byte may stand in the value of a header.
pub open spec fn header_byte(b: u8) -> bool {
    (b >= 32 && b != 127) || b == 9
}

/// The text may be the value of a header.
pub open spec fn is_header_value(token: Seq<char>) -> bool {
    let bytes = vstd::utf8::encode_utf8(token);
    forall|i: int| 0 <= i < bytes.len() ==> header_byte(#[trigger] bytes[i])
}

/// Calls `tonic::metadata::MetadataValue::try_from` for a text: it succeeds
/// where every byte may stand in the value of a header, which are all bytes
/// but the control characters other than the tab.
#[verifier::external_body]
fn metadata_accepts(token: &str) -> (r: bool)
    ensures
        r == is_header_value(token@),
{
    tonic::metadata::MetadataValue::try_from(token).is_ok()
}

/// Why a token cannot be used, or a call is refused.
#[derive(Clone, Copy, Debug, PartialEq, Eq, Structural)]
pub enum AuthError {
    EmptyToken,
    InvalidToken,
    EmptyPreviousToken,
    InvalidPreviousToken,
    MissingToken,
    WrongToken,
}

impl AuthError {
    /// The text of the error.
    pub open spec fn text(self) -> Seq<char> {
        match self {
            AuthError::EmptyToken => "cluster gRPC auth token cannot be empty"@,
            AuthError::InvalidToken => "cluster gRPC auth token is not valid ASCII metadata"@,
            AuthError::EmptyPreviousToken => "previous cluster gRPC auth token cannot be empty"@,
            AuthError::InvalidPreviousToken => {
                "previous cluster gRPC auth token is not valid ASCII metadata"@
            },
            AuthError::MissingToken => "Missing cluster gRPC auth token"@,
            AuthError::WrongToken => "Invalid cluster gRPC auth token"@,
        }
    }

    /// The text of the error.
    pub fn message(&self) -> (r: String)
        ensures
            r@ == self.text(),
    {
        match self {
            AuthError::EmptyToken => "cluster gRPC auth token cannot be empty",
            AuthError::InvalidToken => "cluster gRPC auth token is not valid ASCII metadata",
            AuthError::EmptyPreviousToken => "previous cluster gRPC auth token cannot be empty",
            AuthError::InvalidPreviousToken => {
                "previous cluster gRPC auth token is not valid ASCII metadata"
            },
            AuthError::MissingToken => "Missing cluster gRPC auth token",
            AuthError::WrongToken => "Invalid cluster gRPC auth token",
        }.to_owned()
    }
}

/// The digest by which a token is known.
pub open spec fn token_digest_of(token: Seq<u8>) -> Seq<u8> {
    digest::sha256(vstd::utf8::encode_utf8("convex-cluster-grpc-auth-token-v1"@) + token)
}

/// The token of a secret.
pub open spec fn token_of_secret(secret: Seq<u8>) -> Seq<char> {
    digest::hex_text(
        digest::sha256(vstd::utf8::encode_utf8("convex-cluster-grpc-v1"@) + secret),
    )
}

/// The digest of a text and the bytes behind it.
fn prefixed_digest(prefix: &str, bytes: &[u8]) -> (r: Vec<u8>)
    ensures
        r@ == digest::sha256(vstd::utf8::encode_utf8(prefix@) + bytes@),
        r@.len() == 32,
{
    let mut all: Vec<u8> = vstd::slice::slice_to_vec(prefix.as_bytes());
    all.extend_from_slice(bytes);
    assert(all@ =~= vstd::utf8::encode_utf8(prefix@) + bytes@);
    digest::sha256_of(all.as_slice())
}

/// The digest by which a token is known.
fn token_digest(token: &[u8]) -> (r: Vec<u8>)
    ensures
        r@ == token_digest_of(token@),
        r@.len() == 32,
{
    prefixed_digest("convex-cluster-grpc-auth-token-v1", token)
}

/// Whether two byte strings are the same. How long it takes depends on their
/// lengths alone.
pub fn constant_time_eq(a: &[u8], b: &[u8]) -> (r: bool)
    ensures
        r == (a@ == b@),
{
    if a.len() != b.len() {
        return false;
    }
    let mut diff: u8 = 0;
    let mut i: usize = 0;
    while i < a.len()
        invariant
            a@.len() == b@.len(),
            i <= a@.len(),
            diff == 0 <==> forall|k: int| 0 <= k < i ==> a@[k] == b@[k],
        decreases a@.len() - i,
    {
        let left: u8 = a[i];
        let right: u8 = b[i];
        proof {
            assert((diff | (left ^ right)) == 0 <==> diff == 0 && left == right) by (bit_vector);
        }
        diff = diff | (left ^ right);
        i = i + 1;
    }
    assert(diff == 0 ==> a@ =~= b@);
    diff == 0
}

/// What a node sends and accepts.
pub struct ClusterGrpcAuth {
    header_value: String,
    accepted_token_digests: Vec<Vec<u8>>,
}

/// What a [`ClusterGrpcAuth`] states.
#[verifier::ext_equal]
pub struct AuthView {
    /// The token that is sent.
    pub token: Seq<char>,
    /// The digests of the tokens that are accepted.
    pub accepted: Seq<Seq<u8>>,
}

/// The views of byte strings.
pub open spec fn digests_view(digests: Seq<Vec<u8>>) -> Seq<Seq<u8>> {
    Seq::new(digests.len(), |i: int| digests[i]@)
}

impl View for ClusterGrpcAuth {
    type V = AuthView;

    closed spec fn view(&self) -> AuthView {
        AuthView {
            token: self.header_value@,
            accepted: digests_view(self.accepted_token_digests@),
        }
    }
}

impl AuthView {
    /// A token with this digest is accepted.
    pub open spec fn accepts_digest(self, sum: Seq<u8>) -> bool {
        self.accepted.contains(sum)
    }

    /// The token is accepted.
    pub open spec fn accepts(self, token: Seq<u8>) -> bool {
        self.accepts_digest(token_digest_of(token))
    }
}

/// The digest of a text.
pub open spec fn text_digest(token: Seq<char>) -> Seq<u8> {
    token_digest_of(vstd::utf8::encode_utf8(token))
}

/// What is wrong with the first of `n` earlier tokens that is.
pub open spec fn previous_error(tokens: Seq<Seq<char>>, n: nat) -> Option<AuthError>
    decreases n,
{
    if n == 0 {
        None
    } else {
        match previous_error(tokens, (n - 1) as nat) {
            Some(error) => Some(error),
            None => {
                let token = text::trim(tokens[n - 1]);
                if token.len() == 0 {
                    Some(AuthError::EmptyPreviousToken)
                } else if !is_header_value(token) {
                    Some(AuthError::InvalidPreviousToken)
                } else {
                    None
                }
            },
        }
    }
}

/// What a node with these tokens sends and accepts.
pub open spec fn auth_of(current: Seq<char>, previous: Seq<Seq<char>>) -> Result<
    AuthView,
    AuthError,
> {
    let token = text::trim(current);
    if token.len() == 0 {
        Err(AuthError::EmptyToken)
    } else if !is_header_value(token) {
        Err(AuthError::InvalidToken)
    } else {
        match previous_error(previous, previous.len()) {
            Some(error) => Err(error),
            None => Ok(
                AuthView {
                    token,
                    accepted: seq![text_digest(token)] + previous.map_values(
                        |earlier: Seq<char>| text_digest(text::trim(earlier)),
                    ),
                },
            ),
        }
    }
}

proof fn lemma_previous_error_stays(tokens: Seq<Seq<char>>, n: nat, m: nat)
    requires
        n <= m,
        previous_error(tokens, n) is Some,
    ensures
        previous_error(tokens, m) == previous_error(tokens, n),
    decreases m - n,
{
    if n < m {
        lemma_previous_error_stays(tokens, n, (m - 1) as nat);
    }
}

proof fn lemma_trim_keeps(s: Seq<char>)
    requires
        forall|i: int| 0 <= i < s.len() ==> !text::is_white_space(#[trigger] s[i]),
    ensures
        text::trim(s) == s,
{
    if s.len() > 0 {
        assert(!text::is_white_space(s[0]));
        assert(!text::is_white_space(s[s.len() - 1]));
    }
}

proof fn lemma_hex_is_a_token(bytes: Seq<u8>)
    requires
        bytes.len() == 32,
    ensures
        text::trim(digest::hex_text(bytes)) == digest::hex_text(bytes),
        digest::hex_text(bytes).len() == 64,
        is_header_value(digest::hex_text(bytes)),
{
    let token = digest::hex_text(bytes);
    assert forall|i: int| 0 <= i < token.len() implies ('0' <= #[trigger] token[i] <= '9' || 'a'
        <= token[i] <= 'f') by {
        assert(0 <= i / 2 < bytes.len());
    }
    lemma_trim_keeps(token);
    assert(vstd::utf8::is_ascii_chars(token));
    vstd::utf8::is_ascii_chars_encode_utf8(token);
    let encoded = vstd::utf8::encode_utf8(token);
    assert forall|i: int| 0 <= i < encoded.len() implies header_byte(#[trigger] encoded[i]) by {
        assert(encoded[i] == token[i] as u8);
    }
}

/// The token of a secret.
fn derive_token(secret: &[u8]) -> (r: String)
    ensures
        r@ == token_of_secret(secret@),
        text::trim(r@) == r@,
        r@.len() == 64,
        is_header_value(r@),
{
    let sum = prefixed_digest("convex-cluster-grpc-v1", secret);
    proof {
        lemma_hex_is_a_token(sum@);
    }
    digest::hex_encode(sum.as_slice())
}

impl ClusterGrpcAuth {
    /// Sends and accepts the token of a secret. Every secret will do.
    pub fn from_shared_secret(secret: &[u8]) -> (r: Result<Self, AuthError>)
        ensures
            r matches Ok(auth) && auth@ == (AuthView {
                token: token_of_secret(secret@),
                accepted: seq![text_digest(token_of_secret(secret@))],
            }),
    {
        let none: Vec<String> = Vec::new();
        let r = Self::from_bearer_tokens(derive_token(secret), &none);
        proof {
            assert(text::texts(none@) =~= Seq::empty());
            assert(r->Ok_0@.accepted =~= seq![text_digest(token_of_secret(secret@))]);
        }
        r
    }

    /// Sends the token of a secret, and accepts it and that of the secret
    /// before.
    pub fn from_shared_secret_with_previous(
        current_secret: &[u8],
        previous_secret: &[u8],
    ) -> (r: Result<Self, AuthError>)
        ensures
            r matches Ok(auth) && auth@ == (AuthView {
                token: token_of_secret(current_secret@),
                accepted: seq![
                    text_digest(token_of_secret(current_secret@)),
                    text_digest(token_of_secret(previous_secret@)),
                ],
            }),
    {
        let mut previous: Vec<String> = Vec::new();
        previous.push(derive_token(previous_secret));
        let r = Self::from_bearer_tokens(derive_token(current_secret), &previous);
        proof {
            let earlier = text::texts(previous@);
            assert(earlier =~= seq![token_of_secret(previous_secret@)]);
            assert(previous_error(earlier, 0) is None);
            assert(previous_error(earlier, 1) is None);
            assert(r->Ok_0@.accepted =~= seq![
                text_digest(token_of_secret(current_secret@)),
                text_digest(token_of_secret(previous_secret@)),
            ]);
        }
        r
    }

    /// Sends and accepts this token.
    pub fn for_test(token: &str) -> (r: Result<Self, AuthError>)
        ensures
            match r {
                Ok(auth) => auth_of(token@, Seq::empty()) == Ok::<AuthView, AuthError>(auth@),
                Err(error) => auth_of(token@, Seq::empty()) == Err::<AuthView, AuthError>(error),
            },
    {
        let none: Vec<String> = Vec::new();
        assert(text::texts(none@) =~= Seq::empty());
        Self::from_bearer_tokens(token.to_owned(), &none)
    }

    /// Sends this token, and accepts it and an earlier one.
    pub fn for_test_with_previous(token: &str, previous_token: &str) -> (r: Result<
        Self,
        AuthError,
    >)
        ensures
            match r {
                Ok(auth) => auth_of(token@, seq![previous_token@]) == Ok::<AuthView, AuthError>(
                    auth@,
                ),
                Err(error) => auth_of(token@, seq![previous_token@]) == Err::<AuthView, AuthError>(
                    error,
                ),
            },
    {
        let mut previous: Vec<String> = Vec::new();
        previous.push(previous_token.to_owned());
        assert(text::texts(previous@) =~= seq![previous_token@]);
        Self::from_bearer_tokens(token.to_owned(), &previous)
    }

    /// Sends a token, and accepts it and earlier ones.
    pub fn from_bearer_tokens(current_token: String, previous_tokens: &Vec<String>) -> (r: Result<
        Self,
        AuthError,
    >)
        ensures
            match r {
                Ok(auth) => auth_of(current_token@, text::texts(previous_tokens@)) == Ok::<
                    AuthView,
                    AuthError,
                >(auth@),
                Err(error) => auth_of(current_token@, text::texts(previous_tokens@)) == Err::<
                    AuthView,
                    AuthError,
                >(error),
            },
    {
        let ghost earlier = text::texts(previous_tokens@);
        let token = text::trimmed(current_token.as_str());
        if token.as_str().unicode_len() == 0 {
            return Err(AuthError::EmptyToken);
        }
        if !metadata_accepts(token.as_str()) {
            return Err(AuthError::InvalidToken);
        }
        let mut digests: Vec<Vec<u8>> = Vec::new();
        digests.push(token_digest(token.as_str().as_bytes()));
        let ghost sums = earlier.map_values(|e: Seq<char>| text_digest(text::trim(e)));
        assert(digests_view(digests@) =~= seq![text_digest(token@)] + sums.take(0));
        let mut i: usize = 0;
        while i < previous_tokens.len()
            invariant
                i <= previous_tokens@.len(),
                earlier == text::texts(previous_tokens@),
                sums == earlier.map_values(|e: Seq<char>| text_digest(text::trim(e))),
                token@ == text::trim(current_token@),
                token@.len() > 0,
                is_header_value(token@),
                previous_error(earlier, i as nat) is None,
                digests_view(digests@) == seq![text_digest(token@)] + sums.take(i as int),
            decreases previous_tokens@.len() - i,
        {
            let previous = text::trimmed(previous_tokens[i].as_str());
            let ghost stated = previous@;
            proof {
                assert(earlier[i as int] == previous_tokens@[i as int]@);
            }
            if previous.as_str().unicode_len() == 0 {
                proof {
                    assert(previous_error(earlier, (i + 1) as nat) is Some);
                    lemma_previous_error_stays(earlier, (i + 1) as nat, earlier.len());
                }
                return Err(AuthError::EmptyPreviousToken);
            }
            if !metadata_accepts(previous.as_str()) {
                proof {
                    assert(previous_error(earlier, (i + 1) as nat) is Some);
                    lemma_previous_error_stays(earlier, (i + 1) as nat, earlier.len());
                }
                return Err(AuthError::InvalidPreviousToken);
            }
            let ghost before = digests@;
            digests.push(token_digest(previous.as_str().as_bytes()));
            proof {
                assert(previous_error(earlier, (i + 1) as nat) is None);
                assert(digests_view(digests@) =~= digests_view(before).push(text_digest(stated)));
                assert(sums.take(i + 1) =~= sums.take(i as int).push(text_digest(stated)));
                assert(digests_view(digests@) =~= seq![text_digest(token@)] + sums.take(i + 1));
            }
            i = i + 1;
        }
        assert(sums.take(sums.len() as int) =~= sums);
        Ok(ClusterGrpcAuth { header_value: token, accepted_token_digests: digests })
    }

    /// The value of the header that is sent.
    pub fn header_value(&self) -> (r: &str)
        ensures
            r@ == self@.token,
    {
        self.header_value.as_str()
    }

    /// How a value prints: with the number of accepted tokens and nothing of
    /// the tokens themselves.
    pub fn describe(&self) -> (r: String)
        ensures
            r@ == "ClusterGrpcAuth { header: \"x-convex-cluster-auth\", accepted_token_count: "@
                + text::decimal(self@.accepted.len()) + ", .. }"@,
    {
        let mut s =
            "ClusterGrpcAuth { header: \"x-convex-cluster-auth\", accepted_token_count: ".to_owned();
        text::push_decimal(&mut s, self.accepted_token_digests.len() as u64);
        s.append(", .. }");
        s
    }

    /// Whether a token with this digest is accepted.
    pub fn accepts_digest(&self, sum: &Vec<u8>) -> (r: bool)
        ensures
            r == self@.accepts_digest(sum@),
    {
        let mut i: usize = 0;
        while i < self.accepted_token_digests.len()
            invariant
                i <= self.accepted_token_digests@.len(),
                forall|k: int|
                    0 <= k < i ==> (#[trigger] self.accepted_token_digests@[k])@ != sum@,
            decreases self.accepted_token_digests@.len() - i,
        {
            if constant_time_eq(sum.as_slice(), self.accepted_token_digests[i].as_slice()) {
                assert(self@.accepted[i as int] == sum@);
                return true;
            }
            i = i + 1;
        }
        proof {
            if self@.accepted.contains(sum@) {
                let k = self@.accepted.index_of(sum@);
                assert(self.accepted_token_digests@[k]@ == sum@);
            }
        }
        false
    }

    /// Whether a call with this header may pass.
    pub fn authenticate(&self, actual: Option<&[u8]>) -> (r: Result<(), AuthError>)
        ensures
            r == (match actual {
                None => Err(AuthError::MissingToken),
                Some(token) => if self@.accepts(token@) {
                    Ok(())
                } else {
                    Err(AuthError::WrongToken)
                },
            }),
    {
        match actual {
            None => Err(AuthError::MissingToken),
            Some(token) => {
                let sum = token_digest(token);
                if self.accepts_digest(&sum) {
                    Ok(())
                } else {
                    Err(AuthError::WrongToken)
                }
            },
        }
    }
}

/// A node accepts the token that it sends, and while a token is replaced also
/// those before it. So nodes with the new and with the old token accept each
/// other.
pub proof fn rotation_keeps_the_cluster_together(
    current: Seq<char>,
    previous: Seq<Seq<char>>,
    i: int,
)
    ensures
        auth_of(current, previous) matches Ok(auth) ==> {
            &&& auth.token == text::trim(current)
            &&& auth.accepts(vstd::utf8::encode_utf8(auth.token))
            &&& 0 <= i < previous.len() ==> auth.accepts(
                vstd::utf8::encode_utf8(text::trim(previous[i])),
            )
        },
{
    match auth_of(current, previous) {
        Ok(auth) => {
            assert(auth.accepted[0] == text_digest(auth.token));
            if 0 <= i < previous.len() {
                assert(auth.accepted[i + 1] == text_digest(text::trim(previous[i])));
            }
        },
        Err(_) => {},
    }
}

/// A token is accepted only if its digest is that of the current token or of
/// an earlier one.
pub proof fn only_known_tokens_are_accepted(
    current: Seq<char>,
    previous: Seq<Seq<char>>,
    token: Seq<u8>,
)
    ensures
        auth_of(current, previous) matches Ok(auth) ==> auth.accepts(token) ==> token_digest_of(
            token,
        ) == text_digest(text::trim(current)) || exists|i: int|
            0 <= i < previous.len() && token_digest_of(token) == text_digest(
                text::trim(#[trigger] previous[i]),
            ),
{
    match auth_of(current, previous) {
        Ok(auth) => {
            if auth.accepts(token) {
                let k = auth.accepted.index_of(token_digest_of(token));
                if k > 0 {
                    assert(auth.accepted[k] == text_digest(text::trim(previous[k - 1])));
                }
            }
        },
        Err(_) => {},
    }
}

/// Control characters other than the tab cannot stand in the value of a header.
/// Everything else can.
pub proof fn control_characters_are_no_header_bytes(b: u8)
    ensures
        header_byte(b) <==> b == 9 || 32 <= b <= 126 || 128 <= b,
{
}

/// Every byte of a text counts: one that may not stand in the value of a header
/// spoils it, wherever it is, and nothing else does.
pub proof fn every_byte_of_a_header_value_counts(token: Seq<char>, i: int)
    ensures
        is_header_value(token) && 0 <= i < vstd::utf8::encode_utf8(token).len() ==> {
            let b = vstd::utf8::encode_utf8(token)[i];
            b == 9 || 32 <= b <= 126 || 128 <= b
        },
        !is_header_value(token) ==> exists|k: int|
            0 <= k < vstd::utf8::encode_utf8(token).len() && {
                let b = #[trigger] vstd::utf8::encode_utf8(token)[k];
                b == 127 || (b < 32 && b != 9)
            },
{
}

/// A token can be used where something of it is left without the blanks round
/// it, and what is left may be the value of a header. A node can be made of the
/// tokens where each of them can be used.
pub proof fn every_token_must_be_usable(current: Seq<char>, previous: Seq<Seq<char>>)
    ensures
        auth_of(current, previous) is Ok <==> {
            &&& text::trim(current).len() > 0
            &&& is_header_value(text::trim(current))
            &&& forall|i: int|
                0 <= i < previous.len() ==> text::trim(#[trigger] previous[i]).len() > 0
                    && is_header_value(text::trim(previous[i]))
        },
{
    lemma_first_unusable(previous, previous.len());
}

/// The first token that cannot be used is named, the current one before the
/// earlier ones, and with what is wrong with it.
pub proof fn the_first_unusable_token_is_named(
    current: Seq<char>,
    previous: Seq<Seq<char>>,
    i: int,
)
    requires
        0 <= i < previous.len(),
        forall|k: int|
            0 <= k < i ==> text::trim(#[trigger] previous[k]).len() > 0 && is_header_value(
                text::trim(previous[k]),
            ),
    ensures
        auth_of(current, previous) == Err::<AuthView, AuthError>(AuthError::EmptyToken)
            <==> text::trim(current).len() == 0,
        auth_of(current, previous) == Err::<AuthView, AuthError>(AuthError::InvalidToken)
            <==> text::trim(current).len() > 0 && !is_header_value(text::trim(current)),
        text::trim(current).len() > 0 && is_header_value(text::trim(current)) ==> {
            &&& text::trim(previous[i]).len() == 0 ==> auth_of(current, previous) == Err::<
                AuthView,
                AuthError,
            >(AuthError::EmptyPreviousToken)
            &&& text::trim(previous[i]).len() > 0 && !is_header_value(text::trim(previous[i]))
                ==> auth_of(current, previous) == Err::<AuthView, AuthError>(
                AuthError::InvalidPreviousToken,
            )
        },
{
    lemma_first_unusable(previous, previous.len());
    lemma_first_unusable(previous, i as nat);
    lemma_errors_stay(previous, (i + 1) as nat, previous.len());
}

/// There is something wrong with the first `n` earlier tokens where one of them
/// cannot be used.
proof fn lemma_first_unusable(tokens: Seq<Seq<char>>, n: nat)
    requires
        n <= tokens.len(),
    ensures
        previous_error(tokens, n) is None <==> forall|i: int|
            0 <= i < n ==> text::trim(#[trigger] tokens[i]).len() > 0 && is_header_value(
                text::trim(tokens[i]),
            ),
        previous_error(tokens, n) matches Some(error) ==> error is EmptyPreviousToken || error
            is InvalidPreviousToken,
    decreases n,
{
    if n > 0 {
        lemma_first_unusable(tokens, (n - 1) as nat);
        if previous_error(tokens, n) is None {
            assert forall|i: int| 0 <= i < n implies text::trim(#[trigger] tokens[i]).len() > 0
                && is_header_value(text::trim(tokens[i])) by {
                if i == n - 1 {
                    assert(tokens[n - 1] == tokens[i]);
                }
            }
        }
    }
}

/// What is wrong with the first tokens stays so whatever follows them.
proof fn lemma_errors_stay(tokens: Seq<Seq<char>>, m: nat, n: nat)
    requires
        m <= n,
    ensures
        previous_error(tokens, m) is Some ==> previous_error(tokens, n) == previous_error(
            tokens,
            m,
        ),
    decreases n,
{
    if m < n {
        lemma_errors_stay(tokens, m, (n - 1) as nat);
    }
}

/// A call passes where its token is the current one or an earlier one, as far
/// as digests tell tokens apart, and each of them is accepted.
pub proof fn accepted_tokens_are_the_given_ones(
    current: Seq<char>,
    previous: Seq<Seq<char>>,
    token: Seq<u8>,
)
    ensures
        auth_of(current, previous) matches Ok(auth) ==> {
            &&& auth.accepted.len() == previous.len() + 1
            &&& auth.accepts(token) <==> {
                ||| token_digest_of(token) == token_digest_of(
                    vstd::utf8::encode_utf8(text::trim(current)),
                )
                ||| exists|i: int|
                    0 <= i < previous.len() && token_digest_of(token) == token_digest_of(
                        vstd::utf8::encode_utf8(text::trim(#[trigger] previous[i])),
                    )
            }
        },
{
    if let Ok(auth) = auth_of(current, previous) {
        only_known_tokens_are_accepted(current, previous, token);
        assert(auth.accepted[0] == text_digest(text::trim(current)));
        assert forall|i: int| 0 <= i < previous.len() && token_digest_of(token) == token_digest_of(
            vstd::utf8::encode_utf8(text::trim(#[trigger] previous[i])),
        ) implies auth.accepts(token) by {
            assert(auth.accepted[i + 1] == text_digest(text::trim(previous[i])));
        }
    }
}

/// Tokens and the digests by which they are known are digests of what they are
/// made of behind a mark, and the two marks differ, so that nothing passes for
/// a token and for the digest of one.
pub proof fn tokens_and_their_digests_bear_marks(bytes: Seq<u8>)
    ensures
        ({
            let digest_mark = "convex-cluster-grpc-auth-token-v1"@;
            let token_mark = "convex-cluster-grpc-v1"@;
            &&& token_digest_of(bytes) == digest::sha256(
                vstd::utf8::encode_utf8(digest_mark) + bytes,
            )
            &&& token_of_secret(bytes) == digest::hex_text(
                digest::sha256(vstd::utf8::encode_utf8(token_mark) + bytes),
            )
            &&& digest_mark != token_mark
        }),
{
    reveal_strlit("convex-cluster-grpc-auth-token-v1");
    reveal_strlit("convex-cluster-grpc-v1");
    assert("convex-cluster-grpc-auth-token-v1"@.len() != "convex-cluster-grpc-v1"@.len());
}

} // verus!
