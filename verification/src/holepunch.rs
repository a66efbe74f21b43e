//! Hole punching: the sealed datagrams by which an exit node learns where a connector
//! is reached.
use crate::bytes::copy_range;
use crate::crypto::{
    b64_encode, b64_encoded, chacha_seal, chacha_sealed, random_array, x25519_diffie_hellman,
    x25519_public, x25519_shared, MAX_MESSAGE,
};
use crate::json::{empty_object, json_content, json_text, set_member, text_value, to_text, JsonView};
use crate::wg::{public_from_b64, public_key_of, StaticSecret};
use vstd::prelude::*;
use vstd::utf8::encode_utf8;

verus! {

/// What is sealed: the connector's id, the token and the public key.
pub open spec fn plaintext(
    id_field: Seq<char>,
    id: Seq<char>,
    token: Seq<char>,
    pub_b64: Seq<char>,
) -> JsonView {
    JsonView::Object(
        map![
            id_field => JsonView::Text(id),
            "token"@ => JsonView::Text(token),
            "publicKey"@ => JsonView::Text(pub_b64),
        ],
    )
}

/// What the exit node needs to open the seal, and the sealed text.
pub open spec fn sealed_envelope(eph_public: Seq<u8>, nonce: Seq<u8>, ciphertext: Seq<u8>) -> JsonView {
    JsonView::Object(
        map![
            "ephemeralPublicKey"@ => JsonView::Text(b64_encoded(eph_public)),
            "nonce"@ => JsonView::Text(b64_encoded(nonce)),
            "ciphertext"@ => JsonView::Text(b64_encoded(ciphertext)),
        ],
    )
}

/// The datagram for an ephemeral key and a nonce: the message is sealed under the key
/// that the ephemeral key shares with the server's. None where the server's key is no
/// key, or the message too long to be sealed.
pub open spec fn punch(message: JsonView, server_pub_b64: Seq<char>, eph: Seq<u8>, nonce: Seq<u8>) -> Option<
    Seq<u8>,
> {
    match public_key_of(server_pub_b64) {
        Ok(server) => if sealable(message) {
            let c = chacha_sealed(
                x25519_shared(eph, server),
                nonce,
                encode_utf8(json_text(message)),
            );
            Some(encode_utf8(json_text(sealed_envelope(x25519_public(eph), nonce, c))))
        } else {
            None
        },
        Err(_) => None,
    }
}

/// The message is short enough to be sealed.
pub open spec fn sealable(message: JsonView) -> bool {
    encode_utf8(json_text(message)).len() <= MAX_MESSAGE
}

fn text_bytes(s: &str) -> (r: Vec<u8>)
    ensures
        r@ == encode_utf8(s@),
{
    let b = s.as_bytes();
    let n: usize = b.len();
    let r = copy_range(b, 0, n);
    assert(r@ =~= b@);
    r
}

/// The datagram for an ephemeral key and a nonce that have been chosen.
pub fn build_with(
    id_field: &str,
    id: &str,
    token: &str,
    pub_b64: &str,
    server_pub_b64: &str,
    eph: &StaticSecret,
    nonce: &[u8; 12],
) -> (r: Option<Vec<u8>>)
    ensures
        match r {
            Some(d) => punch(
                plaintext(id_field@, id@, token@, pub_b64@),
                server_pub_b64@,
                eph.bytes@,
                nonce@,
            ) == Some(d@),
            None => punch(
                plaintext(id_field@, id@, token@, pub_b64@),
                server_pub_b64@,
                eph.bytes@,
                nonce@,
            ) is None,
        },
        r is Some <==> public_key_of(server_pub_b64@) is Ok && sealable(
            plaintext(id_field@, id@, token@, pub_b64@),
        ),
{
    match public_from_b64(server_pub_b64) {
        Ok(server) => {
            let shared = x25519_diffie_hellman(&eph.bytes, &server.bytes);
            let mut message = empty_object();
            set_member(&mut message, id_field, text_value(id));
            set_member(&mut message, "token", text_value(token));
            set_member(&mut message, "publicKey", text_value(pub_b64));
            assert(json_content(message)->Object_0 =~= plaintext(
                id_field@,
                id@,
                token@,
                pub_b64@,
            )->Object_0);
            let text = to_text(&message);
            if text.as_str().as_bytes().len() as u64 > MAX_MESSAGE {
                return None;
            }
            match chacha_seal(&shared, nonce, text.as_str().as_bytes()) {
                Some(c) => {
                    let mut envelope = empty_object();
                    let eph_pub = eph.public().to_b64();
                    set_member(&mut envelope, "ephemeralPublicKey", text_value(eph_pub.as_str()));
                    let nonce_b64 = b64_encode(nonce.as_slice());
                    set_member(&mut envelope, "nonce", text_value(nonce_b64.as_str()));
                    let ciphertext = b64_encode(c.as_slice());
                    set_member(&mut envelope, "ciphertext", text_value(ciphertext.as_str()));
                    assert(json_content(envelope)->Object_0 =~= sealed_envelope(
                        x25519_public(eph.bytes@),
                        nonce@,
                        c@,
                    )->Object_0);
                    Some(text_bytes(to_text(&envelope).as_str()))
                },
                None => None,
            }
        },
        Err(_) => None,
    }
}

/// Build a hole-punch datagram: an ephemeral-X25519 + ChaCha20-Poly1305 sealed
/// `{<id_field>, token, publicKey}`, wrapped in the envelope the exit node expects.
/// The exit node uses this to track the connector's live UDP endpoint; the WireGuard
/// tunnel alone is not enough for it to keep reporting the peer. `id_field` is
/// "newtId" for a site or "olmId" for a client; `id` is the matching newtId/olmId
/// value.
pub fn build(id_field: &str, id: &str, token: &str, pub_b64: &str, server_pub_b64: &str) -> (r: Option<
    Vec<u8>,
>)
    ensures
        r is Some <==> public_key_of(server_pub_b64@) is Ok && sealable(
            plaintext(id_field@, id@, token@, pub_b64@),
        ),
        r matches Some(d) ==> exists|eph: Seq<u8>, nonce: Seq<u8>|
            eph.len() == 32 && nonce.len() == 12 && #[trigger] punch(
                plaintext(id_field@, id@, token@, pub_b64@),
                server_pub_b64@,
                eph,
                nonce,
            ) == Some(d@),
{
    let eph = StaticSecret::random();
    let nonce: [u8; 12] = random_array();
    build_with(id_field, id, token, pub_b64, server_pub_b64, &eph, &nonce)
}

// ---------------------------------------------------------------------------
// Laws
// ---------------------------------------------------------------------------
/// What is sealed tells the connector's id under the name for its kind, its token and its
/// public key.
pub proof fn law_punch_tells_the_connector(
    id_field: Seq<char>,
    id: Seq<char>,
    token: Seq<char>,
    pub_b64: Seq<char>,
)
    requires
        id_field != "token"@,
        id_field != "publicKey"@,
    ensures
        ({
            let v = plaintext(id_field, id, token, pub_b64);
            &&& v is Object && v->Object_0.dom() == set![id_field, "token"@, "publicKey"@]
            &&& v->Object_0[id_field] == JsonView::Text(id)
            &&& v->Object_0["token"@] == JsonView::Text(token)
            &&& v->Object_0["publicKey"@] == JsonView::Text(pub_b64)
        }),
{
    reveal_strlit("token");
    reveal_strlit("publicKey");
    assert("token"@.len() != "publicKey"@.len());
    assert(plaintext(id_field, id, token, pub_b64)->Object_0.dom() =~= set![
        id_field,
        "token"@,
        "publicKey"@,
    ]);
}

/// The datagram is an object with the public part of the ephemeral key, the nonce and the
/// message sealed with that nonce under the key that the ephemeral key and the server's
/// share. There is one exactly where the server's key is one and the message fits.
pub proof fn law_punch_is_sealed_for_the_server(
    message: JsonView,
    server_pub_b64: Seq<char>,
    eph: Seq<u8>,
    nonce: Seq<u8>,
)
    ensures
        punch(message, server_pub_b64, eph, nonce) is Some <==> public_key_of(server_pub_b64) is Ok
            && encode_utf8(json_text(message)).len() <= 274_877_906_816,
        punch(message, server_pub_b64, eph, nonce) matches Some(d) ==> exists|
            m: Map<Seq<char>, JsonView>,
        |
            {
                &&& d == encode_utf8(#[trigger] json_text(JsonView::Object(m)))
                &&& m.dom() == set!["ephemeralPublicKey"@, "nonce"@, "ciphertext"@]
                &&& m["ephemeralPublicKey"@] == JsonView::Text(b64_encoded(x25519_public(eph)))
                &&& m["nonce"@] == JsonView::Text(b64_encoded(nonce))
                &&& m["ciphertext"@] == JsonView::Text(
                    b64_encoded(
                        chacha_sealed(
                            x25519_shared(eph, public_key_of(server_pub_b64)->Ok_0),
                            nonce,
                            encode_utf8(json_text(message)),
                        ),
                    ),
                )
            },
{
    reveal_strlit("ephemeralPublicKey");
    reveal_strlit("nonce");
    reveal_strlit("ciphertext");
    assert("ephemeralPublicKey"@.len() == 18 && "nonce"@.len() == 5 && "ciphertext"@.len() == 10);
    if punch(message, server_pub_b64, eph, nonce) is Some {
        let c = chacha_sealed(
            x25519_shared(eph, public_key_of(server_pub_b64)->Ok_0),
            nonce,
            encode_utf8(json_text(message)),
        );
        let m = sealed_envelope(x25519_public(eph), nonce, c)->Object_0;
        assert(m.dom() =~= set!["ephemeralPublicKey"@, "nonce"@, "ciphertext"@]);
        assert(sealed_envelope(x25519_public(eph), nonce, c) == JsonView::Object(m));
    }
}

} // verus!
