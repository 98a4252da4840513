//! Node identity: a keypair and the node identifier derived from its public
//! key.
//!
//! Key generation and identifier derivation are libp2p's; the identifier is
//! computed once, at construction, and stored, so repeated reads return the
//! same value, and the derivation from the encoded public key is named so
//! that determinism can be stated and proved.

use vstd::prelude::*;
use crate::id::NodeId;

verus! {

/// libp2p's keypair, opaque to the verifier; it is handed to the transport
/// for the handshake and never read by the routing logic.
#[verifier::external_type_specification]
#[verifier::external_body]
pub struct ExKeypair(libp2p::identity::Keypair);

/// The identifier bytes libp2p derives from an encoded public key: a
/// function of those bytes alone.
pub uninterp spec fn node_id_of(pk: Seq<u8>) -> Seq<u8>;

/// The identifier bytes libp2p decodes from an identifier's canonical text:
/// a function of the text alone.
pub uninterp spec fn parsed_node_id(s: Seq<char>) -> Seq<u8>;

/// The canonical text of an identifier: a function of its bytes alone.
pub uninterp spec fn id_text_of(id: Seq<u8>) -> Seq<char>;

/// Whether a text decodes as an identifier: libp2p's parse is a total
/// deterministic function of the text, so success is a function of the text
/// alone.
pub uninterp spec fn id_text_wf(s: Seq<char>) -> bool;

/// Whether a byte string decodes as an encoded public key: libp2p's decode
/// is a total deterministic function of the bytes, so success is a function
/// of the bytes alone.
pub uninterp spec fn pk_decodes(pk: Seq<u8>) -> bool;

/// Relies on libp2p::identity::Keypair::generate_ed25519: a fresh random
/// keypair. Nothing is promised of its value.
#[verifier::external_body]
fn generate_keypair() -> libp2p::identity::Keypair {
    libp2p::identity::Keypair::generate_ed25519()
}

/// Relies on libp2p::identity::Keypair::ed25519_from_bytes: the keypair whose
/// secret half is the given seed; it succeeds exactly when the seed is 32
/// bytes (any such array is a valid secret key).
#[verifier::external_body]
fn keypair_from_seed(seed: &Vec<u8>) -> (r: Option<libp2p::identity::Keypair>)
    ensures
        r is Some <==> seed@.len() == 32,
{
    let mut bytes = seed.clone();
    match libp2p::identity::Keypair::ed25519_from_bytes(&mut bytes) {
        Ok(k) => Some(k),
        Err(_) => None,
    }
}

/// Relies on libp2p::identity::Keypair::public and
/// PublicKey::encode_protobuf: the canonical encoding of the keypair's
/// public half, which PublicKey::try_decode_protobuf accepts back (encoding
/// and decoding are enabled for the same key types, so an encodable key is
/// decodable).
#[verifier::external_body]
fn public_key_bytes(kp: &libp2p::identity::Keypair) -> (r: Vec<u8>)
    ensures
        pk_decodes(r@),
{
    kp.public().encode_protobuf()
}

/// Relies on libp2p::identity::PublicKey::try_decode_protobuf and
/// libp2p::PeerId::from_public_key: decoding succeeds as a function of the
/// bytes alone, the identifier bytes depend on the encoded public key alone,
/// and an identifier's byte form (a multihash encoding) is never empty.
#[verifier::external_body]
fn derive_node_id(pk: &Vec<u8>) -> (r: Option<Vec<u8>>)
    ensures
        r is Some <==> pk_decodes(pk@),
        r matches Some(id) ==> id@ == node_id_of(pk@) && id@.len() >= 1,
{
    match libp2p::identity::PublicKey::try_decode_protobuf(pk.as_slice()) {
        Ok(p) => Some(libp2p::PeerId::from_public_key(&p).to_bytes()),
        Err(_) => None,
    }
}

/// Relies on libp2p::PeerId's FromStr (base58 text) and to_bytes: parsing
/// succeeds as a function of the text alone, and the decoded identifier
/// (a multihash encoding, never empty) depends on the text alone.
#[verifier::external_body]
pub fn parse_node_id(text: &String) -> (r: Option<NodeId>)
    ensures
        r is Some <==> id_text_wf(text@),
        r matches Some(id) ==> id@ == parsed_node_id(text@) && id@.len() >= 1,
{
    match text.as_str().parse::<libp2p::PeerId>() {
        Ok(p) => Some(NodeId { bytes: p.to_bytes() }),
        Err(_) => None,
    }
}

/// Relies on libp2p::PeerId::from_bytes and to_base58: the canonical text of
/// an identifier, a function of its bytes alone; it fails when the bytes are
/// not a valid identifier. The canonical text parses back to the identifier
/// it encodes: base58 decoding inverts the encoding and the multihash byte
/// form is canonical.
#[verifier::external_body]
pub fn node_id_text(id: &NodeId) -> (r: Option<String>)
    ensures
        r matches Some(t) ==> t@ == id_text_of(id@) && id_text_wf(id_text_of(id@))
            && parsed_node_id(id_text_of(id@)) == id@,
{
    match libp2p::PeerId::from_bytes(id.bytes.as_slice()) {
        Ok(p) => Some(p.to_base58()),
        Err(_) => None,
    }
}

/// A node's identity: its keypair and the identifier derived from the
/// public key, computed once and stored.
pub struct Identity {
    pub id: NodeId,
    pub public_key: Vec<u8>,
    pub keypair: libp2p::identity::Keypair,
}

impl Identity {
    /// The stored identifier is the one derived from the stored public key.
    pub open spec fn wf(self) -> bool {
        &&& self.id@ == node_id_of(self.public_key@)
        &&& self.id@.len() >= 1
    }

    fn build(keypair: libp2p::identity::Keypair) -> (r: Option<Identity>)
        ensures
            r is Some,
            r matches Some(ident) ==> ident.wf() && ident.id@.len() >= 1,
    {
        let public_key = public_key_bytes(&keypair);
        match derive_node_id(&public_key) {
            Some(bytes) => Some(Identity { id: NodeId::new(bytes), public_key, keypair }),
            None => None,
        }
    }

    /// A fresh identity over a newly generated keypair. `None` would be the
    /// fatal identity-generation failure of the error taxonomy; deriving an
    /// identifier from a key of this library's own making always succeeds.
    pub fn generate() -> (r: Option<Identity>)
        ensures
            r is Some,
            r matches Some(ident) ==> ident.wf() && ident.id@.len() >= 1,
    {
        Identity::build(generate_keypair())
    }

    /// The identity whose keypair is determined by a 32-byte seed; it
    /// succeeds exactly when the seed has that length.
    pub fn from_seed(seed: &Vec<u8>) -> (r: Option<Identity>)
        ensures
            r is Some <==> seed@.len() == 32,
            r matches Some(ident) ==> ident.wf() && ident.id@.len() >= 1,
    {
        match keypair_from_seed(seed) {
            Some(kp) => Identity::build(kp),
            None => None,
        }
    }

    /// The node's identifier; every call returns the stored value.
    pub fn node_id(&self) -> (r: NodeId)
        ensures
            r@ == self.id@,
    {
        self.id.duplicate()
    }

    /// The keypair, for the transport handshake only.
    pub fn transport_keypair(&self) -> &libp2p::identity::Keypair {
        &self.keypair
    }
}

/// The identifier is determined by the public key: two identities over the
/// same encoded public key carry the same identifier, and within one
/// identity every read returns the one stored value.
pub proof fn lemma_id_deterministic(a: Identity, b: Identity)
    requires
        a.wf(),
        b.wf(),
        a.public_key@ == b.public_key@,
    ensures
        a.id@ == b.id@,
{
}

} // verus!
