//! Content digests.

use crate::text;
use sha2::Digest;
use vstd::prelude::*;

verus! {

/// The SHA-256 hash of `message`.
pub uninterp spec fn sha256(message: Seq<u8>) -> Seq<u8>;

/// Computes the SHA-256 hash of `message`.
///
/// Calls `sha2::Sha256::digest`. Its result depends on the message alone and
/// has 32 bytes; which bytes they are is not stated.
#[verifier::external_body]
fn hash(message: &[u8]) -> (hash: Vec<u8>)
    ensures
        hash@ == sha256(message@),
        hash@.len() == 32,
{
    sha2::Sha256::digest(message).to_vec()
}

/// A digest of some content: the name of the algorithm, and that name again,
/// a colon and the hash in hexadecimal.
#[derive(Debug, Eq, PartialEq)]
pub struct ModelDigest {
    pub algorithm: String,
    pub value: String,
}

/// The mathematical content of a [`ModelDigest`].
pub struct DigestView {
    pub algorithm: Seq<char>,
    pub value: Seq<char>,
}

impl View for ModelDigest {
    type V = DigestView;

    open spec fn view(&self) -> DigestView {
        DigestView { algorithm: self.algorithm@, value: self.value@ }
    }
}

impl Clone for ModelDigest {
    fn clone(&self) -> (copy: Self)
        ensures
            copy@ == self@,
    {
        ModelDigest { algorithm: self.algorithm.clone(), value: self.value.clone() }
    }
}

/// The digest of `content`.
pub open spec fn digest_of(content: Seq<u8>) -> DigestView {
    DigestView { algorithm: "sha256"@, value: "sha256:"@ + text::hex_of(sha256(content)) }
}

/// Two contents have the same digest just where they have the same hash.
pub proof fn law_digest_tells_apart(a: Seq<u8>, b: Seq<u8>)
    ensures
        digest_of(a) == digest_of(b) <==> sha256(a) == sha256(b),
{
    if digest_of(a) == digest_of(b) {
        let prefix = "sha256:"@;
        let (x, y) = (text::hex_of(sha256(a)), text::hex_of(sha256(b)));
        assert(x =~= (prefix + x).skip(prefix.len() as int));
        assert(y =~= (prefix + y).skip(prefix.len() as int));
        text::lemma_hex_of_injective(sha256(a), sha256(b));
    }
}

/// The value of a digest is the text "sha256:" and then two characters for each
/// byte of the content's hash, in order: its high and its low hexadecimal digit.
pub proof fn law_digest_text(content: Seq<u8>)
    ensures
        ({
            let digest = digest_of(content);
            let hash = sha256(content);
            &&& digest.algorithm == seq!['s', 'h', 'a', '2', '5', '6']
            &&& digest.value.len() == 7 + 2 * hash.len()
            &&& digest.value.take(7) == seq!['s', 'h', 'a', '2', '5', '6', ':']
            &&& forall|i: int|
                0 <= i < hash.len() ==> {
                    &&& digest.value[7 + 2 * i] == text::digit((#[trigger] hash[i] / 16) as nat)
                    &&& digest.value[8 + 2 * i] == text::digit((hash[i] % 16) as nat)
                }
        }),
{
    let hash = sha256(content);
    reveal_strlit("sha256");
    reveal_strlit("sha256:");
    text::law_hex_of(hash);
    assert(digest_of(content).algorithm =~= seq!['s', 'h', 'a', '2', '5', '6']);
    assert(digest_of(content).value.take(7) =~= seq!['s', 'h', 'a', '2', '5', '6', ':']);
    assert forall|i: int| 0 <= i < hash.len() implies {
        &&& digest_of(content).value[7 + 2 * i] == text::digit((#[trigger] hash[i] / 16) as nat)
        &&& digest_of(content).value[8 + 2 * i] == text::digit((hash[i] % 16) as nat)
    } by {
        let shown = text::hex_of(hash);
        assert(digest_of(content).value[7 + 2 * i] == shown[2 * i]);
        assert(digest_of(content).value[8 + 2 * i] == shown[2 * i + 1]);
    }
}

/// Why content was not accepted.
#[derive(Debug, Eq, PartialEq)]
pub enum ModelArtifactError {
    /// The content has another digest than the one declared for it.
    DigestMismatch { declared: String, computed: String },
}

impl Clone for ModelArtifactError {
    fn clone(&self) -> (copy: Self)
        ensures
            match (*self, copy) {
                (
                    ModelArtifactError::DigestMismatch { declared: a, computed: b },
                    ModelArtifactError::DigestMismatch { declared: c, computed: d },
                ) => c@ == a@ && d@ == b@,
            },
    {
        match self {
            ModelArtifactError::DigestMismatch { declared, computed } => {
                ModelArtifactError::DigestMismatch {
                    declared: declared.clone(),
                    computed: computed.clone(),
                }
            },
        }
    }
}

impl ModelDigest {
    /// The digest of `content`.
    pub fn sha256(content: &[u8]) -> (digest: Self)
        ensures
            digest@ == digest_of(content@),
            digest.value@.len() == 71,
            sha256(content@).len() == 32,
            digest.algorithm@ == seq!['s', 'h', 'a', '2', '5', '6'],
            digest.value@.take(7) == seq!['s', 'h', 'a', '2', '5', '6', ':'],
            forall|i: int|
                0 <= i < 32 ==> {
                    &&& digest.value@[7 + 2 * i] == text::digit(
                        (#[trigger] sha256(content@)[i] / 16) as nat,
                    )
                    &&& digest.value@[8 + 2 * i] == text::digit((sha256(content@)[i] % 16) as nat)
                },
    {
        let hash = hash(content);
        let value = text::start("sha256:").hex_bytes(hash.as_slice()).finish();
        proof {
            reveal_strlit("sha256:");
            text::lemma_hex_of_len(hash@);
            law_digest_text(content@);
        }
        ModelDigest { algorithm: "sha256".to_owned(), value }
    }

    /// Accepts `content` just where this is its digest.
    pub fn verify_bytes(&self, content: &[u8]) -> (result: Result<(), ModelArtifactError>)
        ensures
            match result {
                Ok(_) => self@ == digest_of(content@),
                Err(ModelArtifactError::DigestMismatch { declared, computed }) => {
                    &&& self@ != digest_of(content@)
                    &&& declared@ == self.value@
                    &&& computed@ == digest_of(content@).value
                },
            },
            result is Ok <==> self.algorithm@ == digest_of(content@).algorithm && self.value@
                == digest_of(content@).value,
    {
        let computed = ModelDigest::sha256(content);
        if computed.algorithm == self.algorithm && computed.value == self.value {
            Ok(())
        } else {
            Err(
                ModelArtifactError::DigestMismatch {
                    declared: self.value.clone(),
                    computed: computed.value,
                },
            )
        }
    }
}

} // verus!
