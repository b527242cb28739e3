//! Shielded addresses: ten bytes of diversifier, the 32-byte public key and the first four
//! bytes of the SHA-256 digest of those 42, written in base58.
use sha2::Digest;
use vstd::prelude::*;

verus! {

/// The length of a decoded address.
pub const ADDR_LEN: usize = 46;

/// The length of the part of an address that its checksum covers.
pub const PAYLOAD_LEN: usize = 42;

/// The length of the diversifier at the start of an address.
pub const DIVERSIFIER_LEN: usize = 10;

/// Why an address text was refused.
#[derive(Debug, PartialEq, Eq, Structural)]
pub enum AddressError {
    /// The text holds a character outside the base58 alphabet.
    InvalidBase58,
    /// The text spells more bytes than an address has.
    TooLong,
    /// The last four bytes are not the start of the payload's digest.
    IncorrectHash,
}

/// The SHA-256 digest of `data`.
pub uninterp spec fn sha256_of(data: Seq<u8>) -> Seq<u8>;

/// The base58 text (Bitcoin alphabet) of `data`.
pub uninterp spec fn base58_of(data: Seq<u8>) -> Seq<char>;

/// The bytes a base58 text spells; `None` where it holds a character outside the alphabet.
pub uninterp spec fn base58_decoded(text: Seq<char>) -> Option<Seq<u8>>;

/// Relies on sha2's `Sha256::digest`: the 32-byte SHA-256 digest of `data`.
#[verifier::external_body]
fn sha256(data: &[u8]) -> (r: Vec<u8>)
    ensures
        r@ == sha256_of(data@),
        r@.len() == 32,
{
    sha2::Sha256::digest(data).to_vec()
}

/// Relies on bs58's `encode(..).into_string()`: the base58 text of `data`.
#[verifier::external_body]
fn base58_encode(data: &[u8]) -> (r: String)
    ensures
        r@ == base58_of(data@),
{
    bs58::encode(data).into_string()
}

/// Relies on bs58's `decode(..).into_vec()`: the bytes `text` spells, or its error, which
/// comes only of a character outside the alphabet.
#[verifier::external_body]
fn base58_decode(text: &str) -> (r: Option<Vec<u8>>)
    ensures
        match r {
            Some(v) => base58_decoded(text@) == Some(v@),
            None => base58_decoded(text@) is None,
        },
{
    bs58::decode(text).into_vec().ok()
}

/// `decoded` written into a zeroed buffer of `ADDR_LEN` bytes.
pub open spec fn address_buffer_spec(decoded: Seq<u8>) -> Seq<u8> {
    decoded + Seq::new((ADDR_LEN - decoded.len()) as nat, |_j: int| 0u8)
}

/// What parsing the buffer `buf` gives, where `digest` is the digest of its first
/// `PAYLOAD_LEN` bytes.
pub open spec fn check_address_spec(buf: Seq<u8>, digest: Seq<u8>) -> Result<
    (Seq<u8>, Seq<u8>),
    AddressError,
> {
    if digest.take(4) != buf.subrange(PAYLOAD_LEN as int, ADDR_LEN as int) {
        Err(AddressError::IncorrectHash)
    } else {
        Ok(
            (
                buf.subrange(0, DIVERSIFIER_LEN as int),
                buf.subrange(DIVERSIFIER_LEN as int, PAYLOAD_LEN as int),
            ),
        )
    }
}

/// What parsing the address text `text` gives.
pub open spec fn parse_address_spec(text: Seq<char>) -> Result<(Seq<u8>, Seq<u8>), AddressError> {
    match base58_decoded(text) {
        None => Err(AddressError::InvalidBase58),
        Some(d) => if d.len() > ADDR_LEN {
            Err(AddressError::TooLong)
        } else {
            let buf = address_buffer_spec(d);
            check_address_spec(buf, sha256_of(buf.take(PAYLOAD_LEN as int)))
        },
    }
}

/// The bytes of an address before base58: payload, then the first four digest bytes.
pub open spec fn address_bytes_spec(diversifier: Seq<u8>, key: Seq<u8>) -> Seq<u8> {
    let payload = diversifier.take(DIVERSIFIER_LEN as int) + key;
    payload + sha256_of(payload).take(4)
}

/// The bytes `v[from..to]`.
fn copy_range(v: &Vec<u8>, from: usize, to: usize) -> (r: Vec<u8>)
    requires
        from <= to <= v.len(),
    ensures
        r@ == v@.subrange(from as int, to as int),
{
    let mut r: Vec<u8> = Vec::with_capacity(to - from);
    let mut j = from;
    while j < to
        invariant
            from <= j <= to <= v.len(),
            r@ == v@.subrange(from as int, j as int),
        decreases to - j,
    {
        r.push(v[j]);
        j = j + 1;
        assert(r@ =~= v@.subrange(from as int, j as int));
    }
    r
}

/// The decoded bytes in an address-sized buffer, zero after them; `None` where they do not
/// fit.
pub fn address_buffer(decoded: &Vec<u8>) -> (r: Option<Vec<u8>>)
    ensures
        match r {
            Some(b) => decoded.len() <= ADDR_LEN && b@ == address_buffer_spec(decoded@),
            None => decoded.len() > ADDR_LEN,
        },
{
    if decoded.len() > ADDR_LEN {
        return None;
    }
    let mut buf = copy_range(decoded, 0, decoded.len());
    assert(buf@ =~= decoded@);
    while buf.len() < ADDR_LEN
        invariant
            decoded.len() <= buf.len() <= ADDR_LEN,
            buf@ == decoded@ + Seq::new((buf.len() - decoded.len()) as nat, |_j: int| 0u8),
        decreases ADDR_LEN - buf.len(),
    {
        buf.push(0u8);
        assert(buf@ =~= decoded@ + Seq::new((buf.len() - decoded.len()) as nat, |_j: int| 0u8));
    }
    Some(buf)
}

/// Splits an address buffer into diversifier and key, given the digest of its payload.
pub fn check_address(buf: &Vec<u8>, digest: &Vec<u8>) -> (r: Result<(Vec<u8>, Vec<u8>), AddressError>)
    requires
        buf.len() == ADDR_LEN,
        digest.len() >= 4,
    ensures
        match (r, check_address_spec(buf@, digest@)) {
            (Ok((d, k)), Ok((ds, ks))) => d@ == ds && k@ == ks,
            (Err(e), Err(es)) => e == es,
            _ => false,
        },
{
    let mut j: usize = 0;
    while j < 4
        invariant
            j <= 4,
            buf.len() == ADDR_LEN,
            digest.len() >= 4,
            forall|k: int| 0 <= k < j ==> digest[k] == buf[PAYLOAD_LEN + k],
        decreases 4 - j,
    {
        if digest[j] != buf[PAYLOAD_LEN + j] {
            assert(digest@.take(4)[j as int] != buf@.subrange(PAYLOAD_LEN as int, ADDR_LEN as int)[j as int]);
            return Err(AddressError::IncorrectHash);
        }
        j = j + 1;
    }
    assert(digest@.take(4) =~= buf@.subrange(PAYLOAD_LEN as int, ADDR_LEN as int));
    Ok((copy_range(buf, 0, DIVERSIFIER_LEN), copy_range(buf, DIVERSIFIER_LEN, PAYLOAD_LEN)))
}

/// Decodes an address text into its diversifier (10 bytes) and key (32 bytes).
pub fn parse_address_bytes(address: &str) -> (r: Result<(Vec<u8>, Vec<u8>), AddressError>)
    ensures
        match (r, parse_address_spec(address@)) {
            (Ok((d, k)), Ok((ds, ks))) => d@ == ds && k@ == ks,
            (Err(e), Err(es)) => e == es,
            _ => false,
        },
{
    let decoded = match base58_decode(address) {
        Some(v) => v,
        None => return Err(AddressError::InvalidBase58),
    };
    let buf = match address_buffer(&decoded) {
        Some(b) => b,
        None => return Err(AddressError::TooLong),
    };
    let payload = copy_range(&buf, 0, PAYLOAD_LEN);
    assert(payload@ =~= buf@.take(PAYLOAD_LEN as int));
    let digest = sha256(payload.as_slice());
    check_address(&buf, &digest)
}

/// The payload of an address: the first ten bytes of the diversifier, then the key.
pub fn address_payload(diversifier: &Vec<u8>, key: &Vec<u8>) -> (r: Vec<u8>)
    requires
        diversifier.len() >= DIVERSIFIER_LEN,
    ensures
        r@ == diversifier@.take(DIVERSIFIER_LEN as int) + key@,
{
    let mut r = copy_range(diversifier, 0, DIVERSIFIER_LEN);
    let mut k = copy_range(key, 0, key.len());
    r.append(&mut k);
    assert(r@ =~= diversifier@.take(DIVERSIFIER_LEN as int) + key@);
    r
}

/// `payload` followed by the first four bytes of `digest`, the payload's digest.
pub fn with_checksum(payload: &Vec<u8>, digest: &Vec<u8>) -> (r: Vec<u8>)
    requires
        digest.len() >= 4,
    ensures
        r@ == payload@ + digest@.take(4),
{
    let mut r = copy_range(payload, 0, payload.len());
    let mut c = copy_range(digest, 0, 4);
    r.append(&mut c);
    assert(r@ =~= payload@ + digest@.take(4));
    r
}

/// The base58 address text for a diversifier (its first ten bytes are used) and a key.
pub fn encode_address(diversifier: &Vec<u8>, key: &Vec<u8>) -> (r: String)
    requires
        diversifier.len() >= DIVERSIFIER_LEN,
    ensures
        r@ == base58_of(address_bytes_spec(diversifier@, key@)),
{
    let payload = address_payload(diversifier, key);
    let digest = sha256(payload.as_slice());
    let bytes = with_checksum(&payload, &digest);
    base58_encode(bytes.as_slice())
}

} // verus!
