use vstd::prelude::*;
use vstd::utf8::encode_utf8;
use crate::error::{DecodeError, VaultError};
use orion::hazardous::aead::xchacha20poly1305::{open, seal, Nonce, SecretKey};
use rand_core::RngCore;

verus! {

/// Length of the file-wide nonce, which is also the key-derivation salt.
pub const NONCE_LEN: usize = 24;
/// Length of the symmetric key.
pub const KEY_LEN: usize = 32;
/// Length of the random associated data that precedes every chunk.
pub const CHUNK_TAG_LEN: usize = 32;
/// Length of the Poly1305 authentication tag that ends every chunk.
pub const AUTH_TAG_LEN: usize = 16;
/// Largest plaintext slice sealed as one chunk.
pub const CHUNK_SIZE: usize = 128;
/// Largest sealed chunk: chunk tag, ciphertext and authentication tag.
pub const WINDOW_SIZE: usize = CHUNK_TAG_LEN + CHUNK_SIZE + AUTH_TAG_LEN;
/// Argon2i time cost.
pub const KDF_ITERATIONS: u32 = 15;
/// Argon2i memory cost, in KiB.
pub const KDF_MEMORY: u32 = 1024;

/// The Argon2i key for these inputs.
pub uninterp spec fn argon2i_key(password: Seq<char>, salt: Seq<u8>, iterations: u32, memory: u32, length: u32) -> Seq<u8>;

/// XChaCha20-Poly1305 sealing: ciphertext followed by the authentication tag.
pub uninterp spec fn aead_sealed(key: Seq<u8>, nonce: Seq<u8>, plaintext: Seq<u8>, ad: Seq<u8>) -> Seq<u8>;

/// XChaCha20-Poly1305 opening: the plaintext when the tag verifies.
pub uninterp spec fn aead_opened(key: Seq<u8>, nonce: Seq<u8>, sealed: Seq<u8>, ad: Seq<u8>) -> Option<Seq<u8>>;

/// Relies on rand_core's `RngCore::fill_bytes` for `OsRng`: it overwrites every byte
/// from the operating system's random source (and panics only if that source fails).
#[verifier::external_body]
fn get_random(dest: &mut Vec<u8>)
    ensures
        final(dest)@.len() == old(dest)@.len(),
{
    RngCore::fill_bytes(&mut rand_core::OsRng, dest.as_mut_slice());
}

/// Relies on orion's `hazardous::kdf::argon2i::derive_key` (one lane, no secret, no
/// associated data): it refuses a password of more than 0xFFFF_FFFF bytes, a salt of
/// under 8 or more than 0xFFFF_FFFF bytes, fewer than 1 iteration, under 8 KiB of memory
/// and an output of under 4 or more than 0xFFFF_FFFF bytes; otherwise it fills the
/// output with a key that depends on the inputs alone. An empty password is accepted.
#[verifier::external_body]
fn argon2i_derive(password: &str, salt: &[u8], iterations: u32, memory: u32, dst: &mut Vec<u8>) -> (ok: bool)
    requires
        iterations >= 1,
        memory >= 8,
        4 <= old(dst)@.len() <= 0xFFFF_FFFF,
    ensures
        final(dst)@.len() == old(dst)@.len(),
        ok == (encode_utf8(password@).len() <= 0xFFFF_FFFF && 8 <= salt@.len() <= 0xFFFF_FFFF),
        ok ==> final(dst)@ == argon2i_key(password@, salt@, iterations, memory, old(dst)@.len() as u32),
{
    orion::hazardous::kdf::argon2i::derive_key(password.as_bytes(), salt, iterations, memory, None, None, dst.as_mut_slice()).is_ok()
}

/// Relies on orion's `xchacha20poly1305::seal`: with a 32-byte key, a 24-byte nonce and
/// an output buffer of plaintext length plus 16, it writes the ciphertext and the tag.
#[verifier::external_body]
fn aead_seal(key: &[u8], nonce: &[u8], plaintext: &[u8], ad: &[u8], dst: &mut Vec<u8>) -> (ok: bool)
    requires
        key@.len() == KEY_LEN,
        nonce@.len() == NONCE_LEN,
        plaintext@.len() <= 0x3F_FFFF_FFC0,
        old(dst)@.len() == plaintext@.len() + AUTH_TAG_LEN,
    ensures
        ok,
        final(dst)@.len() == old(dst)@.len(),
        final(dst)@ == aead_sealed(key@, nonce@, plaintext@, ad@),
{
    match (SecretKey::from_slice(key), Nonce::from_slice(nonce)) {
        (Ok(key), Ok(nonce)) => seal(&key, &nonce, plaintext, Some(ad), dst.as_mut_slice()).is_ok(),
        _ => false,
    }
}

/// Relies on orion's `xchacha20poly1305::open`: it succeeds exactly when the tag verifies,
/// and then writes the plaintext; what `seal` produced under the same key, nonce and
/// associated data always opens to the plaintext that was sealed.
#[verifier::external_body]
fn aead_open(key: &[u8], nonce: &[u8], sealed: &[u8], ad: &[u8], dst: &mut Vec<u8>) -> (ok: bool)
    requires
        key@.len() == KEY_LEN,
        nonce@.len() == NONCE_LEN,
        AUTH_TAG_LEN <= sealed@.len() <= 0x3F_FFFF_FFD0,
        old(dst)@.len() + AUTH_TAG_LEN == sealed@.len(),
    ensures
        final(dst)@.len() == old(dst)@.len(),
        ok == aead_opened(key@, nonce@, sealed@, ad@) is Some,
        ok ==> aead_opened(key@, nonce@, sealed@, ad@) == Some(final(dst)@),
        forall|p: Seq<u8>| sealed@ == aead_sealed(key@, nonce@, p, ad@) ==> ok && final(dst)@ == p,
{
    match (SecretKey::from_slice(key), Nonce::from_slice(nonce)) {
        (Ok(key), Ok(nonce)) => open(&key, &nonce, sealed, Some(ad), dst.as_mut_slice()).is_ok(),
        _ => false,
    }
}

/// A vector of `n` zero bytes.
fn zeros(n: usize) -> (r: Vec<u8>)
    ensures
        r@ == Seq::new(n as nat, |i: int| 0u8),
{
    let mut r: Vec<u8> = Vec::new();
    let mut i: usize = 0;
    while i < n
        invariant
            i <= n,
            r@ == Seq::new(i as nat, |j: int| 0u8),
        decreases n - i,
    {
        r.push(0u8);
        i = i + 1;
        assert(r@ =~= Seq::new(i as nat, |j: int| 0u8));
    }
    r
}

/// The bytes `v[lo..hi]` as a new vector.
fn copy_range(v: &Vec<u8>, lo: usize, hi: usize) -> (r: Vec<u8>)
    requires
        lo <= hi <= v@.len(),
    ensures
        r@ == v@.subrange(lo as int, hi as int),
{
    let mut r: Vec<u8> = Vec::new();
    let mut i: usize = lo;
    while i < hi
        invariant
            lo <= i <= hi,
            hi <= v@.len(),
            r@ == v@.subrange(lo as int, i as int),
        decreases hi - i,
    {
        r.push(v[i]);
        i = i + 1;
        assert(r@ =~= v@.subrange(lo as int, i as int));
    }
    r
}

/// Appends `src` to `out`.
fn append_bytes(out: &mut Vec<u8>, src: &Vec<u8>)
    ensures
        final(out)@ == old(out)@ + src@,
{
    let mut i: usize = 0;
    while i < src.len()
        invariant
            i <= src@.len(),
            out@ == old(out)@ + src@.take(i as int),
        decreases src@.len() - i,
    {
        out.push(src[i]);
        i = i + 1;
        assert(out@ =~= old(out)@ + src@.take(i as int));
    }
    assert(src@.take(src@.len() as int) =~= src@);
}

/// A fresh random 24-byte nonce.
pub fn nonce() -> (r: Vec<u8>)
    ensures
        r@.len() == NONCE_LEN,
{
    let mut randoms = zeros(NONCE_LEN);
    get_random(&mut randoms);
    randoms
}

/// A fresh random 32-byte chunk tag, used as a chunk's associated data.
pub fn auth_tag() -> (r: Vec<u8>)
    ensures
        r@.len() == CHUNK_TAG_LEN,
{
    let mut randoms = zeros(CHUNK_TAG_LEN);
    get_random(&mut randoms);
    randoms
}

/// Whether the key-derivation function accepts this password: its UTF-8 form fits in
/// 0xFFFF_FFFF bytes. The empty password is accepted.
pub open spec fn password_accepted(password: Seq<char>) -> bool {
    encode_utf8(password).len() <= 0xFFFF_FFFF
}

/// The symmetric key of a vault, from its password and its nonce (the salt).
pub open spec fn vault_key(password: Seq<char>, nonce: Seq<u8>) -> Seq<u8> {
    argon2i_key(password, nonce, KDF_ITERATIONS, KDF_MEMORY, KEY_LEN as u32)
}

/// Stretches a password and a 24-byte salt into the 32-byte symmetric key; a salt of any
/// other length, or a password the KDF cannot take, gives `KdfError`.
pub fn create_key(password: &str, salt: &Vec<u8>) -> (r: Result<Vec<u8>, VaultError>)
    ensures
        r is Ok <==> (salt@.len() == NONCE_LEN && password_accepted(password@)),
        r is Err ==> r == Err::<Vec<u8>, VaultError>(VaultError::KdfError),
        r matches Ok(k) ==> k@ == vault_key(password@, salt@) && k@.len() == KEY_LEN,
{
    if salt.len() != NONCE_LEN {
        return Err(VaultError::KdfError);
    }
    let mut key = zeros(KEY_LEN);
    if argon2i_derive(password, salt.as_slice(), KDF_ITERATIONS, KDF_MEMORY, &mut key) {
        Ok(key)
    } else {
        Err(VaultError::KdfError)
    }
}

/// Length of the chunk that starts a plaintext of `len` bytes.
pub open spec fn chunk_len(len: nat) -> nat {
    if len < CHUNK_SIZE {
        len
    } else {
        CHUNK_SIZE as nat
    }
}

/// `body` is the chunk sequence that seals `plain` under `key` and `nonce`, with
/// `tags[i]` as the associated data of chunk `i`: each chunk is its 32-byte tag,
/// then the sealing of the next slice of at most 128 bytes (ciphertext and 16-byte tag).
pub open spec fn is_sealing(key: Seq<u8>, nonce: Seq<u8>, tags: Seq<Seq<u8>>, plain: Seq<u8>, body: Seq<u8>) -> bool
    decreases plain.len(),
{
    if plain.len() == 0 {
        body.len() == 0
    } else {
        let c = chunk_len(plain.len()) as int;
        &&& tags.len() > 0
        &&& tags[0].len() == CHUNK_TAG_LEN
        &&& body.len() >= CHUNK_TAG_LEN + c + AUTH_TAG_LEN
        &&& body.take(CHUNK_TAG_LEN as int) == tags[0]
        &&& body.subrange(CHUNK_TAG_LEN as int, CHUNK_TAG_LEN + c + AUTH_TAG_LEN) == aead_sealed(key, nonce, plain.take(c), tags[0])
        &&& is_sealing(key, nonce, tags.drop_first(), plain.skip(c), body.skip(CHUNK_TAG_LEN + c + AUTH_TAG_LEN))
    }
}

/// Length of the chunk sequence that seals `len` plaintext bytes: 48 bytes of tags per chunk.
pub open spec fn sealed_len(len: nat) -> nat
    decreases len,
{
    if len == 0 {
        0
    } else if len <= CHUNK_SIZE {
        (len + CHUNK_TAG_LEN + AUTH_TAG_LEN) as nat
    } else {
        (WINDOW_SIZE + sealed_len((len - CHUNK_SIZE) as nat)) as nat
    }
}

/// A sealing of `plain` has the length that `sealed_len` gives.
pub proof fn lemma_sealing_len(key: Seq<u8>, nonce: Seq<u8>, tags: Seq<Seq<u8>>, plain: Seq<u8>, body: Seq<u8>)
    requires
        is_sealing(key, nonce, tags, plain, body),
    ensures
        body.len() == sealed_len(plain.len()),
    decreases plain.len(),
{
    if plain.len() > 0 {
        let c = chunk_len(plain.len()) as int;
        lemma_sealing_len(key, nonce, tags.drop_first(), plain.skip(c), body.skip(CHUNK_TAG_LEN + c + AUTH_TAG_LEN));
    }
}

/// `file` is a vault of `plain` under `password`: the nonce, then a sealing of `plain`
/// under the key derived from the password and that nonce, with some chunk tags.
pub open spec fn is_vault_of(password: Seq<char>, plain: Seq<u8>, file: Seq<u8>) -> bool {
    &&& file.len() >= NONCE_LEN
    &&& exists|tags: Seq<Seq<u8>>| is_sealing(vault_key(password, file.take(NONCE_LEN as int)), file.take(NONCE_LEN as int), tags, plain, #[trigger] file.skip(NONCE_LEN as int))
}

/// What opening the chunk sequence `body` yields: the chunks are read in windows of
/// 176 bytes (the last one shorter); the first that fails to verify ends it.
pub open spec fn opened_chunks(key: Seq<u8>, nonce: Seq<u8>, body: Seq<u8>) -> Result<Seq<u8>, VaultError>
    decreases body.len(),
{
    if body.len() == 0 {
        Ok(Seq::empty())
    } else if body.len() < CHUNK_TAG_LEN + AUTH_TAG_LEN {
        Err(VaultError::AuthenticationFailure)
    } else {
        let w = if body.len() < WINDOW_SIZE { body.len() as int } else { WINDOW_SIZE as int };
        match aead_opened(key, nonce, body.subrange(CHUNK_TAG_LEN as int, w), body.take(CHUNK_TAG_LEN as int)) {
            None => Err(VaultError::AuthenticationFailure),
            Some(p) => match opened_chunks(key, nonce, body.skip(w)) {
                Ok(rest) => Ok(p + rest),
                Err(e) => Err(e),
            },
        }
    }
}

/// What decrypting the vault file `file` with `password` yields.
pub open spec fn opened_vault(password: Seq<char>, file: Seq<u8>) -> Result<Seq<u8>, VaultError> {
    if file.len() < NONCE_LEN {
        Err(VaultError::Decode(DecodeError::Malformed))
    } else if !password_accepted(password) {
        Err(VaultError::KdfError)
    } else {
        opened_chunks(vault_key(password, file.take(NONCE_LEN as int)), file.take(NONCE_LEN as int), file.skip(NONCE_LEN as int))
    }
}

/// The bytes of a result, as a sequence.
pub open spec fn bytes_result(r: Result<Vec<u8>, VaultError>) -> Result<Seq<u8>, VaultError> {
    match r {
        Ok(v) => Ok(v@),
        Err(e) => Err(e),
    }
}

/// Seals one plaintext slice and appends `chunk tag || ciphertext || tag` to `out`.
fn encrypt_core(out: &mut Vec<u8>, contents: &Vec<u8>, key: &Vec<u8>, nonce: &Vec<u8>) -> (ghost_ad: Ghost<Seq<u8>>)
    requires
        key@.len() == KEY_LEN,
        nonce@.len() == NONCE_LEN,
        contents@.len() <= CHUNK_SIZE,
    ensures
        ghost_ad@.len() == CHUNK_TAG_LEN,
        final(out)@ == old(out)@ + ghost_ad@ + aead_sealed(key@, nonce@, contents@, ghost_ad@),
        aead_sealed(key@, nonce@, contents@, ghost_ad@).len() == contents@.len() + AUTH_TAG_LEN,
{
    let ad = auth_tag();
    let mut sealed = zeros(contents.len() + AUTH_TAG_LEN);
    let _ = aead_seal(key.as_slice(), nonce.as_slice(), contents.as_slice(), ad.as_slice(), &mut sealed);
    append_bytes(out, &ad);
    append_bytes(out, &sealed);
    Ghost(ad@)
}

/// Seals `plain[pos..]` chunk by chunk and appends the chunks to `out`.
fn encrypt_chunks(out: &mut Vec<u8>, plain: &Vec<u8>, pos: usize, key: &Vec<u8>, nonce: &Vec<u8>)
    requires
        key@.len() == KEY_LEN,
        nonce@.len() == NONCE_LEN,
        pos <= plain@.len(),
    ensures
        exists|tags: Seq<Seq<u8>>, body: Seq<u8>|
            #![trigger is_sealing(key@, nonce@, tags, plain@.skip(pos as int), body)]
            is_sealing(key@, nonce@, tags, plain@.skip(pos as int), body) && final(out)@ == old(out)@ + body,
    decreases plain@.len() - pos,
{
    if pos >= plain.len() {
        proof {
            assert(plain@.skip(pos as int).len() == 0);
            assert(old(out)@ + Seq::<u8>::empty() =~= out@);
            assert(is_sealing(key@, nonce@, Seq::empty(), plain@.skip(pos as int), Seq::<u8>::empty()));
        }
        return;
    }
    let c: usize = if plain.len() - pos < CHUNK_SIZE { plain.len() - pos } else { CHUNK_SIZE };
    let chunk = copy_range(plain, pos, pos + c);
    let ghost before = out@;
    let ad = encrypt_core(out, &chunk, key, nonce);
    let ghost mid = out@;
    encrypt_chunks(out, plain, pos + c, key, nonce);
    proof {
        let (rest_tags, rest) = choose|t: Seq<Seq<u8>>, b: Seq<u8>|
            #[trigger] is_sealing(key@, nonce@, t, plain@.skip(pos + c), b) && out@ == mid + b;
        let tags = seq![ad@] + rest_tags;
        let sealed = aead_sealed(key@, nonce@, chunk@, ad@);
        let body = ad@ + sealed + rest;
        let rem = plain@.skip(pos as int);
        assert(chunk_len(rem.len()) == c);
        assert(rem.take(c as int) =~= chunk@);
        assert(rem.skip(c as int) =~= plain@.skip(pos + c));
        assert(tags.drop_first() =~= rest_tags);
        assert(body.take(CHUNK_TAG_LEN as int) =~= ad@);
        assert(body.subrange(CHUNK_TAG_LEN as int, CHUNK_TAG_LEN + c + AUTH_TAG_LEN) =~= sealed);
        assert(body.skip(CHUNK_TAG_LEN + c + AUTH_TAG_LEN) =~= rest);
        assert(is_sealing(key@, nonce@, tags, rem, body));
        assert(out@ =~= before + body);
    }
}

/// Seals `src` under `password` into the bytes of a vault file: a fresh random nonce,
/// then one chunk per slice of at most 128 bytes, each with its own random chunk tag.
pub fn encrypt(src: &Vec<u8>, password: String) -> (r: Result<Vec<u8>, VaultError>)
    ensures
        r is Ok <==> password_accepted(password@),
        r is Err ==> r == Err::<Vec<u8>, VaultError>(VaultError::KdfError),
        r matches Ok(file) ==> is_vault_of(password@, src@, file@),
        r matches Ok(file) ==> file@.len() == NONCE_LEN + sealed_len(src@.len()),
{
    let nonce = nonce();
    let key = create_key(password.as_str(), &nonce)?;
    let mut dist: Vec<u8> = Vec::new();
    append_bytes(&mut dist, &nonce);
    encrypt_chunks(&mut dist, src, 0, &key, &nonce);
    proof {
        let (tags, body) = choose|t: Seq<Seq<u8>>, b: Seq<u8>|
            #[trigger] is_sealing(key@, nonce@, t, src@.skip(0), b) && dist@ == nonce@ + b;
        assert(src@.skip(0) =~= src@);
        assert(dist@.take(NONCE_LEN as int) =~= nonce@);
        assert(dist@.skip(NONCE_LEN as int) =~= body);
        assert(is_sealing(vault_key(password@, dist@.take(NONCE_LEN as int)), dist@.take(NONCE_LEN as int), tags, src@, dist@.skip(NONCE_LEN as int)));
        lemma_sealing_len(key@, nonce@, tags, src@, body);
    }
    Ok(dist)
}

/// The first window of a nonempty sealing is its first chunk: 176 bytes when the
/// chunk is full, and all that is left otherwise.
proof fn lemma_window_of_sealing(key: Seq<u8>, nonce: Seq<u8>, tags: Seq<Seq<u8>>, plain: Seq<u8>, body: Seq<u8>)
    requires
        is_sealing(key, nonce, tags, plain, body),
        body.len() > 0,
    ensures
        plain.len() > 0,
        CHUNK_TAG_LEN + chunk_len(plain.len()) + AUTH_TAG_LEN == if body.len() < WINDOW_SIZE { body.len() } else { WINDOW_SIZE as nat },
{
    reveal_with_fuel(is_sealing, 2);
    let c = chunk_len(plain.len()) as int;
    if plain.len() < CHUNK_SIZE {
        assert(plain.skip(c).len() == 0);
        assert(body.skip(CHUNK_TAG_LEN + c + AUTH_TAG_LEN).len() == 0);
    }
}

/// Splits a window into its chunk tag and the sealed part that follows it.
fn simple_split_encrypted(cipher_text: &Vec<u8>) -> (r: (Vec<u8>, Vec<u8>))
    requires
        cipher_text@.len() >= CHUNK_TAG_LEN,
    ensures
        r.0@ == cipher_text@.take(CHUNK_TAG_LEN as int),
        r.1@ == cipher_text@.skip(CHUNK_TAG_LEN as int),
{
    let head = copy_range(cipher_text, 0, CHUNK_TAG_LEN);
    let tail = copy_range(cipher_text, CHUNK_TAG_LEN, cipher_text.len());
    assert(head@ =~= cipher_text@.take(CHUNK_TAG_LEN as int));
    assert(tail@ =~= cipher_text@.skip(CHUNK_TAG_LEN as int));
    (head, tail)
}

/// Opens one window (`chunk tag || ciphertext || tag`) and appends its plaintext to `out`.
fn decrypt_core(out: &mut Vec<u8>, contents: &Vec<u8>, key: &Vec<u8>, nonce: &Vec<u8>) -> (r: Result<(), VaultError>)
    requires
        key@.len() == KEY_LEN,
        nonce@.len() == NONCE_LEN,
        contents@.len() <= CHUNK_TAG_LEN + 0x3F_FFFF_FFD0,
    ensures
        contents@.len() < CHUNK_TAG_LEN + AUTH_TAG_LEN ==> r == Err::<(), VaultError>(VaultError::AuthenticationFailure)
            && final(out)@ == old(out)@,
        contents@.len() >= CHUNK_TAG_LEN + AUTH_TAG_LEN ==> match aead_opened(key@, nonce@, contents@.skip(CHUNK_TAG_LEN as int), contents@.take(CHUNK_TAG_LEN as int)) {
            Some(p) => r is Ok && final(out)@ == old(out)@ + p && p.len() + CHUNK_TAG_LEN + AUTH_TAG_LEN == contents@.len(),
            None => r == Err::<(), VaultError>(VaultError::AuthenticationFailure) && final(out)@ == old(out)@,
        },
        forall|p: Seq<u8>|
            contents@.len() >= CHUNK_TAG_LEN + AUTH_TAG_LEN
                && contents@.skip(CHUNK_TAG_LEN as int) == #[trigger] aead_sealed(key@, nonce@, p, contents@.take(CHUNK_TAG_LEN as int))
                ==> r is Ok && final(out)@ == old(out)@ + p,
{
    if contents.len() < CHUNK_TAG_LEN + AUTH_TAG_LEN {
        return Err(VaultError::AuthenticationFailure);
    }
    let (ad, sealed) = simple_split_encrypted(contents);
    let mut output = zeros(sealed.len() - AUTH_TAG_LEN);
    let ok = aead_open(key.as_slice(), nonce.as_slice(), sealed.as_slice(), ad.as_slice(), &mut output);
    assert(sealed@ =~= contents@.skip(CHUNK_TAG_LEN as int));
    if !ok {
        return Err(VaultError::AuthenticationFailure);
    }
    append_bytes(out, &output);
    Ok(())
}

/// Opens the chunks of `body[pos..]` in order, appending their plaintext to `out`.
fn decrypt_chunks(out: &mut Vec<u8>, body: &Vec<u8>, pos: usize, key: &Vec<u8>, nonce: &Vec<u8>) -> (r: Result<(), VaultError>)
    requires
        key@.len() == KEY_LEN,
        nonce@.len() == NONCE_LEN,
        pos <= body@.len(),
    ensures
        match opened_chunks(key@, nonce@, body@.skip(pos as int)) {
            Ok(p) => r is Ok && final(out)@ == old(out)@ + p,
            Err(e) => r == Err::<(), VaultError>(e),
        },
        forall|tags: Seq<Seq<u8>>, p: Seq<u8>|
            #[trigger] is_sealing(key@, nonce@, tags, p, body@.skip(pos as int)) ==> r is Ok && final(out)@ == old(out)@ + p,
    decreases body@.len() - pos,
{
    let ghost rem = body@.skip(pos as int);
    let remaining: usize = body.len() - pos;
    if remaining == 0 {
        proof {
            assert(rem.len() == 0);
            assert(out@ =~= old(out)@ + Seq::<u8>::empty());
            assert forall|tags: Seq<Seq<u8>>, p: Seq<u8>| #[trigger] is_sealing(key@, nonce@, tags, p, rem) implies
                out@ == old(out)@ + p by {
                assert(p.len() == 0);
                assert(out@ =~= old(out)@ + p);
            }
        }
        return Ok(());
    }
    let w: usize = if remaining < WINDOW_SIZE { remaining } else { WINDOW_SIZE };
    let window = copy_range(body, pos, pos + w);
    let ghost before = out@;
    let first = decrypt_core(out, &window, key, nonce);
    proof {
        assert(window@.take(CHUNK_TAG_LEN as int) =~= rem.take(CHUNK_TAG_LEN as int));
        assert(window@.skip(CHUNK_TAG_LEN as int) =~= rem.subrange(CHUNK_TAG_LEN as int, w as int));
        assert(rem.skip(w as int) =~= body@.skip(pos + w));
    }
    if first.is_err() {
        proof {
            assert forall|tags: Seq<Seq<u8>>, p: Seq<u8>| #[trigger] is_sealing(key@, nonce@, tags, p, rem) implies
                false by {
                lemma_window_of_sealing(key@, nonce@, tags, p, rem);
                let c = chunk_len(p.len()) as int;
                assert(window@.skip(CHUNK_TAG_LEN as int) == aead_sealed(key@, nonce@, p.take(c), window@.take(CHUNK_TAG_LEN as int)));
            }
        }
        return first;
    }
    let ghost mid = out@;
    let r = decrypt_chunks(out, body, pos + w, key, nonce);
    proof {
        let p1 = mid.skip(before.len() as int);
        assert(mid =~= before + p1);
        match opened_chunks(key@, nonce@, rem.skip(w as int)) {
            Ok(q) => {
                assert(out@ =~= before + (p1 + q));
            },
            Err(e) => {},
        }
        assert forall|tags: Seq<Seq<u8>>, p: Seq<u8>| #[trigger] is_sealing(key@, nonce@, tags, p, rem) implies
            r is Ok && out@ == before + p by {
            lemma_window_of_sealing(key@, nonce@, tags, p, rem);
            let c = chunk_len(p.len()) as int;
            assert(window@.skip(CHUNK_TAG_LEN as int) == aead_sealed(key@, nonce@, p.take(c), window@.take(CHUNK_TAG_LEN as int)));
            assert(mid == before + p.take(c));
            assert(is_sealing(key@, nonce@, tags.drop_first(), p.skip(c), body@.skip(pos + w)));
            assert(out@ == mid + p.skip(c));
            assert(p =~= p.take(c) + p.skip(c));
            assert(out@ =~= before + p);
        }
    }
    r
}

/// Recovers the plaintext of a vault file's bytes with `password`: reads the nonce,
/// derives the key from it, then opens the chunks in order and stops at the first
/// one that fails to verify.
pub fn decrypt(src: &Vec<u8>, password: String) -> (r: Result<Vec<u8>, VaultError>)
    ensures
        bytes_result(r) == opened_vault(password@, src@),
        forall|plain: Seq<u8>| password_accepted(password@) && #[trigger] is_vault_of(password@, plain, src@) ==> bytes_result(r) == Ok::<Seq<u8>, VaultError>(plain),
{
    if src.len() < NONCE_LEN {
        return Err(VaultError::Decode(DecodeError::Malformed));
    }
    let nonce = copy_range(src, 0, NONCE_LEN);
    let key = create_key(password.as_str(), &nonce)?;
    let mut output: Vec<u8> = Vec::new();
    let opened = decrypt_chunks(&mut output, src, NONCE_LEN, &key, &nonce);
    let ghost out_view = output@;
    let res = match opened {
        Ok(()) => Ok(output),
        Err(e) => Err(e),
    };
    proof {
        assert(nonce@ =~= src@.take(NONCE_LEN as int));
        assert(Seq::<u8>::empty() + out_view =~= out_view);
        assert forall|plain: Seq<u8>| password_accepted(password@) && #[trigger] is_vault_of(password@, plain, src@) implies
            bytes_result(res) == Ok::<Seq<u8>, VaultError>(plain) by {
            let tags = choose|tags: Seq<Seq<u8>>| is_sealing(vault_key(password@, src@.take(NONCE_LEN as int)), src@.take(NONCE_LEN as int), tags, plain, #[trigger] src@.skip(NONCE_LEN as int));
            assert(Seq::<u8>::empty() + plain =~= plain);
        }
    }
    res
}

} // verus!
