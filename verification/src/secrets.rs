//! Secrets: files kept encrypted with a passphrase in `dotfiles/Secrets`.
//!
//! A file below the deployment directory is encrypted into
//! `dotfiles/Secrets/<group>` at the same place relative to it; decrypting
//! writes it back there.

use vstd::prelude::*;
use crate::dotfiles::ReturnCode;
use crate::path::{FsPath, PathView, spec_join, spec_parent, spec_strip_prefix, spec_starts_with};

verus! {

#[verifier::external_type_specification]
#[verifier::external_body]
pub struct ExEncryptError(age::EncryptError);

#[verifier::external_type_specification]
#[verifier::external_body]
pub struct ExDecryptError(age::DecryptError);

/// That `ciphertext` is an `age` encryption of `plaintext` to the
/// passphrase `passphrase`: an age file whose one recipient stanza is an
/// scrypt stanza for `passphrase` and whose payload holds `plaintext`. Many
/// files are such an encryption of one plaintext (the file key, the salt
/// and the work factor are free); a file is such an encryption of at most
/// one plaintext, since decrypting it is determined by the passphrase.
pub uninterp spec fn sealed_for(passphrase: Seq<char>, plaintext: Seq<u8>, ciphertext: Seq<u8>) -> bool;

/// Encrypts `plaintext` to the passphrase `passphrase` with `age::encrypt`
/// and an `age::scrypt::Recipient` made by `Recipient::new`. It succeeds:
/// with this one recipient the encryptor is always built, and the output is
/// written to a `Vec`, which does not fail. What comes back is an
/// encryption of `plaintext` to `passphrase`.
#[verifier::external_body]
fn age_encrypt_with(passphrase: String, plaintext: &[u8]) -> (r: Result<Vec<u8>, age::EncryptError>)
    ensures
        r is Ok,
        r matches Ok(v) ==> sealed_for(passphrase@, plaintext@, v@),
{
    let recipient = age::scrypt::Recipient::new(age::secrecy::SecretString::from(passphrase));
    age::encrypt(&recipient, plaintext)
}

/// Decrypts `ciphertext` with `age::decrypt` and an `age::scrypt::Identity`
/// made by `Identity::new` from `passphrase`. What comes back on success is
/// the one plaintext whose encryption to `passphrase` gave `ciphertext`.
/// Whether it succeeds is not stated: besides a wrong passphrase or a
/// damaged file, the largest scrypt work factor the identity accepts is
/// picked by timing this machine.
#[verifier::external_body]
fn age_decrypt_with(passphrase: String, ciphertext: &[u8]) -> (r: Result<Vec<u8>, age::DecryptError>)
    ensures
        r matches Ok(v) ==> sealed_for(passphrase@, v@, ciphertext@),
        r matches Ok(v) ==> (forall|x: Seq<u8>| #[trigger] sealed_for(passphrase@, x, ciphertext@) ==> x == v@),
{
    let identity = age::scrypt::Identity::new(age::secrecy::SecretString::from(passphrase));
    age::decrypt(&identity, ciphertext)
}

/// What encrypting gave: the encrypted bytes, or `EncryptionFailed`.
pub fn encryption_outcome(r: Result<Vec<u8>, age::EncryptError>) -> (res: Result<Vec<u8>, ReturnCode>)
    ensures
        r matches Ok(v) ==> res == Ok::<Vec<u8>, ReturnCode>(v),
        r is Err ==> res == Err::<Vec<u8>, ReturnCode>(ReturnCode::EncryptionFailed),
{
    match r {
        Ok(v) => Ok(v),
        Err(_) => Err(ReturnCode::EncryptionFailed),
    }
}

/// What decrypting gave: the decrypted bytes, or `DecryptionFailed`.
pub fn decryption_outcome(r: Result<Vec<u8>, age::DecryptError>) -> (res: Result<Vec<u8>, ReturnCode>)
    ensures
        r matches Ok(v) ==> res == Ok::<Vec<u8>, ReturnCode>(v),
        r is Err ==> res == Err::<Vec<u8>, ReturnCode>(ReturnCode::DecryptionFailed),
{
    match r {
        Ok(v) => Ok(v),
        Err(_) => Err(ReturnCode::DecryptionFailed),
    }
}

/// Encrypts the contents of a file with `passphrase`. `contents` is `None`
/// when the file could not be read: that fails with `NoSuchFileOrDir`.
/// Contents that were read are always encrypted, and what comes back is an
/// encryption of exactly those contents to `passphrase`.
pub fn encrypt(passphrase: String, contents: Option<Vec<u8>>) -> (res: Result<Vec<u8>, ReturnCode>)
    ensures
        contents is None ==> res == Err::<Vec<u8>, ReturnCode>(ReturnCode::NoSuchFileOrDir),
        contents is Some ==> res is Ok,
        contents matches Some(d) ==> (res matches Ok(v) ==> sealed_for(passphrase@, d@, v@)),
{
    let data = match contents {
        Some(d) => d,
        None => {
            return Err(ReturnCode::NoSuchFileOrDir);
        },
    };
    encryption_outcome(age_encrypt_with(passphrase, data.as_slice()))
}

/// Decrypts the contents of an encrypted file with `passphrase`.
/// `contents` is `None` when the file could not be read: that fails with
/// `EncryptedReadFailed`; a failure to decrypt (a wrong passphrase) fails
/// with `DecryptionFailed`. What comes back on success is the plaintext
/// that was encrypted to `passphrase` into those contents, so a secret
/// encrypted and then decrypted with the same passphrase comes back as it was.
pub fn decrypt(passphrase: String, contents: Option<Vec<u8>>) -> (res: Result<Vec<u8>, ReturnCode>)
    ensures
        contents is None ==> res == Err::<Vec<u8>, ReturnCode>(ReturnCode::EncryptedReadFailed),
        contents is Some ==> (res matches Err(e) ==> e == ReturnCode::DecryptionFailed),
        contents matches Some(d) ==> (res matches Ok(v) ==> sealed_for(passphrase@, v@, d@)),
        contents matches Some(d) ==> (res matches Ok(v) ==> (forall|x: Seq<u8>|
            #[trigger] sealed_for(passphrase@, x, d@) ==> x == v@)),
{
    let data = match contents {
        Some(d) => d,
        None => {
            return Err(ReturnCode::EncryptedReadFailed);
        },
    };
    decryption_outcome(age_decrypt_with(passphrase, data.as_slice()))
}

/// Where the secret of `file` is stored: its place below `target_dir`,
/// placed in `dest_dir` (the group's secrets directory).
pub open spec fn spec_encrypted_path(dest_dir: PathView, target_dir: PathView, file: PathView) -> PathView {
    spec_join(dest_dir, spec_strip_prefix(file, target_dir)->0)
}

/// The directory created to hold the secret of `file`.
pub open spec fn spec_encrypted_dir(dest_dir: PathView, target_dir: PathView, file: PathView) -> PathView {
    spec_join(dest_dir, spec_parent(spec_strip_prefix(file, target_dir)->0))
}

/// Where the secret of `file` (below `target_dir`) is stored in `dest_dir`,
/// and the directory to create for it.
pub fn encrypted_paths(dest_dir: &FsPath, target_dir: &FsPath, file: &FsPath) -> (res: (FsPath, FsPath))
    requires
        spec_starts_with(file@, target_dir@),
    ensures
        res.0@ == spec_encrypted_path(dest_dir@, target_dir@, file@),
        res.1@ == spec_encrypted_dir(dest_dir@, target_dir@, file@),
{
    let rel = file.strip_prefix(target_dir).unwrap();
    let encrypted = dest_dir.join(&rel);
    let dir = dest_dir.join(&rel.parent());
    (encrypted, dir)
}

/// Where the secret `secret` of the group directory `group_dir` is
/// decrypted to: its place below `group_dir`, placed in `target_dir`.
pub open spec fn spec_decrypted_path(group_dir: PathView, target_dir: PathView, secret: PathView) -> PathView {
    spec_join(target_dir, spec_strip_prefix(secret, group_dir)->0)
}

/// Where `secret` (below `group_dir`) is decrypted to, and the directory
/// to create for it.
pub fn decrypted_paths(group_dir: &FsPath, target_dir: &FsPath, secret: &FsPath) -> (res: (FsPath, FsPath))
    requires
        spec_starts_with(secret@, group_dir@),
    ensures
        res.0@ == spec_decrypted_path(group_dir@, target_dir@, secret@),
        res.1@ == spec_parent(spec_decrypted_path(group_dir@, target_dir@, secret@)),
{
    let rel = secret.strip_prefix(group_dir).unwrap();
    let dest = target_dir.join(&rel);
    let parent = dest.parent();
    (dest, parent)
}

/// A secret stored by encrypting goes back to where it came from: the
/// file `<target_dir>/<rel>` is stored at `<dest_dir>/<rel>`, and decrypting
/// `<dest_dir>/<rel>` from the group directory `dest_dir` writes
/// `<target_dir>/<rel>`.
pub proof fn lemma_secret_round_trip(dest_dir: PathView, target_dir: PathView, file: PathView)
    requires
        spec_starts_with(file, target_dir),
    ensures
        spec_starts_with(spec_encrypted_path(dest_dir, target_dir, file), dest_dir),
        spec_decrypted_path(dest_dir, target_dir, spec_encrypted_path(dest_dir, target_dir, file)) == file,
{
    let rel = spec_strip_prefix(file, target_dir)->0;
    let enc = spec_encrypted_path(dest_dir, target_dir, file);
    assert(enc.parts.subrange(0, dest_dir.parts.len() as int) =~= dest_dir.parts);
    let back = spec_strip_prefix(enc, dest_dir)->0;
    assert(back.parts =~= rel.parts);
    assert(file.parts =~= target_dir.parts + rel.parts) by {
        assert(file.parts.subrange(0, target_dir.parts.len() as int) == target_dir.parts);
    }
    assert(spec_join(target_dir, back).parts =~= file.parts);
}

} // verus!
