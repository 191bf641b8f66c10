use tuckr::dotfiles::ReturnCode;
use tuckr::path::FsPath;
use tuckr::secrets::{decrypt, decrypted_paths, decryption_outcome, encrypt, encrypted_paths, encryption_outcome};

#[test]
fn encrypted_file_keeps_its_place_below_the_target_dir() {
    let dest = FsPath::parse("/home/u/.config/dotfiles/Secrets/ssh");
    let target = FsPath::parse("/home/u");
    let file = FsPath::parse("/home/u/.ssh/id_rsa");
    let (enc, dir) = encrypted_paths(&dest, &target, &file);
    assert_eq!(enc.display_string(), "/home/u/.config/dotfiles/Secrets/ssh/.ssh/id_rsa");
    assert_eq!(dir.display_string(), "/home/u/.config/dotfiles/Secrets/ssh/.ssh");
}

#[test]
fn decrypted_file_goes_back_to_its_place() {
    let group = FsPath::parse("/home/u/.config/dotfiles/Secrets/ssh");
    let target = FsPath::parse("/home/u");
    let secret = FsPath::parse("/home/u/.config/dotfiles/Secrets/ssh/.ssh/id_rsa");
    let (dest, parent) = decrypted_paths(&group, &target, &secret);
    assert_eq!(dest.display_string(), "/home/u/.ssh/id_rsa");
    assert_eq!(parent.display_string(), "/home/u/.ssh");
}

#[test]
fn unreadable_files_fail_before_encryption() {
    assert!(matches!(encrypt("pass".to_string(), None), Err(ReturnCode::NoSuchFileOrDir)));
    assert!(matches!(decrypt("pass".to_string(), None), Err(ReturnCode::EncryptedReadFailed)));
}

#[test]
fn garbage_does_not_decrypt() {
    let res = decrypt("pass".to_string(), Some(b"not an age file".to_vec()));
    assert!(matches!(res, Err(ReturnCode::DecryptionFailed)));
}

#[test]
fn secret_round_trip_with_the_same_passphrase() {
    let plaintext = b"my secret".to_vec();
    let encrypted = encrypt("correct horse".to_string(), Some(plaintext.clone())).unwrap();
    assert_ne!(encrypted, plaintext);
    let decrypted = decrypt("correct horse".to_string(), Some(encrypted.clone())).unwrap();
    assert_eq!(decrypted, plaintext);
    let wrong = decrypt("wrong".to_string(), Some(encrypted));
    assert!(matches!(wrong, Err(ReturnCode::DecryptionFailed)));
}

#[test]
fn outcomes_of_age_calls() {
    assert_eq!(encryption_outcome(Ok(vec![1, 2])), Ok(vec![1, 2]));
    assert!(matches!(
        encryption_outcome(Err(age::EncryptError::MissingRecipients)),
        Err(ReturnCode::EncryptionFailed)
    ));
    assert_eq!(decryption_outcome(Ok(vec![3])), Ok(vec![3]));
    assert!(matches!(
        decryption_outcome(Err(age::DecryptError::DecryptionFailed)),
        Err(ReturnCode::DecryptionFailed)
    ));
}

#[test]
fn secret_paths_round_trip() {
    let dest = FsPath::parse("/d/Secrets/keys");
    let target = FsPath::parse("/home/u");
    let file = FsPath::parse("/home/u/.gnupg/private/key.asc");
    let (enc, _) = encrypted_paths(&dest, &target, &file);
    let (back, _) = decrypted_paths(&dest, &target, &enc);
    assert!(back.same_as(&file));
}
