use bitcoin_pro::derivation::{DerivationComponents, KeyVariant, TrackingAccount};
use bitcoin_pro::keys::{KeyError, PubKey, XPrv, XPub};
use bitcoin_pro::path::{bip44_path, split_hardened_normal, step_index, PathStep};
use bitcoin_pro::ranges::IndexRangeSet;

const MASTER_XPRV: &str = "xprv9s21ZrQH143K3QTDL4LXw2F7HEK3wJUD2nW2nRk4stbPy6cq3jPPqjiChkVvvNKmPGJxWUtg6LnF5kejMRNNU3TGtRBeJgk33yuGBxrMPHi";
const MASTER_XPUB: &str = "xpub661MyMwAqRbcFtXgS5sYJABqqG9YLmC4Q1Rdap9gSE8NqtwybGhePY2gZ29ESFjqJoCu1Rupje8YtGqsefD265TMg7usUDFdp6W1EGMcet8";
const ACCOUNT_XPUB: &str = "xpub6C1HVMz946r433QEjZGpYYWYcspxXXBPys5PBGkmQboRXE6RLfFiStEkKbWKCZaPgDrzZh9nUEunxuiuy6MNdw23du2Ek7GoKYMJVH8eK5E";
const ACCOUNT_ZPUB: &str = "zpub6qfp6hKyMTw1jdnUQGr4xihYxp7rQmAPp67pk4YYAcZBdRisqyaqh1Z2N1RVCNtEVW6c4eLuPZctjUx3QVBQEQPFNaR5uvumrzUbGRQ8voQ";
const ACCOUNT_XPRV: &str = "xprv9y1w5rTFDjHkpZKmdXjpBQZp4qzU84TYce9nNtM9rGGSeRmGo7wTu5vGUJ8CMqB8s3jKdHyr9hwMiWDnEYHbh9J5iZ6D7wHkdwCYGH4HjaV";
const KEY_0: &str = "02ce3088b423b443a7dd03ffc917961c43df41b50a5627e1af31a2fd65c57be50a";
const KEY_1: &str = "0220e7b14ee4e32962950d2cced944a5c5361b4d15e5ae6eaee50916b1a0a260ea";
const KEY_2: &str = "03575bbdb451b017d5a242feea2d24de415c522b2d6f4351a28481626a1488d289";
const H: u32 = 0x8000_0000;

fn hex(s: &str) -> Vec<u8> {
    (0..s.len()).step_by(2).map(|i| u8::from_str_radix(&s[i..i + 2], 16).unwrap()).collect()
}

#[test]
fn split_of_hardened_then_normal_path() {
    let path = vec![84 + H, H, H, 0, 7];
    let (branch, terminal) = split_hardened_normal(&path).unwrap();
    assert_eq!(branch, vec![84 + H, H, H]);
    assert_eq!(terminal, vec![0, 7]);
    assert_eq!(split_hardened_normal(&vec![]), Some((vec![], vec![])));
    assert_eq!(split_hardened_normal(&vec![1, 2]), Some((vec![], vec![1, 2])));
}

#[test]
fn split_refuses_normal_before_hardened() {
    assert_eq!(split_hardened_normal(&vec![H, 0, 1 + H]), None);
    assert_eq!(split_hardened_normal(&vec![0, H]), None);
}

#[test]
fn construct_refuses_normal_before_hardened() {
    let r = DerivationComponents::construct("m/0/1'", MASTER_XPUB, Some(ACCOUNT_XPUB), None);
    assert_eq!(r, Err(KeyError::InvalidHardenedSplit));
}

#[test]
fn construct_with_account_key() {
    let c = DerivationComponents::construct("m/84'/0'/0'/0", MASTER_XPUB, Some(ACCOUNT_ZPUB), None)
        .unwrap();
    assert_eq!(c.branch_path, vec![84 + H, H, H]);
    assert_eq!(c.terminal_path, vec![0]);
    assert_eq!(c.branch_xpub, XPub::from_text(ACCOUNT_XPUB).unwrap());
    assert_eq!(c.master_xpub, XPub::from_text(MASTER_XPUB).unwrap());
    assert_eq!(c.branch_xpub.depth(), 3);
}

#[test]
fn construct_needs_account_key_for_hardened_branch() {
    let r = DerivationComponents::construct("m/84'/0'/0'/0", MASTER_XPUB, None, None);
    assert_eq!(r, Err(KeyError::MissingAccountKey));
    let r = DerivationComponents::construct("m/84'/0'/0'/0", MASTER_XPUB, Some(""), None);
    assert_eq!(r, Err(KeyError::MissingAccountKey));
}

#[test]
fn construct_without_hardened_steps_uses_master_as_branch() {
    let c = DerivationComponents::construct("m/0", ACCOUNT_XPUB, None, None).unwrap();
    assert!(c.branch_path.is_empty());
    assert_eq!(c.branch_xpub, c.master_xpub);
    assert_eq!(c.derive_terminal_key(0).unwrap().to_bytes(), hex(KEY_0));
}

#[test]
fn construct_from_master_private_key() {
    let ranges = IndexRangeSet::parse("0-2").unwrap();
    let c = DerivationComponents::construct("m/84'/0'/0'/0", MASTER_XPRV, None, Some(ranges.clone()))
        .unwrap();
    assert_eq!(c.master_xpub, XPub::from_text(MASTER_XPUB).unwrap());
    assert_eq!(c.branch_xpub, XPub::from_text(ACCOUNT_XPUB).unwrap());
    assert_eq!(c.index_ranges, Some(ranges));
}

#[test]
fn construct_reports_bad_input() {
    assert_eq!(
        DerivationComponents::construct("84'/0'", MASTER_XPUB, None, None),
        Err(KeyError::InvalidPath)
    );
    assert_eq!(
        DerivationComponents::construct("m/0", "not a key", None, None),
        Err(KeyError::InvalidKey)
    );
    assert_eq!(
        DerivationComponents::construct("m/1'/0", MASTER_XPUB, Some("xpubbroken"), None),
        Err(KeyError::InvalidKey)
    );
}

#[test]
fn three_keys_from_a_range() {
    let ranges = IndexRangeSet::parse("0-2").unwrap();
    let c = DerivationComponents::construct("m/84'/0'/0'/0", MASTER_XPRV, None, Some(ranges.clone()))
        .unwrap();
    let mut keys = Vec::new();
    let mut it = ranges.iter();
    while let Some(i) = it.next() {
        keys.push(c.derive_terminal_key(i).unwrap().to_bytes());
    }
    assert_eq!(keys, vec![hex(KEY_0), hex(KEY_1), hex(KEY_2)]);
    assert_ne!(keys[0], keys[1]);
    assert_ne!(keys[1], keys[2]);
    assert_ne!(keys[0], keys[2]);
}

#[test]
fn hardened_terminal_index_overflows() {
    let c = DerivationComponents::construct("m/0", ACCOUNT_XPUB, None, None).unwrap();
    assert_eq!(c.derive_terminal_key(H), Err(KeyError::KeyDerivationOverflow));
}

#[test]
fn private_key_derivation_matches_account_key() {
    let master = XPrv::from_text(MASTER_XPRV).unwrap();
    let account = master.derive_path(&vec![84 + H, H, H]).unwrap();
    assert_eq!(account.to_xpub().unwrap(), XPub::from_text(ACCOUNT_XPUB).unwrap());
    let direct = XPrv::from_text(ACCOUNT_XPRV).unwrap();
    assert_eq!(direct.to_xpub().unwrap(), XPub::from_text(ACCOUNT_XPUB).unwrap());
}

#[test]
fn extended_key_texts_are_checked() {
    assert_eq!(XPub::from_text(MASTER_XPRV), Err(KeyError::InvalidKey));
    assert_eq!(XPub::from_text("1111"), Err(KeyError::InvalidKey));
    assert!(XPrv::from_text(MASTER_XPUB).is_err());
    assert_eq!(XPub::from_text(ACCOUNT_ZPUB), XPub::from_text(ACCOUNT_XPUB));
}

#[test]
fn xpub_child_derivation() {
    let account = XPub::from_text(ACCOUNT_XPUB).unwrap();
    let change = account.child(0).unwrap();
    assert_eq!(change.depth(), 4);
    assert_eq!(change.child(1).unwrap().public_key().to_bytes(), hex(KEY_1));
    assert_eq!(account.child(H), Err(KeyError::DerivationFailure));
}

#[test]
fn public_key_from_hex() {
    let k = PubKey::from_hex(KEY_2).unwrap();
    assert_eq!(k.to_bytes(), hex(KEY_2));
    assert!(k.is_compressed());
    assert_eq!(PubKey::from_hex("02abcd"), Err(KeyError::InvalidKey));
    assert_eq!(PubKey::from_hex("zz"), Err(KeyError::InvalidKey));
}

#[test]
fn fixed_key_ignores_index() {
    let k = PubKey::from_hex(KEY_2).unwrap();
    let v = KeyVariant::Fixed(k.clone());
    assert_eq!(v.as_single_key(), Some(&k));
    assert_eq!(v.resolve_at(0), Ok(k.clone()));
    assert_eq!(v.resolve_at(12345), Ok(k));
}

#[test]
fn derivable_key_resolves_through_terminal_path() {
    let c = DerivationComponents::construct("m/84'/0'/0'/0", MASTER_XPUB, Some(ACCOUNT_XPUB), None)
        .unwrap();
    let v = KeyVariant::Derivable(c);
    assert_eq!(v.as_single_key(), None);
    assert_eq!(v.resolve_at(2).unwrap().to_bytes(), hex(KEY_2));
}

#[test]
fn key_variant_identity() {
    let a = KeyVariant::Fixed(PubKey::from_hex(KEY_0).unwrap());
    let b = KeyVariant::Fixed(PubKey::from_hex(KEY_0).unwrap());
    let c = KeyVariant::Fixed(PubKey::from_hex(KEY_1).unwrap());
    assert!(a.same_as(&b));
    assert!(!a.same_as(&c));
    let d1 = KeyVariant::Derivable(
        DerivationComponents::construct("m/84'/0'/0'/0", MASTER_XPUB, Some(ACCOUNT_XPUB), None).unwrap(),
    );
    let d2 = KeyVariant::Derivable(
        DerivationComponents::construct("m/84'/0'/0'/1", MASTER_XPUB, Some(ACCOUNT_XPUB), None).unwrap(),
    );
    assert!(d1.same_as(&d1.clone()));
    assert!(!d1.same_as(&d2));
    assert!(!d1.same_as(&a));
}

#[test]
fn tracking_account_needs_a_name() {
    let key = KeyVariant::Fixed(PubKey::from_hex(KEY_0).unwrap());
    assert_eq!(TrackingAccount::new(String::new(), key.clone()), Err(KeyError::EmptyName));
    let a = TrackingAccount::new("savings".to_string(), key.clone()).unwrap();
    assert_eq!(a.name, "savings");
    assert_eq!(a.key, key);
}

#[test]
fn bip44_path_from_steps() {
    let hard = |index| PathStep { index, hardened: true };
    let soft = |index| PathStep { index, hardened: false };
    assert_eq!(
        bip44_path(hard(84), hard(0), hard(0), soft(0), None),
        Some(vec![84 + H, H, H, 0])
    );
    assert_eq!(
        bip44_path(hard(44), hard(1), hard(2), soft(1), Some(soft(9))),
        Some(vec![44 + H, 1 + H, 2 + H, 1, 9])
    );
    assert_eq!(bip44_path(hard(44), hard(H), hard(0), soft(0), None), None);
    assert_eq!(step_index(hard(5)), Some(5 + H));
    assert_eq!(step_index(soft(5)), Some(5));
    assert_eq!(step_index(soft(H)), None);
}

#[test]
fn short_base58_payload_is_refused() {
    assert_eq!(XPub::from_text("3DUz7ncyT"), Err(KeyError::InvalidKey));
    assert!(XPrv::from_text("3DUz7ncyT").is_err());
    assert_eq!(XPub::from_text("3QJmnh"), Err(KeyError::InvalidKey));
    assert_eq!(
        DerivationComponents::construct("m/0", "3DUz7ncyT", None, None),
        Err(KeyError::InvalidKey)
    );
}
