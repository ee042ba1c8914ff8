use bitcoin_pro::derivation::{DerivationComponents, KeyVariant};
use bitcoin_pro::keys::{KeyError, PubKey};
use bitcoin_pro::scripts::{
    DescriptorAccount, DescriptorError, MultiSig, ScriptGrammar, ScriptSource, ScriptTemplate,
    ScriptVariant, Template, Unsupported, Variants,
};

const KEY_A: &str = "02ce3088b423b443a7dd03ffc917961c43df41b50a5627e1af31a2fd65c57be50a";
const KEY_B: &str = "0220e7b14ee4e32962950d2cced944a5c5361b4d15e5ae6eaee50916b1a0a260ea";
const KEY_C: &str = "03575bbdb451b017d5a242feea2d24de415c522b2d6f4351a28481626a1488d289";
const KEY_A_UNCOMPRESSED: &str = "04ce3088b423b443a7dd03ffc917961c43df41b50a5627e1af31a2fd65c57be50a1a1621fe490b303224796110d94cd5487f9449a71dd5478ecdc4af9ef502cf9c";
const MULTISIG_ABC: &str = "52210220e7b14ee4e32962950d2cced944a5c5361b4d15e5ae6eaee50916b1a0a260ea2102ce3088b423b443a7dd03ffc917961c43df41b50a5627e1af31a2fd65c57be50a2103575bbdb451b017d5a242feea2d24de415c522b2d6f4351a28481626a1488d28953ae";
const ACCOUNT_XPUB: &str = "xpub6C1HVMz946r433QEjZGpYYWYcspxXXBPys5PBGkmQboRXE6RLfFiStEkKbWKCZaPgDrzZh9nUEunxuiuy6MNdw23du2Ek7GoKYMJVH8eK5E";

fn hex(s: &str) -> Vec<u8> {
    (0..s.len()).step_by(2).map(|i| u8::from_str_radix(&s[i..i + 2], 16).unwrap()).collect()
}

fn fixed(s: &str) -> KeyVariant {
    KeyVariant::Fixed(PubKey::from_hex(s).unwrap())
}

fn all_variants() -> Variants {
    Variants { bare: true, hashed: true, nested: true, segwit: true, taproot: true }
}

fn only(variant: ScriptVariant) -> Variants {
    Variants {
        bare: variant == ScriptVariant::Bare,
        hashed: variant == ScriptVariant::Hashed,
        nested: variant == ScriptVariant::Nested,
        segwit: variant == ScriptVariant::Segwit,
        taproot: variant == ScriptVariant::Taproot,
    }
}

fn account(template: Template, variants: Variants) -> DescriptorAccount {
    DescriptorAccount { name: "test".to_string(), template, variants }
}

fn multisig(keys: Vec<KeyVariant>, threshold: usize, reorder: bool) -> Template {
    Template::MultiSig(MultiSig { threshold, keys, reorder })
}

#[test]
fn single_sig_without_key_is_refused() {
    let a = account(Template::SingleSig(None), all_variants());
    assert_eq!(a.generate(), Err(DescriptorError::EmptyKey));
    assert_eq!(
        DescriptorAccount::new("x".to_string(), Template::SingleSig(None), all_variants()),
        Err(DescriptorError::EmptyKey)
    );
}

#[test]
fn single_sig_scripts_of_every_variant() {
    let a = account(Template::SingleSig(Some(fixed(KEY_A))), all_variants());
    let scripts = a.generate().unwrap();
    let expect = vec![
        ScriptTemplate { variant: ScriptVariant::Bare, script: hex(&format!("21{}ac", KEY_A)) },
        ScriptTemplate {
            variant: ScriptVariant::Hashed,
            script: hex("76a9140f0d117a87e7e06468b90afbdb72c3ef66072da688ac"),
        },
        ScriptTemplate {
            variant: ScriptVariant::Nested,
            script: hex("a914474807f0c705861d161e69cfafe53dc2de2966e187"),
        },
        ScriptTemplate {
            variant: ScriptVariant::Segwit,
            script: hex("00140f0d117a87e7e06468b90afbdb72c3ef66072da6"),
        },
        ScriptTemplate {
            variant: ScriptVariant::Taproot,
            script: hex("51205d7049be6b9f190c5bd75b48a175eb2d213ecb0d0b6a4662d02b4b0a3fb280ca"),
        },
    ];
    assert_eq!(scripts, expect);
}

#[test]
fn taproot_output_key_of_known_internal_key() {
    let k = "02cc8a4bc64d897bddc5fbc2f670f7a8ba0b386779106cf1223c6fc5d7cd6fc115";
    let a = account(Template::SingleSig(Some(fixed(k))), only(ScriptVariant::Taproot));
    let scripts = a.generate().unwrap();
    assert_eq!(
        scripts[0].script,
        hex("5120a60869f0dbcf1dc659c9cecbaf8050135ea9e8cdc487053f1dc6880949dc684c")
    );
}

#[test]
fn only_enabled_variants_are_generated() {
    let v = Variants { bare: false, hashed: true, nested: false, segwit: true, taproot: false };
    let a = account(Template::SingleSig(Some(fixed(KEY_A))), v);
    let scripts = a.generate().unwrap();
    assert_eq!(scripts.len(), 2);
    assert_eq!(scripts[0].variant, ScriptVariant::Hashed);
    assert_eq!(scripts[1].variant, ScriptVariant::Segwit);
    let none = Variants { bare: false, hashed: false, nested: false, segwit: false, taproot: false };
    assert_eq!(account(Template::SingleSig(Some(fixed(KEY_A))), none).generate(), Ok(vec![]));
}

#[test]
fn uncompressed_key_has_no_segwit_v0_script() {
    let a = account(Template::SingleSig(Some(fixed(KEY_A_UNCOMPRESSED))), only(ScriptVariant::Hashed));
    assert_eq!(
        a.generate().unwrap()[0].script,
        hex("76a9144c3f3ab81b08735bf1041d612ed17a11f5ee605888ac")
    );
    let a = account(Template::SingleSig(Some(fixed(KEY_A_UNCOMPRESSED))), only(ScriptVariant::Segwit));
    assert_eq!(a.generate(), Err(DescriptorError::UncompressedKey));
    let a = account(Template::SingleSig(Some(fixed(KEY_A_UNCOMPRESSED))), only(ScriptVariant::Nested));
    assert_eq!(a.generate(), Err(DescriptorError::UncompressedKey));
}

#[test]
fn reordered_multisig_is_canonical() {
    let cab = account(multisig(vec![fixed(KEY_C), fixed(KEY_A), fixed(KEY_B)], 2, true), only(ScriptVariant::Bare));
    let bac = account(multisig(vec![fixed(KEY_B), fixed(KEY_A), fixed(KEY_C)], 2, true), only(ScriptVariant::Bare));
    let s1 = cab.generate().unwrap();
    let s2 = bac.generate().unwrap();
    assert_eq!(s1, s2);
    assert_eq!(s1[0].script, hex(MULTISIG_ABC));
}

#[test]
fn multisig_keeps_order_without_reorder() {
    let cab = account(multisig(vec![fixed(KEY_C), fixed(KEY_A), fixed(KEY_B)], 2, false), only(ScriptVariant::Bare));
    let s = cab.generate().unwrap();
    let expect = hex(&format!("5221{}21{}21{}53ae", KEY_C, KEY_A, KEY_B));
    assert_eq!(s[0].script, expect);
}

#[test]
fn multisig_wrapped_scripts() {
    let keys = vec![fixed(KEY_A), fixed(KEY_B), fixed(KEY_C)];
    let v = Variants { bare: false, hashed: true, nested: false, segwit: true, taproot: false };
    let s = account(multisig(keys, 2, true), v).generate().unwrap();
    assert_eq!(s[0].script, hex("a914c939ef58834c68fdf45cb1fcb15647561ef871a787"));
    assert_eq!(
        s[1].script,
        hex("0020291fb900a0cf3e43af3c1b7f301489bee02214f0da0b8bc15ecc5586c4f4275c")
    );
}

#[test]
fn taproot_multisig_is_not_supported() {
    let keys = vec![fixed(KEY_A), fixed(KEY_B)];
    let a = account(multisig(keys, 1, true), only(ScriptVariant::Taproot));
    assert_eq!(
        a.generate(),
        Err(DescriptorError::NotYetSupported(Unsupported::TaprootMultisig))
    );
}

#[test]
fn multisig_needs_two_distinct_keys() {
    let a = account(multisig(vec![fixed(KEY_A)], 1, true), all_variants());
    assert_eq!(a.generate(), Err(DescriptorError::EmptyKeyset));
    let a = account(multisig(vec![fixed(KEY_A), fixed(KEY_A)], 1, true), all_variants());
    assert_eq!(a.generate(), Err(DescriptorError::EmptyKeyset));
    let a = account(multisig(vec![], 1, true), all_variants());
    assert_eq!(a.generate(), Err(DescriptorError::EmptyKeyset));
}

#[test]
fn multisig_threshold_must_fit() {
    let keys = vec![fixed(KEY_A), fixed(KEY_B)];
    assert_eq!(
        account(multisig(keys.clone(), 0, true), all_variants()).generate(),
        Err(DescriptorError::WrongThreshold)
    );
    assert_eq!(
        account(multisig(keys, 3, true), all_variants()).generate(),
        Err(DescriptorError::WrongThreshold)
    );
}

#[test]
fn multisig_with_more_than_sixteen_keys() {
    let mut keys = vec![fixed(KEY_B)];
    for _ in 0..16 {
        keys.push(fixed(KEY_A));
    }
    let s = account(multisig(keys.clone(), 2, true), only(ScriptVariant::Bare)).generate().unwrap();
    let mut expect = format!("5221{}", KEY_B);
    for _ in 0..16 {
        expect.push_str(&format!("21{}", KEY_A));
    }
    expect.push_str("0111ae");
    assert_eq!(s[0].script, hex(&expect));
    let s = account(multisig(keys, 17, true), only(ScriptVariant::Bare)).generate().unwrap();
    assert_eq!(&s[0].script[..2], &[0x01, 0x11]);
}

#[test]
fn large_multisig_count_uses_a_sign_byte() {
    let mut keys = vec![fixed(KEY_B)];
    for _ in 0..127 {
        keys.push(fixed(KEY_A));
    }
    let s = account(multisig(keys, 1, false), only(ScriptVariant::Bare)).generate().unwrap();
    let script = &s[0].script;
    assert_eq!(script[0], 0x51);
    assert_eq!(&script[script.len() - 4..], &[0x02, 0x80, 0x00, 0xae]);
}

#[test]
fn multisig_with_derivable_keys_resolves_each_index() {
    let c = DerivationComponents::construct("m/0", ACCOUNT_XPUB, None, None).unwrap();
    let keys = vec![KeyVariant::Derivable(c), fixed(KEY_C)];
    let a = account(multisig(keys, 1, true), only(ScriptVariant::Bare));
    let at1 = a.generate_at(1).unwrap();
    let expect = hex(&format!("5121{}21{}52ae", KEY_B, KEY_C));
    assert_eq!(at1[0].script, expect);
    assert_ne!(a.generate_at(0).unwrap(), at1);
    assert_eq!(
        a.generate_at(0x8000_0000),
        Err(DescriptorError::Key(KeyError::KeyDerivationOverflow))
    );
}

#[test]
fn scripted_templates_are_refused() {
    let empty = ScriptSource { source: String::new(), grammar: Some(ScriptGrammar::Asm), tweak_target: None };
    assert_eq!(account(Template::Scripted(empty), all_variants()).generate(), Err(DescriptorError::EmptyScript));
    let untyped = ScriptSource { source: "OP_TRUE".to_string(), grammar: None, tweak_target: None };
    assert_eq!(
        account(Template::Scripted(untyped), all_variants()).generate(),
        Err(DescriptorError::SourceTypeRequired)
    );
    let typed = ScriptSource { source: "OP_TRUE".to_string(), grammar: Some(ScriptGrammar::Miniscript), tweak_target: None };
    assert_eq!(
        account(Template::Scripted(typed), all_variants()).generate(),
        Err(DescriptorError::NotYetSupported(Unsupported::ScriptParsing))
    );
}

#[test]
fn descriptor_needs_a_name() {
    let t = Template::SingleSig(Some(fixed(KEY_A)));
    assert_eq!(
        DescriptorAccount::new(String::new(), t.clone(), all_variants()),
        Err(DescriptorError::EmptyName)
    );
    let a = DescriptorAccount::new("main".to_string(), t.clone(), all_variants()).unwrap();
    assert_eq!(a.name, "main");
    assert_eq!(a.template, t);
}

#[test]
fn grammar_identifiers() {
    assert_eq!(ScriptGrammar::from_id("asm"), Some(ScriptGrammar::Asm));
    assert_eq!(ScriptGrammar::from_id("hex"), Some(ScriptGrammar::Hex));
    assert_eq!(ScriptGrammar::from_id("miniscript"), Some(ScriptGrammar::Miniscript));
    assert_eq!(ScriptGrammar::from_id("policy"), Some(ScriptGrammar::Policy));
    assert_eq!(ScriptGrammar::from_id("Asm"), None);
    assert_eq!(ScriptGrammar::from_id(""), None);
}

#[test]
fn variants_any() {
    assert!(all_variants().any());
    assert!(only(ScriptVariant::Taproot).any());
    let none = Variants { bare: false, hashed: false, nested: false, segwit: false, taproot: false };
    assert!(!none.any());
}
