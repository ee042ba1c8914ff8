use bitcoin_pro::keys::PubKey;
use bitcoin_pro::derivation::KeyVariant;
use bitcoin_pro::ranges::IndexRangeSet;
use bitcoin_pro::scripts::{
    DescriptorAccount, DescriptorError, ScriptSource, ScriptVariant, Template, Unsupported, Variants,
};
use bitcoin_pro::utxo::{FoundOutput, OutPoint, Resolution, UtxoEntry, UtxoSet};

const KEY_A: &str = "02ce3088b423b443a7dd03ffc917961c43df41b50a5627e1af31a2fd65c57be50a";

fn outpoint(tag: u8, vout: u32) -> OutPoint {
    OutPoint { txid: [tag; 32], vout }
}

fn entry(tag: u8, vout: u32, value: u64) -> UtxoEntry {
    UtxoEntry { outpoint: outpoint(tag, vout), value, index: 0, variant: ScriptVariant::Segwit }
}

fn single_account(variants: Variants) -> DescriptorAccount {
    DescriptorAccount {
        name: "single".to_string(),
        template: Template::SingleSig(Some(KeyVariant::Fixed(PubKey::from_hex(KEY_A).unwrap()))),
        variants,
    }
}

/// Runs a pass, answering every query with the same outputs.
fn run(res: &mut Resolution, answer: &Vec<FoundOutput>) -> Vec<(u32, ScriptVariant)> {
    let mut asked = Vec::new();
    while res.advance().unwrap() {
        while let Some(q) = res.next_query() {
            asked.push((q.index, q.variant));
            res.record(&q, answer);
        }
    }
    asked
}

#[test]
fn set_ignores_repeated_outpoints() {
    let mut set = UtxoSet::new();
    assert!(set.insert(entry(1, 0, 10)));
    assert!(set.insert(entry(1, 1, 20)));
    assert!(!set.insert(entry(1, 0, 99)));
    assert_eq!(set.len(), 2);
    assert_eq!(set.entries()[0].value, 10);
    assert!(set.contains(&outpoint(1, 1)));
    assert!(!set.contains(&outpoint(2, 1)));
}

#[test]
fn batch_insert_twice_keeps_size() {
    let batch = vec![entry(1, 0, 10), entry(2, 0, 20), entry(1, 0, 30)];
    let mut set = UtxoSet::new();
    set.insert_batch(&batch);
    assert_eq!(set.len(), 2);
    let first = set.clone();
    set.insert_batch(&batch);
    assert_eq!(set, first);
}

#[test]
fn resolution_queries_every_index_and_variant_in_order() {
    let range = IndexRangeSet::parse("0,2").unwrap();
    let v = Variants { bare: false, hashed: true, nested: false, segwit: true, taproot: false };
    let mut res = Resolution::new(single_account(v), &range).unwrap();
    let answer = vec![FoundOutput { outpoint: outpoint(7, 1), value: 5000 }];
    let asked = run(&mut res, &answer);
    assert_eq!(
        asked,
        vec![
            (0, ScriptVariant::Hashed),
            (0, ScriptVariant::Segwit),
            (2, ScriptVariant::Hashed),
            (2, ScriptVariant::Segwit)
        ]
    );
    let set = res.into_utxos();
    assert_eq!(set.len(), 1);
    assert_eq!(
        set.entries()[0],
        UtxoEntry { outpoint: outpoint(7, 1), value: 5000, index: 0, variant: ScriptVariant::Hashed }
    );
}

#[test]
fn resolving_twice_gives_the_same_set_size() {
    let range = IndexRangeSet::parse("0-3").unwrap();
    let v = Variants { bare: true, hashed: true, nested: true, segwit: true, taproot: true };
    let answer = vec![
        FoundOutput { outpoint: outpoint(1, 0), value: 1 },
        FoundOutput { outpoint: outpoint(2, 3), value: 2 },
    ];
    let mut first = Resolution::new(single_account(v), &range).unwrap();
    run(&mut first, &answer);
    let once = first.into_utxos();
    let mut second = Resolution::new(single_account(v), &range).unwrap();
    run(&mut second, &answer);
    run(&mut second, &answer);
    let twice = second.into_utxos();
    assert_eq!(once.len(), 2);
    assert_eq!(twice.len(), once.len());
}

#[test]
fn scripted_descriptor_cannot_be_resolved() {
    let a = DescriptorAccount {
        name: "s".to_string(),
        template: Template::Scripted(ScriptSource { source: "x".to_string(), grammar: None, tweak_target: None }),
        variants: Variants { bare: true, hashed: false, nested: false, segwit: false, taproot: false },
    };
    let range = IndexRangeSet::parse("0").unwrap();
    assert_eq!(
        Resolution::new(a, &range).err(),
        Some(DescriptorError::NotYetSupported(Unsupported::CustomScriptLookup))
    );
}

#[test]
fn generation_error_stops_the_pass() {
    let a = DescriptorAccount {
        name: "empty".to_string(),
        template: Template::SingleSig(None),
        variants: Variants { bare: true, hashed: false, nested: false, segwit: false, taproot: false },
    };
    let range = IndexRangeSet::parse("0").unwrap();
    let mut res = Resolution::new(a, &range).unwrap();
    assert_eq!(res.advance(), Err(DescriptorError::EmptyKey));
}

#[test]
fn pass_adds_to_outputs_already_found() {
    let mut earlier = UtxoSet::new();
    earlier.insert(entry(9, 0, 1));
    earlier.insert(entry(1, 0, 10));
    let range = IndexRangeSet::parse("0").unwrap();
    let v = Variants { bare: false, hashed: true, nested: false, segwit: false, taproot: false };
    let mut res = Resolution::with_found(single_account(v), &range, earlier).unwrap();
    let answer = vec![
        FoundOutput { outpoint: outpoint(1, 0), value: 10 },
        FoundOutput { outpoint: outpoint(3, 2), value: 30 },
    ];
    run(&mut res, &answer);
    let set = res.into_utxos();
    assert_eq!(set.len(), 3);
    assert_eq!(set.entries()[0].outpoint, outpoint(9, 0));
    assert_eq!(set.entries()[2].outpoint, outpoint(3, 2));
}

#[test]
fn failed_advance_keeps_nothing_pending() {
    let a = DescriptorAccount {
        name: "empty".to_string(),
        template: Template::SingleSig(None),
        variants: Variants { bare: true, hashed: false, nested: false, segwit: false, taproot: false },
    };
    let range = IndexRangeSet::parse("0-1").unwrap();
    let mut res = Resolution::new(a, &range).unwrap();
    assert!(res.advance().is_err());
    assert_eq!(res.next_query(), None);
}
