//! Descriptor templates and the output scripts they generate: bare,
//! hash-wrapped, nested segwit, native segwit and taproot.

use vstd::prelude::*;
use vstd::string::*;

use crate::derivation::{key_at, same_variant, KeyVariant};
use crate::keys::{key_shape, KeyError, PubKey};
use crate::order::{canonical, key_bytes, sort_keys};
use crate::text::{chars_equal, chars_of};

verus! {

broadcast use vstd::seq_lib::group_to_multiset_ensures;

/// Which script encodings to generate.
#[derive(Clone, Copy, Debug, PartialEq, Eq, Structural)]
pub struct Variants {
    pub bare: bool,
    pub hashed: bool,
    pub nested: bool,
    pub segwit: bool,
    pub taproot: bool,
}

impl Variants {
    /// Whether any encoding is enabled; a descriptor with none generates
    /// nothing.
    pub fn any(&self) -> (r: bool)
        ensures
            r == (self.bare || self.hashed || self.nested || self.segwit || self.taproot),
            r == (enabled(*self).len() > 0),
    {
        self.bare || self.hashed || self.nested || self.segwit || self.taproot
    }
}

/// One script encoding.
#[derive(Clone, Copy, Debug, PartialEq, Eq, Structural)]
pub enum ScriptVariant {
    /// The key or multisig script itself.
    Bare,
    /// Pay-to-pubkey-hash or pay-to-script-hash.
    Hashed,
    /// Native segwit wrapped in pay-to-script-hash.
    Nested,
    /// Native segwit v0.
    Segwit,
    /// Segwit v1 key-path output.
    Taproot,
}

/// What is deliberately not implemented.
#[derive(Clone, Copy, Debug, PartialEq, Eq, Structural)]
pub enum Unsupported {
    /// Parsing a script from its source text.
    ScriptParsing,
    /// Multisig under taproot.
    TaprootMultisig,
    /// Looking up outputs of a hand-written script.
    CustomScriptLookup,
}

/// Grammar of a hand-written script source.
#[derive(Clone, Copy, Debug, PartialEq, Eq, Structural)]
pub enum ScriptGrammar {
    Asm,
    Hex,
    Miniscript,
    Policy,
}

/// The grammar named by an identifier: `asm`, `hex`, `miniscript` or
/// `policy`.
pub open spec fn grammar_of(id: Seq<char>) -> Option<ScriptGrammar> {
    if id == seq!['a', 's', 'm'] {
        Some(ScriptGrammar::Asm)
    } else if id == seq!['h', 'e', 'x'] {
        Some(ScriptGrammar::Hex)
    } else if id == seq!['m', 'i', 'n', 'i', 's', 'c', 'r', 'i', 'p', 't'] {
        Some(ScriptGrammar::Miniscript)
    } else if id == seq!['p', 'o', 'l', 'i', 'c', 'y'] {
        Some(ScriptGrammar::Policy)
    } else {
        None
    }
}

impl ScriptGrammar {
    /// Reads a grammar identifier; `None` for any other text.
    pub fn from_id(id: &str) -> (r: Option<ScriptGrammar>)
        ensures
            r == grammar_of(id@),
    {
        let c = chars_of(id);
        if chars_equal(&c, &vec!['a', 's', 'm']) {
            Some(ScriptGrammar::Asm)
        } else if chars_equal(&c, &vec!['h', 'e', 'x']) {
            Some(ScriptGrammar::Hex)
        } else if chars_equal(&c, &vec!['m', 'i', 'n', 'i', 's', 'c', 'r', 'i', 'p', 't']) {
            Some(ScriptGrammar::Miniscript)
        } else if chars_equal(&c, &vec!['p', 'o', 'l', 'i', 'c', 'y']) {
            Some(ScriptGrammar::Policy)
        } else {
            None
        }
    }
}

/// A multi-signature template.
#[derive(Clone, Debug, PartialEq, Eq)]
pub struct MultiSig {
    pub threshold: usize,
    pub keys: Vec<KeyVariant>,
    /// Sort keys by serialized bytes before building the script.
    pub reorder: bool,
}

/// A hand-written script: its source text, its grammar and an optional key
/// to tweak.
#[derive(Clone, Debug, PartialEq, Eq)]
pub struct ScriptSource {
    pub source: String,
    pub grammar: Option<ScriptGrammar>,
    pub tweak_target: Option<PubKey>,
}

/// What a descriptor builds its scripts from.
#[derive(Clone, Debug, PartialEq, Eq)]
pub enum Template {
    /// One key; `None` while no key has been chosen.
    SingleSig(Option<KeyVariant>),
    MultiSig(MultiSig),
    Scripted(ScriptSource),
}

/// A named template with the script encodings to generate.
#[derive(Clone, Debug, PartialEq, Eq)]
pub struct DescriptorAccount {
    pub name: String,
    pub template: Template,
    pub variants: Variants,
}

/// One generated script.
#[derive(Clone, Debug, PartialEq, Eq)]
pub struct ScriptTemplate {
    pub variant: ScriptVariant,
    pub script: Vec<u8>,
}

/// Why a descriptor could not be built or generate its scripts.
#[derive(Clone, Copy, Debug, PartialEq, Eq, Structural)]
pub enum DescriptorError {
    /// The descriptor needs a non-empty name.
    EmptyName,
    /// A single-signature template has no key.
    EmptyKey,
    /// A multisig template has fewer than two distinct keys.
    EmptyKeyset,
    /// A scripted template has an empty source.
    EmptyScript,
    /// A scripted template does not say its grammar.
    SourceTypeRequired,
    /// A deliberate "not implemented" boundary.
    NotYetSupported(Unsupported),
    /// The multisig threshold is not between one and the number of keys.
    WrongThreshold,
    /// A segwit v0 encoding was asked of an uncompressed key.
    UncompressedKey,
    /// The taproot tweak of a key failed.
    TweakFailure,
    /// A key could not be resolved at the index.
    Key(KeyError),
}

/// Enabled encodings, in the order bare, hashed, nested, segwit, taproot.
pub open spec fn enabled(v: Variants) -> Seq<ScriptVariant> {
    (if v.bare {
        seq![ScriptVariant::Bare]
    } else {
        seq![]
    }) + (if v.hashed {
        seq![ScriptVariant::Hashed]
    } else {
        seq![]
    }) + (if v.nested {
        seq![ScriptVariant::Nested]
    } else {
        seq![]
    }) + (if v.segwit {
        seq![ScriptVariant::Segwit]
    } else {
        seq![]
    }) + (if v.taproot {
        seq![ScriptVariant::Taproot]
    } else {
        seq![]
    })
}

/// At least two key variants that are not the same recipe.
pub open spec fn has_two_distinct(ks: Seq<KeyVariant>) -> bool {
    exists|j: int| 0 < j < ks.len() && !same_variant(ks[0], #[trigger] ks[j])
}

/// The checks a template passes before any script is built.
pub open spec fn check_template(t: Template) -> Result<(), DescriptorError> {
    match t {
        Template::SingleSig(None) => Err(DescriptorError::EmptyKey),
        Template::SingleSig(Some(_)) => Ok(()),
        Template::MultiSig(ms) => if !has_two_distinct(ms.keys@) {
            Err(DescriptorError::EmptyKeyset)
        } else if ms.threshold < 1 || ms.threshold > ms.keys@.len() {
            Err(DescriptorError::WrongThreshold)
        } else {
            Ok(())
        },
        Template::Scripted(src) => if src.source@.len() == 0 {
            Err(DescriptorError::EmptyScript)
        } else {
            match src.grammar {
                None => Err(DescriptorError::SourceTypeRequired),
                Some(_) => Err(DescriptorError::NotYetSupported(Unsupported::ScriptParsing)),
            }
        },
    }
}

/// Keys of a list of variants at an index, or the first failure.
pub open spec fn keys_at(ks: Seq<KeyVariant>, index: u32) -> Result<Seq<Seq<u8>>, KeyError>
    decreases ks.len(),
{
    if ks.len() == 0 {
        Ok(Seq::empty())
    } else {
        match keys_at(ks.drop_last(), index) {
            Ok(p) => match key_at(ks.last(), index) {
                Ok(k) => Ok(p.push(k)),
                Err(e) => Err(e),
            },
            Err(e) => Err(e),
        }
    }
}

/// A push of a key: its length as opcode, then its bytes.
pub open spec fn push_key(k: Seq<u8>) -> Seq<u8> {
    seq![k.len() as u8] + k
}

/// `<key> OP_CHECKSIG`
pub open spec fn p2pk_script(k: Seq<u8>) -> Seq<u8> {
    push_key(k) + seq![0xacu8]
}

/// `OP_DUP OP_HASH160 <hash160(key)> OP_EQUALVERIFY OP_CHECKSIG`
pub open spec fn p2pkh_script(k: Seq<u8>) -> Seq<u8> {
    seq![0x76u8, 0xa9u8, 0x14u8] + hash160_of(k) + seq![0x88u8, 0xacu8]
}

/// `OP_0 <hash160(key)>`
pub open spec fn p2wpkh_script(k: Seq<u8>) -> Seq<u8> {
    seq![0x00u8, 0x14u8] + hash160_of(k)
}

/// `OP_HASH160 <hash160(script)> OP_EQUAL`
pub open spec fn p2sh_script(s: Seq<u8>) -> Seq<u8> {
    seq![0xa9u8, 0x14u8] + hash160_of(s) + seq![0x87u8]
}

/// `OP_0 <sha256(script)>`
pub open spec fn p2wsh_script(s: Seq<u8>) -> Seq<u8> {
    seq![0x00u8, 0x20u8] + sha256_of(s)
}

/// `OP_1 <output key>`
pub open spec fn p2tr_script(q: Seq<u8>) -> Seq<u8> {
    seq![0x51u8, 0x20u8] + q
}

pub open spec fn key_pushes(ks: Seq<Seq<u8>>) -> Seq<u8>
    decreases ks.len(),
{
    if ks.len() == 0 {
        Seq::empty()
    } else {
        key_pushes(ks.drop_last()) + push_key(ks.last())
    }
}

/// Little-endian bytes of a number, without trailing zero bytes.
pub open spec fn le_bytes(n: nat) -> Seq<u8>
    decreases n,
{
    if n == 0 {
        Seq::empty()
    } else {
        seq![(n % 256) as u8] + le_bytes(n / 256)
    }
}

/// Script-number encoding of a positive number: little-endian, with a zero
/// byte added when the top bit of the last byte would read as a sign.
pub open spec fn script_num(n: nat) -> Seq<u8> {
    let b = le_bytes(n);
    if b.len() > 0 && b.last() >= 0x80 {
        b.push(0)
    } else {
        b
    }
}

/// Minimal push of a positive number: `OP_1` to `OP_16` for 1 to 16, else a
/// data push of its script-number encoding.
pub open spec fn push_num(n: nat) -> Seq<u8> {
    if 1 <= n <= 16 {
        seq![(0x50 + n) as u8]
    } else {
        seq![script_num(n).len() as u8] + script_num(n)
    }
}

/// `<m> <key>... <n> OP_CHECKMULTISIG`
pub open spec fn multisig_script(m: nat, ks: Seq<Seq<u8>>) -> Seq<u8> {
    push_num(m) + key_pushes(ks) + push_num(ks.len()) + seq![0xaeu8]
}

/// X coordinate of a serialized key.
pub open spec fn x_only(k: Seq<u8>) -> Seq<u8> {
    k.subrange(1, 33)
}

/// Taproot output key of an internal key with no script tree.
pub open spec fn taproot_output(k: Seq<u8>) -> Option<Seq<u8>> {
    match tap_tweak_hash_of(x_only(k)) {
        Some(t) => xonly_tweak_add_of(x_only(k), t),
        None => None,
    }
}

pub open spec fn all_compressed(ks: Seq<Seq<u8>>) -> bool {
    forall|k: int| 0 <= k < ks.len() ==> (#[trigger] ks[k]).len() == 33
}

/// Script of one encoding for a single key.
pub open spec fn single_script(v: ScriptVariant, k: Seq<u8>) -> Result<Seq<u8>, DescriptorError> {
    match v {
        ScriptVariant::Bare => Ok(p2pk_script(k)),
        ScriptVariant::Hashed => Ok(p2pkh_script(k)),
        ScriptVariant::Nested => if k.len() == 33 {
            Ok(p2sh_script(p2wpkh_script(k)))
        } else {
            Err(DescriptorError::UncompressedKey)
        },
        ScriptVariant::Segwit => if k.len() == 33 {
            Ok(p2wpkh_script(k))
        } else {
            Err(DescriptorError::UncompressedKey)
        },
        ScriptVariant::Taproot => match taproot_output(k) {
            Some(q) => Ok(p2tr_script(q)),
            None => Err(DescriptorError::TweakFailure),
        },
    }
}

/// Script of one encoding for an `m`-of-keys multisig.
pub open spec fn multi_script(v: ScriptVariant, m: nat, ks: Seq<Seq<u8>>) -> Result<
    Seq<u8>,
    DescriptorError,
> {
    let ms = multisig_script(m, ks);
    match v {
        ScriptVariant::Bare => Ok(ms),
        ScriptVariant::Hashed => Ok(p2sh_script(ms)),
        ScriptVariant::Nested => if all_compressed(ks) {
            Ok(p2sh_script(p2wsh_script(ms)))
        } else {
            Err(DescriptorError::UncompressedKey)
        },
        ScriptVariant::Segwit => if all_compressed(ks) {
            Ok(p2wsh_script(ms))
        } else {
            Err(DescriptorError::UncompressedKey)
        },
        ScriptVariant::Taproot => Err(DescriptorError::NotYetSupported(Unsupported::TaprootMultisig)),
    }
}

/// The keys a descriptor's scripts are built from.
pub enum KeySet {
    /// One key.
    Single(Seq<u8>),
    /// A threshold and the keys in script order.
    Multi(nat, Seq<Seq<u8>>),
}

/// Script of one encoding for a key set.
pub open spec fn variant_script(v: ScriptVariant, s: KeySet) -> Result<Seq<u8>, DescriptorError> {
    match s {
        KeySet::Single(k) => single_script(v, k),
        KeySet::Multi(m, ks) => multi_script(v, m, ks),
    }
}

/// Scripts of the given encodings, in order, or the first failure.
pub open spec fn gen_scripts(vs: Seq<ScriptVariant>, s: KeySet) -> Result<
    Seq<(ScriptVariant, Seq<u8>)>,
    DescriptorError,
>
    decreases vs.len(),
{
    if vs.len() == 0 {
        Ok(Seq::empty())
    } else {
        match gen_scripts(vs.drop_last(), s) {
            Ok(p) => match variant_script(vs.last(), s) {
                Ok(b) => Ok(p.push((vs.last(), b))),
                Err(e) => Err(e),
            },
            Err(e) => Err(e),
        }
    }
}

/// Keys of a multisig in the order used in its script.
pub open spec fn multisig_order(reorder: bool, ks: Seq<Seq<u8>>) -> Seq<Seq<u8>> {
    if reorder {
        canonical(ks)
    } else {
        ks
    }
}

/// Scripts a descriptor generates with its keys resolved at `index`.
pub open spec fn generated(a: DescriptorAccount, index: u32) -> Result<
    Seq<(ScriptVariant, Seq<u8>)>,
    DescriptorError,
> {
    match check_template(a.template) {
        Err(e) => Err(e),
        Ok(_) => match a.template {
            Template::SingleSig(Some(kv)) => match key_at(kv, index) {
                Err(e) => Err(DescriptorError::Key(e)),
                Ok(k) => gen_scripts(enabled(a.variants), KeySet::Single(k)),
            },
            Template::MultiSig(ms) => match keys_at(ms.keys@, index) {
                Err(e) => Err(DescriptorError::Key(e)),
                Ok(ks) => gen_scripts(
                    enabled(a.variants),
                    KeySet::Multi(ms.threshold as nat, multisig_order(ms.reorder, ks)),
                ),
            },
            _ => Err(DescriptorError::EmptyKey),
        },
    }
}

pub open spec fn templates_view(v: Seq<ScriptTemplate>) -> Seq<(ScriptVariant, Seq<u8>)> {
    v.map_values(|t: ScriptTemplate| (t.variant, t.script@))
}

pub open spec fn all_keys_wf(ks: Seq<KeyVariant>) -> bool {
    forall|k: int| 0 <= k < ks.len() ==> (#[trigger] ks[k]).wf()
}

impl Template {
    pub open spec fn wf(&self) -> bool {
        match self {
            Template::SingleSig(Some(k)) => k.wf(),
            Template::SingleSig(None) => true,
            Template::MultiSig(ms) => all_keys_wf(ms.keys@),
            Template::Scripted(_) => true,
        }
    }
}

impl DescriptorAccount {
    /// A descriptor; its template must pass the checks and its name must not
    /// be empty.
    pub fn new(name: String, template: Template, variants: Variants) -> (r: Result<
        DescriptorAccount,
        DescriptorError,
    >)
        ensures
            match r {
                Ok(a) => check_template(template) == Ok::<(), DescriptorError>(()) && name@.len() > 0
                    && a.name@ == name@ && a.template == template && a.variants == variants,
                Err(e) => check_template(template) == Err::<(), DescriptorError>(e) || (check_template(
                    template,
                ) is Ok && name@.len() == 0 && e == DescriptorError::EmptyName),
            },
    {
        check(&template)?;
        if name.as_str().unicode_len() == 0 {
            return Err(DescriptorError::EmptyName);
        }
        Ok(DescriptorAccount { name, template, variants })
    }

    /// The scripts of every enabled encoding, with each key resolved at
    /// `index`.
    pub fn generate_at(&self, index: u32) -> (r: Result<Vec<ScriptTemplate>, DescriptorError>)
        requires
            self.template.wf(),
        ensures
            match r {
                Ok(v) => generated(*self, index) == Ok::<
                    Seq<(ScriptVariant, Seq<u8>)>,
                    DescriptorError,
                >(templates_view(v@)),
                Err(e) => generated(*self, index) == Err::<
                    Seq<(ScriptVariant, Seq<u8>)>,
                    DescriptorError,
                >(e),
            },
    {
        check(&self.template)?;
        let vs = enabled_variants(self.variants);
        match &self.template {
            Template::SingleSig(Some(kv)) => {
                let k = match kv.resolve_at(index) {
                    Ok(k) => k,
                    Err(e) => {
                        return Err(DescriptorError::Key(e));
                    },
                };
                build_all(&vs, &KeyMaterial::Single(k))
            },
            Template::MultiSig(ms) => {
                let keys = match resolve_keys(&ms.keys, index) {
                    Ok(ks) => ks,
                    Err(e) => {
                        return Err(DescriptorError::Key(e));
                    },
                };
                let ghost resolved = key_bytes(keys@);
                proof {
                    lemma_keys_at_len(ms.keys@, index);
                }
                let keys = if ms.reorder {
                    sort_keys(keys)
                } else {
                    keys
                };
                proof {
                    if ms.reorder {
                        assert forall|k: int| 0 <= k < keys@.len() implies key_shape(
                            (#[trigger] keys@[k])@,
                        ) by {
                            let kb = key_bytes(keys@);
                            assert(kb[k] == keys@[k]@);
                            assert(kb.contains(kb[k]));
                            assert(resolved.to_multiset().count(kb[k]) > 0);
                            assert(resolved.contains(kb[k]));
                            let j = choose|j: int| 0 <= j < resolved.len() && resolved[j] == kb[k];
                            assert(resolved[j] == kb[k]);
                        }
                        assert(key_bytes(keys@).to_multiset().len() == resolved.to_multiset().len());
                    }
                    assert(key_bytes(keys@).len() == keys@.len());
                    assert(resolved.len() == ms.keys@.len());
                }
                build_all(&vs, &KeyMaterial::Multi(ms.threshold, keys))
            },
            _ => Err(DescriptorError::EmptyKey),
        }
    }

    /// The scripts of every enabled encoding at the first child index.
    pub fn generate(&self) -> (r: Result<Vec<ScriptTemplate>, DescriptorError>)
        requires
            self.template.wf(),
        ensures
            match r {
                Ok(v) => generated(*self, 0) == Ok::<
                    Seq<(ScriptVariant, Seq<u8>)>,
                    DescriptorError,
                >(templates_view(v@)),
                Err(e) => generated(*self, 0) == Err::<Seq<(ScriptVariant, Seq<u8>)>, DescriptorError>(
                    e,
                ),
            },
    {
        self.generate_at(0)
    }
}

/// Two multisig descriptors that reorder their keys, with the same threshold
/// and encodings, whose keys resolve at `index` to the same keys in different
/// orders, generate the same scripts, byte for byte.
pub proof fn lemma_canonical_multisig(x: DescriptorAccount, y: DescriptorAccount, index: u32)
    requires
        x.variants == y.variants,
        check_template(x.template) is Ok,
        check_template(y.template) is Ok,
        x.template matches Template::MultiSig(mx) && (y.template matches Template::MultiSig(my) && (
        mx.reorder && my.reorder && mx.threshold == my.threshold && (keys_at(mx.keys@, index) matches Ok(
            a,
        ) && (keys_at(my.keys@, index) matches Ok(b) && a.to_multiset() == b.to_multiset())))),
    ensures
        generated(x, index) == generated(y, index),
{
    if let Template::MultiSig(mx) = x.template {
        if let Template::MultiSig(my) = y.template {
            let a = keys_at(mx.keys@, index)->Ok_0;
            let b = keys_at(my.keys@, index)->Ok_0;
            crate::order::lemma_canonical_order(a, b);
        }
    }
}

/// Keys of each variant at an index, assuming every variant resolves.
pub open spec fn resolved_keys(ks: Seq<KeyVariant>, index: u32) -> Seq<Seq<u8>> {
    ks.map_values(|v: KeyVariant| key_at(v, index)->Ok_0)
}

proof fn lemma_keys_at_elems(ks: Seq<KeyVariant>, index: u32)
    ensures
        keys_at(ks, index) is Ok <==> forall|k: int| 0 <= k < ks.len() ==> (#[trigger] key_at(ks[k], index)) is Ok,
        keys_at(ks, index) is Ok ==> keys_at(ks, index) == Ok::<Seq<Seq<u8>>, KeyError>(resolved_keys(ks, index)),
    decreases ks.len(),
{
    if ks.len() > 0 {
        let p = ks.drop_last();
        lemma_keys_at_elems(p, index);
        if forall|k: int| 0 <= k < ks.len() ==> (#[trigger] key_at(ks[k], index)) is Ok {
            assert forall|k: int| 0 <= k < p.len() implies (#[trigger] key_at(p[k], index)) is Ok by {
                assert(p[k] == ks[k]);
                assert(key_at(ks[k], index) is Ok);
            }
            assert(key_at(ks[ks.len() - 1], index) is Ok);
        }
        if keys_at(ks, index) is Ok {
            assert forall|k: int| 0 <= k < ks.len() implies (#[trigger] key_at(ks[k], index)) is Ok by {
                if k < ks.len() - 1 {
                    assert(p[k] == ks[k]);
                    assert(key_at(p[k], index) is Ok);
                }
            }
            assert(resolved_keys(ks, index) =~= resolved_keys(p, index).push(key_at(ks.last(), index)->Ok_0));
        }
    } else {
        assert(resolved_keys(ks, index) =~= Seq::<Seq<u8>>::empty());
    }
}

proof fn lemma_map_multiset<A, B>(s: Seq<A>, t: Seq<A>, f: spec_fn(A) -> B)
    requires
        s.to_multiset() == t.to_multiset(),
    ensures
        s.map_values(f).to_multiset() == t.map_values(f).to_multiset(),
    decreases s.len(),
{
    broadcast use vstd::multiset::group_multiset_axioms;

    if s.len() == 0 {
        assert(t.len() == t.to_multiset().len());
        assert(s.map_values(f) =~= t.map_values(f));
    } else {
        let x = s.last();
        let s1 = s.drop_last();
        assert(s1.push(x) =~= s);
        assert(s.to_multiset().count(x) > 0) by {
            assert(s[s.len() - 1] == x);
            assert(s.contains(x));
        }
        assert(t.contains(x));
        let j = choose|j: int| 0 <= j < t.len() && t[j] == x;
        let t1 = t.remove(j);
        assert(t1.to_multiset() == t.to_multiset().remove(x));
        assert(s1.to_multiset() =~= t1.to_multiset());
        lemma_map_multiset(s1, t1, f);
        assert(s.map_values(f) =~= s1.map_values(f).push(f(x)));
        assert(t.map_values(f).remove(j) =~= t1.map_values(f));
        assert(t.map_values(f)[j] == f(x));
        assert(t.map_values(f).contains(f(x)));
        assert(t.map_values(f).to_multiset().count(f(x)) > 0);
        assert(t1.map_values(f).to_multiset() == t.map_values(f).to_multiset().remove(f(x)));
        assert(t.map_values(f).to_multiset() =~= t1.map_values(f).to_multiset().insert(f(x)));
    }
}

proof fn lemma_distinct_permutation(s: Seq<KeyVariant>, t: Seq<KeyVariant>)
    requires
        s.to_multiset() == t.to_multiset(),
        has_two_distinct(s),
    ensures
        has_two_distinct(t),
{
    let j = choose|j: int| 0 < j < s.len() && !same_variant(s[0], #[trigger] s[j]);
    assert(s.contains(s[0]) && s.contains(s[j]));
    assert(s.to_multiset().count(s[0]) > 0 && s.to_multiset().count(s[j]) > 0);
    assert(t.contains(s[0]) && t.contains(s[j]));
    let a = choose|a: int| 0 <= a < t.len() && t[a] == s[0];
    let b = choose|b: int| 0 <= b < t.len() && t[b] == s[j];
    if !same_variant(t[0], t[a]) {
        assert(a != 0);
        assert(!same_variant(t[0], t[a]));
    } else {
        assert(!same_variant(t[0], t[b]));
        assert(b != 0);
    }
}

/// Two multisig descriptors that reorder their keys, with the same threshold
/// and encodings, whose key lists hold the same key variants in different
/// orders, pass the same checks, resolve at any index both or neither, and
/// when they resolve generate the same scripts, byte for byte.
pub proof fn lemma_reordered_key_variants(
    x: DescriptorAccount,
    y: DescriptorAccount,
    mx: MultiSig,
    my: MultiSig,
    index: u32,
)
    requires
        x.template == Template::MultiSig(mx),
        y.template == Template::MultiSig(my),
        mx.reorder,
        my.reorder,
        mx.threshold == my.threshold,
        x.variants == y.variants,
        mx.keys@.to_multiset() == my.keys@.to_multiset(),
    ensures
        check_template(x.template) == check_template(y.template),
        keys_at(mx.keys@, index) is Ok <==> keys_at(my.keys@, index) is Ok,
        keys_at(mx.keys@, index) is Ok ==> generated(x, index) == generated(y, index),
{
    let s = mx.keys@;
    let t = my.keys@;
    assert(s.len() == s.to_multiset().len() && t.len() == t.to_multiset().len());
    if has_two_distinct(s) {
        lemma_distinct_permutation(s, t);
    }
    if has_two_distinct(t) {
        lemma_distinct_permutation(t, s);
    }
    lemma_keys_at_elems(s, index);
    lemma_keys_at_elems(t, index);
    assert forall|k: int| 0 <= k < t.len() && keys_at(s, index) is Ok implies (#[trigger] key_at(t[k], index)) is Ok by {
        assert(t.contains(t[k]));
        assert(t.to_multiset().count(t[k]) > 0);
        assert(s.contains(t[k]));
        let i = choose|i: int| 0 <= i < s.len() && s[i] == t[k];
        assert(key_at(s[i], index) is Ok);
    }
    assert forall|k: int| 0 <= k < s.len() && keys_at(t, index) is Ok implies (#[trigger] key_at(s[k], index)) is Ok by {
        assert(s.contains(s[k]));
        assert(s.to_multiset().count(s[k]) > 0);
        assert(t.contains(s[k]));
        let i = choose|i: int| 0 <= i < t.len() && t[i] == s[k];
        assert(key_at(t[i], index) is Ok);
    }
    if keys_at(s, index) is Ok {
        lemma_map_multiset(s, t, |v: KeyVariant| key_at(v, index)->Ok_0);
        crate::order::lemma_canonical_order(resolved_keys(s, index), resolved_keys(t, index));
    }
}

proof fn lemma_gen_fails(
    vs: Seq<ScriptVariant>,
    f: KeySet,
    n: nat,
    e: DescriptorError,
)
    requires
        1 <= n <= vs.len(),
        gen_scripts(vs.subrange(0, n - 1), f) is Ok,
        variant_script(vs[n - 1], f) == Err::<Seq<u8>, DescriptorError>(e),
    ensures
        gen_scripts(vs, f) == Err::<Seq<(ScriptVariant, Seq<u8>)>, DescriptorError>(e),
    decreases vs.len() - n,
{
    let p = vs.subrange(0, n as int);
    assert(p.drop_last() =~= vs.subrange(0, n - 1));
    assert(p.last() == vs[n - 1]);
    lemma_gen_fail_sticks(vs, f, n, e);
}

proof fn lemma_gen_fail_sticks(
    vs: Seq<ScriptVariant>,
    f: KeySet,
    n: nat,
    e: DescriptorError,
)
    requires
        n <= vs.len(),
        gen_scripts(vs.subrange(0, n as int), f) == Err::<
            Seq<(ScriptVariant, Seq<u8>)>,
            DescriptorError,
        >(e),
    ensures
        gen_scripts(vs, f) == Err::<Seq<(ScriptVariant, Seq<u8>)>, DescriptorError>(e),
    decreases vs.len() - n,
{
    if n < vs.len() {
        assert(vs.subrange(0, n as int + 1).drop_last() =~= vs.subrange(0, n as int));
        lemma_gen_fail_sticks(vs, f, n + 1, e);
    } else {
        assert(vs.subrange(0, n as int) =~= vs);
    }
}

/// Resolved keys of a template.
enum KeyMaterial {
    Single(PubKey),
    Multi(usize, Vec<PubKey>),
}

impl KeyMaterial {
    spec fn key_set(&self) -> KeySet {
        match self {
            KeyMaterial::Single(k) => KeySet::Single(k@),
            KeyMaterial::Multi(m, ks) => KeySet::Multi(*m as nat, key_bytes(ks@)),
        }
    }

    spec fn wf(&self) -> bool {
        match self {
            KeyMaterial::Single(k) => key_shape(k@),
            KeyMaterial::Multi(m, ks) => 1 <= *m <= ks@.len() && forall|k: int|
                0 <= k < ks@.len() ==> key_shape((#[trigger] ks@[k])@),
        }
    }
}

/// Scripts of each encoding, in order, or the first failure.
fn build_all(vs: &Vec<ScriptVariant>, keys: &KeyMaterial) -> (r: Result<Vec<ScriptTemplate>, DescriptorError>)
    requires
        keys.wf(),
    ensures
        match r {
            Ok(v) => gen_scripts(vs@, keys.key_set()) == Ok::<
                Seq<(ScriptVariant, Seq<u8>)>,
                DescriptorError,
            >(templates_view(v@)),
            Err(e) => gen_scripts(vs@, keys.key_set()) == Err::<
                Seq<(ScriptVariant, Seq<u8>)>,
                DescriptorError,
            >(e),
        },
{
    let ghost f = keys.key_set();
    let mut out: Vec<ScriptTemplate> = Vec::new();
    let mut i: usize = 0;
    assert(templates_view(out@) =~= Seq::<(ScriptVariant, Seq<u8>)>::empty());
    assert(vs@.subrange(0, 0) =~= Seq::<ScriptVariant>::empty());
    while i < vs.len()
        invariant
            i <= vs@.len(),
            keys.wf(),
            f == keys.key_set(),
            gen_scripts(vs@.subrange(0, i as int), f) == Ok::<
                Seq<(ScriptVariant, Seq<u8>)>,
                DescriptorError,
            >(templates_view(out@)),
        decreases vs@.len() - i,
    {
        let v = vs[i];
        proof {
            assert(vs@.subrange(0, i + 1).drop_last() =~= vs@.subrange(0, i as int));
        }
        let ghost prev = out@;
        let built = match keys {
            KeyMaterial::Single(k) => build_single(v, k),
            KeyMaterial::Multi(m, ks) => build_multi(v, *m, ks),
        };
        match built {
            Ok(s) => {
                out.push(ScriptTemplate { variant: v, script: s });
            },
            Err(e) => {
                proof {
                    lemma_gen_fails(vs@, f, (i + 1) as nat, e);
                }
                return Err(e);
            },
        }
        i = i + 1;
        proof {
            assert(out@.drop_last() =~= prev);
            assert(templates_view(out@) =~= templates_view(prev).push((v, out@.last().script@)));
            assert(vs@.subrange(0, i as int).last() == v);
        }
    }
    proof {
        assert(vs@.subrange(0, vs@.len() as int) =~= vs@);
    }
    Ok(out)
}

fn enabled_variants(v: Variants) -> (r: Vec<ScriptVariant>)
    ensures
        r@ == enabled(v),
{
    let mut r: Vec<ScriptVariant> = Vec::new();
    if v.bare {
        r.push(ScriptVariant::Bare);
    }
    if v.hashed {
        r.push(ScriptVariant::Hashed);
    }
    if v.nested {
        r.push(ScriptVariant::Nested);
    }
    if v.segwit {
        r.push(ScriptVariant::Segwit);
    }
    if v.taproot {
        r.push(ScriptVariant::Taproot);
    }
    assert(r@ =~= enabled(v));
    r
}

/// The checks of [`check_template`].
fn check(t: &Template) -> (r: Result<(), DescriptorError>)
    ensures
        r == check_template(*t),
{
    match t {
        Template::SingleSig(None) => Err(DescriptorError::EmptyKey),
        Template::SingleSig(Some(_)) => Ok(()),
        Template::MultiSig(ms) => {
            let n = ms.keys.len();
            let mut distinct = false;
            let mut j: usize = 1;
            while j < n
                invariant
                    n == ms.keys@.len(),
                    1 <= j || n == 0,
                    distinct == exists|k: int| 0 < k < j && k < n && !same_variant(
                        ms.keys@[0],
                        #[trigger] ms.keys@[k],
                    ),
                decreases n - j,
            {
                if !ms.keys[0].same_as(&ms.keys[j]) {
                    distinct = true;
                }
                j = j + 1;
            }
            if !distinct {
                return Err(DescriptorError::EmptyKeyset);
            }
            if ms.threshold < 1 || ms.threshold > n {
                return Err(DescriptorError::WrongThreshold);
            }
            Ok(())
        },
        Template::Scripted(src) => {
            if src.source.as_str().unicode_len() == 0 {
                return Err(DescriptorError::EmptyScript);
            }
            match src.grammar {
                None => Err(DescriptorError::SourceTypeRequired),
                Some(_) => Err(DescriptorError::NotYetSupported(Unsupported::ScriptParsing)),
            }
        },
    }
}

/// Resolves every key variant at `index`.
fn resolve_keys(ks: &Vec<KeyVariant>, index: u32) -> (r: Result<Vec<PubKey>, KeyError>)
    requires
        all_keys_wf(ks@),
    ensures
        match r {
            Ok(v) => keys_at(ks@, index) == Ok::<Seq<Seq<u8>>, KeyError>(key_bytes(v@)) && forall|
                k: int,
            |
                0 <= k < v@.len() ==> key_shape((#[trigger] v@[k])@),
            Err(e) => keys_at(ks@, index) == Err::<Seq<Seq<u8>>, KeyError>(e),
        },
{
    let mut out: Vec<PubKey> = Vec::new();
    let mut i: usize = 0;
    assert(key_bytes(out@) =~= Seq::<Seq<u8>>::empty());
    assert(ks@.subrange(0, 0) =~= Seq::<KeyVariant>::empty());
    while i < ks.len()
        invariant
            i <= ks@.len(),
            all_keys_wf(ks@),
            keys_at(ks@.subrange(0, i as int), index) == Ok::<Seq<Seq<u8>>, KeyError>(
                key_bytes(out@),
            ),
            forall|k: int| 0 <= k < out@.len() ==> key_shape((#[trigger] out@[k])@),
        decreases ks@.len() - i,
    {
        proof {
            assert(ks@.subrange(0, i + 1).drop_last() =~= ks@.subrange(0, i as int));
            assert(ks@.subrange(0, i + 1).last() == ks@[i as int]);
            assert(ks@[i as int].wf());
        }
        let ghost prev = out@;
        match ks[i].resolve_at(index) {
            Ok(k) => {
                out.push(k);
            },
            Err(e) => {
                proof {
                    lemma_keys_fail_sticks(ks@, index, (i + 1) as nat, e);
                }
                return Err(e);
            },
        }
        i = i + 1;
        proof {
            assert(out@.drop_last() =~= prev);
            assert(key_bytes(out@) =~= key_bytes(prev).push(out@.last()@));
        }
    }
    proof {
        assert(ks@.subrange(0, ks@.len() as int) =~= ks@);
    }
    Ok(out)
}

proof fn lemma_keys_at_len(ks: Seq<KeyVariant>, index: u32)
    ensures
        keys_at(ks, index) matches Ok(p) ==> p.len() == ks.len(),
    decreases ks.len(),
{
    if ks.len() > 0 {
        lemma_keys_at_len(ks.drop_last(), index);
    }
}

proof fn lemma_keys_fail_sticks(ks: Seq<KeyVariant>, index: u32, n: nat, e: KeyError)
    requires
        n <= ks.len(),
        keys_at(ks.subrange(0, n as int), index) == Err::<Seq<Seq<u8>>, KeyError>(e),
    ensures
        keys_at(ks, index) == Err::<Seq<Seq<u8>>, KeyError>(e),
    decreases ks.len() - n,
{
    if n < ks.len() {
        assert(ks.subrange(0, n as int + 1).drop_last() =~= ks.subrange(0, n as int));
        lemma_keys_fail_sticks(ks, index, n + 1, e);
    } else {
        assert(ks.subrange(0, n as int) =~= ks);
    }
}

fn append(out: &mut Vec<u8>, s: &Vec<u8>)
    ensures
        final(out)@ == old(out)@ + s@,
{
    let mut i: usize = 0;
    while i < s.len()
        invariant
            i <= s@.len(),
            out@ == old(out)@ + s@.subrange(0, i as int),
        decreases s@.len() - i,
    {
        out.push(s[i]);
        i = i + 1;
        assert(out@ =~= old(out)@ + s@.subrange(0, i as int));
    }
    assert(s@.subrange(0, s@.len() as int) =~= s@);
}

fn push_key_bytes(out: &mut Vec<u8>, k: &PubKey)
    requires
        key_shape(k@),
    ensures
        final(out)@ == old(out)@ + push_key(k@),
{
    let b = k.to_bytes();
    out.push(b.len() as u8);
    append(out, &b);
    assert(final(out)@ =~= old(out)@ + push_key(k@));
}

fn p2pk(k: &PubKey) -> (r: Vec<u8>)
    requires
        key_shape(k@),
    ensures
        r@ == p2pk_script(k@),
{
    let mut out: Vec<u8> = Vec::new();
    push_key_bytes(&mut out, k);
    out.push(0xac);
    assert(out@ =~= p2pk_script(k@));
    out
}

fn p2pkh(k: &Vec<u8>) -> (r: Vec<u8>)
    ensures
        r@ == p2pkh_script(k@),
{
    let h = hash160(k);
    let mut out: Vec<u8> = vec![0x76u8, 0xa9u8, 0x14u8];
    append(&mut out, &h);
    out.push(0x88);
    out.push(0xac);
    assert(out@ =~= p2pkh_script(k@));
    out
}

fn p2wpkh(k: &Vec<u8>) -> (r: Vec<u8>)
    ensures
        r@ == p2wpkh_script(k@),
{
    let h = hash160(k);
    let mut out: Vec<u8> = vec![0x00u8, 0x14u8];
    append(&mut out, &h);
    assert(out@ =~= p2wpkh_script(k@));
    out
}

fn p2sh(s: &Vec<u8>) -> (r: Vec<u8>)
    ensures
        r@ == p2sh_script(s@),
{
    let h = hash160(s);
    let mut out: Vec<u8> = vec![0xa9u8, 0x14u8];
    append(&mut out, &h);
    out.push(0x87);
    assert(out@ =~= p2sh_script(s@));
    out
}

fn p2wsh(s: &Vec<u8>) -> (r: Vec<u8>)
    ensures
        r@ == p2wsh_script(s@),
{
    let h = sha256(s);
    let mut out: Vec<u8> = vec![0x00u8, 0x20u8];
    append(&mut out, &h);
    assert(out@ =~= p2wsh_script(s@));
    out
}

fn push_le(out: &mut Vec<u8>, n: usize)
    ensures
        final(out)@ == old(out)@ + le_bytes(n as nat),
    decreases n,
{
    if n == 0 {
        assert(final(out)@ =~= old(out)@ + le_bytes(0));
        return;
    }
    let ghost start = out@;
    out.push((n % 256) as u8);
    push_le(out, n / 256);
    assert(final(out)@ =~= start + le_bytes(n as nat));
}

fn push_number(out: &mut Vec<u8>, n: usize)
    ensures
        final(out)@ == old(out)@ + push_num(n as nat),
{
    if 1 <= n && n <= 16 {
        out.push((0x50 + n) as u8);
        assert(final(out)@ =~= old(out)@ + push_num(n as nat));
    } else {
        let mut b: Vec<u8> = Vec::new();
        push_le(&mut b, n);
        assert(b@ =~= le_bytes(n as nat));
        if b.len() > 0 && b[b.len() - 1] >= 0x80 {
            b.push(0);
        }
        assert(b@ == script_num(n as nat));
        out.push(b.len() as u8);
        append(out, &b);
        assert(final(out)@ =~= old(out)@ + push_num(n as nat));
    }
}

fn multisig(m: usize, ks: &Vec<PubKey>) -> (r: Vec<u8>)
    requires
        1 <= m <= ks@.len(),
        forall|k: int| 0 <= k < ks@.len() ==> key_shape((#[trigger] ks@[k])@),
    ensures
        r@ == multisig_script(m as nat, key_bytes(ks@)),
{
    let mut out: Vec<u8> = Vec::new();
    push_number(&mut out, m);
    let ghost head = out@;
    assert(head =~= push_num(m as nat));
    let mut i: usize = 0;
    while i < ks.len()
        invariant
            i <= ks@.len(),
            head == push_num(m as nat),
            forall|k: int| 0 <= k < ks@.len() ==> key_shape((#[trigger] ks@[k])@),
            out@ == head + key_pushes(key_bytes(ks@.subrange(0, i as int))),
        decreases ks@.len() - i,
    {
        push_key_bytes(&mut out, &ks[i]);
        i = i + 1;
        proof {
            let now = key_bytes(ks@.subrange(0, i as int));
            assert(now.drop_last() =~= key_bytes(ks@.subrange(0, i - 1)));
            assert(now.last() == ks@[i - 1]@);
            assert(out@ =~= head + key_pushes(now));
        }
    }
    push_number(&mut out, ks.len());
    out.push(0xae);
    proof {
        assert(ks@.subrange(0, ks@.len() as int) =~= ks@);
        assert(key_bytes(ks@).len() == ks@.len());
        assert(out@ =~= multisig_script(m as nat, key_bytes(ks@)));
    }
    out
}

fn all_keys_compressed(ks: &Vec<PubKey>) -> (r: bool)
    ensures
        r == all_compressed(key_bytes(ks@)),
{
    let mut i: usize = 0;
    while i < ks.len()
        invariant
            i <= ks@.len(),
            forall|k: int| 0 <= k < i ==> (#[trigger] ks@[k])@.len() == 33,
        decreases ks@.len() - i,
    {
        if !ks[i].is_compressed() {
            assert(key_bytes(ks@)[i as int].len() != 33);
            return false;
        }
        i = i + 1;
    }
    assert forall|k: int| 0 <= k < key_bytes(ks@).len() implies (#[trigger] key_bytes(ks@)[k]).len()
        == 33 by {
        assert(key_bytes(ks@)[k] == ks@[k]@);
    }
    true
}

fn x_only_bytes(k: &PubKey) -> (r: Vec<u8>)
    requires
        key_shape(k@),
    ensures
        r@ == x_only(k@),
{
    let b = k.to_bytes();
    let mut r: Vec<u8> = Vec::new();
    let mut i: usize = 1;
    while i < 33
        invariant
            1 <= i <= 33,
            b@ == k@,
            key_shape(k@),
            r@ == b@.subrange(1, i as int),
        decreases 33 - i,
    {
        r.push(b[i]);
        i = i + 1;
        assert(r@ =~= b@.subrange(1, i as int));
    }
    r
}

fn build_single(v: ScriptVariant, k: &PubKey) -> (r: Result<Vec<u8>, DescriptorError>)
    requires
        key_shape(k@),
    ensures
        match r {
            Ok(s) => single_script(v, k@) == Ok::<Seq<u8>, DescriptorError>(s@),
            Err(e) => single_script(v, k@) == Err::<Seq<u8>, DescriptorError>(e),
        },
{
    match v {
        ScriptVariant::Bare => Ok(p2pk(k)),
        ScriptVariant::Hashed => Ok(p2pkh(&k.to_bytes())),
        ScriptVariant::Nested => {
            if !k.is_compressed() {
                return Err(DescriptorError::UncompressedKey);
            }
            Ok(p2sh(&p2wpkh(&k.to_bytes())))
        },
        ScriptVariant::Segwit => {
            if !k.is_compressed() {
                return Err(DescriptorError::UncompressedKey);
            }
            Ok(p2wpkh(&k.to_bytes()))
        },
        ScriptVariant::Taproot => {
            let x = x_only_bytes(k);
            let t = match tap_tweak_hash(&x) {
                Some(t) => t,
                None => {
                    return Err(DescriptorError::TweakFailure);
                },
            };
            match xonly_tweak_add(&x, &t) {
                Some(q) => {
                    let mut out: Vec<u8> = vec![0x51u8, 0x20u8];
                    append(&mut out, &q);
                    assert(out@ =~= p2tr_script(q@));
                    Ok(out)
                },
                None => Err(DescriptorError::TweakFailure),
            }
        },
    }
}

fn build_multi(v: ScriptVariant, m: usize, ks: &Vec<PubKey>) -> (r: Result<Vec<u8>, DescriptorError>)
    requires
        1 <= m <= ks@.len(),
        forall|k: int| 0 <= k < ks@.len() ==> key_shape((#[trigger] ks@[k])@),
    ensures
        match r {
            Ok(s) => multi_script(v, m as nat, key_bytes(ks@)) == Ok::<Seq<u8>, DescriptorError>(s@),
            Err(e) => multi_script(v, m as nat, key_bytes(ks@)) == Err::<Seq<u8>, DescriptorError>(e),
        },
{
    match v {
        ScriptVariant::Bare => Ok(multisig(m, ks)),
        ScriptVariant::Hashed => Ok(p2sh(&multisig(m, ks))),
        ScriptVariant::Nested => {
            if !all_keys_compressed(ks) {
                return Err(DescriptorError::UncompressedKey);
            }
            Ok(p2sh(&p2wsh(&multisig(m, ks))))
        },
        ScriptVariant::Segwit => {
            if !all_keys_compressed(ks) {
                return Err(DescriptorError::UncompressedKey);
            }
            Ok(p2wsh(&multisig(m, ks)))
        },
        ScriptVariant::Taproot => Err(DescriptorError::NotYetSupported(Unsupported::TaprootMultisig)),
    }
}

/// RIPEMD160 of SHA256 of the bytes.
pub uninterp spec fn hash160_of(b: Seq<u8>) -> Seq<u8>;

/// Relies on `bitcoin::hashes::hash160::Hash::hash`: a 20-byte digest.
#[verifier::external_body]
fn hash160(b: &Vec<u8>) -> (r: Vec<u8>)
    ensures
        r@ == hash160_of(b@),
        r@.len() == 20,
{
    <bitcoin::hashes::hash160::Hash as bitcoin::hashes::Hash>::into_inner(
        <bitcoin::hashes::hash160::Hash as bitcoin::hashes::Hash>::hash(b),
    ).to_vec()
}

/// SHA256 of the bytes.
pub uninterp spec fn sha256_of(b: Seq<u8>) -> Seq<u8>;

/// Relies on `bitcoin::hashes::sha256::Hash::hash`: a 32-byte digest.
#[verifier::external_body]
fn sha256(b: &Vec<u8>) -> (r: Vec<u8>)
    ensures
        r@ == sha256_of(b@),
        r@.len() == 32,
{
    <bitcoin::hashes::sha256::Hash as bitcoin::hashes::Hash>::into_inner(
        <bitcoin::hashes::sha256::Hash as bitcoin::hashes::Hash>::hash(b),
    ).to_vec()
}

/// BIP341 tweak of an x-only internal key with no script tree; `None`
/// where the bytes are not an x-only key.
pub uninterp spec fn tap_tweak_hash_of(x: Seq<u8>) -> Option<Seq<u8>>;

/// Relies on `bitcoin::util::taproot::TapTweakHash::from_key_and_tweak`
/// (after `XOnlyPublicKey::from_slice`): a 32-byte tagged hash.
#[verifier::external_body]
fn tap_tweak_hash(x: &Vec<u8>) -> (r: Option<Vec<u8>>)
    ensures
        match r {
            Some(t) => tap_tweak_hash_of(x@) == Some(t@) && t@.len() == 32,
            None => tap_tweak_hash_of(x@) is None,
        },
{
    match bitcoin::secp256k1::XOnlyPublicKey::from_slice(x) {
        Ok(k) => Some(
            <bitcoin::util::taproot::TapTweakHash as bitcoin::hashes::Hash>::into_inner(
                bitcoin::util::taproot::TapTweakHash::from_key_and_tweak(k, None),
            ).to_vec(),
        ),
        Err(_) => None,
    }
}

/// The x-only key plus the tweak times the generator; `None` where the bytes
/// are not an x-only key or the tweak is refused.
pub uninterp spec fn xonly_tweak_add_of(x: Seq<u8>, t: Seq<u8>) -> Option<Seq<u8>>;

/// Relies on `secp256k1::XOnlyPublicKey::tweak_add_assign` (after
/// `XOnlyPublicKey::from_slice`, before `serialize`): a 32-byte x-only key.
#[verifier::external_body]
fn xonly_tweak_add(x: &Vec<u8>, t: &Vec<u8>) -> (r: Option<Vec<u8>>)
    ensures
        match r {
            Some(q) => xonly_tweak_add_of(x@, t@) == Some(q@) && q@.len() == 32,
            None => xonly_tweak_add_of(x@, t@) is None,
        },
{
    let secp = bitcoin::secp256k1::Secp256k1::verification_only();
    match bitcoin::secp256k1::XOnlyPublicKey::from_slice(x) {
        Ok(mut k) => match k.tweak_add_assign(&secp, t) {
            Ok(_) => Some(k.serialize().to_vec()),
            Err(_) => None,
        },
        Err(_) => None,
    }
}

} // verus!
