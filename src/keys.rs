//! Key material: serialized public keys and BIP32 extended keys, with the
//! secp256k1 and SLIP-132 work done by `bitcoin` and `slip132`.

use vstd::prelude::*;

verus! {

/// A serialized public key: 33 bytes (compressed) or 65 bytes starting with
/// `0x04` (uncompressed).
#[derive(Clone, Debug, PartialEq, Eq)]
pub struct PubKey {
    bytes: Vec<u8>,
}

impl View for PubKey {
    type V = Seq<u8>;

    closed spec fn view(&self) -> Seq<u8> {
        self.bytes@
    }
}

pub open spec fn key_shape(k: Seq<u8>) -> bool {
    k.len() == 33 || (k.len() == 65 && k[0] == 4)
}

impl PubKey {
    pub open spec fn wf(&self) -> bool {
        key_shape(self@)
    }

    pub open spec fn compressed(&self) -> bool {
        self@.len() == 33
    }

    /// Reads a hex-encoded public key.
    pub fn from_hex(text: &str) -> (r: Result<PubKey, KeyError>)
        ensures
            match r {
                Ok(k) => pubkey_of_text(text@) == Some(k@) && k.wf(),
                Err(e) => pubkey_of_text(text@) is None && e == KeyError::InvalidKey,
            },
    {
        match pubkey_from_str(text) {
            Some(k) => Ok(k),
            None => Err(KeyError::InvalidKey),
        }
    }

    pub fn to_bytes(&self) -> (r: Vec<u8>)
        ensures
            r@ == self@,
    {
        copy_bytes(&self.bytes)
    }

    pub fn is_compressed(&self) -> (r: bool)
        ensures
            r == self.compressed(),
    {
        self.bytes.len() == 33
    }

    /// The same key, as a separate value.
    pub fn duplicate(&self) -> (r: PubKey)
        ensures
            r@ == self@,
    {
        PubKey { bytes: copy_bytes(&self.bytes) }
    }

    /// Byte-wise comparison of the serialized keys.
    pub fn same_as(&self, other: &PubKey) -> (r: bool)
        ensures
            r == (self@ == other@),
    {
        bytes_equal(&self.bytes, &other.bytes)
    }

    /// Whether the serialized key sorts strictly before `other`'s.
    pub fn sorts_before(&self, other: &PubKey) -> (r: bool)
        ensures
            r == bytes_less(self@, other@),
    {
        bytes_lt(&self.bytes, &other.bytes)
    }
}

/// A BIP32 extended public key in its 78-byte encoding.
#[derive(Clone, Debug, PartialEq, Eq)]
pub struct XPub {
    data: Vec<u8>,
}

impl View for XPub {
    type V = Seq<u8>;

    closed spec fn view(&self) -> Seq<u8> {
        self.data@
    }
}

/// Depth byte of a BIP32 encoding.
pub open spec fn depth_of(x: Seq<u8>) -> u8 {
    x[4]
}

/// Public key of a BIP32 public encoding.
pub open spec fn xpub_key(x: Seq<u8>) -> Seq<u8> {
    x.subrange(45, 78)
}

impl XPub {
    pub open spec fn wf(&self) -> bool {
        self@.len() == 78
    }

    /// Reads an extended public key in any SLIP-132 form (`xpub`, `ypub`,
    /// `zpub`, `tpub`, ...).
    pub fn from_text(text: &str) -> (r: Result<XPub, KeyError>)
        ensures
            match r {
                Ok(x) => xpub_text(text@) == Some(x@) && x.wf(),
                Err(e) => xpub_text(text@) is None && e == KeyError::InvalidKey,
            },
    {
        if !slip132_safe(text) {
            return Err(KeyError::InvalidKey);
        }
        match xpub_from_slip132(text) {
            Some(x) => Ok(x),
            None => Err(KeyError::InvalidKey),
        }
    }

    pub fn encoding(&self) -> (r: Vec<u8>)
        ensures
            r@ == self@,
    {
        copy_bytes(&self.data)
    }

    pub fn depth(&self) -> (r: u8)
        requires
            self.wf(),
        ensures
            r == depth_of(self@),
    {
        self.data[4]
    }

    /// The compressed public key held by the extended key.
    pub fn public_key(&self) -> (r: PubKey)
        requires
            self.wf(),
        ensures
            r@ == xpub_key(self@),
            r.wf(),
    {
        let mut bytes: Vec<u8> = Vec::new();
        let mut i: usize = 45;
        while i < 78
            invariant
                45 <= i <= 78,
                self@.len() == 78,
                bytes@ == self@.subrange(45, i as int),
            decreases 78 - i,
        {
            bytes.push(self.data[i]);
            i = i + 1;
            assert(bytes@ =~= self@.subrange(45, i as int));
        }
        PubKey { bytes }
    }

    pub fn duplicate(&self) -> (r: XPub)
        ensures
            r@ == self@,
    {
        XPub { data: copy_bytes(&self.data) }
    }

    pub fn same_as(&self, other: &XPub) -> (r: bool)
        ensures
            r == (self@ == other@),
    {
        bytes_equal(&self.data, &other.data)
    }

    /// Public (normal) child derivation of one step.
    pub fn child(&self, index: u32) -> (r: Result<XPub, KeyError>)
        requires
            self.wf(),
        ensures
            match r {
                Ok(c) => depth_of(self@) < 255 && ckd_pub(self@, index) == Some(c@) && c.wf(),
                Err(e) => (depth_of(self@) == 255 || ckd_pub(self@, index) is None) && e
                    == KeyError::DerivationFailure,
            },
    {
        if self.data[4] == 255 {
            return Err(KeyError::DerivationFailure);
        }
        match xpub_child(self, index) {
            Some(c) => Ok(c),
            None => Err(KeyError::DerivationFailure),
        }
    }
}

/// A BIP32 extended private key in its 78-byte encoding.
#[derive(Clone)]
pub struct XPrv {
    data: Vec<u8>,
}

impl View for XPrv {
    type V = Seq<u8>;

    closed spec fn view(&self) -> Seq<u8> {
        self.data@
    }
}

impl XPrv {
    /// A 78-byte encoding whose extended public key can be taken.
    pub open spec fn wf(&self) -> bool {
        self@.len() == 78 && neuter(self@) is Some
    }

    /// Reads an extended private key in any SLIP-132 form (`xprv`, `yprv`,
    /// `zprv`, `tprv`, ...).
    pub fn from_text(text: &str) -> (r: Result<XPrv, KeyError>)
        ensures
            match r {
                Ok(k) => xprv_text(text@) == Some(k@) && k.wf(),
                Err(e) => xprv_text(text@) is None && e == KeyError::InvalidKey,
            },
    {
        if !slip132_safe(text) {
            return Err(KeyError::InvalidKey);
        }
        match xprv_from_slip132(text) {
            Some(k) => Ok(k),
            None => Err(KeyError::InvalidKey),
        }
    }

    /// Private child derivation along a path, hardened steps included.
    pub fn derive_path(&self, path: &Vec<u32>) -> (r: Result<XPrv, KeyError>)
        requires
            self.wf(),
        ensures
            match r {
                Ok(k) => derive_priv_path(self@, path@) == Some(k@) && k.wf(),
                Err(e) => derive_priv_path(self@, path@) is None && e == KeyError::DerivationFailure,
            },
    {
        let mut k = XPrv { data: copy_bytes(&self.data) };
        let mut i: usize = 0;
        assert(path@.subrange(0, path@.len() as int) =~= path@);
        while i < path.len()
            invariant
                i <= path@.len(),
                k.wf(),
                derive_priv_path(self@, path@) == derive_priv_path(k@, path@.subrange(i as int, path@.len() as int)),
            decreases path@.len() - i,
        {
            proof {
                let rest = path@.subrange(i as int, path@.len() as int);
                assert(rest.drop_first() =~= path@.subrange(i + 1, path@.len() as int));
                assert(rest[0] == path@[i as int]);
            }
            if k.data[4] == 255 {
                return Err(KeyError::DerivationFailure);
            }
            match xprv_child(&k, path[i]) {
                Some(c) => {
                    k = c;
                },
                None => {
                    return Err(KeyError::DerivationFailure);
                },
            }
            i = i + 1;
        }
        proof {
            assert(path@.subrange(path@.len() as int, path@.len() as int).len() == 0);
        }
        Ok(k)
    }

    /// The extended public key of this private key.
    pub fn to_xpub(&self) -> (r: Result<XPub, KeyError>)
        requires
            self.wf(),
        ensures
            match r {
                Ok(x) => neuter(self@) == Some(x@) && x.wf(),
                Err(e) => neuter(self@) is None && e == KeyError::DerivationFailure,
            },
    {
        match xpub_of_xprv(self) {
            Some(x) => Ok(x),
            None => Err(KeyError::DerivationFailure),
        }
    }
}

/// Why key material was refused or could not be derived.
#[derive(Clone, Copy, Debug, PartialEq, Eq, Structural)]
pub enum KeyError {
    /// The key text is not a key of the expected kind.
    InvalidKey,
    /// The derivation path text is malformed.
    InvalidPath,
    /// A normal step of the path comes before a later hardened step.
    InvalidHardenedSplit,
    /// The path crosses a hardened boundary and no account-level key was given.
    MissingAccountKey,
    /// A child index is at or beyond the hardened boundary.
    KeyDerivationOverflow,
    /// Curve arithmetic failed or the BIP32 depth limit was reached.
    DerivationFailure,
    /// A tracking account needs a non-empty name.
    EmptyName,
}

/// Whether reading the text as SLIP-132 can go ahead: a Base58Check payload
/// shorter than a version prefix is refused beforehand.
pub open spec fn slip132_text_ok(s: Seq<char>) -> bool {
    match base58check_payload(s) {
        Some(p) => p.len() >= 4,
        None => true,
    }
}

/// An extended public key read from SLIP-132 text.
pub open spec fn xpub_text(s: Seq<char>) -> Option<Seq<u8>> {
    if slip132_text_ok(s) {
        slip132_xpub(s)
    } else {
        None
    }
}

/// An extended private key read from SLIP-132 text.
pub open spec fn xprv_text(s: Seq<char>) -> Option<Seq<u8>> {
    if slip132_text_ok(s) {
        slip132_xprv(s)
    } else {
        None
    }
}

/// Private derivation along a path; `None` where a step fails or the depth
/// limit is reached.
pub open spec fn derive_priv_path(k: Seq<u8>, path: Seq<u32>) -> Option<Seq<u8>>
    decreases path.len(),
{
    if path.len() == 0 {
        Some(k)
    } else if k.len() != 78 || depth_of(k) == 255 {
        None
    } else {
        match ckd_priv(k, path[0]) {
            Some(c) => derive_priv_path(c, path.drop_first()),
            None => None,
        }
    }
}

/// Public derivation along a path; `None` where a step fails or the depth
/// limit is reached.
pub open spec fn derive_pub_path(x: Seq<u8>, path: Seq<u32>) -> Option<Seq<u8>>
    decreases path.len(),
{
    if path.len() == 0 {
        Some(x)
    } else if x.len() != 78 || depth_of(x) == 255 {
        None
    } else {
        match ckd_pub(x, path[0]) {
            Some(c) => derive_pub_path(c, path.drop_first()),
            None => None,
        }
    }
}

/// Lexicographic order of byte strings, a proper prefix first.
pub open spec fn bytes_less(a: Seq<u8>, b: Seq<u8>) -> bool
    decreases a.len(),
{
    if a.len() == 0 {
        b.len() > 0
    } else if b.len() == 0 {
        false
    } else if a[0] != b[0] {
        a[0] < b[0]
    } else {
        bytes_less(a.drop_first(), b.drop_first())
    }
}

pub fn copy_bytes(v: &Vec<u8>) -> (r: Vec<u8>)
    ensures
        r@ == v@,
{
    let mut r: Vec<u8> = Vec::new();
    let mut i: usize = 0;
    while i < v.len()
        invariant
            i <= v@.len(),
            r@ == v@.subrange(0, i as int),
        decreases v@.len() - i,
    {
        r.push(v[i]);
        i = i + 1;
        assert(r@ =~= v@.subrange(0, i as int));
    }
    assert(r@ =~= v@);
    r
}

pub fn copy_u32s(v: &Vec<u32>) -> (r: Vec<u32>)
    ensures
        r@ == v@,
{
    let mut r: Vec<u32> = Vec::new();
    let mut i: usize = 0;
    while i < v.len()
        invariant
            i <= v@.len(),
            r@ == v@.subrange(0, i as int),
        decreases v@.len() - i,
    {
        r.push(v[i]);
        i = i + 1;
        assert(r@ =~= v@.subrange(0, i as int));
    }
    assert(r@ =~= v@);
    r
}

pub fn u32s_equal(a: &Vec<u32>, b: &Vec<u32>) -> (r: bool)
    ensures
        r == (a@ == b@),
{
    if a.len() != b.len() {
        return false;
    }
    let mut i: usize = 0;
    while i < a.len()
        invariant
            i <= a@.len(),
            a@.len() == b@.len(),
            forall|k: int| 0 <= k < i ==> a@[k] == b@[k],
        decreases a@.len() - i,
    {
        if a[i] != b[i] {
            return false;
        }
        i = i + 1;
    }
    assert(a@ =~= b@);
    true
}

pub fn bytes_equal(a: &Vec<u8>, b: &Vec<u8>) -> (r: bool)
    ensures
        r == (a@ == b@),
{
    if a.len() != b.len() {
        return false;
    }
    let mut i: usize = 0;
    while i < a.len()
        invariant
            i <= a@.len(),
            a@.len() == b@.len(),
            forall|k: int| 0 <= k < i ==> a@[k] == b@[k],
        decreases a@.len() - i,
    {
        if a[i] != b[i] {
            return false;
        }
        i = i + 1;
    }
    assert(a@ =~= b@);
    true
}

pub fn bytes_lt(a: &Vec<u8>, b: &Vec<u8>) -> (r: bool)
    ensures
        r == bytes_less(a@, b@),
{
    let mut i: usize = 0;
    assert(a@.subrange(0, a@.len() as int) =~= a@);
    assert(b@.subrange(0, b@.len() as int) =~= b@);
    while i < a.len() && i < b.len() && a[i] == b[i]
        invariant
            i <= a@.len(),
            i <= b@.len(),
            bytes_less(a@, b@) == bytes_less(
                a@.subrange(i as int, a@.len() as int),
                b@.subrange(i as int, b@.len() as int),
            ),
        decreases a@.len() - i,
    {
        proof {
            let sa = a@.subrange(i as int, a@.len() as int);
            let sb = b@.subrange(i as int, b@.len() as int);
            assert(sa.drop_first() =~= a@.subrange(i + 1, a@.len() as int));
            assert(sb.drop_first() =~= b@.subrange(i + 1, b@.len() as int));
            assert(sa[0] == a@[i as int]);
            assert(sb[0] == b@[i as int]);
        }
        i = i + 1;
    }
    proof {
        assert(a@.subrange(0, a@.len() as int) =~= a@);
        assert(b@.subrange(0, b@.len() as int) =~= b@);
        let sa = a@.subrange(i as int, a@.len() as int);
        let sb = b@.subrange(i as int, b@.len() as int);
        if i < a@.len() && i < b@.len() {
            assert(sa[0] == a@[i as int]);
            assert(sb[0] == b@[i as int]);
        }
    }
    if i == a.len() {
        i < b.len()
    } else if i == b.len() {
        false
    } else {
        a[i] < b[i]
    }
}

/// Whether `slip132_text_ok` holds of the text.
fn slip132_safe(text: &str) -> (r: bool)
    ensures
        r == slip132_text_ok(text@),
{
    match base58_check_decode(text) {
        Some(p) => p.len() >= 4,
        None => true,
    }
}

/// Payload of a Base58Check text, checksum removed.
pub uninterp spec fn base58check_payload(s: Seq<char>) -> Option<Seq<u8>>;

/// Relies on `bitcoin::util::base58::from_check`: decodes Base58Check text
/// and checks and strips its checksum.
#[verifier::external_body]
fn base58_check_decode(s: &str) -> (r: Option<Vec<u8>>)
    ensures
        match r {
            Some(v) => base58check_payload(s@) == Some(v@),
            None => base58check_payload(s@) is None,
        },
{
    bitcoin::util::base58::from_check(s).ok()
}

/// BIP32 encoding of an extended public key read from SLIP-132 text,
/// with the plain `xpub`/`tpub` version.
pub uninterp spec fn slip132_xpub(s: Seq<char>) -> Option<Seq<u8>>;

/// Relies on `slip132::FromSlip132::from_slip132_str` for `ExtendedPubKey`
/// (which indexes the payload's first four bytes, so a shorter payload is
/// left out), and on `ExtendedPubKey::encode` for the 78-byte encoding.
#[verifier::external_body]
fn xpub_from_slip132(s: &str) -> (r: Option<XPub>)
    requires
        slip132_text_ok(s@),
    ensures
        match r {
            Some(x) => slip132_xpub(s@) == Some(x@) && x@.len() == 78,
            None => slip132_xpub(s@) is None,
        },
{
    match <bitcoin::util::bip32::ExtendedPubKey as slip132::FromSlip132>::from_slip132_str(s) {
        Ok(x) => Some(XPub { data: x.encode().to_vec() }),
        Err(_) => None,
    }
}

/// BIP32 encoding of an extended private key read from SLIP-132 text,
/// with the plain `xprv`/`tprv` version.
pub uninterp spec fn slip132_xprv(s: Seq<char>) -> Option<Seq<u8>>;

/// Relies on `slip132::FromSlip132::from_slip132_str` for `ExtendedPrivKey`
/// (which indexes the payload's first four bytes, so a shorter payload is
/// left out), and on `ExtendedPrivKey::encode` for the 78-byte encoding,
/// which `ExtendedPrivKey::decode` reads back, so `from_priv` applies to it.
#[verifier::external_body]
fn xprv_from_slip132(s: &str) -> (r: Option<XPrv>)
    requires
        slip132_text_ok(s@),
    ensures
        match r {
            Some(k) => slip132_xprv(s@) == Some(k@) && k@.len() == 78 && neuter(k@) is Some,
            None => slip132_xprv(s@) is None,
        },
{
    match <bitcoin::util::bip32::ExtendedPrivKey as slip132::FromSlip132>::from_slip132_str(s) {
        Ok(k) => Some(XPrv { data: k.encode().to_vec() }),
        Err(_) => None,
    }
}

/// BIP32 public child derivation (CKDpub) on a 78-byte encoding; `None`
/// where the encoding does not decode, the index is hardened, or the curve
/// arithmetic fails.
pub uninterp spec fn ckd_pub(x: Seq<u8>, index: u32) -> Option<Seq<u8>>;

/// Relies on `ExtendedPubKey::ckd_pub` (between `ExtendedPubKey::decode` and
/// `encode`); it adds one to the depth byte, which overflows at 255, so that
/// depth is left out.
#[verifier::external_body]
fn xpub_child(x: &XPub, index: u32) -> (r: Option<XPub>)
    requires
        x@.len() == 78,
        depth_of(x@) < 255,
    ensures
        match r {
            Some(c) => ckd_pub(x@, index) == Some(c@) && c@.len() == 78,
            None => ckd_pub(x@, index) is None,
        },
{
    let secp = bitcoin::secp256k1::Secp256k1::verification_only();
    match bitcoin::util::bip32::ExtendedPubKey::decode(&x.data) {
        Ok(k) => match k.ckd_pub(&secp, bitcoin::util::bip32::ChildNumber::from(index)) {
            Ok(c) => Some(XPub { data: c.encode().to_vec() }),
            Err(_) => None,
        },
        Err(_) => None,
    }
}

/// BIP32 private child derivation (CKDpriv) on a 78-byte encoding; `None`
/// where the encoding does not decode or the curve arithmetic fails.
pub uninterp spec fn ckd_priv(k: Seq<u8>, index: u32) -> Option<Seq<u8>>;

/// Relies on `ExtendedPrivKey::ckd_priv` (between `ExtendedPrivKey::decode`
/// and `encode`); it adds one to the depth byte, which overflows at 255, so
/// that depth is left out. The encoding it returns decodes again, so
/// `from_priv` applies to it.
#[verifier::external_body]
fn xprv_child(k: &XPrv, index: u32) -> (r: Option<XPrv>)
    requires
        k@.len() == 78,
        depth_of(k@) < 255,
    ensures
        match r {
            Some(c) => ckd_priv(k@, index) == Some(c@) && c@.len() == 78 && neuter(c@) is Some,
            None => ckd_priv(k@, index) is None,
        },
{
    let secp = bitcoin::secp256k1::Secp256k1::signing_only();
    match bitcoin::util::bip32::ExtendedPrivKey::decode(&k.data) {
        Ok(p) => match p.ckd_priv(&secp, bitcoin::util::bip32::ChildNumber::from(index)) {
            Ok(c) => Some(XPrv { data: c.encode().to_vec() }),
            Err(_) => None,
        },
        Err(_) => None,
    }
}

/// Encoding of the extended public key of a 78-byte extended private key;
/// `None` where the encoding does not decode.
pub uninterp spec fn neuter(k: Seq<u8>) -> Option<Seq<u8>>;

/// Relies on `ExtendedPubKey::from_priv` (after `ExtendedPrivKey::decode`,
/// before `ExtendedPubKey::encode`).
#[verifier::external_body]
fn xpub_of_xprv(k: &XPrv) -> (r: Option<XPub>)
    ensures
        match r {
            Some(x) => neuter(k@) == Some(x@) && x@.len() == 78,
            None => neuter(k@) is None,
        },
{
    let secp = bitcoin::secp256k1::Secp256k1::signing_only();
    match bitcoin::util::bip32::ExtendedPrivKey::decode(&k.data) {
        Ok(p) => Some(
            XPub { data: bitcoin::util::bip32::ExtendedPubKey::from_priv(&secp, &p).encode().to_vec() },
        ),
        Err(_) => None,
    }
}

/// Serialized public key read from hex text.
pub uninterp spec fn pubkey_of_text(s: Seq<char>) -> Option<Seq<u8>>;

/// Relies on `bitcoin::PublicKey::from_str`: hex of 33 or 65 bytes, a
/// 65-byte key starting with `0x04`, that secp256k1 accepts; `to_bytes`
/// gives back the bytes read.
#[verifier::external_body]
fn pubkey_from_str(s: &str) -> (r: Option<PubKey>)
    ensures
        match r {
            Some(k) => pubkey_of_text(s@) == Some(k@) && key_shape(k@),
            None => pubkey_of_text(s@) is None,
        },
{
    match <bitcoin::PublicKey as std::str::FromStr>::from_str(s) {
        Ok(k) => Some(PubKey { bytes: k.to_bytes() }),
        Err(_) => None,
    }
}

} // verus!
