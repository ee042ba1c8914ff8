//! Derivation components, key variants and tracking accounts.

use vstd::prelude::*;
use vstd::string::*;

use crate::keys::{
    derive_priv_path, derive_pub_path, neuter, xprv_text, xpub_key, xpub_text, KeyError, PubKey,
    XPrv, XPub,
};
use crate::path::{
    all_hardened, all_normal, is_hardened, derivation_path_of, parse_derivation_path, split_hardened_normal,
    split_path,
};
use crate::ranges::{IndexRangeSet, HARDENED_INDEX_BOUNDARY};

verus! {

/// An extended-key recipe: the branch key at the hardened boundary, the
/// hardened path that led there from the master key, the normal path below
/// it, and the batch of indices used as the last step.
#[derive(Clone, Debug, PartialEq, Eq)]
pub struct DerivationComponents {
    pub master_xpub: XPub,
    pub branch_xpub: XPub,
    pub branch_path: Vec<u32>,
    pub terminal_path: Vec<u32>,
    pub index_ranges: Option<IndexRangeSet>,
}

/// Master key, branch key, branch path and terminal path that
/// [`DerivationComponents::construct`] gives for its texts.
pub open spec fn components_of(
    path: Seq<char>,
    master: Seq<char>,
    account: Option<Seq<char>>,
) -> Result<(Seq<u8>, Seq<u8>, Seq<u32>, Seq<u32>), KeyError> {
    match derivation_path_of(path) {
        None => Err(KeyError::InvalidPath),
        Some(p) => match split_path(p) {
            None => Err(KeyError::InvalidHardenedSplit),
            Some((b, t)) => match xprv_text(master) {
                Some(k) => match neuter(k) {
                    None => Err(KeyError::DerivationFailure),
                    Some(mx) => match derive_priv_path(k, b) {
                        None => Err(KeyError::DerivationFailure),
                        Some(bk) => match neuter(bk) {
                            None => Err(KeyError::DerivationFailure),
                            Some(bx) => Ok((mx, bx, b, t)),
                        },
                    },
                },
                None => if b.len() == 0 {
                    match xpub_text(master) {
                        Some(x) => Ok((x, x, b, t)),
                        None => Err(KeyError::InvalidKey),
                    }
                } else {
                    match account {
                        Some(a) => if a.len() > 0 {
                            match (xpub_text(master), xpub_text(a)) {
                                (Some(x), Some(y)) => Ok((x, y, b, t)),
                                _ => Err(KeyError::InvalidKey),
                            }
                        } else {
                            Err(KeyError::MissingAccountKey)
                        },
                        None => Err(KeyError::MissingAccountKey),
                    }
                },
            },
        },
    }
}

/// Key derived at `index`: the branch key taken down the terminal path and
/// then to `index`.
pub open spec fn terminal_key(branch: Seq<u8>, terminal: Seq<u32>, index: u32) -> Result<
    Seq<u8>,
    KeyError,
> {
    if index >= HARDENED_INDEX_BOUNDARY {
        Err(KeyError::KeyDerivationOverflow)
    } else {
        match derive_pub_path(branch, terminal.push(index)) {
            Some(x) => Ok(xpub_key(x)),
            None => Err(KeyError::DerivationFailure),
        }
    }
}

pub open spec fn text_view(t: Option<&str>) -> Option<Seq<char>> {
    match t {
        Some(a) => Some(a@),
        None => None,
    }
}

impl DerivationComponents {
    pub open spec fn wf(&self) -> bool {
        &&& self.master_xpub.wf()
        &&& self.branch_xpub.wf()
        &&& all_hardened(self.branch_path@)
        &&& all_normal(self.terminal_path@)
        &&& (self.index_ranges matches Some(r) ==> r.wf())
    }

    /// Builds the components from a derivation path text, master key text
    /// (extended public or private key) and an optional account-level
    /// extended public key.
    pub fn construct(
        derivation_path: &str,
        master_key: &str,
        account_key: Option<&str>,
        index_ranges: Option<IndexRangeSet>,
    ) -> (r: Result<DerivationComponents, KeyError>)
        requires
            index_ranges matches Some(s) ==> s.wf(),
        ensures
            match r {
                Ok(c) => components_of(derivation_path@, master_key@, text_view(account_key)) == Ok::<
                    (Seq<u8>, Seq<u8>, Seq<u32>, Seq<u32>),
                    KeyError,
                >((c.master_xpub@, c.branch_xpub@, c.branch_path@, c.terminal_path@))
                    && c.index_ranges == index_ranges && c.wf(),
                Err(e) => components_of(derivation_path@, master_key@, text_view(account_key))
                    == Err::<(Seq<u8>, Seq<u8>, Seq<u32>, Seq<u32>), KeyError>(e),
            },
            derivation_path_of(derivation_path@) matches Some(p) ==> (split_path(p) matches Some(bt)
                ==> (xprv_text(master_key@) matches Some(k) ==> (derive_priv_path(k, bt.0) is Some
                ==> r is Ok))),
    {
        let path = match parse_derivation_path(derivation_path) {
            Some(p) => p,
            None => {
                return Err(KeyError::InvalidPath);
            },
        };
        let (branch_path, terminal_path) = match split_hardened_normal(&path) {
            Some(s) => s,
            None => {
                return Err(KeyError::InvalidHardenedSplit);
            },
        };
        proof {
            lemma_split_parts(path@);
        }
        let (master_xpub, branch_xpub) = match XPrv::from_text(master_key) {
            Ok(k) => {
                let mx = k.to_xpub()?;
                let bk = k.derive_path(&branch_path)?;
                let bx = bk.to_xpub()?;
                (mx, bx)
            },
            Err(_) => {
                if branch_path.len() == 0 {
                    let x = XPub::from_text(master_key)?;
                    let y = x.duplicate();
                    (x, y)
                } else {
                    match account_key {
                        Some(a) => {
                            if a.unicode_len() == 0 {
                                return Err(KeyError::MissingAccountKey);
                            }
                            let x = XPub::from_text(master_key)?;
                            let y = XPub::from_text(a)?;
                            (x, y)
                        },
                        None => {
                            return Err(KeyError::MissingAccountKey);
                        },
                    }
                }
            },
        };
        Ok(DerivationComponents { master_xpub, branch_xpub, branch_path, terminal_path, index_ranges })
    }

    /// The public key at `index`: the branch key taken down the terminal path
    /// and then to `index`, by normal (public) derivation only.
    pub fn derive_terminal_key(&self, index: u32) -> (r: Result<PubKey, KeyError>)
        requires
            self.wf(),
        ensures
            match r {
                Ok(k) => terminal_key(self.branch_xpub@, self.terminal_path@, index) == Ok::<
                    Seq<u8>,
                    KeyError,
                >(k@) && k.wf(),
                Err(e) => terminal_key(self.branch_xpub@, self.terminal_path@, index) == Err::<
                    Seq<u8>,
                    KeyError,
                >(e),
            },
    {
        if index >= HARDENED_INDEX_BOUNDARY {
            return Err(KeyError::KeyDerivationOverflow);
        }
        let mut steps: Vec<u32> = crate::keys::copy_u32s(&self.terminal_path);
        steps.push(index);
        let ghost full = self.terminal_path@.push(index);
        assert(steps@ == full);
        let mut x = self.branch_xpub.duplicate();
        let mut i: usize = 0;
        assert(steps@.subrange(0, steps@.len() as int) =~= steps@);
        while i < steps.len()
            invariant
                i <= steps@.len(),
                x.wf(),
                derive_pub_path(self.branch_xpub@, full) == derive_pub_path(
                    x@,
                    steps@.subrange(i as int, steps@.len() as int),
                ),
                steps@ == full,
                full == self.terminal_path@.push(index),
                index < HARDENED_INDEX_BOUNDARY,
            decreases steps@.len() - i,
        {
            proof {
                let rest = steps@.subrange(i as int, steps@.len() as int);
                assert(rest.drop_first() =~= steps@.subrange(i + 1, steps@.len() as int));
                assert(rest[0] == steps@[i as int]);
            }
            match x.child(steps[i]) {
                Ok(c) => {
                    x = c;
                },
                Err(e) => {
                    proof {
                        let rest = steps@.subrange(i as int, steps@.len() as int);
                        assert(derive_pub_path(x@, rest) is None);
                    }
                    return Err(e);
                },
            }
            i = i + 1;
        }
        proof {
            assert(steps@.subrange(steps@.len() as int, steps@.len() as int).len() == 0);
        }
        Ok(x.public_key())
    }
}

/// Construction refuses exactly the paths that have a normal step before a
/// later hardened step: such a path fails with the split violation, while a
/// path of hardened steps followed by normal steps never does, and when it is
/// built its branch and terminal paths are those two parts. From extended
/// public keys it is built whenever the keys it needs read correctly: the
/// master key alone without hardened steps, else with an account key.
pub proof fn lemma_construction_split(
    path: Seq<char>,
    master: Seq<char>,
    account: Option<Seq<char>>,
    branch: Seq<u32>,
    terminal: Seq<u32>,
)
    ensures
        derivation_path_of(path) == Some(branch + terminal) && all_hardened(branch) && all_normal(
            terminal,
        ) ==> components_of(path, master, account) != Err::<
            (Seq<u8>, Seq<u8>, Seq<u32>, Seq<u32>),
            KeyError,
        >(KeyError::InvalidHardenedSplit) && (components_of(path, master, account) matches Ok(
            (_, _, b, t),
        ) ==> b == branch && t == terminal),
        derivation_path_of(path) == Some(branch + terminal) && all_hardened(branch) && all_normal(
            terminal,
        ) && xprv_text(master) is None && xpub_text(master) is Some && (branch.len() == 0 || (
        account matches Some(a) && (a.len() > 0 && xpub_text(a) is Some))) ==> (components_of(
            path,
            master,
            account,
        ) matches Ok((_, _, b, t)) && b == branch && t == terminal),
        derivation_path_of(path) matches Some(p) && (exists|i: int, j: int|
            0 <= i < j < p.len() && !is_hardened(#[trigger] p[i]) && is_hardened(#[trigger] p[j]))
            ==> components_of(path, master, account) == Err::<
            (Seq<u8>, Seq<u8>, Seq<u32>, Seq<u32>),
            KeyError,
        >(KeyError::InvalidHardenedSplit),
{
    crate::path::lemma_hardened_normal_split(branch, terminal);
}

proof fn lemma_split_parts(p: Seq<u32>)
    ensures
        split_path(p) matches Some((b, t)) ==> all_hardened(b) && all_normal(t),
{
    crate::path::lemma_prefix_hardened(p);
}

/// Where the keys of an account come from.
#[derive(Clone, Debug, PartialEq, Eq)]
pub enum KeyVariant {
    /// One public key, used as it is.
    Fixed(PubKey),
    /// Keys derived from an extended public key.
    Derivable(DerivationComponents),
}

/// Identity of key variants: the same serialized key, or the same master
/// key with the same branch and terminal paths.
pub open spec fn same_variant(a: KeyVariant, b: KeyVariant) -> bool {
    match (a, b) {
        (KeyVariant::Fixed(x), KeyVariant::Fixed(y)) => x@ == y@,
        (KeyVariant::Derivable(x), KeyVariant::Derivable(y)) => x.master_xpub@ == y.master_xpub@
            && x.branch_path@ == y.branch_path@ && x.terminal_path@ == y.terminal_path@,
        _ => false,
    }
}

/// Key of a variant at a batch index; a fixed key ignores the index.
pub open spec fn key_at(v: KeyVariant, index: u32) -> Result<Seq<u8>, KeyError> {
    match v {
        KeyVariant::Fixed(k) => Ok(k@),
        KeyVariant::Derivable(c) => terminal_key(c.branch_xpub@, c.terminal_path@, index),
    }
}

impl KeyVariant {
    pub open spec fn wf(&self) -> bool {
        match self {
            KeyVariant::Fixed(k) => k.wf(),
            KeyVariant::Derivable(c) => c.wf(),
        }
    }

    /// The fixed key, or `None` for a derivable variant.
    pub fn as_single_key(&self) -> (r: Option<&PubKey>)
        ensures
            match self {
                KeyVariant::Fixed(k) => r == Some(k),
                KeyVariant::Derivable(_) => r is None,
            },
    {
        match self {
            KeyVariant::Fixed(k) => Some(k),
            KeyVariant::Derivable(_) => None,
        }
    }

    /// The key at batch position `index`.
    pub fn resolve_at(&self, index: u32) -> (r: Result<PubKey, KeyError>)
        requires
            self.wf(),
        ensures
            match r {
                Ok(k) => key_at(*self, index) == Ok::<Seq<u8>, KeyError>(k@) && k.wf(),
                Err(e) => key_at(*self, index) == Err::<Seq<u8>, KeyError>(e),
            },
    {
        match self {
            KeyVariant::Fixed(k) => Ok(k.duplicate()),
            KeyVariant::Derivable(c) => c.derive_terminal_key(index),
        }
    }

    /// Whether two variants stand for the same key recipe.
    pub fn same_as(&self, other: &KeyVariant) -> (r: bool)
        ensures
            r == same_variant(*self, *other),
    {
        match (self, other) {
            (KeyVariant::Fixed(x), KeyVariant::Fixed(y)) => x.same_as(y),
            (KeyVariant::Derivable(x), KeyVariant::Derivable(y)) => {
                x.master_xpub.same_as(&y.master_xpub) && crate::keys::u32s_equal(
                    &x.branch_path,
                    &y.branch_path,
                ) && crate::keys::u32s_equal(&x.terminal_path, &y.terminal_path)
            },
            _ => false,
        }
    }
}

/// A named key variant.
#[derive(Clone, Debug, PartialEq, Eq)]
pub struct TrackingAccount {
    pub name: String,
    pub key: KeyVariant,
}

impl TrackingAccount {
    /// An account; the name must not be empty.
    pub fn new(name: String, key: KeyVariant) -> (r: Result<TrackingAccount, KeyError>)
        ensures
            match r {
                Ok(a) => name@.len() > 0 && a.name@ == name@ && a.key == key,
                Err(e) => name@.len() == 0 && e == KeyError::EmptyName,
            },
    {
        if name.as_str().unicode_len() == 0 {
            return Err(KeyError::EmptyName);
        }
        Ok(TrackingAccount { name, key })
    }
}

} // verus!
