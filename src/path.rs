//! BIP32 derivation paths and their split into a hardened branch and a
//! normal terminal.

use vstd::prelude::*;

use crate::ranges::HARDENED_INDEX_BOUNDARY;

verus! {

/// A hardened child index has its top bit set.
pub open spec fn is_hardened(i: u32) -> bool {
    i >= HARDENED_INDEX_BOUNDARY
}

pub open spec fn all_hardened(p: Seq<u32>) -> bool {
    forall|k: int| 0 <= k < p.len() ==> is_hardened(#[trigger] p[k])
}

pub open spec fn all_normal(p: Seq<u32>) -> bool {
    forall|k: int| 0 <= k < p.len() ==> !is_hardened(#[trigger] p[k])
}

/// Number of hardened steps at the head of the path.
pub open spec fn hardened_prefix_len(p: Seq<u32>) -> nat
    decreases p.len(),
{
    if p.len() > 0 && is_hardened(p[0]) {
        1 + hardened_prefix_len(p.drop_first())
    } else {
        0
    }
}

/// The path as a hardened branch followed by a normal terminal, or `None`
/// when a normal step comes before a later hardened one.
pub open spec fn split_path(p: Seq<u32>) -> Option<(Seq<u32>, Seq<u32>)> {
    let h = hardened_prefix_len(p) as int;
    if all_normal(p.subrange(h, p.len() as int)) {
        Some((p.subrange(0, h), p.subrange(h, p.len() as int)))
    } else {
        None
    }
}

/// Steps of a path written in the `m/i/i'/...` notation (`'` or `h` marks a
/// hardened step), as BIP32 indices with the top bit set on hardened ones.
pub uninterp spec fn derivation_path_of(s: Seq<char>) -> Option<Seq<u32>>;

/// Relies on `bitcoin::util::bip32::DerivationPath::from_str` to read the
/// notation, and on `u32::from(ChildNumber)` for each step's index.
#[verifier::external_body]
pub(crate) fn parse_derivation_path(s: &str) -> (r: Option<Vec<u32>>)
    ensures
        match r {
            Some(v) => derivation_path_of(s@) == Some(v@),
            None => derivation_path_of(s@) is None,
        },
{
    match <bitcoin::util::bip32::DerivationPath as std::str::FromStr>::from_str(s) {
        Ok(p) => Some(p.into_iter().map(|c| u32::from(*c)).collect()),
        Err(_) => None,
    }
}

pub proof fn lemma_prefix_hardened(p: Seq<u32>)
    ensures
        hardened_prefix_len(p) <= p.len(),
        all_hardened(p.subrange(0, hardened_prefix_len(p) as int)),
        hardened_prefix_len(p) < p.len() ==> !is_hardened(p[hardened_prefix_len(p) as int]),
    decreases p.len(),
{
    if p.len() > 0 && is_hardened(p[0]) {
        let q = p.drop_first();
        lemma_prefix_hardened(q);
        let h = hardened_prefix_len(p) as int;
        assert forall|k: int| 0 <= k < h implies is_hardened(#[trigger] p.subrange(0, h)[k]) by {
            if k > 0 {
                assert(p.subrange(0, h)[k] == q.subrange(0, h - 1)[k - 1]);
            }
        }
        if h < p.len() {
            assert(p[h] == q[h - 1]);
        }
    }
}

/// Splits a path into its hardened branch and its normal terminal.
pub fn split_hardened_normal(path: &Vec<u32>) -> (r: Option<(Vec<u32>, Vec<u32>)>)
    ensures
        match r {
            Some((b, t)) => split_path(path@) == Some((b@, t@)),
            None => split_path(path@) is None,
        },
{
    let n = path.len();
    let mut h: usize = 0;
    let mut branch: Vec<u32> = Vec::new();
    proof {
        lemma_prefix_hardened(path@);
    }
    while h < n && path[h] >= HARDENED_INDEX_BOUNDARY
        invariant
            n == path@.len(),
            h <= hardened_prefix_len(path@),
            hardened_prefix_len(path@) <= n,
            hardened_prefix_len(path@) < n ==> !is_hardened(path@[hardened_prefix_len(path@) as int]),
            all_hardened(path@.subrange(0, hardened_prefix_len(path@) as int)),
            branch@ == path@.subrange(0, h as int),
        decreases n - h,
    {
        branch.push(path[h]);
        h = h + 1;
        assert(branch@ =~= path@.subrange(0, h as int));
    }
    proof {
        if h < hardened_prefix_len(path@) {
            assert(path@.subrange(0, hardened_prefix_len(path@) as int)[h as int] == path@[h as int]);
        }
        assert(h == hardened_prefix_len(path@));
    }
    let mut terminal: Vec<u32> = Vec::new();
    let mut i: usize = h;
    while i < n
        invariant
            n == path@.len(),
            h <= i <= n,
            h == hardened_prefix_len(path@),
            terminal@ == path@.subrange(h as int, i as int),
            all_normal(terminal@),
        decreases n - i,
    {
        if path[i] >= HARDENED_INDEX_BOUNDARY {
            proof {
                assert(path@.subrange(h as int, n as int)[i - h] == path@[i as int]);
            }
            return None;
        }
        terminal.push(path[i]);
        i = i + 1;
        proof {
            assert(terminal@ =~= path@.subrange(h as int, i as int));
            assert forall|k: int| 0 <= k < terminal@.len() implies !is_hardened(
                #[trigger] terminal@[k],
            ) by {
                assert(terminal@[k] == path@[h + k]);
            }
        }
    }
    Some((branch, terminal))
}

/// A path made of hardened steps followed by normal steps splits into
/// exactly those two parts; a path with a normal step before a later hardened
/// step does not split.
pub proof fn lemma_hardened_normal_split(branch: Seq<u32>, terminal: Seq<u32>)
    ensures
        all_hardened(branch) && all_normal(terminal) ==> split_path(branch + terminal) == Some(
            (branch, terminal),
        ),
        forall|p: Seq<u32>, i: int, j: int|
            0 <= i < j < p.len() && !is_hardened(#[trigger] p[i]) && is_hardened(#[trigger] p[j])
                ==> split_path(p) is None,
{
    if all_hardened(branch) && all_normal(terminal) {
        lemma_prefix_len_of(branch, terminal);
        let p = branch + terminal;
        assert(p.subrange(0, branch.len() as int) =~= branch);
        assert(p.subrange(branch.len() as int, p.len() as int) =~= terminal);
    }
    assert forall|p: Seq<u32>, i: int, j: int|
        0 <= i < j < p.len() && !is_hardened(#[trigger] p[i]) && is_hardened(
            #[trigger] p[j],
        ) implies split_path(p) is None by {
        lemma_prefix_hardened(p);
        let h = hardened_prefix_len(p) as int;
        if i < h {
            assert(p.subrange(0, h)[i] == p[i]);
        }
        assert(i >= h);
        assert(p.subrange(h, p.len() as int)[j - h] == p[j]);
    }
}

/// BIP32 index of a child: `index`, with the top bit set when hardened.
pub open spec fn child_index(index: u32, hardened: bool) -> u32 {
    if hardened {
        (index + HARDENED_INDEX_BOUNDARY) as u32
    } else {
        index
    }
}

/// One step of a path: its index, and whether it is hardened.
#[derive(Clone, Copy, Debug, PartialEq, Eq, Structural)]
pub struct PathStep {
    pub index: u32,
    pub hardened: bool,
}

/// The child index of one step; `None` when the index does not fit below the
/// hardened boundary.
pub fn step_index(step: PathStep) -> (r: Option<u32>)
    ensures
        match r {
            Some(i) => step.index < HARDENED_INDEX_BOUNDARY && i == child_index(step.index, step.hardened),
            None => step.index >= HARDENED_INDEX_BOUNDARY,
        },
{
    if step.index >= HARDENED_INDEX_BOUNDARY {
        return None;
    }
    if step.hardened {
        Some(step.index + HARDENED_INDEX_BOUNDARY)
    } else {
        Some(step.index)
    }
}

/// Steps of a BIP44-style path, with the optional extra step last.
pub open spec fn bip44_steps(
    purpose: PathStep,
    asset: PathStep,
    account: PathStep,
    change: PathStep,
    extra: Option<PathStep>,
) -> Seq<PathStep> {
    match extra {
        Some(e) => seq![purpose, asset, account, change, e],
        None => seq![purpose, asset, account, change],
    }
}

/// A BIP44-style path `m/purpose/asset/account/change`, optionally extended
/// by one more step; `None` when a step's index is not below the hardened
/// boundary.
pub fn bip44_path(
    purpose: PathStep,
    asset: PathStep,
    account: PathStep,
    change: PathStep,
    extra: Option<PathStep>,
) -> (r: Option<Vec<u32>>)
    ensures
        ({
            let steps = bip44_steps(purpose, asset, account, change, extra);
            match r {
                Some(p) => p@.len() == steps.len() && forall|k: int|
                    0 <= k < steps.len() ==> (#[trigger] steps[k]).index < HARDENED_INDEX_BOUNDARY
                        && p@[k] == child_index(steps[k].index, steps[k].hardened),
                None => exists|k: int| 0 <= k < steps.len() && (#[trigger] steps[k]).index
                    >= HARDENED_INDEX_BOUNDARY,
            }
        }),
{
    let ghost steps = bip44_steps(purpose, asset, account, change, extra);
    let mut all: Vec<PathStep> = vec![purpose, asset, account, change];
    if let Some(e) = extra {
        all.push(e);
    }
    assert(all@ =~= steps);
    let mut p: Vec<u32> = Vec::new();
    let mut i: usize = 0;
    while i < all.len()
        invariant
            all@ == steps,
            steps == bip44_steps(purpose, asset, account, change, extra),
            i <= all@.len(),
            p@.len() == i,
            forall|k: int|
                0 <= k < i ==> (#[trigger] steps[k]).index < HARDENED_INDEX_BOUNDARY && p@[k]
                    == child_index(steps[k].index, steps[k].hardened),
        decreases all@.len() - i,
    {
        match step_index(all[i]) {
            Some(c) => {
                p.push(c);
            },
            None => {
                assert(steps[i as int].index >= HARDENED_INDEX_BOUNDARY);
                return None;
            },
        }
        i = i + 1;
    }
    Some(p)
}

proof fn lemma_prefix_len_of(branch: Seq<u32>, terminal: Seq<u32>)
    requires
        all_hardened(branch),
        all_normal(terminal),
    ensures
        hardened_prefix_len(branch + terminal) == branch.len(),
    decreases branch.len(),
{
    let p = branch + terminal;
    if branch.len() > 0 {
        assert(p.drop_first() =~= branch.drop_first() + terminal);
        assert(is_hardened(branch[0]));
        lemma_prefix_len_of(branch.drop_first(), terminal);
    } else {
        assert(p =~= terminal);
        if terminal.len() > 0 {
            assert(!is_hardened(terminal[0]));
        }
    }
}

} // verus!
