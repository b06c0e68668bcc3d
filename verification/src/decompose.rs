//! Full decomposition of code points under canonical and compatibility rules.

use std::collections::HashMap;
use vstd::prelude::*;

verus! {

broadcast use vstd::std_specs::hash::group_hash_axioms;

/// First Hangul syllable; the block is decomposed by rule and left out here.
pub const S_BASE: u32 = 0xAC00;

/// Number of Hangul syllables: 19 leading, 21 vowel and 28 trailing forms.
pub const S_COUNT: u32 = 11172;

/// The deepest nesting of decomposition rules that is followed.
pub const MAX_DEPTH: u32 = 64;

/// Why a decomposition was given up.
#[derive(Debug, Clone, Copy, PartialEq, Eq, Structural)]
pub enum DecompError {
    /// The rules nest deeper than `MAX_DEPTH`, as they do when they are cyclic.
    TooDeep,
}

/// A decomposition table as a map from code points to sequences.
pub open spec fn seqs_of(m: Map<u32, Vec<u32>>) -> Map<u32, Seq<u32>> {
    Map::new(|k: u32| m.contains_key(k), |k: u32| m[k]@)
}

/// A list of decompositions as a sequence of code points with their sequences.
pub open spec fn list_view(v: Seq<(u32, Vec<u32>)>) -> Seq<(u32, Seq<u32>)> {
    Seq::new(v.len(), |i: int| (v[i].0, v[i].1@))
}

/// Whether `ch` is a Hangul syllable.
pub open spec fn is_hangul(ch: u32) -> bool {
    0xAC00 <= ch < 0xAC00 + 11172
}

/// The full expansion of `ch`, following rules at most `fuel` deep: ASCII and
/// code points without a rule stand for themselves, a canonical rule is
/// followed in either mode, a compatibility rule only where `compatible`.
pub open spec fn expand(
    ch: u32,
    canon: Map<u32, Seq<u32>>,
    compat: Map<u32, Seq<u32>>,
    compatible: bool,
    fuel: nat,
) -> Option<Seq<u32>>
    decreases fuel, 0nat,
{
    if ch <= 0x7f {
        Some(seq![ch])
    } else if canon.contains_key(ch) {
        if fuel == 0 {
            None
        } else {
            expand_all(canon[ch], canon, compat, compatible, (fuel - 1) as nat)
        }
    } else if compatible && compat.contains_key(ch) {
        if fuel == 0 {
            None
        } else {
            expand_all(compat[ch], canon, compat, compatible, (fuel - 1) as nat)
        }
    } else {
        Some(seq![ch])
    }
}

/// The expansions of the elements of `s`, concatenated.
pub open spec fn expand_all(
    s: Seq<u32>,
    canon: Map<u32, Seq<u32>>,
    compat: Map<u32, Seq<u32>>,
    compatible: bool,
    fuel: nat,
) -> Option<Seq<u32>>
    decreases fuel, s.len() + 1,
{
    if s.len() == 0 {
        Some(Seq::empty())
    } else {
        match (
            expand_all(s.drop_last(), canon, compat, compatible, fuel),
            expand(s.last(), canon, compat, compatible, fuel),
        ) {
            (Some(a), Some(b)) => Some(a + b),
            _ => None,
        }
    }
}

/// Where a prefix cannot be expanded, the whole cannot.
proof fn lemma_prefix_fails(
    s: Seq<u32>,
    k: int,
    canon: Map<u32, Seq<u32>>,
    compat: Map<u32, Seq<u32>>,
    compatible: bool,
    fuel: nat,
)
    requires
        0 <= k <= s.len(),
        expand_all(s.take(k), canon, compat, compatible, fuel).is_none(),
    ensures
        expand_all(s, canon, compat, compatible, fuel).is_none(),
    decreases s.len() - k,
{
    if k < s.len() {
        assert(s.take(k + 1).drop_last() =~= s.take(k));
        lemma_prefix_fails(s, k + 1, canon, compat, compatible, fuel);
    } else {
        assert(s.take(k) =~= s);
    }
}

/// Appends the expansions of the elements of `seq` to `res`.
fn decompose_all(
    seq: &Vec<u32>,
    canon_decomp: &HashMap<u32, Vec<u32>>,
    compat_decomp: &HashMap<u32, Vec<u32>>,
    compatible: bool,
    depth: u32,
    res: &mut Vec<u32>,
) -> (ok: bool)
    ensures
        match expand_all(seq@, seqs_of(canon_decomp@), seqs_of(compat_decomp@), compatible, depth as nat) {
            Some(e) => ok && final(res)@ == old(res)@ + e,
            None => !ok,
        },
        old(res)@.is_prefix_of(final(res)@),
    decreases depth, seq@.len() + 1,
{
    let ghost canon = seqs_of(canon_decomp@);
    let ghost compat = seqs_of(compat_decomp@);
    let ghost start = res@;
    let mut i: usize = 0;
    while i < seq.len()
        invariant
            i <= seq@.len(),
            canon == seqs_of(canon_decomp@),
            compat == seqs_of(compat_decomp@),
            expand_all(seq@.take(i as int), canon, compat, compatible, depth as nat) matches Some(e)
                && res@ == start + e,
            start == old(res)@,
            start.is_prefix_of(res@),
        decreases seq@.len() - i,
    {
        let ghost before = res@;
        let ghost done = expand_all(seq@.take(i as int), canon, compat, compatible, depth as nat).unwrap();
        proof {
            assert(seq@.take(i + 1).drop_last() =~= seq@.take(i as int));
            assert(seq@.take(i + 1).last() == seq@[i as int]);
        }
        if !decompose_into(seq[i], canon_decomp, compat_decomp, compatible, depth, res) {
            proof {
                lemma_prefix_fails(seq@, i + 1, canon, compat, compatible, depth as nat);
                assert(start =~= before.subrange(0, start.len() as int));
                assert(before =~= res@.subrange(0, before.len() as int));
                assert(start =~= res@.subrange(0, start.len() as int));
            }
            return false;
        }
        proof {
            let b = expand(seq@[i as int], canon, compat, compatible, depth as nat).unwrap();
            assert(res@ =~= start + (done + b));
        }
        i = i + 1;
    }
    proof {
        assert(seq@.take(i as int) =~= seq@);
    }
    true
}

/// Appends the full expansion of `ch` to `res`, following rules at most
/// `depth` deep. Where the rules nest deeper it stops and tells so; what
/// `res` held stays at its front either way.
pub fn decompose_into(
    ch: u32,
    canon_decomp: &HashMap<u32, Vec<u32>>,
    compat_decomp: &HashMap<u32, Vec<u32>>,
    compatible: bool,
    depth: u32,
    res: &mut Vec<u32>,
) -> (ok: bool)
    ensures
        match expand(ch, seqs_of(canon_decomp@), seqs_of(compat_decomp@), compatible, depth as nat) {
            Some(e) => ok && final(res)@ == old(res)@ + e,
            None => !ok,
        },
        old(res)@.is_prefix_of(final(res)@),
    decreases depth, 0nat,
{
    if ch <= 0x7f {
        res.push(ch);
        proof {
            assert(res@ =~= old(res)@ + seq![ch]);
        }
        return true;
    }
    if let Some(decomp) = canon_decomp.get(&ch) {
        if depth == 0 {
            return false;
        }
        return decompose_all(decomp, canon_decomp, compat_decomp, compatible, depth - 1, res);
    }
    if compatible {
        if let Some(chs) = compat_decomp.get(&ch) {
            if depth == 0 {
                return false;
            }
            return decompose_all(chs, canon_decomp, compat_decomp, compatible, depth - 1, res);
        }
    }
    res.push(ch);
    proof {
        assert(res@ =~= old(res)@ + seq![ch]);
    }
    true
}

/// What is recorded for `ch` in one mode: its expansion, unless that is `ch`
/// alone.
pub open spec fn recorded(e: Seq<u32>, ch: u32) -> Option<Seq<u32>> {
    if e == seq![ch] {
        None
    } else {
        Some(e)
    }
}

/// The full decomposition of `ch`: `Ok(None)` where it is `ch` itself,
/// `Ok(Some(..))` where it differs, an error where the rules nest too deep.
pub fn decompose(
    ch: u32,
    canon_decomp: &HashMap<u32, Vec<u32>>,
    compat_decomp: &HashMap<u32, Vec<u32>>,
    compatible: bool,
) -> (r: Result<Option<Vec<u32>>, DecompError>)
    ensures
        match expand(ch, seqs_of(canon_decomp@), seqs_of(compat_decomp@), compatible, MAX_DEPTH as nat) {
            Some(e) => r is Ok && match recorded(e, ch) {
                Some(d) => r.unwrap().is_some() && r.unwrap().unwrap()@ == d,
                None => r.unwrap().is_none(),
            },
            None => r == Err::<Option<Vec<u32>>, DecompError>(DecompError::TooDeep),
        },
{
    let mut res: Vec<u32> = Vec::new();
    if !decompose_into(ch, canon_decomp, compat_decomp, compatible, MAX_DEPTH, &mut res) {
        return Err(DecompError::TooDeep);
    }
    proof {
        let e = expand(ch, seqs_of(canon_decomp@), seqs_of(compat_decomp@), compatible, MAX_DEPTH as nat).unwrap();
        assert(res@ =~= e);
        if res@.len() == 1 && res@[0] == ch {
            assert(res@ =~= seq![ch]);
        }
    }
    if res.len() == 1 && res[0] == ch {
        Ok(None)
    } else {
        Ok(Some(res))
    }
}

/// Tells whether two sequences of code points are the same.
pub fn same_codepoints(a: &Vec<u32>, b: &Vec<u32>) -> (r: bool)
    ensures
        r == (a@ == b@),
{
    if a.len() != b.len() {
        return false;
    }
    let mut i: usize = 0;
    while i < a.len()
        invariant
            i <= a@.len(),
            a@.len() == b@.len(),
            forall|k: int| 0 <= k < i ==> a@[k] == b@[k],
        decreases a@.len() - i,
    {
        if a[i] != b[i] {
            return false;
        }
        i = i + 1;
    }
    proof {
        assert(a@ =~= b@);
    }
    true
}

/// Whether every code point below `n` outside the Hangul block expands in
/// both modes within `MAX_DEPTH`.
pub open spec fn expandable_below(n: nat, canon: Map<u32, Seq<u32>>, compat: Map<u32, Seq<u32>>) -> bool {
    forall|ch: u32|
        ch < n && !is_hangul(ch) ==> (#[trigger] expand(ch, canon, compat, false, MAX_DEPTH as nat)).is_some()
            && expand(ch, canon, compat, true, MAX_DEPTH as nat).is_some()
}

/// What the canonical list holds for `ch`.
pub open spec fn canon_entry(ch: u32, canon: Map<u32, Seq<u32>>, compat: Map<u32, Seq<u32>>) -> Option<Seq<u32>> {
    if is_hangul(ch) {
        None
    } else {
        match expand(ch, canon, compat, false, MAX_DEPTH as nat) {
            Some(e) => recorded(e, ch),
            None => None,
        }
    }
}

/// What the compatibility list holds for `ch`: its expansion where that
/// differs from `ch` alone and from what the canonical list holds.
pub open spec fn compat_entry(ch: u32, canon: Map<u32, Seq<u32>>, compat: Map<u32, Seq<u32>>) -> Option<Seq<u32>> {
    if is_hangul(ch) {
        None
    } else {
        match expand(ch, canon, compat, true, MAX_DEPTH as nat) {
            Some(e) => if recorded(e, ch) == canon_entry(ch, canon, compat) {
                None
            } else {
                recorded(e, ch)
            },
            None => None,
        }
    }
}

/// The canonical list of the code points below `n`, ascending.
pub open spec fn canon_list(n: nat, canon: Map<u32, Seq<u32>>, compat: Map<u32, Seq<u32>>) -> Seq<(u32, Seq<u32>)>
    decreases n,
{
    if n == 0 {
        Seq::empty()
    } else {
        let ch = (n - 1) as u32;
        match canon_entry(ch, canon, compat) {
            Some(d) => canon_list((n - 1) as nat, canon, compat).push((ch, d)),
            None => canon_list((n - 1) as nat, canon, compat),
        }
    }
}

/// The compatibility list of the code points below `n`, ascending.
pub open spec fn compat_list(n: nat, canon: Map<u32, Seq<u32>>, compat: Map<u32, Seq<u32>>) -> Seq<(u32, Seq<u32>)>
    decreases n,
{
    if n == 0 {
        Seq::empty()
    } else {
        let ch = (n - 1) as u32;
        match compat_entry(ch, canon, compat) {
            Some(d) => compat_list((n - 1) as nat, canon, compat).push((ch, d)),
            None => compat_list((n - 1) as nat, canon, compat),
        }
    }
}

/// Fully decomposes every code point up to `last` but the Hangul syllables,
/// in both modes. Returns the canonical and the compatibility list, each
/// ascending and holding the code points whose expansion is not themselves;
/// the compatibility list leaves out what the canonical list holds alike.
pub fn compute_fully_decomposed(
    canon_decomp: &HashMap<u32, Vec<u32>>,
    compat_decomp: &HashMap<u32, Vec<u32>>,
    last: u32,
) -> (r: Result<(Vec<(u32, Vec<u32>)>, Vec<(u32, Vec<u32>)>), DecompError>)
    ensures
        r is Ok <==> expandable_below(last as nat + 1, seqs_of(canon_decomp@), seqs_of(compat_decomp@)),
        r matches Ok(lists) ==> {
            &&& list_view(lists.0@) == canon_list(
                last as nat + 1,
                seqs_of(canon_decomp@),
                seqs_of(compat_decomp@),
            )
            &&& list_view(lists.1@) == compat_list(
                last as nat + 1,
                seqs_of(canon_decomp@),
                seqs_of(compat_decomp@),
            )
        },
        r is Err ==> r == Err::<(Vec<(u32, Vec<u32>)>, Vec<(u32, Vec<u32>)>), DecompError>(
            DecompError::TooDeep,
        ),
{
    let ghost cm = seqs_of(canon_decomp@);
    let ghost km = seqs_of(compat_decomp@);
    let mut canon: Vec<(u32, Vec<u32>)> = Vec::new();
    let mut compat: Vec<(u32, Vec<u32>)> = Vec::new();
    let end: u64 = last as u64 + 1;
    let mut n: u64 = 0;
    proof {
        assert(list_view(canon@) =~= canon_list(0, cm, km));
        assert(list_view(compat@) =~= compat_list(0, cm, km));
    }
    while n < end
        invariant
            n <= end,
            end == last as nat + 1,
            cm == seqs_of(canon_decomp@),
            km == seqs_of(compat_decomp@),
            expandable_below(n as nat, cm, km),
            list_view(canon@) == canon_list(n as nat, cm, km),
            list_view(compat@) == compat_list(n as nat, cm, km),
        decreases end - n,
    {
        let ch: u32 = n as u32;
        let ghost old_canon = canon@;
        let ghost old_compat = compat@;
        if !(S_BASE <= ch && ch < S_BASE + S_COUNT) {
            let a = match decompose(ch, canon_decomp, compat_decomp, false) {
                Ok(a) => a,
                Err(e) => {
                    proof {
                        assert(expand(ch, cm, km, false, MAX_DEPTH as nat).is_none());
                    }
                    return Err(e);
                },
            };
            let b = match decompose(ch, canon_decomp, compat_decomp, true) {
                Ok(b) => b,
                Err(e) => {
                    proof {
                        assert(expand(ch, cm, km, true, MAX_DEPTH as nat).is_none());
                    }
                    return Err(e);
                },
            };
            let alike: bool = match (&a, &b) {
                (Some(x), Some(y)) => same_codepoints(x, y),
                (None, None) => true,
                _ => false,
            };
            if let Some(d) = a {
                canon.push((ch, d));
                proof {
                    assert(list_view(canon@) =~= list_view(old_canon).push((ch, d@)));
                }
            }
            if !alike {
                if let Some(d) = b {
                    compat.push((ch, d));
                    proof {
                        assert(list_view(compat@) =~= list_view(old_compat).push((ch, d@)));
                    }
                }
            }
        }
        proof {
            assert forall|c: u32| c < n + 1 && !is_hangul(c) implies (#[trigger] expand(
                c,
                cm,
                km,
                false,
                MAX_DEPTH as nat,
            )).is_some() && expand(c, cm, km, true, MAX_DEPTH as nat).is_some() by {
                if c < n {
                } else {
                    assert(c == ch);
                }
            }
        }
        n = n + 1;
    }
    Ok((canon, compat))
}

} // verus!
