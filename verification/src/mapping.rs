//! From full decompositions to the replacement texts: canonical reordering,
//! removal of the combining diacritical marks, and the merged mapping.

use crate::is_diacritic::{is_diacritic, is_mark};
use crate::decompose::list_view;
use crate::phf::ascending;
use std::collections::HashMap;
use vstd::prelude::*;

verus! {

broadcast use vstd::std_specs::hash::group_hash_axioms;

/// Whether `cp` is a Unicode scalar value.
pub open spec fn is_scalar(cp: u32) -> bool {
    cp < 0xD800 || 0xE000 <= cp <= 0x10FFFF
}

/// `char::from_u32` gives the character of a scalar value and nothing for a
/// surrogate or a number beyond the last code point.
#[verifier::external_body]
fn char_from_u32(cp: u32) -> (r: Option<char>)
    ensures
        r == (if is_scalar(cp) {
            Some(cp as char)
        } else {
            None
        }),
{
    char::from_u32(cp)
}

/// `String::push` appends one character.
#[verifier::external_body]
pub(crate) fn push_char(buf: &mut String, ch: char)
    ensures
        final(buf)@ == old(buf)@.push(ch),
{
    buf.push(ch)
}

/// Why a mapping could not be made.
#[derive(Debug, Clone, Copy, PartialEq, Eq, Structural)]
pub enum MappingError {
    /// A code point is not a Unicode scalar value.
    InvalidCodepoint,
}

/// The combining class of `cp`: the one listed, else 0.
pub open spec fn class_of(classes: Map<u32, u8>, cp: u32) -> u8 {
    if classes.contains_key(cp) {
        classes[cp]
    } else {
        0
    }
}

/// The code points with their combining classes.
pub open spec fn tagged(chars: Seq<u32>, classes: Map<u32, u8>) -> Seq<(u8, char)> {
    Seq::new(chars.len(), |i: int| (class_of(classes, chars[i]), chars[i] as char))
}

/// `s` with `x` put behind the last item whose class is not above its own.
pub open spec fn insert_by_class(s: Seq<(u8, char)>, x: (u8, char)) -> Seq<(u8, char)>
    decreases s.len(),
{
    if s.len() == 0 || s.last().0 <= x.0 {
        s.push(x)
    } else {
        insert_by_class(s.drop_last(), x).push(s.last())
    }
}

/// `s` sorted by class, items of one class in the order they came.
pub open spec fn sorted_run(s: Seq<(u8, char)>) -> Seq<(u8, char)>
    decreases s.len(),
{
    if s.len() == 0 {
        s
    } else {
        insert_by_class(sorted_run(s.drop_last()), s.last())
    }
}

/// The scan over `s`: what is settled, and the run since the last starter.
/// A starter settles the run before it, sorted, and begins the next.
pub open spec fn reorder_parts(s: Seq<(u8, char)>) -> (Seq<(u8, char)>, Seq<(u8, char)>)
    decreases s.len(),
{
    if s.len() == 0 {
        (Seq::empty(), Seq::empty())
    } else {
        let p = reorder_parts(s.drop_last());
        if s.last().0 == 0 {
            (p.0 + sorted_run(p.1), seq![s.last()])
        } else {
            (p.0, p.1.push(s.last()))
        }
    }
}

/// The canonical reordering of `s`.
pub open spec fn reordered(s: Seq<(u8, char)>) -> Seq<(u8, char)> {
    reorder_parts(s).0 + reorder_parts(s).1
}

/// The characters of tagged items.
pub open spec fn chars_of(s: Seq<(u8, char)>) -> Seq<char> {
    Seq::new(s.len(), |i: int| s[i].1)
}

/// Whether the classes of `s` never descend.
pub open spec fn class_sorted(s: Seq<(u8, char)>) -> bool {
    forall|i: int, j: int| 0 <= i < j < s.len() ==> (#[trigger] s[i]).0 <= (#[trigger] s[j]).0
}

/// Inserting by class is inserting at the place behind which every class is
/// higher and before which none is.
proof fn lemma_insert_at(s: Seq<(u8, char)>, x: (u8, char), idx: int)
    requires
        0 <= idx <= s.len(),
        forall|k: int| idx <= k < s.len() ==> (#[trigger] s[k]).0 > x.0,
        idx > 0 ==> s[idx - 1].0 <= x.0,
    ensures
        insert_by_class(s, x) == s.insert(idx, x),
    decreases s.len(),
{
    if idx == s.len() {
        assert(s.insert(idx, x) =~= s.push(x));
    } else {
        assert(s.last().0 > x.0);
        let t = s.drop_last();
        assert forall|k: int| idx <= k < t.len() implies (#[trigger] t[k]).0 > x.0 by {
            assert(t[k] == s[k]);
        }
        lemma_insert_at(t, x, idx);
        assert(t.insert(idx, x).push(s.last()) =~= s.insert(idx, x));
    }
}

/// Inserting by class keeps a sorted run sorted and adds one item.
pub proof fn lemma_insert_sorted(s: Seq<(u8, char)>, x: (u8, char))
    requires
        class_sorted(s),
    ensures
        class_sorted(insert_by_class(s, x)),
        insert_by_class(s, x).len() == s.len() + 1,
        insert_by_class(s, x).to_multiset() == s.to_multiset().insert(x),
    decreases s.len(),
{
    broadcast use vstd::seq_lib::group_to_multiset_ensures;

    if s.len() == 0 || s.last().0 <= x.0 {
        let r = s.push(x);
        assert forall|i: int, j: int| 0 <= i < j < r.len() implies (#[trigger] r[i]).0 <= (
        #[trigger] r[j]).0 by {
            if j == s.len() {
                if i < s.len() - 1 {
                    assert(s[i].0 <= s[s.len() - 1].0);
                }
            }
        }
    } else {
        let t = s.drop_last();
        assert forall|i: int, j: int| 0 <= i < j < t.len() implies (#[trigger] t[i]).0 <= (
        #[trigger] t[j]).0 by {
            assert(t[i] == s[i] && t[j] == s[j]);
        }
        lemma_insert_sorted(t, x);
        let u = insert_by_class(t, x);
        let r = u.push(s.last());
        assert(t.push(s.last()) =~= s);
        assert forall|i: int, j: int| 0 <= i < j < r.len() implies (#[trigger] r[i]).0 <= (
        #[trigger] r[j]).0 by {
            if j == u.len() {
                assert(u.to_multiset().contains(u[i]));
                if u[i] == x {
                } else {
                    assert(t.to_multiset().contains(u[i]));
                    let k = choose|k: int| 0 <= k < t.len() && t[k] == u[i];
                    assert(s[k] == t[k]);
                    if k < s.len() - 1 {
                        assert(s[k].0 <= s[s.len() - 1].0);
                    }
                }
            }
        }
    }
}

/// A sorted run is sorted by class and holds the items it was made of.
pub proof fn lemma_sorted_run(s: Seq<(u8, char)>)
    ensures
        class_sorted(sorted_run(s)),
        sorted_run(s).len() == s.len(),
        sorted_run(s).to_multiset() == s.to_multiset(),
    decreases s.len(),
{
    broadcast use vstd::seq_lib::group_to_multiset_ensures;

    if s.len() > 0 {
        lemma_sorted_run(s.drop_last());
        lemma_insert_sorted(sorted_run(s.drop_last()), s.last());
        assert(s.drop_last().push(s.last()) =~= s);
    }
}

/// The two parts of the scan: together as long as the input; the open run is
/// the input's tail as it came, with no starter but at its head; and every
/// starter that is settled stands where it stood.
pub proof fn lemma_reorder_parts(s: Seq<(u8, char)>)
    ensures
        reorder_parts(s).0.len() + reorder_parts(s).1.len() == s.len(),
        reorder_parts(s).1 == s.skip(reorder_parts(s).0.len() as int),
        forall|k: int| 1 <= k < reorder_parts(s).1.len() ==> (#[trigger] reorder_parts(s).1[k]).0 != 0,
        forall|i: int|
            0 <= i < reorder_parts(s).0.len() && (#[trigger] s[i]).0 == 0 ==> reorder_parts(s).0[i]
                == s[i],
    decreases s.len(),
{
    if s.len() > 0 {
        let t = s.drop_last();
        let p = reorder_parts(t);
        let q = reorder_parts(s);
        lemma_reorder_parts(t);
        lemma_sorted_first(p.1);
        if s.last().0 == 0 {
            assert(q.1 =~= s.skip(q.0.len() as int));
            assert forall|i: int| 0 <= i < q.0.len() && (#[trigger] s[i]).0 == 0 implies q.0[i]
                == s[i] by {
                assert(t[i] == s[i]);
                if i >= p.0.len() {
                    let k = i - p.0.len();
                    assert(p.1[k] == t[i]);
                    if k >= 1 {
                        assert(p.1[k].0 != 0);
                    }
                }
            }
        } else {
            assert(q.1 =~= s.skip(q.0.len() as int));
            assert forall|i: int| 0 <= i < q.0.len() && (#[trigger] s[i]).0 == 0 implies q.0[i]
                == s[i] by {
                assert(t[i] == s[i]);
            }
        }
    } else {
        assert(reorder_parts(s).1 =~= s.skip(0));
    }
}

/// Reordering keeps the length and keeps every starter where it was: the
/// runs between starters are sorted each within its own bounds.
pub proof fn lemma_reorder_keeps_starters(s: Seq<(u8, char)>)
    ensures
        reordered(s).len() == s.len(),
        forall|i: int| 0 <= i < s.len() && (#[trigger] s[i]).0 == 0 ==> reordered(s)[i] == s[i],
{
    lemma_reorder_parts(s);
}

/// A run that begins with a starter still begins with it when sorted.
proof fn lemma_sorted_first(s: Seq<(u8, char)>)
    ensures
        s.len() > 0 && s[0].0 == 0 ==> sorted_run(s)[0] == s[0],
        sorted_run(s).len() == s.len(),
    decreases s.len(),
{
    lemma_sorted_run(s);
    if s.len() > 1 && s[0].0 == 0 {
        let t = s.drop_last();
        lemma_sorted_first(t);
        lemma_sorted_run(t);
        assert(t[0] == s[0]);
        lemma_insert_first(sorted_run(t), s.last());
    } else if s.len() == 1 {
        assert(s.drop_last() =~= Seq::empty());
        assert(sorted_run(s.drop_last()) =~= Seq::empty());
    }
}

/// Inserting behind equal classes never displaces a first item of class 0.
proof fn lemma_insert_first(s: Seq<(u8, char)>, x: (u8, char))
    requires
        s.len() > 0,
        s[0].0 == 0,
    ensures
        insert_by_class(s, x)[0] == s[0],
        insert_by_class(s, x).len() == s.len() + 1,
    decreases s.len(),
{
    if s.last().0 <= x.0 {
    } else {
        assert(s.len() > 1);
        lemma_insert_first(s.drop_last(), x);
    }
}

/// Sorts a run by class, keeping items of one class in their order.
fn sort_run(run: &Vec<(u8, char)>) -> (out: Vec<(u8, char)>)
    ensures
        out@ == sorted_run(run@),
{
    let mut out: Vec<(u8, char)> = Vec::new();
    let mut i: usize = 0;
    proof {
        assert(run@.take(0) =~= Seq::empty());
    }
    while i < run.len()
        invariant
            i <= run@.len(),
            out@ == sorted_run(run@.take(i as int)),
        decreases run@.len() - i,
    {
        let x: (u8, char) = run[i];
        let mut idx: usize = out.len();
        while idx > 0 && out[idx - 1].0 > x.0
            invariant
                idx <= out@.len(),
                forall|k: int| idx <= k < out@.len() ==> (#[trigger] out@[k]).0 > x.0,
            decreases idx,
        {
            idx = idx - 1;
        }
        proof {
            lemma_insert_at(out@, x, idx as int);
            assert(run@.take(i + 1).drop_last() =~= run@.take(i as int));
        }
        out.insert(idx, x);
        i = i + 1;
    }
    proof {
        assert(run@.take(i as int) =~= run@);
    }
    out
}

/// Puts the code points of a decomposition in canonical order: scanning from
/// the left, each starter settles the run before it, sorted by combining
/// class. There is no result where a code point is not a scalar value.
pub fn sort_codepoints(chars: &Vec<u32>, combining_classes: &HashMap<u32, u8>) -> (r: Option<
    Vec<char>,
>)
    ensures
        r.is_some() <==> forall|i: int| 0 <= i < chars@.len() ==> is_scalar(#[trigger] chars@[i]),
        r matches Some(v) ==> v@ == chars_of(reordered(tagged(chars@, combining_classes@))),
{
    let ghost tg = tagged(chars@, combining_classes@);
    let mut done: Vec<(u8, char)> = Vec::new();
    let mut run: Vec<(u8, char)> = Vec::new();
    let mut i: usize = 0;
    proof {
        assert(tg.take(0) =~= Seq::empty());
    }
    while i < chars.len()
        invariant
            i <= chars@.len(),
            tg == tagged(chars@, combining_classes@),
            forall|k: int| 0 <= k < i ==> is_scalar(#[trigger] chars@[k]),
            done@ == reorder_parts(tg.take(i as int)).0,
            run@ == reorder_parts(tg.take(i as int)).1,
        decreases chars@.len() - i,
    {
        let cp: u32 = chars[i];
        let ch: char = match char_from_u32(cp) {
            Some(c) => c,
            None => {
                return None;
            },
        };
        let class: u8 = match combining_classes.get(&cp) {
            Some(k) => *k,
            None => 0,
        };
        proof {
            assert(tg.take(i + 1).drop_last() =~= tg.take(i as int));
            assert(tg.take(i + 1).last() == (class, ch));
        }
        if class == 0 {
            let mut sorted = sort_run(&run);
            done.append(&mut sorted);
            run = Vec::new();
            run.push((class, ch));
            proof {
                assert(run@ =~= seq![(class, ch)]);
            }
        } else {
            run.push((class, ch));
        }
        i = i + 1;
    }
    proof {
        assert(tg.take(i as int) =~= tg);
    }
    let mut out: Vec<char> = Vec::new();
    let mut j: usize = 0;
    while j < done.len()
        invariant
            j <= done@.len(),
            out@ == chars_of(done@.take(j as int)),
        decreases done@.len() - j,
    {
        out.push(done[j].1);
        proof {
            assert(out@ =~= chars_of(done@.take(j + 1)));
        }
        j = j + 1;
    }
    let mut k: usize = 0;
    while k < run.len()
        invariant
            k <= run@.len(),
            out@ == chars_of(done@ + run@.take(k as int)),
        decreases run@.len() - k,
    {
        out.push(run[k].1);
        proof {
            assert(out@ =~= chars_of(done@ + run@.take(k + 1)));
        }
        k = k + 1;
    }
    proof {
        assert(done@ + run@.take(k as int) =~= done@ + run@);
    }
    Some(out)
}

/// Whether `s` holds a combining diacritical mark.
pub open spec fn has_mark(s: Seq<char>) -> bool {
    exists|i: int| 0 <= i < s.len() && is_mark(#[trigger] s[i])
}

/// `s` without its combining diacritical marks.
pub open spec fn without_marks(s: Seq<char>) -> Seq<char>
    decreases s.len(),
{
    if s.len() == 0 {
        s
    } else if is_mark(s.last()) {
        without_marks(s.drop_last())
    } else {
        without_marks(s.drop_last()).push(s.last())
    }
}

/// Removes the combining diacritical marks. There is no result where none
/// was found.
pub fn filter_diacritics(chars: &Vec<char>) -> (r: Option<Vec<char>>)
    ensures
        r.is_some() <==> has_mark(chars@),
        r matches Some(v) ==> v@ == without_marks(chars@),
{
    let mut ok: bool = false;
    let mut buf: Vec<char> = Vec::new();
    let mut i: usize = 0;
    proof {
        assert(chars@.take(0) =~= Seq::empty());
    }
    while i < chars.len()
        invariant
            i <= chars@.len(),
            ok == has_mark(chars@.take(i as int)),
            buf@ == without_marks(chars@.take(i as int)),
        decreases chars@.len() - i,
    {
        let ch: char = chars[i];
        proof {
            let a = chars@.take(i as int);
            let b = chars@.take(i + 1);
            assert(b.drop_last() =~= a);
            assert(b.last() == ch);
            if has_mark(a) {
                let w = choose|w: int| 0 <= w < a.len() && is_mark(#[trigger] a[w]);
                assert(is_mark(b[w]));
            }
            if is_mark(ch) {
                assert(is_mark(b[i as int]));
            }
            if has_mark(b) && !is_mark(ch) {
                let w = choose|w: int| 0 <= w < b.len() && is_mark(#[trigger] b[w]);
                assert(is_mark(a[w]));
            }
        }
        if is_diacritic(ch) {
            ok = true;
        } else {
            buf.push(ch);
        }
        i = i + 1;
    }
    proof {
        assert(chars@.take(i as int) =~= chars@);
    }
    if ok {
        Some(buf)
    } else {
        None
    }
}

/// The characters as one string.
pub fn codepoints_to_utf8(chars: &Vec<char>) -> (r: String)
    ensures
        r@ == chars@,
{
    let mut buf: String = String::new();
    let mut i: usize = 0;
    while i < chars.len()
        invariant
            i <= chars@.len(),
            buf@ == chars@.take(i as int),
        decreases chars@.len() - i,
    {
        push_char(&mut buf, chars[i]);
        proof {
            assert(buf@ =~= chars@.take(i + 1));
        }
        i = i + 1;
    }
    proof {
        assert(chars@.take(i as int) =~= chars@);
    }
    buf
}

/// The replacement text that a full decomposition gives: its code points in
/// canonical order without the combining diacritical marks, where it holds
/// any; else none.
pub open spec fn replacement_text(v: Seq<u32>, classes: Map<u32, u8>) -> Option<Seq<char>> {
    let sorted = chars_of(reordered(tagged(v, classes)));
    if has_mark(sorted) {
        Some(without_marks(sorted))
    } else {
        None
    }
}

/// Whether an entry can be read: its key is a scalar value, and so is every
/// code point of its decomposition unless the key is itself a mark.
pub open spec fn entry_valid(e: (u32, Seq<u32>)) -> bool {
    is_scalar(e.0) && (is_mark(e.0 as char) || forall|i: int|
        0 <= i < e.1.len() ==> is_scalar(#[trigger] e.1[i]))
}

/// A mapping with its texts as sequences.
pub open spec fn texts_of(m: Map<u32, String>) -> Map<u32, Seq<char>> {
    Map::new(|k: u32| m.contains_key(k), |k: u32| m[k]@)
}

/// `dst` after the entries of `src` were applied in order: an entry whose key
/// is no mark and whose decomposition holds a mark sets the key's text, and
/// a later entry overwrites an earlier one.
pub open spec fn merged(
    dst: Map<u32, Seq<char>>,
    src: Seq<(u32, Seq<u32>)>,
    classes: Map<u32, u8>,
) -> Map<u32, Seq<char>>
    decreases src.len(),
{
    if src.len() == 0 {
        dst
    } else {
        let m = merged(dst, src.drop_last(), classes);
        let e = src.last();
        if is_mark(e.0 as char) {
            m
        } else {
            match replacement_text(e.1, classes) {
                Some(t) => m.insert(e.0, t),
                None => m,
            }
        }
    }
}

/// Applies the decompositions of `src` to the mapping `dst`, in order. Stops
/// with an error at the first entry that cannot be read, with the entries
/// before it applied.
pub fn add_mapping(
    src: &Vec<(u32, Vec<u32>)>,
    combining_classes: &HashMap<u32, u8>,
    dst: &mut HashMap<u32, String>,
) -> (r: Result<(), MappingError>)
    ensures
        r is Ok <==> forall|i: int|
            0 <= i < src@.len() ==> entry_valid(#[trigger] list_view(src@)[i]),
        r is Ok ==> texts_of(final(dst)@) == merged(
            texts_of(old(dst)@),
            list_view(src@),
            combining_classes@,
        ),
        r is Err ==> exists|n: int|
            0 <= n < src@.len() && !entry_valid(#[trigger] list_view(src@)[n]) && texts_of(
                final(dst)@,
            ) == merged(texts_of(old(dst)@), list_view(src@).take(n), combining_classes@),
{
    let ghost ev = list_view(src@);
    let ghost start = texts_of(dst@);
    let mut i: usize = 0;
    proof {
        assert(ev.take(0) =~= Seq::empty());
    }
    while i < src.len()
        invariant
            i <= src@.len(),
            ev == list_view(src@),
            start == texts_of(old(dst)@),
            forall|k: int| 0 <= k < i ==> entry_valid(#[trigger] ev[k]),
            texts_of(dst@) == merged(start, ev.take(i as int), combining_classes@),
        decreases src@.len() - i,
    {
        let ghost before = texts_of(dst@);
        proof {
            assert(ev.take(i + 1).drop_last() =~= ev.take(i as int));
            assert(ev.take(i + 1).last() == ev[i as int]);
        }
        let k: char = match char_from_u32(src[i].0) {
            Some(k) => k,
            None => {
                proof {
                    assert(!entry_valid(list_view(src@)[i as int]));
                    assert(start == texts_of(old(dst)@));
                }
                return Err(MappingError::InvalidCodepoint);
            },
        };
        if !is_diacritic(k) {
            let sorted = match sort_codepoints(&src[i].1, combining_classes) {
                Some(s) => s,
                None => {
                    proof {
                        assert(ev[i as int].1 == src@[i as int].1@);
                        assert(!entry_valid(list_view(src@)[i as int]));
                    }
                    return Err(MappingError::InvalidCodepoint);
                },
            };
            if let Some(chars) = filter_diacritics(&sorted) {
                let text: String = codepoints_to_utf8(&chars);
                dst.insert(src[i].0, text);
                proof {
                    assert(texts_of(dst@) =~= before.insert(src@[i as int].0, text@));
                }
            }
        }
        i = i + 1;
    }
    proof {
        assert(ev.take(i as int) =~= ev);
    }
    Ok(())
}

/// Pairs with their texts as sequences.
pub open spec fn pairs_view(v: Seq<(char, String)>) -> Seq<(char, Seq<char>)> {
    Seq::new(v.len(), |i: int| (v[i].0, v[i].1@))
}

/// The pairs of a mapping for the scalar values below `n`, ascending.
pub open spec fn pairs_below(n: nat, texts: Map<u32, Seq<char>>) -> Seq<(char, Seq<char>)>
    decreases n,
{
    if n == 0 {
        Seq::empty()
    } else {
        let cp = (n - 1) as u32;
        if texts.contains_key(cp) && is_scalar(cp) {
            pairs_below((n - 1) as nat, texts).push((cp as char, texts[cp]))
        } else {
            pairs_below((n - 1) as nat, texts)
        }
    }
}

/// Lists a mapping as pairs with ascending keys, for the keys up to `last`.
pub fn mapping_pairs(mapping: &HashMap<u32, String>, last: u32) -> (r: Vec<(char, String)>)
    ensures
        pairs_view(r@) == pairs_below(last as nat + 1, texts_of(mapping@)),
        ascending(r@),
{
    let ghost texts = texts_of(mapping@);
    let mut out: Vec<(char, String)> = Vec::new();
    let end: u64 = last as u64 + 1;
    let mut n: u64 = 0;
    proof {
        assert(pairs_view(out@) =~= pairs_below(0, texts));
    }
    while n < end
        invariant
            n <= end,
            end == last as nat + 1,
            texts == texts_of(mapping@),
            pairs_view(out@) == pairs_below(n as nat, texts),
            ascending(out@),
            forall|i: int| 0 <= i < out@.len() ==> ((#[trigger] out@[i]).0 as u32) < n,
        decreases end - n,
    {
        let cp: u32 = n as u32;
        let ghost before = out@;
        if let Some(text) = mapping.get(&cp) {
            if let Some(ch) = char_from_u32(cp) {
                out.push((ch, text.clone()));
                proof {
                    assert(pairs_view(out@) =~= pairs_view(before).push((ch, text@)));
                }
            }
        }
        n = n + 1;
    }
    out
}

} // verus!
