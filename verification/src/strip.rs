//! The stripping transform on characters and strings.

use crate::is_diacritic::{is_diacritic, is_mark};
use crate::mapping::push_char;
use crate::phf::CharMap;
use vstd::prelude::*;
use vstd::std_specs::iter::IteratorSpec;
use vstd::string::*;

verus! {

broadcast use vstd::string::group_string_axioms;

/// What a character is replaced by under `table`: the empty text for a
/// combining diacritical mark, the stored text for a character that a lookup
/// finds, and nothing for every other character.
pub open spec fn replacement(table: &CharMap<String>, c: char) -> Option<Seq<char>> {
    if is_mark(c) {
        Some(Seq::empty())
    } else {
        match table.spec_find(c) {
            Some(i) => Some(table.entries@[i].1@),
            None => None,
        }
    }
}

/// The text that stands for `c` in the output.
pub open spec fn piece(table: &CharMap<String>, c: char) -> Seq<char> {
    match replacement(table, c) {
        Some(t) => t,
        None => seq![c],
    }
}

/// The stripped text: the pieces of the characters of `s`, in order.
pub open spec fn stripped(table: &CharMap<String>, s: Seq<char>) -> Seq<char>
    decreases s.len(),
{
    if s.len() == 0 {
        Seq::empty()
    } else {
        stripped(table, s.drop_last()) + piece(table, s.last())
    }
}

/// Whether no character of `s` has a replacement.
pub open spec fn untouched(table: &CharMap<String>, s: Seq<char>) -> bool {
    forall|i: int| 0 <= i < s.len() ==> (#[trigger] replacement(table, s[i])).is_none()
}

/// The result of stripping a string: the input itself where nothing had to be
/// replaced, a new string otherwise.
pub enum Stripped<'a> {
    /// The input, handed back as it came.
    Borrowed(&'a str),
    /// A newly built string.
    Owned(String),
}

impl<'a> Stripped<'a> {
    /// The text held.
    pub open spec fn view(&self) -> Seq<char> {
        match self {
            Stripped::Borrowed(s) => s@,
            Stripped::Owned(s) => s@,
        }
    }

    /// Whether this is the input handed back.
    pub fn is_borrowed(&self) -> (b: bool)
        ensures
            b == (self is Borrowed),
    {
        match self {
            Stripped::Borrowed(_) => true,
            Stripped::Owned(_) => false,
        }
    }

    /// The text as a string slice.
    pub fn as_str(&self) -> (s: &str)
        ensures
            s@ == self@,
    {
        match self {
            Stripped::Borrowed(s) => s,
            Stripped::Owned(s) => s.as_str(),
        }
    }

    /// The text as an owned string.
    pub fn into_owned(self) -> (s: String)
        ensures
            s@ == self@,
    {
        match self {
            Stripped::Borrowed(s) => String::from_str(s),
            Stripped::Owned(s) => s,
        }
    }
}

/// Text without a replaceable character is its own stripped form.
pub proof fn lemma_untouched_is_fixed(table: &CharMap<String>, s: Seq<char>)
    requires
        untouched(table, s),
    ensures
        stripped(table, s) == s,
    decreases s.len(),
{
    if s.len() > 0 {
        assert(replacement(table, s[s.len() - 1]).is_none());
        assert forall|i: int| 0 <= i < s.drop_last().len() implies (#[trigger] replacement(
            table,
            s.drop_last()[i],
        )).is_none() by {
            assert(s.drop_last()[i] == s[i]);
        }
        lemma_untouched_is_fixed(table, s.drop_last());
        assert(s.drop_last() + seq![s.last()] =~= s);
    } else {
        assert(s =~= Seq::empty());
    }
}

/// Stripping distributes over concatenation.
pub proof fn lemma_stripped_concat(table: &CharMap<String>, a: Seq<char>, b: Seq<char>)
    ensures
        stripped(table, a + b) == stripped(table, a) + stripped(table, b),
    decreases b.len(),
{
    if b.len() == 0 {
        assert(a + b =~= a);
        assert(stripped(table, a) + Seq::<char>::empty() =~= stripped(table, a));
    } else {
        assert((a + b).drop_last() =~= a + b.drop_last());
        assert((a + b).last() == b.last());
        lemma_stripped_concat(table, a, b.drop_last());
        assert((stripped(table, a) + stripped(table, b.drop_last())) + piece(table, b.last())
            =~= stripped(table, a) + (stripped(table, b.drop_last()) + piece(table, b.last())));
    }
}

/// Stripping a text of the one character `c` gives what the lookup of `c`
/// gives: its replacement where it has one, the character itself otherwise.
pub proof fn lemma_single_char(table: &CharMap<String>, c: char)
    ensures
        stripped(table, seq![c]) == piece(table, c),
        replacement(table, c) matches Some(t) ==> stripped(table, seq![c]) == t,
        replacement(table, c).is_none() ==> stripped(table, seq![c]) == seq![c],
{
    let s = seq![c];
    assert(s.drop_last() =~= Seq::<char>::empty());
    assert(s.last() == c);
    assert(stripped(table, s.drop_last()) =~= Seq::<char>::empty());
    assert(Seq::<char>::empty() + piece(table, c) =~= piece(table, c));
}

/// On a well-formed table the replacement of a character that is no mark is
/// the text that the table, taken as a map, holds for it.
pub proof fn lemma_replacement_is_view(table: &CharMap<String>, c: char)
    requires
        table.wf(),
    ensures
        is_mark(c) ==> replacement(table, c) == Some(Seq::<char>::empty()),
        !is_mark(c) && table@.contains_key(c) ==> replacement(table, c) == Some(table@[c]@),
        !is_mark(c) && !table@.contains_key(c) ==> replacement(table, c).is_none(),
{
    table.lemma_find_is_view(c);
}

/// Whether every replacement text of `table` is left as it is by stripping.
pub open spec fn replacements_fixed(table: &CharMap<String>) -> bool {
    forall|c: char| (#[trigger] replacement(table, c)).is_some() ==> stripped(
        table,
        replacement(table, c).unwrap(),
    ) == replacement(table, c).unwrap()
}

/// Idempotence: on a table whose replacement texts hold nothing replaceable,
/// stripping a stripped text changes nothing.
pub proof fn lemma_strip_idempotent(table: &CharMap<String>, s: Seq<char>)
    requires
        replacements_fixed(table),
    ensures
        stripped(table, stripped(table, s)) == stripped(table, s),
    decreases s.len(),
{
    if s.len() > 0 {
        let c = s.last();
        lemma_strip_idempotent(table, s.drop_last());
        lemma_stripped_concat(table, stripped(table, s.drop_last()), piece(table, c));
        if replacement(table, c).is_none() {
            lemma_single_char(table, c);
        }
    }
}

/// Finds the first replaceable character of `s`. Returns the text before it,
/// its replacement and the text after it, or `None` where `s` has none.
pub fn next_diacritic<'a>(s: &'a str, table: &'a CharMap<String>) -> (r: Option<
    (&'a str, &'a str, &'a str),
>)
    ensures
        r.is_none() <==> untouched(table, s@),
        r matches Some((init, cont, rest)) ==> {
            &&& init@.len() < s@.len()
            &&& init@ == s@.take(init@.len() as int)
            &&& untouched(table, init@)
            &&& replacement(table, s@[init@.len() as int]) == Some(cont@)
            &&& rest@ == s@.skip(init@.len() as int + 1)
        },
{
    let n: usize = s.unicode_len();
    let mut it = s.chars();
    let mut i: usize = 0;
    loop
        invariant
            n == s@.len(),
            i <= s@.len(),
            it.remaining() == s@.skip(i as int),
            untouched(table, s@.take(i as int)),
        decreases s@.len() - i,
    {
        let ghost before = it;
        let c: char = match it.next() {
            Some(c) => c,
            None => {
                proof {
                    assert(s@.take(i as int) =~= s@);
                }
                return None;
            },
        };
        proof {
            assert(before.remaining().len() > 0);
            assert(c == s@[i as int]);
            assert(s@.skip(i as int).drop_first() =~= s@.skip(i + 1));
        }
        if let Some(t) = c.strip_diacritics(table) {
            let init: &str = s.substring_char(0, i);
            let rest: &str = s.substring_char(i + 1, n);
            proof {
                assert(init@ =~= s@.take(i as int));
                assert(rest@ =~= s@.skip(i + 1));
                assert(!untouched(table, s@)) by {
                    assert(replacement(table, s@[i as int]).is_some());
                }
            }
            return Some((init, t, rest));
        }
        proof {
            assert forall|j: int| 0 <= j < i + 1 implies (#[trigger] replacement(
                table,
                s@.take(i + 1)[j],
            )).is_none() by {
                if j < i {
                    assert(s@.take(i as int)[j] == s@[j]);
                }
            }
        }
        i = i + 1;
    }
}

/// The operations on a single character.
pub trait CharDiacriticExt {
    /// Tells whether the character is a combining diacritical mark.
    fn is_diacritic(&self) -> bool;

    /// The character's replacement under `table`, if it has one.
    fn strip_diacritics<'a>(&self, table: &'a CharMap<String>) -> Option<&'a str>;
}

/// The stripping transform on text.
pub trait StrDiacriticExt {
    /// Replaces every replaceable character by its replacement.
    fn strip_diacritics<'a>(&'a self, table: &CharMap<String>) -> Stripped<'a>;
}

impl CharDiacriticExt for char {
    fn is_diacritic(&self) -> (r: bool)
        ensures
            r == is_mark(*self),
    {
        is_diacritic(*self)
    }

    fn strip_diacritics<'a>(&self, table: &'a CharMap<String>) -> (r: Option<&'a str>)
        ensures
            match replacement(table, *self) {
                Some(t) => r.is_some() && r.unwrap()@ == t,
                None => r.is_none(),
            },
    {
        if is_diacritic(*self) {
            let e: &'static str = "";
            proof {
                reveal_strlit("");
                assert(e@ =~= Seq::<char>::empty());
            }
            return Some(e);
        }
        match table.get(*self) {
            Some(v) => Some(v.as_str()),
            None => None,
        }
    }
}

impl StrDiacriticExt for str {
    fn strip_diacritics<'a>(&'a self, table: &CharMap<String>) -> (r: Stripped<'a>)
        ensures
            r@ == stripped(table, self@),
            untouched(table, self@) <==> r is Borrowed,
            untouched(table, self@) ==> r == Stripped::Borrowed(self),
    {
        let (init, cont, rest) = match next_diacritic(self, table) {
            Some(found) => found,
            None => {
                proof {
                    lemma_untouched_is_fixed(table, self@);
                }
                return Stripped::Borrowed(self);
            },
        };
        let mut buf: String = String::new();
        buf.append(init);
        buf.append(cont);
        let mut it = rest.chars();
        let ghost mut k: int = 0;
        proof {
            lemma_split(table, self@, init@, cont@, rest@);
            assert(rest@.take(0) =~= Seq::<char>::empty());
            assert(buf@ =~= (init@ + cont@) + stripped(table, rest@.take(0)));
            assert(rest@.skip(0) =~= rest@);
        }
        loop
            invariant
                0 <= k <= rest@.len(),
                it.remaining() == rest@.skip(k),
                buf@ == (init@ + cont@) + stripped(table, rest@.take(k)),
                stripped(table, self@) == (init@ + cont@) + stripped(table, rest@),
                !untouched(table, self@),
            decreases rest@.len() - k,
        {
            let ghost before = buf@;
            let c: char = match it.next() {
                Some(c) => c,
                None => {
                    proof {
                        assert(rest@.take(k) =~= rest@);
                    }
                    return Stripped::Owned(buf);
                },
            };
            match c.strip_diacritics(table) {
                Some(t) => {
                    buf.append(t);
                },
                None => {
                    push_char(&mut buf, c);
                },
            }
            proof {
                assert(c == rest@[k]);
                assert(rest@.skip(k).drop_first() =~= rest@.skip(k + 1));
                assert(rest@.take(k + 1).drop_last() =~= rest@.take(k));
                assert(rest@.take(k + 1).last() == c);
                assert(buf@ =~= before + piece(table, c));
                assert(buf@ =~= (init@ + cont@) + (stripped(table, rest@.take(k)) + piece(
                    table,
                    c,
                )));
                k = k + 1;
            }
        }
    }
}

/// A text cut at its first replaceable character strips to the text before
/// it, the replacement, and the stripped remainder.
proof fn lemma_split(
    table: &CharMap<String>,
    s: Seq<char>,
    init: Seq<char>,
    cont: Seq<char>,
    rest: Seq<char>,
)
    requires
        init.len() < s.len(),
        init == s.take(init.len() as int),
        untouched(table, init),
        replacement(table, s[init.len() as int]) == Some(cont),
        rest == s.skip(init.len() as int + 1),
    ensures
        stripped(table, s) == (init + cont) + stripped(table, rest),
        !untouched(table, s),
{
    let c = s[init.len() as int];
    assert(s =~= (init + seq![c]) + rest);
    lemma_stripped_concat(table, init + seq![c], rest);
    lemma_stripped_concat(table, init, seq![c]);
    lemma_untouched_is_fixed(table, init);
    lemma_single_char(table, c);
}

} // verus!
