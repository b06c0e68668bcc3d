//! General categories of code points and their two-letter tags.

use vstd::prelude::*;

verus! {

/// The general category of a code point.
#[derive(Debug, Clone, Copy, PartialEq, Eq, Hash, Structural)]
pub enum Category {
    /// `Lu`: an uppercase letter.
    UpperCaseLetter,
    /// `Ll`: a lowercase letter.
    LowerCaseLetter,
    /// `Lt`: a titlecase letter.
    TitleCaseLetter,
    /// `Lm`: a modifier letter.
    ModifierLetter,
    /// `Lo`: another letter.
    OtherLetter,
    /// `Mn`: a nonspacing mark.
    NonspacingMark,
    /// `Mc`: a spacing mark.
    SpacingMark,
    /// `Me`: an enclosing mark.
    EnclosingMark,
    /// `Nd`: a decimal digit.
    DecimalNumber,
    /// `Nl`: a letterlike number.
    LetterNumber,
    /// `No`: another number.
    OtherNumber,
    /// `Pc`: a connector.
    ConnectorPunctuation,
    /// `Pd`: a dash.
    DashPunctuation,
    /// `Ps`: an opening bracket.
    OpenPunctuation,
    /// `Pe`: a closing bracket.
    ClosePunctuation,
    /// `Pi`: an initial quote.
    InitialPunctuation,
    /// `Pf`: a final quote.
    FinalPunctuation,
    /// `Po`: other punctuation.
    OtherPunctuation,
    /// `Sm`: a mathematical symbol.
    MathSymbol,
    /// `Sc`: a currency sign.
    CurrencySymbol,
    /// `Sk`: a modifier symbol.
    ModifierSymbol,
    /// `So`: another symbol.
    OtherSymbol,
    /// `Zs`: a space.
    SpaceSeparator,
    /// `Zl`: the line separator.
    LineSeparator,
    /// `Zp`: the paragraph separator.
    ParagraphSeparator,
    /// `Cc`: a control code.
    Control,
    /// `Cf`: a format control.
    Format,
    /// `Cs`: a surrogate.
    Surrogate,
    /// `Co`: a private-use code point.
    PrivateUse,
    /// `Cn`: an unassigned code point.
    Unassigned,
}

/// The tag is not one of the thirty two-letter tags.
#[derive(Debug, Clone, Copy, PartialEq, Eq, Structural)]
pub struct InvalidCategory;

impl Category {
    /// The two letters of the category's tag.
    pub open spec fn tag(self) -> (u8, u8) {
        match self {
            Category::UpperCaseLetter => (76u8, 117u8),
            Category::LowerCaseLetter => (76u8, 108u8),
            Category::TitleCaseLetter => (76u8, 116u8),
            Category::ModifierLetter => (76u8, 109u8),
            Category::OtherLetter => (76u8, 111u8),
            Category::NonspacingMark => (77u8, 110u8),
            Category::SpacingMark => (77u8, 99u8),
            Category::EnclosingMark => (77u8, 101u8),
            Category::DecimalNumber => (78u8, 100u8),
            Category::LetterNumber => (78u8, 108u8),
            Category::OtherNumber => (78u8, 111u8),
            Category::ConnectorPunctuation => (80u8, 99u8),
            Category::DashPunctuation => (80u8, 100u8),
            Category::OpenPunctuation => (80u8, 115u8),
            Category::ClosePunctuation => (80u8, 101u8),
            Category::InitialPunctuation => (80u8, 105u8),
            Category::FinalPunctuation => (80u8, 102u8),
            Category::OtherPunctuation => (80u8, 111u8),
            Category::MathSymbol => (83u8, 109u8),
            Category::CurrencySymbol => (83u8, 99u8),
            Category::ModifierSymbol => (83u8, 107u8),
            Category::OtherSymbol => (83u8, 111u8),
            Category::SpaceSeparator => (90u8, 115u8),
            Category::LineSeparator => (90u8, 108u8),
            Category::ParagraphSeparator => (90u8, 112u8),
            Category::Control => (67u8, 99u8),
            Category::Format => (67u8, 102u8),
            Category::Surrogate => (67u8, 115u8),
            Category::PrivateUse => (67u8, 111u8),
            Category::Unassigned => (67u8, 110u8),
        }
    }

    /// The category that `text` is the tag of, if it is the tag of one.
    pub open spec fn of_tag(text: Seq<u8>) -> Option<Category> {
        if exists|c: Category| text == seq![c.tag().0, c.tag().1] {
            Some(choose|c: Category| text == seq![c.tag().0, c.tag().1])
        } else {
            None
        }
    }

    /// Reads a two-letter tag. Only the thirty tags of single categories are
    /// read, in their usual spelling.
    pub fn from_str(text: &[u8]) -> (r: Result<Category, InvalidCategory>)
        ensures
            r matches Ok(c) ==> text@ == seq![c.tag().0, c.tag().1],
            r is Err ==> forall|c: Category| text@ != seq![c.tag().0, c.tag().1],
            r is Ok <==> Category::of_tag(text@).is_some(),
            r matches Ok(c) ==> Category::of_tag(text@) == Some(c),
    {
        if text.len() != 2 {
            proof {
                assert forall|c: Category| text@ != seq![c.tag().0, c.tag().1] by {
                    assert(seq![c.tag().0, c.tag().1].len() == 2);
                }
            }
            return Err(InvalidCategory);
        }
        let a: u8 = text[0];
        let b: u8 = text[1];
        let found: Option<Category> = if a == 76 && b == 117 {
            Some(Category::UpperCaseLetter)
        } else if a == 76 && b == 108 {
            Some(Category::LowerCaseLetter)
        } else if a == 76 && b == 116 {
            Some(Category::TitleCaseLetter)
        } else if a == 76 && b == 109 {
            Some(Category::ModifierLetter)
        } else if a == 76 && b == 111 {
            Some(Category::OtherLetter)
        } else if a == 77 && b == 110 {
            Some(Category::NonspacingMark)
        } else if a == 77 && b == 99 {
            Some(Category::SpacingMark)
        } else if a == 77 && b == 101 {
            Some(Category::EnclosingMark)
        } else if a == 78 && b == 100 {
            Some(Category::DecimalNumber)
        } else if a == 78 && b == 108 {
            Some(Category::LetterNumber)
        } else if a == 78 && b == 111 {
            Some(Category::OtherNumber)
        } else if a == 80 && b == 99 {
            Some(Category::ConnectorPunctuation)
        } else if a == 80 && b == 100 {
            Some(Category::DashPunctuation)
        } else if a == 80 && b == 115 {
            Some(Category::OpenPunctuation)
        } else if a == 80 && b == 101 {
            Some(Category::ClosePunctuation)
        } else if a == 80 && b == 105 {
            Some(Category::InitialPunctuation)
        } else if a == 80 && b == 102 {
            Some(Category::FinalPunctuation)
        } else if a == 80 && b == 111 {
            Some(Category::OtherPunctuation)
        } else if a == 83 && b == 109 {
            Some(Category::MathSymbol)
        } else if a == 83 && b == 99 {
            Some(Category::CurrencySymbol)
        } else if a == 83 && b == 107 {
            Some(Category::ModifierSymbol)
        } else if a == 83 && b == 111 {
            Some(Category::OtherSymbol)
        } else if a == 90 && b == 115 {
            Some(Category::SpaceSeparator)
        } else if a == 90 && b == 108 {
            Some(Category::LineSeparator)
        } else if a == 90 && b == 112 {
            Some(Category::ParagraphSeparator)
        } else if a == 67 && b == 99 {
            Some(Category::Control)
        } else if a == 67 && b == 102 {
            Some(Category::Format)
        } else if a == 67 && b == 115 {
            Some(Category::Surrogate)
        } else if a == 67 && b == 111 {
            Some(Category::PrivateUse)
        } else if a == 67 && b == 110 {
            Some(Category::Unassigned)
        } else {
            None
        };
        match found {
            Some(c) => {
                proof {
                    assert(text@ =~= seq![c.tag().0, c.tag().1]);
                    let d = choose|d: Category| text@ == seq![d.tag().0, d.tag().1];
                    assert(seq![d.tag().0, d.tag().1][0] == a);
                    assert(seq![d.tag().0, d.tag().1][1] == b);
                }
                Ok(c)
            },
            None => {
                proof {
                    assert forall|c: Category| text@ != seq![c.tag().0, c.tag().1] by {
                        assert(seq![c.tag().0, c.tag().1][0] == c.tag().0);
                        assert(seq![c.tag().0, c.tag().1][1] == c.tag().1);
                    }
                }
                Err(InvalidCategory)
            },
        }
    }

    /// Whether the category is a cased letter.
    pub fn is_cased_letter(&self) -> (r: bool)
        ensures
            r == (self is UpperCaseLetter || self is LowerCaseLetter || self is TitleCaseLetter),
    {
        matches!(self, Category::UpperCaseLetter | Category::LowerCaseLetter | Category::TitleCaseLetter)
    }

    /// Whether the category is a letter.
    pub fn is_letter(&self) -> (r: bool)
        ensures
            r == (self is UpperCaseLetter || self is LowerCaseLetter || self is TitleCaseLetter || self is ModifierLetter || self is OtherLetter),
    {
        matches!(self, Category::UpperCaseLetter | Category::LowerCaseLetter | Category::TitleCaseLetter | Category::ModifierLetter | Category::OtherLetter)
    }

    /// Whether the category is a mark.
    pub fn is_mark(&self) -> (r: bool)
        ensures
            r == (self is NonspacingMark || self is SpacingMark || self is EnclosingMark),
    {
        matches!(self, Category::NonspacingMark | Category::SpacingMark | Category::EnclosingMark)
    }

    /// Whether the category is a number.
    pub fn is_number(&self) -> (r: bool)
        ensures
            r == (self is DecimalNumber || self is LetterNumber || self is OtherNumber),
    {
        matches!(self, Category::DecimalNumber | Category::LetterNumber | Category::OtherNumber)
    }

    /// Whether the category is punctuation.
    pub fn is_punctuation(&self) -> (r: bool)
        ensures
            r == (self is ConnectorPunctuation || self is DashPunctuation || self is OpenPunctuation || self is ClosePunctuation || self is InitialPunctuation || self is FinalPunctuation || self is OtherPunctuation),
    {
        matches!(self, Category::ConnectorPunctuation | Category::DashPunctuation | Category::OpenPunctuation | Category::ClosePunctuation | Category::InitialPunctuation | Category::FinalPunctuation | Category::OtherPunctuation)
    }

    /// Whether the category is a symbol.
    pub fn is_symbol(&self) -> (r: bool)
        ensures
            r == (self is MathSymbol || self is CurrencySymbol || self is ModifierSymbol || self is OtherSymbol),
    {
        matches!(self, Category::MathSymbol | Category::CurrencySymbol | Category::ModifierSymbol | Category::OtherSymbol)
    }

    /// Whether the category is a separator.
    pub fn is_separator(&self) -> (r: bool)
        ensures
            r == (self is SpaceSeparator || self is LineSeparator || self is ParagraphSeparator),
    {
        matches!(self, Category::SpaceSeparator | Category::LineSeparator | Category::ParagraphSeparator)
    }

    /// Whether the category is none of the other major classes.
    pub fn is_other(&self) -> (r: bool)
        ensures
            r == (self is Control || self is Format || self is Surrogate || self is PrivateUse || self is Unassigned),
    {
        matches!(self, Category::Control | Category::Format | Category::Surrogate | Category::PrivateUse | Category::Unassigned)
    }
}

/// The letter that a major class is known by.
pub open spec fn major_letter(c: Category) -> u8 {
    c.tag().0
}

/// Every category belongs to exactly the major class that the first letter of
/// its tag names, and a cased letter is a letter.
pub proof fn lemma_major_classes(c: Category)
    ensures
        (c is UpperCaseLetter || c is LowerCaseLetter || c is TitleCaseLetter || c is ModifierLetter
            || c is OtherLetter) <==> major_letter(c) == 76,
        (c is NonspacingMark || c is SpacingMark || c is EnclosingMark) <==> major_letter(c) == 77,
        (c is DecimalNumber || c is LetterNumber || c is OtherNumber) <==> major_letter(c) == 78,
        (c is ConnectorPunctuation || c is DashPunctuation || c is OpenPunctuation
            || c is ClosePunctuation || c is InitialPunctuation || c is FinalPunctuation
            || c is OtherPunctuation) <==> major_letter(c) == 80,
        (c is MathSymbol || c is CurrencySymbol || c is ModifierSymbol || c is OtherSymbol)
            <==> major_letter(c) == 83,
        (c is SpaceSeparator || c is LineSeparator || c is ParagraphSeparator) <==> major_letter(c)
            == 90,
        (c is Control || c is Format || c is Surrogate || c is PrivateUse || c is Unassigned)
            <==> major_letter(c) == 67,
{
}

} // verus!
