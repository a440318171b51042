//! What the tables of keywords and operators hold: every keyword and
//! operator stands in its table, no two are written alike, a keyword is
//! written in small letters, and an operator in characters of which none
//! is a letter, a digit, an underscore or white space.
use super::scan::{is_digit, is_ident_part, is_ident_start, is_whitespace};
use super::tokens::{keywords, operators, Keyword, Operator, KEYWORD_COUNT, OPERATOR_COUNT};
use vstd::prelude::*;

verus! {

/// The place of a keyword in the table of keywords.
pub open spec fn keyword_index(x: Keyword) -> int {
    match x {
        Keyword::Abstract => 0,
        Keyword::Assert => 1,
        Keyword::Boolean => 2,
        Keyword::Break => 3,
        Keyword::Byte => 4,
        Keyword::Case => 5,
        Keyword::Catch => 6,
        Keyword::Char => 7,
        Keyword::Class => 8,
        Keyword::Const => 9,
        Keyword::Continue => 10,
        Keyword::Default => 11,
        Keyword::Double => 12,
        Keyword::Do => 13,
        Keyword::Else => 14,
        Keyword::Enum => 15,
        Keyword::Extends => 16,
        Keyword::False => 17,
        Keyword::Finally => 18,
        Keyword::Final => 19,
        Keyword::Float => 20,
        Keyword::For => 21,
        Keyword::Goto => 22,
        Keyword::If => 23,
        Keyword::Implements => 24,
        Keyword::Import => 25,
        Keyword::InstanceOf => 26,
        Keyword::Interface => 27,
        Keyword::Int => 28,
        Keyword::Long => 29,
        Keyword::Native => 30,
        Keyword::New => 31,
        Keyword::Null => 32,
        Keyword::Package => 33,
        Keyword::Private => 34,
        Keyword::Protected => 35,
        Keyword::Public => 36,
        Keyword::Return => 37,
        Keyword::Short => 38,
        Keyword::Static => 39,
        Keyword::StrictFp => 40,
        Keyword::Super => 41,
        Keyword::Switch => 42,
        Keyword::Synchronized => 43,
        Keyword::This => 44,
        Keyword::Throws => 45,
        Keyword::Throw => 46,
        Keyword::Transient => 47,
        Keyword::True => 48,
        Keyword::Try => 49,
        Keyword::Void => 50,
        Keyword::Volatile => 51,
        Keyword::While => 52,
    }
}

/// The place of an operator in the table of operators.
pub open spec fn operator_index(x: Operator) -> int {
    match x {
        Operator::ExclaimEqual => 0,
        Operator::Exclaim => 1,
        Operator::LeftParen => 2,
        Operator::RightParen => 3,
        Operator::StarEqual => 4,
        Operator::Star => 5,
        Operator::DoublePlus => 6,
        Operator::PlusEqual => 7,
        Operator::Plus => 8,
        Operator::Comma => 9,
        Operator::MinusEqual => 10,
        Operator::DoubleMinus => 11,
        Operator::Minus => 12,
        Operator::Dot => 13,
        Operator::SlashEqual => 14,
        Operator::Slash => 15,
        Operator::Colon => 16,
        Operator::Semicolon => 17,
        Operator::DoubleLeftChevronEqual => 18,
        Operator::DoubleLeftChevron => 19,
        Operator::LeftChevronEqual => 20,
        Operator::LeftChevron => 21,
        Operator::DoubleEqual => 22,
        Operator::Equal => 23,
        Operator::RightChevronEqual => 24,
        Operator::DoubleRightChevronEqual => 25,
        Operator::TripleRightChevronEqual => 26,
        Operator::TripleRightChevron => 27,
        Operator::DoubleRightChevron => 28,
        Operator::RightChevron => 29,
        Operator::QuestionMark => 30,
        Operator::PercentEqual => 31,
        Operator::Percent => 32,
        Operator::AmpersandEqual => 33,
        Operator::DoubleAmpersand => 34,
        Operator::Ampersand => 35,
        Operator::LeftBracket => 36,
        Operator::RightBracket => 37,
        Operator::CaretEqual => 38,
        Operator::Caret => 39,
        Operator::LeftBrace => 40,
        Operator::RightBrace => 41,
        Operator::Tilde => 42,
        Operator::PipeEqual => 43,
        Operator::DoublePipe => 44,
        Operator::Pipe => 45,
    }
}

/// The keyword of a given length that has given letters at the places
/// in which the keywords of that length differ.
pub open spec fn keyword_by_marks(s: Seq<u8>) -> Option<Keyword> {
    if s.len() == 2 {
        if s[0] == 100 {
            Some(Keyword::Do)
        } else if s[0] == 105 {
            Some(Keyword::If)
        } else {
            None
        }
    } else if s.len() == 3 {
        if s[0] == 102 {
            Some(Keyword::For)
        } else if s[0] == 105 {
            Some(Keyword::Int)
        } else if s[0] == 110 {
            Some(Keyword::New)
        } else if s[0] == 116 {
            Some(Keyword::Try)
        } else {
            None
        }
    } else if s.len() == 4 {
        if s[0] == 98 && s[1] == 121 {
            Some(Keyword::Byte)
        } else if s[0] == 99 && s[1] == 97 {
            Some(Keyword::Case)
        } else if s[0] == 99 && s[1] == 104 {
            Some(Keyword::Char)
        } else if s[0] == 101 && s[1] == 108 {
            Some(Keyword::Else)
        } else if s[0] == 101 && s[1] == 110 {
            Some(Keyword::Enum)
        } else if s[0] == 103 && s[1] == 111 {
            Some(Keyword::Goto)
        } else if s[0] == 108 && s[1] == 111 {
            Some(Keyword::Long)
        } else if s[0] == 110 && s[1] == 117 {
            Some(Keyword::Null)
        } else if s[0] == 116 && s[1] == 104 {
            Some(Keyword::This)
        } else if s[0] == 116 && s[1] == 114 {
            Some(Keyword::True)
        } else if s[0] == 118 && s[1] == 111 {
            Some(Keyword::Void)
        } else {
            None
        }
    } else if s.len() == 5 {
        if s[0] == 98 && s[1] == 114 {
            Some(Keyword::Break)
        } else if s[0] == 99 && s[1] == 97 {
            Some(Keyword::Catch)
        } else if s[0] == 99 && s[1] == 108 {
            Some(Keyword::Class)
        } else if s[0] == 99 && s[1] == 111 {
            Some(Keyword::Const)
        } else if s[0] == 102 && s[1] == 97 {
            Some(Keyword::False)
        } else if s[0] == 102 && s[1] == 105 {
            Some(Keyword::Final)
        } else if s[0] == 102 && s[1] == 108 {
            Some(Keyword::Float)
        } else if s[0] == 115 && s[1] == 104 {
            Some(Keyword::Short)
        } else if s[0] == 115 && s[1] == 117 {
            Some(Keyword::Super)
        } else if s[0] == 116 && s[1] == 104 {
            Some(Keyword::Throw)
        } else if s[0] == 119 && s[1] == 104 {
            Some(Keyword::While)
        } else {
            None
        }
    } else if s.len() == 6 {
        if s[1] == 115 {
            Some(Keyword::Assert)
        } else if s[1] == 111 {
            Some(Keyword::Double)
        } else if s[1] == 109 {
            Some(Keyword::Import)
        } else if s[1] == 97 {
            Some(Keyword::Native)
        } else if s[1] == 117 {
            Some(Keyword::Public)
        } else if s[1] == 101 {
            Some(Keyword::Return)
        } else if s[1] == 116 {
            Some(Keyword::Static)
        } else if s[1] == 119 {
            Some(Keyword::Switch)
        } else if s[1] == 104 {
            Some(Keyword::Throws)
        } else {
            None
        }
    } else if s.len() == 7 {
        if s[1] == 111 {
            Some(Keyword::Boolean)
        } else if s[1] == 101 {
            Some(Keyword::Default)
        } else if s[1] == 120 {
            Some(Keyword::Extends)
        } else if s[1] == 105 {
            Some(Keyword::Finally)
        } else if s[1] == 97 {
            Some(Keyword::Package)
        } else if s[1] == 114 {
            Some(Keyword::Private)
        } else {
            None
        }
    } else if s.len() == 8 {
        if s[0] == 97 {
            Some(Keyword::Abstract)
        } else if s[0] == 99 {
            Some(Keyword::Continue)
        } else if s[0] == 115 {
            Some(Keyword::StrictFp)
        } else if s[0] == 118 {
            Some(Keyword::Volatile)
        } else {
            None
        }
    } else if s.len() == 9 {
        if s[0] == 105 {
            Some(Keyword::Interface)
        } else if s[0] == 112 {
            Some(Keyword::Protected)
        } else if s[0] == 116 {
            Some(Keyword::Transient)
        } else {
            None
        }
    } else if s.len() == 10 {
        if s[1] == 109 {
            Some(Keyword::Implements)
        } else if s[1] == 110 {
            Some(Keyword::InstanceOf)
        } else {
            None
        }
    } else if s.len() == 12 {
        if true {
            Some(Keyword::Synchronized)
        } else {
            None
        }
    } else {
        None
    }
}

/// The operator of a given length that has given characters at the
/// places in which the operators of that length differ.
pub open spec fn operator_by_marks(s: Seq<u8>) -> Option<Operator> {
    if s.len() == 1 {
        if s[0] == 33 {
            Some(Operator::Exclaim)
        } else if s[0] == 40 {
            Some(Operator::LeftParen)
        } else if s[0] == 41 {
            Some(Operator::RightParen)
        } else if s[0] == 42 {
            Some(Operator::Star)
        } else if s[0] == 43 {
            Some(Operator::Plus)
        } else if s[0] == 44 {
            Some(Operator::Comma)
        } else if s[0] == 45 {
            Some(Operator::Minus)
        } else if s[0] == 46 {
            Some(Operator::Dot)
        } else if s[0] == 47 {
            Some(Operator::Slash)
        } else if s[0] == 58 {
            Some(Operator::Colon)
        } else if s[0] == 59 {
            Some(Operator::Semicolon)
        } else if s[0] == 60 {
            Some(Operator::LeftChevron)
        } else if s[0] == 61 {
            Some(Operator::Equal)
        } else if s[0] == 62 {
            Some(Operator::RightChevron)
        } else if s[0] == 63 {
            Some(Operator::QuestionMark)
        } else if s[0] == 37 {
            Some(Operator::Percent)
        } else if s[0] == 38 {
            Some(Operator::Ampersand)
        } else if s[0] == 91 {
            Some(Operator::LeftBracket)
        } else if s[0] == 93 {
            Some(Operator::RightBracket)
        } else if s[0] == 94 {
            Some(Operator::Caret)
        } else if s[0] == 123 {
            Some(Operator::LeftBrace)
        } else if s[0] == 125 {
            Some(Operator::RightBrace)
        } else if s[0] == 126 {
            Some(Operator::Tilde)
        } else if s[0] == 124 {
            Some(Operator::Pipe)
        } else {
            None
        }
    } else if s.len() == 2 {
        if s[0] == 33 && s[1] == 61 {
            Some(Operator::ExclaimEqual)
        } else if s[0] == 42 && s[1] == 61 {
            Some(Operator::StarEqual)
        } else if s[0] == 43 && s[1] == 43 {
            Some(Operator::DoublePlus)
        } else if s[0] == 43 && s[1] == 61 {
            Some(Operator::PlusEqual)
        } else if s[0] == 45 && s[1] == 61 {
            Some(Operator::MinusEqual)
        } else if s[0] == 45 && s[1] == 45 {
            Some(Operator::DoubleMinus)
        } else if s[0] == 47 && s[1] == 61 {
            Some(Operator::SlashEqual)
        } else if s[0] == 60 && s[1] == 60 {
            Some(Operator::DoubleLeftChevron)
        } else if s[0] == 60 && s[1] == 61 {
            Some(Operator::LeftChevronEqual)
        } else if s[0] == 61 && s[1] == 61 {
            Some(Operator::DoubleEqual)
        } else if s[0] == 62 && s[1] == 61 {
            Some(Operator::RightChevronEqual)
        } else if s[0] == 62 && s[1] == 62 {
            Some(Operator::DoubleRightChevron)
        } else if s[0] == 37 && s[1] == 61 {
            Some(Operator::PercentEqual)
        } else if s[0] == 38 && s[1] == 61 {
            Some(Operator::AmpersandEqual)
        } else if s[0] == 38 && s[1] == 38 {
            Some(Operator::DoubleAmpersand)
        } else if s[0] == 94 && s[1] == 61 {
            Some(Operator::CaretEqual)
        } else if s[0] == 124 && s[1] == 61 {
            Some(Operator::PipeEqual)
        } else if s[0] == 124 && s[1] == 124 {
            Some(Operator::DoublePipe)
        } else {
            None
        }
    } else if s.len() == 3 {
        if s[0] == 60 && s[2] == 61 {
            Some(Operator::DoubleLeftChevronEqual)
        } else if s[0] == 62 && s[2] == 61 {
            Some(Operator::DoubleRightChevronEqual)
        } else if s[0] == 62 && s[2] == 62 {
            Some(Operator::TripleRightChevron)
        } else {
            None
        }
    } else if s.len() == 4 {
        if true {
            Some(Operator::TripleRightChevronEqual)
        } else {
            None
        }
    } else {
        None
    }
}

/// Every keyword stands in the table of keywords.
pub proof fn lemma_keyword_index(k: Keyword)
    ensures
        0 <= keyword_index(k) < KEYWORD_COUNT,
        keywords()[keyword_index(k)] == k,
{
}

/// Every operator stands in the table of operators.
pub proof fn lemma_operator_index(o: Operator)
    ensures
        0 <= operator_index(o) < OPERATOR_COUNT,
        operators()[operator_index(o)] == o,
{
}

/// A keyword is told by its length and its marks.
pub proof fn lemma_keyword_marks(k: Keyword)
    ensures
        keyword_by_marks(k.spec_spelling()) == Some(k),
{
}

/// An operator is told by its length and its marks.
pub proof fn lemma_operator_marks(o: Operator)
    ensures
        operator_by_marks(o.spec_spelling()) == Some(o),
{
}

/// No two keywords are written alike.
pub proof fn lemma_keywords_differ(a: Keyword, b: Keyword)
    requires
        a.spec_spelling() == b.spec_spelling(),
    ensures
        a == b,
{
    lemma_keyword_marks(a);
    lemma_keyword_marks(b);
}

/// No two operators are written alike.
pub proof fn lemma_operators_differ(a: Operator, b: Operator)
    requires
        a.spec_spelling() == b.spec_spelling(),
    ensures
        a == b,
{
    lemma_operator_marks(a);
    lemma_operator_marks(b);
}

/// A keyword is written in small letters, of which there is at least
/// one.
pub proof fn lemma_keyword_letters(k: Keyword)
    ensures
        k.spec_spelling().len() > 0,
        forall|i: int|
            0 <= i < k.spec_spelling().len() ==> 97 <= #[trigger] k.spec_spelling()[i] <= 122,
{
}

/// The characters with which operators are written.
pub open spec fn is_operator_char(b: u8) -> bool {
    !is_ident_part(b) && !is_whitespace(b) && 33 <= b <= 126
}

/// An operator is written in one to four characters, of which none is
/// a letter, a digit, an underscore or white space; and none starts as
/// a comment does.
pub proof fn lemma_operator_chars(o: Operator)
    ensures
        1 <= o.spec_spelling().len() <= 4,
        forall|i: int|
            0 <= i < o.spec_spelling().len() ==> is_operator_char(#[trigger] o.spec_spelling()[i]),
        o.spec_spelling().len() >= 2 ==> !(o.spec_spelling()[0] == 47 && o.spec_spelling()[1]
            == 42),
{
}

} // verus!
