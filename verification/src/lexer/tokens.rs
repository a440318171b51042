//! The keywords and operators of MiniJava with their spellings.
use vstd::prelude::*;

verus! {

/// The reserved words. MiniJava reserves all keywords of Java.
#[derive(Debug, Copy, Clone, PartialEq, Eq, Structural, Hash)]
pub enum Keyword {
    Abstract,
    Assert,
    Boolean,
    Break,
    Byte,
    Case,
    Catch,
    Char,
    Class,
    Const,
    Continue,
    Default,
    Double,
    Do,
    Else,
    Enum,
    Extends,
    False,
    Finally,
    Final,
    Float,
    For,
    Goto,
    If,
    Implements,
    Import,
    InstanceOf,
    Interface,
    Int,
    Long,
    Native,
    New,
    Null,
    Package,
    Private,
    Protected,
    Public,
    Return,
    Short,
    Static,
    StrictFp,
    Super,
    Switch,
    Synchronized,
    This,
    Throws,
    Throw,
    Transient,
    True,
    Try,
    Void,
    Volatile,
    While,
}

/// The operators and separators.
#[derive(Debug, Copy, Clone, PartialEq, Eq, Structural, Hash)]
pub enum Operator {
    ExclaimEqual,
    Exclaim,
    LeftParen,
    RightParen,
    StarEqual,
    Star,
    DoublePlus,
    PlusEqual,
    Plus,
    Comma,
    MinusEqual,
    DoubleMinus,
    Minus,
    Dot,
    SlashEqual,
    Slash,
    Colon,
    Semicolon,
    DoubleLeftChevronEqual,
    DoubleLeftChevron,
    LeftChevronEqual,
    LeftChevron,
    DoubleEqual,
    Equal,
    RightChevronEqual,
    DoubleRightChevronEqual,
    TripleRightChevronEqual,
    TripleRightChevron,
    DoubleRightChevron,
    RightChevron,
    QuestionMark,
    PercentEqual,
    Percent,
    AmpersandEqual,
    DoubleAmpersand,
    Ampersand,
    LeftBracket,
    RightBracket,
    CaretEqual,
    Caret,
    LeftBrace,
    RightBrace,
    Tilde,
    PipeEqual,
    DoublePipe,
    Pipe,
}

/// How many keywords there are.
pub const KEYWORD_COUNT: usize = 53;

/// How many operators there are.
pub const OPERATOR_COUNT: usize = 46;

/// All keywords, in the order of their declaration.
pub open spec fn keywords() -> Seq<Keyword> {
    seq![
        Keyword::Abstract,
        Keyword::Assert,
        Keyword::Boolean,
        Keyword::Break,
        Keyword::Byte,
        Keyword::Case,
        Keyword::Catch,
        Keyword::Char,
        Keyword::Class,
        Keyword::Const,
        Keyword::Continue,
        Keyword::Default,
        Keyword::Double,
        Keyword::Do,
        Keyword::Else,
        Keyword::Enum,
        Keyword::Extends,
        Keyword::False,
        Keyword::Finally,
        Keyword::Final,
        Keyword::Float,
        Keyword::For,
        Keyword::Goto,
        Keyword::If,
        Keyword::Implements,
        Keyword::Import,
        Keyword::InstanceOf,
        Keyword::Interface,
        Keyword::Int,
        Keyword::Long,
        Keyword::Native,
        Keyword::New,
        Keyword::Null,
        Keyword::Package,
        Keyword::Private,
        Keyword::Protected,
        Keyword::Public,
        Keyword::Return,
        Keyword::Short,
        Keyword::Static,
        Keyword::StrictFp,
        Keyword::Super,
        Keyword::Switch,
        Keyword::Synchronized,
        Keyword::This,
        Keyword::Throws,
        Keyword::Throw,
        Keyword::Transient,
        Keyword::True,
        Keyword::Try,
        Keyword::Void,
        Keyword::Volatile,
        Keyword::While,
    ]
}

/// All operators, in the order of their declaration.
pub open spec fn operators() -> Seq<Operator> {
    seq![
        Operator::ExclaimEqual,
        Operator::Exclaim,
        Operator::LeftParen,
        Operator::RightParen,
        Operator::StarEqual,
        Operator::Star,
        Operator::DoublePlus,
        Operator::PlusEqual,
        Operator::Plus,
        Operator::Comma,
        Operator::MinusEqual,
        Operator::DoubleMinus,
        Operator::Minus,
        Operator::Dot,
        Operator::SlashEqual,
        Operator::Slash,
        Operator::Colon,
        Operator::Semicolon,
        Operator::DoubleLeftChevronEqual,
        Operator::DoubleLeftChevron,
        Operator::LeftChevronEqual,
        Operator::LeftChevron,
        Operator::DoubleEqual,
        Operator::Equal,
        Operator::RightChevronEqual,
        Operator::DoubleRightChevronEqual,
        Operator::TripleRightChevronEqual,
        Operator::TripleRightChevron,
        Operator::DoubleRightChevron,
        Operator::RightChevron,
        Operator::QuestionMark,
        Operator::PercentEqual,
        Operator::Percent,
        Operator::AmpersandEqual,
        Operator::DoubleAmpersand,
        Operator::Ampersand,
        Operator::LeftBracket,
        Operator::RightBracket,
        Operator::CaretEqual,
        Operator::Caret,
        Operator::LeftBrace,
        Operator::RightBrace,
        Operator::Tilde,
        Operator::PipeEqual,
        Operator::DoublePipe,
        Operator::Pipe,
    ]
}

impl Keyword {
    /// How the keyword is written.
    pub open spec fn spec_spelling(self) -> Seq<u8> {
        match self {
            Keyword::Abstract => seq![97u8, 98u8, 115u8, 116u8, 114u8, 97u8, 99u8, 116u8],
            Keyword::Assert => seq![97u8, 115u8, 115u8, 101u8, 114u8, 116u8],
            Keyword::Boolean => seq![98u8, 111u8, 111u8, 108u8, 101u8, 97u8, 110u8],
            Keyword::Break => seq![98u8, 114u8, 101u8, 97u8, 107u8],
            Keyword::Byte => seq![98u8, 121u8, 116u8, 101u8],
            Keyword::Case => seq![99u8, 97u8, 115u8, 101u8],
            Keyword::Catch => seq![99u8, 97u8, 116u8, 99u8, 104u8],
            Keyword::Char => seq![99u8, 104u8, 97u8, 114u8],
            Keyword::Class => seq![99u8, 108u8, 97u8, 115u8, 115u8],
            Keyword::Const => seq![99u8, 111u8, 110u8, 115u8, 116u8],
            Keyword::Continue => seq![99u8, 111u8, 110u8, 116u8, 105u8, 110u8, 117u8, 101u8],
            Keyword::Default => seq![100u8, 101u8, 102u8, 97u8, 117u8, 108u8, 116u8],
            Keyword::Double => seq![100u8, 111u8, 117u8, 98u8, 108u8, 101u8],
            Keyword::Do => seq![100u8, 111u8],
            Keyword::Else => seq![101u8, 108u8, 115u8, 101u8],
            Keyword::Enum => seq![101u8, 110u8, 117u8, 109u8],
            Keyword::Extends => seq![101u8, 120u8, 116u8, 101u8, 110u8, 100u8, 115u8],
            Keyword::False => seq![102u8, 97u8, 108u8, 115u8, 101u8],
            Keyword::Finally => seq![102u8, 105u8, 110u8, 97u8, 108u8, 108u8, 121u8],
            Keyword::Final => seq![102u8, 105u8, 110u8, 97u8, 108u8],
            Keyword::Float => seq![102u8, 108u8, 111u8, 97u8, 116u8],
            Keyword::For => seq![102u8, 111u8, 114u8],
            Keyword::Goto => seq![103u8, 111u8, 116u8, 111u8],
            Keyword::If => seq![105u8, 102u8],
            Keyword::Implements => seq![105u8, 109u8, 112u8, 108u8, 101u8, 109u8, 101u8, 110u8, 116u8, 115u8],
            Keyword::Import => seq![105u8, 109u8, 112u8, 111u8, 114u8, 116u8],
            Keyword::InstanceOf => seq![105u8, 110u8, 115u8, 116u8, 97u8, 110u8, 99u8, 101u8, 111u8, 102u8],
            Keyword::Interface => seq![105u8, 110u8, 116u8, 101u8, 114u8, 102u8, 97u8, 99u8, 101u8],
            Keyword::Int => seq![105u8, 110u8, 116u8],
            Keyword::Long => seq![108u8, 111u8, 110u8, 103u8],
            Keyword::Native => seq![110u8, 97u8, 116u8, 105u8, 118u8, 101u8],
            Keyword::New => seq![110u8, 101u8, 119u8],
            Keyword::Null => seq![110u8, 117u8, 108u8, 108u8],
            Keyword::Package => seq![112u8, 97u8, 99u8, 107u8, 97u8, 103u8, 101u8],
            Keyword::Private => seq![112u8, 114u8, 105u8, 118u8, 97u8, 116u8, 101u8],
            Keyword::Protected => seq![112u8, 114u8, 111u8, 116u8, 101u8, 99u8, 116u8, 101u8, 100u8],
            Keyword::Public => seq![112u8, 117u8, 98u8, 108u8, 105u8, 99u8],
            Keyword::Return => seq![114u8, 101u8, 116u8, 117u8, 114u8, 110u8],
            Keyword::Short => seq![115u8, 104u8, 111u8, 114u8, 116u8],
            Keyword::Static => seq![115u8, 116u8, 97u8, 116u8, 105u8, 99u8],
            Keyword::StrictFp => seq![115u8, 116u8, 114u8, 105u8, 99u8, 116u8, 102u8, 112u8],
            Keyword::Super => seq![115u8, 117u8, 112u8, 101u8, 114u8],
            Keyword::Switch => seq![115u8, 119u8, 105u8, 116u8, 99u8, 104u8],
            Keyword::Synchronized => seq![115u8, 121u8, 110u8, 99u8, 104u8, 114u8, 111u8, 110u8, 105u8, 122u8, 101u8, 100u8],
            Keyword::This => seq![116u8, 104u8, 105u8, 115u8],
            Keyword::Throws => seq![116u8, 104u8, 114u8, 111u8, 119u8, 115u8],
            Keyword::Throw => seq![116u8, 104u8, 114u8, 111u8, 119u8],
            Keyword::Transient => seq![116u8, 114u8, 97u8, 110u8, 115u8, 105u8, 101u8, 110u8, 116u8],
            Keyword::True => seq![116u8, 114u8, 117u8, 101u8],
            Keyword::Try => seq![116u8, 114u8, 121u8],
            Keyword::Void => seq![118u8, 111u8, 105u8, 100u8],
            Keyword::Volatile => seq![118u8, 111u8, 108u8, 97u8, 116u8, 105u8, 108u8, 101u8],
            Keyword::While => seq![119u8, 104u8, 105u8, 108u8, 101u8],
        }
    }

    /// How the keyword is written.
    pub fn spelling(self) -> (s: &'static [u8])
        ensures
            s@ == self.spec_spelling(),
    {
        match self {
            Keyword::Abstract => {
                let s: &'static [u8; 8] = &[97, 98, 115, 116, 114, 97, 99, 116];
                s.as_slice()
            },
            Keyword::Assert => {
                let s: &'static [u8; 6] = &[97, 115, 115, 101, 114, 116];
                s.as_slice()
            },
            Keyword::Boolean => {
                let s: &'static [u8; 7] = &[98, 111, 111, 108, 101, 97, 110];
                s.as_slice()
            },
            Keyword::Break => {
                let s: &'static [u8; 5] = &[98, 114, 101, 97, 107];
                s.as_slice()
            },
            Keyword::Byte => {
                let s: &'static [u8; 4] = &[98, 121, 116, 101];
                s.as_slice()
            },
            Keyword::Case => {
                let s: &'static [u8; 4] = &[99, 97, 115, 101];
                s.as_slice()
            },
            Keyword::Catch => {
                let s: &'static [u8; 5] = &[99, 97, 116, 99, 104];
                s.as_slice()
            },
            Keyword::Char => {
                let s: &'static [u8; 4] = &[99, 104, 97, 114];
                s.as_slice()
            },
            Keyword::Class => {
                let s: &'static [u8; 5] = &[99, 108, 97, 115, 115];
                s.as_slice()
            },
            Keyword::Const => {
                let s: &'static [u8; 5] = &[99, 111, 110, 115, 116];
                s.as_slice()
            },
            Keyword::Continue => {
                let s: &'static [u8; 8] = &[99, 111, 110, 116, 105, 110, 117, 101];
                s.as_slice()
            },
            Keyword::Default => {
                let s: &'static [u8; 7] = &[100, 101, 102, 97, 117, 108, 116];
                s.as_slice()
            },
            Keyword::Double => {
                let s: &'static [u8; 6] = &[100, 111, 117, 98, 108, 101];
                s.as_slice()
            },
            Keyword::Do => {
                let s: &'static [u8; 2] = &[100, 111];
                s.as_slice()
            },
            Keyword::Else => {
                let s: &'static [u8; 4] = &[101, 108, 115, 101];
                s.as_slice()
            },
            Keyword::Enum => {
                let s: &'static [u8; 4] = &[101, 110, 117, 109];
                s.as_slice()
            },
            Keyword::Extends => {
                let s: &'static [u8; 7] = &[101, 120, 116, 101, 110, 100, 115];
                s.as_slice()
            },
            Keyword::False => {
                let s: &'static [u8; 5] = &[102, 97, 108, 115, 101];
                s.as_slice()
            },
            Keyword::Finally => {
                let s: &'static [u8; 7] = &[102, 105, 110, 97, 108, 108, 121];
                s.as_slice()
            },
            Keyword::Final => {
                let s: &'static [u8; 5] = &[102, 105, 110, 97, 108];
                s.as_slice()
            },
            Keyword::Float => {
                let s: &'static [u8; 5] = &[102, 108, 111, 97, 116];
                s.as_slice()
            },
            Keyword::For => {
                let s: &'static [u8; 3] = &[102, 111, 114];
                s.as_slice()
            },
            Keyword::Goto => {
                let s: &'static [u8; 4] = &[103, 111, 116, 111];
                s.as_slice()
            },
            Keyword::If => {
                let s: &'static [u8; 2] = &[105, 102];
                s.as_slice()
            },
            Keyword::Implements => {
                let s: &'static [u8; 10] = &[105, 109, 112, 108, 101, 109, 101, 110, 116, 115];
                s.as_slice()
            },
            Keyword::Import => {
                let s: &'static [u8; 6] = &[105, 109, 112, 111, 114, 116];
                s.as_slice()
            },
            Keyword::InstanceOf => {
                let s: &'static [u8; 10] = &[105, 110, 115, 116, 97, 110, 99, 101, 111, 102];
                s.as_slice()
            },
            Keyword::Interface => {
                let s: &'static [u8; 9] = &[105, 110, 116, 101, 114, 102, 97, 99, 101];
                s.as_slice()
            },
            Keyword::Int => {
                let s: &'static [u8; 3] = &[105, 110, 116];
                s.as_slice()
            },
            Keyword::Long => {
                let s: &'static [u8; 4] = &[108, 111, 110, 103];
                s.as_slice()
            },
            Keyword::Native => {
                let s: &'static [u8; 6] = &[110, 97, 116, 105, 118, 101];
                s.as_slice()
            },
            Keyword::New => {
                let s: &'static [u8; 3] = &[110, 101, 119];
                s.as_slice()
            },
            Keyword::Null => {
                let s: &'static [u8; 4] = &[110, 117, 108, 108];
                s.as_slice()
            },
            Keyword::Package => {
                let s: &'static [u8; 7] = &[112, 97, 99, 107, 97, 103, 101];
                s.as_slice()
            },
            Keyword::Private => {
                let s: &'static [u8; 7] = &[112, 114, 105, 118, 97, 116, 101];
                s.as_slice()
            },
            Keyword::Protected => {
                let s: &'static [u8; 9] = &[112, 114, 111, 116, 101, 99, 116, 101, 100];
                s.as_slice()
            },
            Keyword::Public => {
                let s: &'static [u8; 6] = &[112, 117, 98, 108, 105, 99];
                s.as_slice()
            },
            Keyword::Return => {
                let s: &'static [u8; 6] = &[114, 101, 116, 117, 114, 110];
                s.as_slice()
            },
            Keyword::Short => {
                let s: &'static [u8; 5] = &[115, 104, 111, 114, 116];
                s.as_slice()
            },
            Keyword::Static => {
                let s: &'static [u8; 6] = &[115, 116, 97, 116, 105, 99];
                s.as_slice()
            },
            Keyword::StrictFp => {
                let s: &'static [u8; 8] = &[115, 116, 114, 105, 99, 116, 102, 112];
                s.as_slice()
            },
            Keyword::Super => {
                let s: &'static [u8; 5] = &[115, 117, 112, 101, 114];
                s.as_slice()
            },
            Keyword::Switch => {
                let s: &'static [u8; 6] = &[115, 119, 105, 116, 99, 104];
                s.as_slice()
            },
            Keyword::Synchronized => {
                let s: &'static [u8; 12] = &[115, 121, 110, 99, 104, 114, 111, 110, 105, 122, 101, 100];
                s.as_slice()
            },
            Keyword::This => {
                let s: &'static [u8; 4] = &[116, 104, 105, 115];
                s.as_slice()
            },
            Keyword::Throws => {
                let s: &'static [u8; 6] = &[116, 104, 114, 111, 119, 115];
                s.as_slice()
            },
            Keyword::Throw => {
                let s: &'static [u8; 5] = &[116, 104, 114, 111, 119];
                s.as_slice()
            },
            Keyword::Transient => {
                let s: &'static [u8; 9] = &[116, 114, 97, 110, 115, 105, 101, 110, 116];
                s.as_slice()
            },
            Keyword::True => {
                let s: &'static [u8; 4] = &[116, 114, 117, 101];
                s.as_slice()
            },
            Keyword::Try => {
                let s: &'static [u8; 3] = &[116, 114, 121];
                s.as_slice()
            },
            Keyword::Void => {
                let s: &'static [u8; 4] = &[118, 111, 105, 100];
                s.as_slice()
            },
            Keyword::Volatile => {
                let s: &'static [u8; 8] = &[118, 111, 108, 97, 116, 105, 108, 101];
                s.as_slice()
            },
            Keyword::While => {
                let s: &'static [u8; 5] = &[119, 104, 105, 108, 101];
                s.as_slice()
            },
        }
    }

    /// Keyword number `i`.
    pub fn nth(i: usize) -> (k: Keyword)
        requires
            i < KEYWORD_COUNT,
        ensures
            k == keywords()[i as int],
    {

        if i == 0 {
            Keyword::Abstract
        } else if i == 1 {
            Keyword::Assert
        } else if i == 2 {
            Keyword::Boolean
        } else if i == 3 {
            Keyword::Break
        } else if i == 4 {
            Keyword::Byte
        } else if i == 5 {
            Keyword::Case
        } else if i == 6 {
            Keyword::Catch
        } else if i == 7 {
            Keyword::Char
        } else if i == 8 {
            Keyword::Class
        } else if i == 9 {
            Keyword::Const
        } else if i == 10 {
            Keyword::Continue
        } else if i == 11 {
            Keyword::Default
        } else if i == 12 {
            Keyword::Double
        } else if i == 13 {
            Keyword::Do
        } else if i == 14 {
            Keyword::Else
        } else if i == 15 {
            Keyword::Enum
        } else if i == 16 {
            Keyword::Extends
        } else if i == 17 {
            Keyword::False
        } else if i == 18 {
            Keyword::Finally
        } else if i == 19 {
            Keyword::Final
        } else if i == 20 {
            Keyword::Float
        } else if i == 21 {
            Keyword::For
        } else if i == 22 {
            Keyword::Goto
        } else if i == 23 {
            Keyword::If
        } else if i == 24 {
            Keyword::Implements
        } else if i == 25 {
            Keyword::Import
        } else if i == 26 {
            Keyword::InstanceOf
        } else if i == 27 {
            Keyword::Interface
        } else if i == 28 {
            Keyword::Int
        } else if i == 29 {
            Keyword::Long
        } else if i == 30 {
            Keyword::Native
        } else if i == 31 {
            Keyword::New
        } else if i == 32 {
            Keyword::Null
        } else if i == 33 {
            Keyword::Package
        } else if i == 34 {
            Keyword::Private
        } else if i == 35 {
            Keyword::Protected
        } else if i == 36 {
            Keyword::Public
        } else if i == 37 {
            Keyword::Return
        } else if i == 38 {
            Keyword::Short
        } else if i == 39 {
            Keyword::Static
        } else if i == 40 {
            Keyword::StrictFp
        } else if i == 41 {
            Keyword::Super
        } else if i == 42 {
            Keyword::Switch
        } else if i == 43 {
            Keyword::Synchronized
        } else if i == 44 {
            Keyword::This
        } else if i == 45 {
            Keyword::Throws
        } else if i == 46 {
            Keyword::Throw
        } else if i == 47 {
            Keyword::Transient
        } else if i == 48 {
            Keyword::True
        } else if i == 49 {
            Keyword::Try
        } else if i == 50 {
            Keyword::Void
        } else if i == 51 {
            Keyword::Volatile
        } else {
            Keyword::While
        }
    }
}

impl Operator {
    /// How the operator is written.
    pub open spec fn spec_spelling(self) -> Seq<u8> {
        match self {
            Operator::ExclaimEqual => seq![33u8, 61u8],
            Operator::Exclaim => seq![33u8],
            Operator::LeftParen => seq![40u8],
            Operator::RightParen => seq![41u8],
            Operator::StarEqual => seq![42u8, 61u8],
            Operator::Star => seq![42u8],
            Operator::DoublePlus => seq![43u8, 43u8],
            Operator::PlusEqual => seq![43u8, 61u8],
            Operator::Plus => seq![43u8],
            Operator::Comma => seq![44u8],
            Operator::MinusEqual => seq![45u8, 61u8],
            Operator::DoubleMinus => seq![45u8, 45u8],
            Operator::Minus => seq![45u8],
            Operator::Dot => seq![46u8],
            Operator::SlashEqual => seq![47u8, 61u8],
            Operator::Slash => seq![47u8],
            Operator::Colon => seq![58u8],
            Operator::Semicolon => seq![59u8],
            Operator::DoubleLeftChevronEqual => seq![60u8, 60u8, 61u8],
            Operator::DoubleLeftChevron => seq![60u8, 60u8],
            Operator::LeftChevronEqual => seq![60u8, 61u8],
            Operator::LeftChevron => seq![60u8],
            Operator::DoubleEqual => seq![61u8, 61u8],
            Operator::Equal => seq![61u8],
            Operator::RightChevronEqual => seq![62u8, 61u8],
            Operator::DoubleRightChevronEqual => seq![62u8, 62u8, 61u8],
            Operator::TripleRightChevronEqual => seq![62u8, 62u8, 62u8, 61u8],
            Operator::TripleRightChevron => seq![62u8, 62u8, 62u8],
            Operator::DoubleRightChevron => seq![62u8, 62u8],
            Operator::RightChevron => seq![62u8],
            Operator::QuestionMark => seq![63u8],
            Operator::PercentEqual => seq![37u8, 61u8],
            Operator::Percent => seq![37u8],
            Operator::AmpersandEqual => seq![38u8, 61u8],
            Operator::DoubleAmpersand => seq![38u8, 38u8],
            Operator::Ampersand => seq![38u8],
            Operator::LeftBracket => seq![91u8],
            Operator::RightBracket => seq![93u8],
            Operator::CaretEqual => seq![94u8, 61u8],
            Operator::Caret => seq![94u8],
            Operator::LeftBrace => seq![123u8],
            Operator::RightBrace => seq![125u8],
            Operator::Tilde => seq![126u8],
            Operator::PipeEqual => seq![124u8, 61u8],
            Operator::DoublePipe => seq![124u8, 124u8],
            Operator::Pipe => seq![124u8],
        }
    }

    /// How the operator is written.
    pub fn spelling(self) -> (s: &'static [u8])
        ensures
            s@ == self.spec_spelling(),
            1 <= s@.len() <= 4,
    {
        match self {
            Operator::ExclaimEqual => {
                let s: &'static [u8; 2] = &[33, 61];
                s.as_slice()
            },
            Operator::Exclaim => {
                let s: &'static [u8; 1] = &[33];
                s.as_slice()
            },
            Operator::LeftParen => {
                let s: &'static [u8; 1] = &[40];
                s.as_slice()
            },
            Operator::RightParen => {
                let s: &'static [u8; 1] = &[41];
                s.as_slice()
            },
            Operator::StarEqual => {
                let s: &'static [u8; 2] = &[42, 61];
                s.as_slice()
            },
            Operator::Star => {
                let s: &'static [u8; 1] = &[42];
                s.as_slice()
            },
            Operator::DoublePlus => {
                let s: &'static [u8; 2] = &[43, 43];
                s.as_slice()
            },
            Operator::PlusEqual => {
                let s: &'static [u8; 2] = &[43, 61];
                s.as_slice()
            },
            Operator::Plus => {
                let s: &'static [u8; 1] = &[43];
                s.as_slice()
            },
            Operator::Comma => {
                let s: &'static [u8; 1] = &[44];
                s.as_slice()
            },
            Operator::MinusEqual => {
                let s: &'static [u8; 2] = &[45, 61];
                s.as_slice()
            },
            Operator::DoubleMinus => {
                let s: &'static [u8; 2] = &[45, 45];
                s.as_slice()
            },
            Operator::Minus => {
                let s: &'static [u8; 1] = &[45];
                s.as_slice()
            },
            Operator::Dot => {
                let s: &'static [u8; 1] = &[46];
                s.as_slice()
            },
            Operator::SlashEqual => {
                let s: &'static [u8; 2] = &[47, 61];
                s.as_slice()
            },
            Operator::Slash => {
                let s: &'static [u8; 1] = &[47];
                s.as_slice()
            },
            Operator::Colon => {
                let s: &'static [u8; 1] = &[58];
                s.as_slice()
            },
            Operator::Semicolon => {
                let s: &'static [u8; 1] = &[59];
                s.as_slice()
            },
            Operator::DoubleLeftChevronEqual => {
                let s: &'static [u8; 3] = &[60, 60, 61];
                s.as_slice()
            },
            Operator::DoubleLeftChevron => {
                let s: &'static [u8; 2] = &[60, 60];
                s.as_slice()
            },
            Operator::LeftChevronEqual => {
                let s: &'static [u8; 2] = &[60, 61];
                s.as_slice()
            },
            Operator::LeftChevron => {
                let s: &'static [u8; 1] = &[60];
                s.as_slice()
            },
            Operator::DoubleEqual => {
                let s: &'static [u8; 2] = &[61, 61];
                s.as_slice()
            },
            Operator::Equal => {
                let s: &'static [u8; 1] = &[61];
                s.as_slice()
            },
            Operator::RightChevronEqual => {
                let s: &'static [u8; 2] = &[62, 61];
                s.as_slice()
            },
            Operator::DoubleRightChevronEqual => {
                let s: &'static [u8; 3] = &[62, 62, 61];
                s.as_slice()
            },
            Operator::TripleRightChevronEqual => {
                let s: &'static [u8; 4] = &[62, 62, 62, 61];
                s.as_slice()
            },
            Operator::TripleRightChevron => {
                let s: &'static [u8; 3] = &[62, 62, 62];
                s.as_slice()
            },
            Operator::DoubleRightChevron => {
                let s: &'static [u8; 2] = &[62, 62];
                s.as_slice()
            },
            Operator::RightChevron => {
                let s: &'static [u8; 1] = &[62];
                s.as_slice()
            },
            Operator::QuestionMark => {
                let s: &'static [u8; 1] = &[63];
                s.as_slice()
            },
            Operator::PercentEqual => {
                let s: &'static [u8; 2] = &[37, 61];
                s.as_slice()
            },
            Operator::Percent => {
                let s: &'static [u8; 1] = &[37];
                s.as_slice()
            },
            Operator::AmpersandEqual => {
                let s: &'static [u8; 2] = &[38, 61];
                s.as_slice()
            },
            Operator::DoubleAmpersand => {
                let s: &'static [u8; 2] = &[38, 38];
                s.as_slice()
            },
            Operator::Ampersand => {
                let s: &'static [u8; 1] = &[38];
                s.as_slice()
            },
            Operator::LeftBracket => {
                let s: &'static [u8; 1] = &[91];
                s.as_slice()
            },
            Operator::RightBracket => {
                let s: &'static [u8; 1] = &[93];
                s.as_slice()
            },
            Operator::CaretEqual => {
                let s: &'static [u8; 2] = &[94, 61];
                s.as_slice()
            },
            Operator::Caret => {
                let s: &'static [u8; 1] = &[94];
                s.as_slice()
            },
            Operator::LeftBrace => {
                let s: &'static [u8; 1] = &[123];
                s.as_slice()
            },
            Operator::RightBrace => {
                let s: &'static [u8; 1] = &[125];
                s.as_slice()
            },
            Operator::Tilde => {
                let s: &'static [u8; 1] = &[126];
                s.as_slice()
            },
            Operator::PipeEqual => {
                let s: &'static [u8; 2] = &[124, 61];
                s.as_slice()
            },
            Operator::DoublePipe => {
                let s: &'static [u8; 2] = &[124, 124];
                s.as_slice()
            },
            Operator::Pipe => {
                let s: &'static [u8; 1] = &[124];
                s.as_slice()
            },
        }
    }

    /// Operator number `i`.
    pub fn nth(i: usize) -> (o: Operator)
        requires
            i < OPERATOR_COUNT,
        ensures
            o == operators()[i as int],
    {

        if i == 0 {
            Operator::ExclaimEqual
        } else if i == 1 {
            Operator::Exclaim
        } else if i == 2 {
            Operator::LeftParen
        } else if i == 3 {
            Operator::RightParen
        } else if i == 4 {
            Operator::StarEqual
        } else if i == 5 {
            Operator::Star
        } else if i == 6 {
            Operator::DoublePlus
        } else if i == 7 {
            Operator::PlusEqual
        } else if i == 8 {
            Operator::Plus
        } else if i == 9 {
            Operator::Comma
        } else if i == 10 {
            Operator::MinusEqual
        } else if i == 11 {
            Operator::DoubleMinus
        } else if i == 12 {
            Operator::Minus
        } else if i == 13 {
            Operator::Dot
        } else if i == 14 {
            Operator::SlashEqual
        } else if i == 15 {
            Operator::Slash
        } else if i == 16 {
            Operator::Colon
        } else if i == 17 {
            Operator::Semicolon
        } else if i == 18 {
            Operator::DoubleLeftChevronEqual
        } else if i == 19 {
            Operator::DoubleLeftChevron
        } else if i == 20 {
            Operator::LeftChevronEqual
        } else if i == 21 {
            Operator::LeftChevron
        } else if i == 22 {
            Operator::DoubleEqual
        } else if i == 23 {
            Operator::Equal
        } else if i == 24 {
            Operator::RightChevronEqual
        } else if i == 25 {
            Operator::DoubleRightChevronEqual
        } else if i == 26 {
            Operator::TripleRightChevronEqual
        } else if i == 27 {
            Operator::TripleRightChevron
        } else if i == 28 {
            Operator::DoubleRightChevron
        } else if i == 29 {
            Operator::RightChevron
        } else if i == 30 {
            Operator::QuestionMark
        } else if i == 31 {
            Operator::PercentEqual
        } else if i == 32 {
            Operator::Percent
        } else if i == 33 {
            Operator::AmpersandEqual
        } else if i == 34 {
            Operator::DoubleAmpersand
        } else if i == 35 {
            Operator::Ampersand
        } else if i == 36 {
            Operator::LeftBracket
        } else if i == 37 {
            Operator::RightBracket
        } else if i == 38 {
            Operator::CaretEqual
        } else if i == 39 {
            Operator::Caret
        } else if i == 40 {
            Operator::LeftBrace
        } else if i == 41 {
            Operator::RightBrace
        } else if i == 42 {
            Operator::Tilde
        } else if i == 43 {
            Operator::PipeEqual
        } else if i == 44 {
            Operator::DoublePipe
        } else {
            Operator::Pipe
        }
    }
}

} // verus!
