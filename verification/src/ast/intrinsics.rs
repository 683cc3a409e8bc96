use vstd::prelude::*;

use crate::utils::chars::str_chars;
use vstd::string::*;

verus! {

/// The operations built into the language, written in snake case (`int_add`).
#[derive(Debug, Clone, Copy, PartialEq, Eq, Structural)]
pub enum Intrinsic {
    Invalid,
    RenderRectangle,
    RenderCircle,
    RenderChar,
    CreateTextChars,
    IntAbs,
    FloatAbs,
    FloatSqrt,
    FloatSin,
    FloatCos,
    FloatTan,
    FloatAsin,
    FloatAcos,
    FloatAtan,
    FloatAtan2,
    FloatLog,
    FloatRound,
    FloatCeil,
    FloatFloor,
    IntToFloat,
    DurationToFrames,
    DurationFromFrames,
    DurationFromSeconds,
    BoolToString,
    IntToString,
    FloatToString,
    BoolNot,
    IntNeg,
    FloatNeg,
    IntAdd,
    FloatAdd,
    StringAdd,
    ListJoin,
    IntSub,
    FloatSub,
    IntMul,
    FloatMul,
    IntDiv,
    FloatDiv,
    IntMod,
    FloatMod,
    IntPower,
    FloatPower,
    IntMoreThan,
    FloatMoreThan,
    IntMoreThanOrEq,
    FloatMoreThanOrEq,
    IntLessThan,
    FloatLessThan,
    IntLessThanOrEq,
    FloatLessThanOrEq,
    BoolEq,
    IntEq,
    FloatEq,
    StringEq,
    BoolNeq,
    IntNeq,
    FloatNeq,
    StringNeq,
    ListIndex,
    StringLength,
    StringToInt,
    StringToFloat,
    StringToLowercase,
    StringToUppercase,
    StringStrip,
    ListLength,
    ListAdd,
    ListRemove,
    ForeverDuration,
}

/// The error of `Intrinsic::from_str` on a string that names no intrinsic.
#[derive(Debug, Clone, Copy, PartialEq, Eq, Structural)]
pub enum ParseIntrinsicError {
    VariantNotFound,
}

impl Intrinsic {
    /// How the intrinsic is written in source code.
    pub open spec fn spec_name(self) -> Seq<char> {
        match self {
            Intrinsic::Invalid => seq!['i', 'n', 'v', 'a', 'l', 'i', 'd'],
            Intrinsic::RenderRectangle => seq!['r', 'e', 'n', 'd', 'e', 'r', '_', 'r', 'e', 'c', 't', 'a', 'n', 'g', 'l', 'e'],
            Intrinsic::RenderCircle => seq!['r', 'e', 'n', 'd', 'e', 'r', '_', 'c', 'i', 'r', 'c', 'l', 'e'],
            Intrinsic::RenderChar => seq!['r', 'e', 'n', 'd', 'e', 'r', '_', 'c', 'h', 'a', 'r'],
            Intrinsic::CreateTextChars => seq!['c', 'r', 'e', 'a', 't', 'e', '_', 't', 'e', 'x', 't', '_', 'c', 'h', 'a', 'r', 's'],
            Intrinsic::IntAbs => seq!['i', 'n', 't', '_', 'a', 'b', 's'],
            Intrinsic::FloatAbs => seq!['f', 'l', 'o', 'a', 't', '_', 'a', 'b', 's'],
            Intrinsic::FloatSqrt => seq!['f', 'l', 'o', 'a', 't', '_', 's', 'q', 'r', 't'],
            Intrinsic::FloatSin => seq!['f', 'l', 'o', 'a', 't', '_', 's', 'i', 'n'],
            Intrinsic::FloatCos => seq!['f', 'l', 'o', 'a', 't', '_', 'c', 'o', 's'],
            Intrinsic::FloatTan => seq!['f', 'l', 'o', 'a', 't', '_', 't', 'a', 'n'],
            Intrinsic::FloatAsin => seq!['f', 'l', 'o', 'a', 't', '_', 'a', 's', 'i', 'n'],
            Intrinsic::FloatAcos => seq!['f', 'l', 'o', 'a', 't', '_', 'a', 'c', 'o', 's'],
            Intrinsic::FloatAtan => seq!['f', 'l', 'o', 'a', 't', '_', 'a', 't', 'a', 'n'],
            Intrinsic::FloatAtan2 => seq!['f', 'l', 'o', 'a', 't', '_', 'a', 't', 'a', 'n', '2'],
            Intrinsic::FloatLog => seq!['f', 'l', 'o', 'a', 't', '_', 'l', 'o', 'g'],
            Intrinsic::FloatRound => seq!['f', 'l', 'o', 'a', 't', '_', 'r', 'o', 'u', 'n', 'd'],
            Intrinsic::FloatCeil => seq!['f', 'l', 'o', 'a', 't', '_', 'c', 'e', 'i', 'l'],
            Intrinsic::FloatFloor => seq!['f', 'l', 'o', 'a', 't', '_', 'f', 'l', 'o', 'o', 'r'],
            Intrinsic::IntToFloat => seq!['i', 'n', 't', '_', 't', 'o', '_', 'f', 'l', 'o', 'a', 't'],
            Intrinsic::DurationToFrames => seq!['d', 'u', 'r', 'a', 't', 'i', 'o', 'n', '_', 't', 'o', '_', 'f', 'r', 'a', 'm', 'e', 's'],
            Intrinsic::DurationFromFrames => seq!['d', 'u', 'r', 'a', 't', 'i', 'o', 'n', '_', 'f', 'r', 'o', 'm', '_', 'f', 'r', 'a', 'm', 'e', 's'],
            Intrinsic::DurationFromSeconds => seq!['d', 'u', 'r', 'a', 't', 'i', 'o', 'n', '_', 'f', 'r', 'o', 'm', '_', 's', 'e', 'c', 'o', 'n', 'd', 's'],
            Intrinsic::BoolToString => seq!['b', 'o', 'o', 'l', '_', 't', 'o', '_', 's', 't', 'r', 'i', 'n', 'g'],
            Intrinsic::IntToString => seq!['i', 'n', 't', '_', 't', 'o', '_', 's', 't', 'r', 'i', 'n', 'g'],
            Intrinsic::FloatToString => seq!['f', 'l', 'o', 'a', 't', '_', 't', 'o', '_', 's', 't', 'r', 'i', 'n', 'g'],
            Intrinsic::BoolNot => seq!['b', 'o', 'o', 'l', '_', 'n', 'o', 't'],
            Intrinsic::IntNeg => seq!['i', 'n', 't', '_', 'n', 'e', 'g'],
            Intrinsic::FloatNeg => seq!['f', 'l', 'o', 'a', 't', '_', 'n', 'e', 'g'],
            Intrinsic::IntAdd => seq!['i', 'n', 't', '_', 'a', 'd', 'd'],
            Intrinsic::FloatAdd => seq!['f', 'l', 'o', 'a', 't', '_', 'a', 'd', 'd'],
            Intrinsic::StringAdd => seq!['s', 't', 'r', 'i', 'n', 'g', '_', 'a', 'd', 'd'],
            Intrinsic::ListJoin => seq!['l', 'i', 's', 't', '_', 'j', 'o', 'i', 'n'],
            Intrinsic::IntSub => seq!['i', 'n', 't', '_', 's', 'u', 'b'],
            Intrinsic::FloatSub => seq!['f', 'l', 'o', 'a', 't', '_', 's', 'u', 'b'],
            Intrinsic::IntMul => seq!['i', 'n', 't', '_', 'm', 'u', 'l'],
            Intrinsic::FloatMul => seq!['f', 'l', 'o', 'a', 't', '_', 'm', 'u', 'l'],
            Intrinsic::IntDiv => seq!['i', 'n', 't', '_', 'd', 'i', 'v'],
            Intrinsic::FloatDiv => seq!['f', 'l', 'o', 'a', 't', '_', 'd', 'i', 'v'],
            Intrinsic::IntMod => seq!['i', 'n', 't', '_', 'm', 'o', 'd'],
            Intrinsic::FloatMod => seq!['f', 'l', 'o', 'a', 't', '_', 'm', 'o', 'd'],
            Intrinsic::IntPower => seq!['i', 'n', 't', '_', 'p', 'o', 'w', 'e', 'r'],
            Intrinsic::FloatPower => seq!['f', 'l', 'o', 'a', 't', '_', 'p', 'o', 'w', 'e', 'r'],
            Intrinsic::IntMoreThan => seq!['i', 'n', 't', '_', 'm', 'o', 'r', 'e', '_', 't', 'h', 'a', 'n'],
            Intrinsic::FloatMoreThan => seq!['f', 'l', 'o', 'a', 't', '_', 'm', 'o', 'r', 'e', '_', 't', 'h', 'a', 'n'],
            Intrinsic::IntMoreThanOrEq => seq!['i', 'n', 't', '_', 'm', 'o', 'r', 'e', '_', 't', 'h', 'a', 'n', '_', 'o', 'r', '_', 'e', 'q'],
            Intrinsic::FloatMoreThanOrEq => seq!['f', 'l', 'o', 'a', 't', '_', 'm', 'o', 'r', 'e', '_', 't', 'h', 'a', 'n', '_', 'o', 'r', '_', 'e', 'q'],
            Intrinsic::IntLessThan => seq!['i', 'n', 't', '_', 'l', 'e', 's', 's', '_', 't', 'h', 'a', 'n'],
            Intrinsic::FloatLessThan => seq!['f', 'l', 'o', 'a', 't', '_', 'l', 'e', 's', 's', '_', 't', 'h', 'a', 'n'],
            Intrinsic::IntLessThanOrEq => seq!['i', 'n', 't', '_', 'l', 'e', 's', 's', '_', 't', 'h', 'a', 'n', '_', 'o', 'r', '_', 'e', 'q'],
            Intrinsic::FloatLessThanOrEq => seq!['f', 'l', 'o', 'a', 't', '_', 'l', 'e', 's', 's', '_', 't', 'h', 'a', 'n', '_', 'o', 'r', '_', 'e', 'q'],
            Intrinsic::BoolEq => seq!['b', 'o', 'o', 'l', '_', 'e', 'q'],
            Intrinsic::IntEq => seq!['i', 'n', 't', '_', 'e', 'q'],
            Intrinsic::FloatEq => seq!['f', 'l', 'o', 'a', 't', '_', 'e', 'q'],
            Intrinsic::StringEq => seq!['s', 't', 'r', 'i', 'n', 'g', '_', 'e', 'q'],
            Intrinsic::BoolNeq => seq!['b', 'o', 'o', 'l', '_', 'n', 'e', 'q'],
            Intrinsic::IntNeq => seq!['i', 'n', 't', '_', 'n', 'e', 'q'],
            Intrinsic::FloatNeq => seq!['f', 'l', 'o', 'a', 't', '_', 'n', 'e', 'q'],
            Intrinsic::StringNeq => seq!['s', 't', 'r', 'i', 'n', 'g', '_', 'n', 'e', 'q'],
            Intrinsic::ListIndex => seq!['l', 'i', 's', 't', '_', 'i', 'n', 'd', 'e', 'x'],
            Intrinsic::StringLength => seq!['s', 't', 'r', 'i', 'n', 'g', '_', 'l', 'e', 'n', 'g', 't', 'h'],
            Intrinsic::StringToInt => seq!['s', 't', 'r', 'i', 'n', 'g', '_', 't', 'o', '_', 'i', 'n', 't'],
            Intrinsic::StringToFloat => seq!['s', 't', 'r', 'i', 'n', 'g', '_', 't', 'o', '_', 'f', 'l', 'o', 'a', 't'],
            Intrinsic::StringToLowercase => seq!['s', 't', 'r', 'i', 'n', 'g', '_', 't', 'o', '_', 'l', 'o', 'w', 'e', 'r', 'c', 'a', 's', 'e'],
            Intrinsic::StringToUppercase => seq!['s', 't', 'r', 'i', 'n', 'g', '_', 't', 'o', '_', 'u', 'p', 'p', 'e', 'r', 'c', 'a', 's', 'e'],
            Intrinsic::StringStrip => seq!['s', 't', 'r', 'i', 'n', 'g', '_', 's', 't', 'r', 'i', 'p'],
            Intrinsic::ListLength => seq!['l', 'i', 's', 't', '_', 'l', 'e', 'n', 'g', 't', 'h'],
            Intrinsic::ListAdd => seq!['l', 'i', 's', 't', '_', 'a', 'd', 'd'],
            Intrinsic::ListRemove => seq!['l', 'i', 's', 't', '_', 'r', 'e', 'm', 'o', 'v', 'e'],
            Intrinsic::ForeverDuration => seq!['f', 'o', 'r', 'e', 'v', 'e', 'r', '_', 'd', 'u', 'r', 'a', 't', 'i', 'o', 'n'],
        }
    }

    /// The intrinsic written `s`, if any.
    pub closed spec fn spec_decode(s: Seq<char>) -> Option<Intrinsic> {
        if s.len() == 7 && s[0] == 'i' && s[1] == 'n' && s[2] == 'v' && s[3] == 'a' && s[4] == 'l' && s[5] == 'i' && s[6] == 'd' {
            Some(Intrinsic::Invalid)
        } else if s.len() == 16 && s[0] == 'r' && s[1] == 'e' && s[2] == 'n' && s[3] == 'd' && s[4] == 'e' && s[5] == 'r' && s[6] == '_' && s[7] == 'r' && s[8] == 'e' && s[9] == 'c' && s[10] == 't' && s[11] == 'a' && s[12] == 'n' && s[13] == 'g' && s[14] == 'l' && s[15] == 'e' {
            Some(Intrinsic::RenderRectangle)
        } else if s.len() == 13 && s[0] == 'r' && s[1] == 'e' && s[2] == 'n' && s[3] == 'd' && s[4] == 'e' && s[5] == 'r' && s[6] == '_' && s[7] == 'c' && s[8] == 'i' && s[9] == 'r' && s[10] == 'c' && s[11] == 'l' && s[12] == 'e' {
            Some(Intrinsic::RenderCircle)
        } else if s.len() == 11 && s[0] == 'r' && s[1] == 'e' && s[2] == 'n' && s[3] == 'd' && s[4] == 'e' && s[5] == 'r' && s[6] == '_' && s[7] == 'c' && s[8] == 'h' && s[9] == 'a' && s[10] == 'r' {
            Some(Intrinsic::RenderChar)
        } else if s.len() == 17 && s[0] == 'c' && s[1] == 'r' && s[2] == 'e' && s[3] == 'a' && s[4] == 't' && s[5] == 'e' && s[6] == '_' && s[7] == 't' && s[8] == 'e' && s[9] == 'x' && s[10] == 't' && s[11] == '_' && s[12] == 'c' && s[13] == 'h' && s[14] == 'a' && s[15] == 'r' && s[16] == 's' {
            Some(Intrinsic::CreateTextChars)
        } else if s.len() == 7 && s[0] == 'i' && s[1] == 'n' && s[2] == 't' && s[3] == '_' && s[4] == 'a' && s[5] == 'b' && s[6] == 's' {
            Some(Intrinsic::IntAbs)
        } else if s.len() == 9 && s[0] == 'f' && s[1] == 'l' && s[2] == 'o' && s[3] == 'a' && s[4] == 't' && s[5] == '_' && s[6] == 'a' && s[7] == 'b' && s[8] == 's' {
            Some(Intrinsic::FloatAbs)
        } else if s.len() == 10 && s[0] == 'f' && s[1] == 'l' && s[2] == 'o' && s[3] == 'a' && s[4] == 't' && s[5] == '_' && s[6] == 's' && s[7] == 'q' && s[8] == 'r' && s[9] == 't' {
            Some(Intrinsic::FloatSqrt)
        } else if s.len() == 9 && s[0] == 'f' && s[1] == 'l' && s[2] == 'o' && s[3] == 'a' && s[4] == 't' && s[5] == '_' && s[6] == 's' && s[7] == 'i' && s[8] == 'n' {
            Some(Intrinsic::FloatSin)
        } else if s.len() == 9 && s[0] == 'f' && s[1] == 'l' && s[2] == 'o' && s[3] == 'a' && s[4] == 't' && s[5] == '_' && s[6] == 'c' && s[7] == 'o' && s[8] == 's' {
            Some(Intrinsic::FloatCos)
        } else if s.len() == 9 && s[0] == 'f' && s[1] == 'l' && s[2] == 'o' && s[3] == 'a' && s[4] == 't' && s[5] == '_' && s[6] == 't' && s[7] == 'a' && s[8] == 'n' {
            Some(Intrinsic::FloatTan)
        } else if s.len() == 10 && s[0] == 'f' && s[1] == 'l' && s[2] == 'o' && s[3] == 'a' && s[4] == 't' && s[5] == '_' && s[6] == 'a' && s[7] == 's' && s[8] == 'i' && s[9] == 'n' {
            Some(Intrinsic::FloatAsin)
        } else if s.len() == 10 && s[0] == 'f' && s[1] == 'l' && s[2] == 'o' && s[3] == 'a' && s[4] == 't' && s[5] == '_' && s[6] == 'a' && s[7] == 'c' && s[8] == 'o' && s[9] == 's' {
            Some(Intrinsic::FloatAcos)
        } else if s.len() == 10 && s[0] == 'f' && s[1] == 'l' && s[2] == 'o' && s[3] == 'a' && s[4] == 't' && s[5] == '_' && s[6] == 'a' && s[7] == 't' && s[8] == 'a' && s[9] == 'n' {
            Some(Intrinsic::FloatAtan)
        } else if s.len() == 11 && s[0] == 'f' && s[1] == 'l' && s[2] == 'o' && s[3] == 'a' && s[4] == 't' && s[5] == '_' && s[6] == 'a' && s[7] == 't' && s[8] == 'a' && s[9] == 'n' && s[10] == '2' {
            Some(Intrinsic::FloatAtan2)
        } else if s.len() == 9 && s[0] == 'f' && s[1] == 'l' && s[2] == 'o' && s[3] == 'a' && s[4] == 't' && s[5] == '_' && s[6] == 'l' && s[7] == 'o' && s[8] == 'g' {
            Some(Intrinsic::FloatLog)
        } else if s.len() == 11 && s[0] == 'f' && s[1] == 'l' && s[2] == 'o' && s[3] == 'a' && s[4] == 't' && s[5] == '_' && s[6] == 'r' && s[7] == 'o' && s[8] == 'u' && s[9] == 'n' && s[10] == 'd' {
            Some(Intrinsic::FloatRound)
        } else if s.len() == 10 && s[0] == 'f' && s[1] == 'l' && s[2] == 'o' && s[3] == 'a' && s[4] == 't' && s[5] == '_' && s[6] == 'c' && s[7] == 'e' && s[8] == 'i' && s[9] == 'l' {
            Some(Intrinsic::FloatCeil)
        } else if s.len() == 11 && s[0] == 'f' && s[1] == 'l' && s[2] == 'o' && s[3] == 'a' && s[4] == 't' && s[5] == '_' && s[6] == 'f' && s[7] == 'l' && s[8] == 'o' && s[9] == 'o' && s[10] == 'r' {
            Some(Intrinsic::FloatFloor)
        } else if s.len() == 12 && s[0] == 'i' && s[1] == 'n' && s[2] == 't' && s[3] == '_' && s[4] == 't' && s[5] == 'o' && s[6] == '_' && s[7] == 'f' && s[8] == 'l' && s[9] == 'o' && s[10] == 'a' && s[11] == 't' {
            Some(Intrinsic::IntToFloat)
        } else if s.len() == 18 && s[0] == 'd' && s[1] == 'u' && s[2] == 'r' && s[3] == 'a' && s[4] == 't' && s[5] == 'i' && s[6] == 'o' && s[7] == 'n' && s[8] == '_' && s[9] == 't' && s[10] == 'o' && s[11] == '_' && s[12] == 'f' && s[13] == 'r' && s[14] == 'a' && s[15] == 'm' && s[16] == 'e' && s[17] == 's' {
            Some(Intrinsic::DurationToFrames)
        } else if s.len() == 20 && s[0] == 'd' && s[1] == 'u' && s[2] == 'r' && s[3] == 'a' && s[4] == 't' && s[5] == 'i' && s[6] == 'o' && s[7] == 'n' && s[8] == '_' && s[9] == 'f' && s[10] == 'r' && s[11] == 'o' && s[12] == 'm' && s[13] == '_' && s[14] == 'f' && s[15] == 'r' && s[16] == 'a' && s[17] == 'm' && s[18] == 'e' && s[19] == 's' {
            Some(Intrinsic::DurationFromFrames)
        } else if s.len() == 21 && s[0] == 'd' && s[1] == 'u' && s[2] == 'r' && s[3] == 'a' && s[4] == 't' && s[5] == 'i' && s[6] == 'o' && s[7] == 'n' && s[8] == '_' && s[9] == 'f' && s[10] == 'r' && s[11] == 'o' && s[12] == 'm' && s[13] == '_' && s[14] == 's' && s[15] == 'e' && s[16] == 'c' && s[17] == 'o' && s[18] == 'n' && s[19] == 'd' && s[20] == 's' {
            Some(Intrinsic::DurationFromSeconds)
        } else if s.len() == 14 && s[0] == 'b' && s[1] == 'o' && s[2] == 'o' && s[3] == 'l' && s[4] == '_' && s[5] == 't' && s[6] == 'o' && s[7] == '_' && s[8] == 's' && s[9] == 't' && s[10] == 'r' && s[11] == 'i' && s[12] == 'n' && s[13] == 'g' {
            Some(Intrinsic::BoolToString)
        } else if s.len() == 13 && s[0] == 'i' && s[1] == 'n' && s[2] == 't' && s[3] == '_' && s[4] == 't' && s[5] == 'o' && s[6] == '_' && s[7] == 's' && s[8] == 't' && s[9] == 'r' && s[10] == 'i' && s[11] == 'n' && s[12] == 'g' {
            Some(Intrinsic::IntToString)
        } else if s.len() == 15 && s[0] == 'f' && s[1] == 'l' && s[2] == 'o' && s[3] == 'a' && s[4] == 't' && s[5] == '_' && s[6] == 't' && s[7] == 'o' && s[8] == '_' && s[9] == 's' && s[10] == 't' && s[11] == 'r' && s[12] == 'i' && s[13] == 'n' && s[14] == 'g' {
            Some(Intrinsic::FloatToString)
        } else if s.len() == 8 && s[0] == 'b' && s[1] == 'o' && s[2] == 'o' && s[3] == 'l' && s[4] == '_' && s[5] == 'n' && s[6] == 'o' && s[7] == 't' {
            Some(Intrinsic::BoolNot)
        } else if s.len() == 7 && s[0] == 'i' && s[1] == 'n' && s[2] == 't' && s[3] == '_' && s[4] == 'n' && s[5] == 'e' && s[6] == 'g' {
            Some(Intrinsic::IntNeg)
        } else if s.len() == 9 && s[0] == 'f' && s[1] == 'l' && s[2] == 'o' && s[3] == 'a' && s[4] == 't' && s[5] == '_' && s[6] == 'n' && s[7] == 'e' && s[8] == 'g' {
            Some(Intrinsic::FloatNeg)
        } else if s.len() == 7 && s[0] == 'i' && s[1] == 'n' && s[2] == 't' && s[3] == '_' && s[4] == 'a' && s[5] == 'd' && s[6] == 'd' {
            Some(Intrinsic::IntAdd)
        } else if s.len() == 9 && s[0] == 'f' && s[1] == 'l' && s[2] == 'o' && s[3] == 'a' && s[4] == 't' && s[5] == '_' && s[6] == 'a' && s[7] == 'd' && s[8] == 'd' {
            Some(Intrinsic::FloatAdd)
        } else if s.len() == 10 && s[0] == 's' && s[1] == 't' && s[2] == 'r' && s[3] == 'i' && s[4] == 'n' && s[5] == 'g' && s[6] == '_' && s[7] == 'a' && s[8] == 'd' && s[9] == 'd' {
            Some(Intrinsic::StringAdd)
        } else if s.len() == 9 && s[0] == 'l' && s[1] == 'i' && s[2] == 's' && s[3] == 't' && s[4] == '_' && s[5] == 'j' && s[6] == 'o' && s[7] == 'i' && s[8] == 'n' {
            Some(Intrinsic::ListJoin)
        } else if s.len() == 7 && s[0] == 'i' && s[1] == 'n' && s[2] == 't' && s[3] == '_' && s[4] == 's' && s[5] == 'u' && s[6] == 'b' {
            Some(Intrinsic::IntSub)
        } else if s.len() == 9 && s[0] == 'f' && s[1] == 'l' && s[2] == 'o' && s[3] == 'a' && s[4] == 't' && s[5] == '_' && s[6] == 's' && s[7] == 'u' && s[8] == 'b' {
            Some(Intrinsic::FloatSub)
        } else if s.len() == 7 && s[0] == 'i' && s[1] == 'n' && s[2] == 't' && s[3] == '_' && s[4] == 'm' && s[5] == 'u' && s[6] == 'l' {
            Some(Intrinsic::IntMul)
        } else if s.len() == 9 && s[0] == 'f' && s[1] == 'l' && s[2] == 'o' && s[3] == 'a' && s[4] == 't' && s[5] == '_' && s[6] == 'm' && s[7] == 'u' && s[8] == 'l' {
            Some(Intrinsic::FloatMul)
        } else if s.len() == 7 && s[0] == 'i' && s[1] == 'n' && s[2] == 't' && s[3] == '_' && s[4] == 'd' && s[5] == 'i' && s[6] == 'v' {
            Some(Intrinsic::IntDiv)
        } else if s.len() == 9 && s[0] == 'f' && s[1] == 'l' && s[2] == 'o' && s[3] == 'a' && s[4] == 't' && s[5] == '_' && s[6] == 'd' && s[7] == 'i' && s[8] == 'v' {
            Some(Intrinsic::FloatDiv)
        } else if s.len() == 7 && s[0] == 'i' && s[1] == 'n' && s[2] == 't' && s[3] == '_' && s[4] == 'm' && s[5] == 'o' && s[6] == 'd' {
            Some(Intrinsic::IntMod)
        } else if s.len() == 9 && s[0] == 'f' && s[1] == 'l' && s[2] == 'o' && s[3] == 'a' && s[4] == 't' && s[5] == '_' && s[6] == 'm' && s[7] == 'o' && s[8] == 'd' {
            Some(Intrinsic::FloatMod)
        } else if s.len() == 9 && s[0] == 'i' && s[1] == 'n' && s[2] == 't' && s[3] == '_' && s[4] == 'p' && s[5] == 'o' && s[6] == 'w' && s[7] == 'e' && s[8] == 'r' {
            Some(Intrinsic::IntPower)
        } else if s.len() == 11 && s[0] == 'f' && s[1] == 'l' && s[2] == 'o' && s[3] == 'a' && s[4] == 't' && s[5] == '_' && s[6] == 'p' && s[7] == 'o' && s[8] == 'w' && s[9] == 'e' && s[10] == 'r' {
            Some(Intrinsic::FloatPower)
        } else if s.len() == 13 && s[0] == 'i' && s[1] == 'n' && s[2] == 't' && s[3] == '_' && s[4] == 'm' && s[5] == 'o' && s[6] == 'r' && s[7] == 'e' && s[8] == '_' && s[9] == 't' && s[10] == 'h' && s[11] == 'a' && s[12] == 'n' {
            Some(Intrinsic::IntMoreThan)
        } else if s.len() == 15 && s[0] == 'f' && s[1] == 'l' && s[2] == 'o' && s[3] == 'a' && s[4] == 't' && s[5] == '_' && s[6] == 'm' && s[7] == 'o' && s[8] == 'r' && s[9] == 'e' && s[10] == '_' && s[11] == 't' && s[12] == 'h' && s[13] == 'a' && s[14] == 'n' {
            Some(Intrinsic::FloatMoreThan)
        } else if s.len() == 19 && s[0] == 'i' && s[1] == 'n' && s[2] == 't' && s[3] == '_' && s[4] == 'm' && s[5] == 'o' && s[6] == 'r' && s[7] == 'e' && s[8] == '_' && s[9] == 't' && s[10] == 'h' && s[11] == 'a' && s[12] == 'n' && s[13] == '_' && s[14] == 'o' && s[15] == 'r' && s[16] == '_' && s[17] == 'e' && s[18] == 'q' {
            Some(Intrinsic::IntMoreThanOrEq)
        } else if s.len() == 21 && s[0] == 'f' && s[1] == 'l' && s[2] == 'o' && s[3] == 'a' && s[4] == 't' && s[5] == '_' && s[6] == 'm' && s[7] == 'o' && s[8] == 'r' && s[9] == 'e' && s[10] == '_' && s[11] == 't' && s[12] == 'h' && s[13] == 'a' && s[14] == 'n' && s[15] == '_' && s[16] == 'o' && s[17] == 'r' && s[18] == '_' && s[19] == 'e' && s[20] == 'q' {
            Some(Intrinsic::FloatMoreThanOrEq)
        } else if s.len() == 13 && s[0] == 'i' && s[1] == 'n' && s[2] == 't' && s[3] == '_' && s[4] == 'l' && s[5] == 'e' && s[6] == 's' && s[7] == 's' && s[8] == '_' && s[9] == 't' && s[10] == 'h' && s[11] == 'a' && s[12] == 'n' {
            Some(Intrinsic::IntLessThan)
        } else if s.len() == 15 && s[0] == 'f' && s[1] == 'l' && s[2] == 'o' && s[3] == 'a' && s[4] == 't' && s[5] == '_' && s[6] == 'l' && s[7] == 'e' && s[8] == 's' && s[9] == 's' && s[10] == '_' && s[11] == 't' && s[12] == 'h' && s[13] == 'a' && s[14] == 'n' {
            Some(Intrinsic::FloatLessThan)
        } else if s.len() == 19 && s[0] == 'i' && s[1] == 'n' && s[2] == 't' && s[3] == '_' && s[4] == 'l' && s[5] == 'e' && s[6] == 's' && s[7] == 's' && s[8] == '_' && s[9] == 't' && s[10] == 'h' && s[11] == 'a' && s[12] == 'n' && s[13] == '_' && s[14] == 'o' && s[15] == 'r' && s[16] == '_' && s[17] == 'e' && s[18] == 'q' {
            Some(Intrinsic::IntLessThanOrEq)
        } else if s.len() == 21 && s[0] == 'f' && s[1] == 'l' && s[2] == 'o' && s[3] == 'a' && s[4] == 't' && s[5] == '_' && s[6] == 'l' && s[7] == 'e' && s[8] == 's' && s[9] == 's' && s[10] == '_' && s[11] == 't' && s[12] == 'h' && s[13] == 'a' && s[14] == 'n' && s[15] == '_' && s[16] == 'o' && s[17] == 'r' && s[18] == '_' && s[19] == 'e' && s[20] == 'q' {
            Some(Intrinsic::FloatLessThanOrEq)
        } else if s.len() == 7 && s[0] == 'b' && s[1] == 'o' && s[2] == 'o' && s[3] == 'l' && s[4] == '_' && s[5] == 'e' && s[6] == 'q' {
            Some(Intrinsic::BoolEq)
        } else if s.len() == 6 && s[0] == 'i' && s[1] == 'n' && s[2] == 't' && s[3] == '_' && s[4] == 'e' && s[5] == 'q' {
            Some(Intrinsic::IntEq)
        } else if s.len() == 8 && s[0] == 'f' && s[1] == 'l' && s[2] == 'o' && s[3] == 'a' && s[4] == 't' && s[5] == '_' && s[6] == 'e' && s[7] == 'q' {
            Some(Intrinsic::FloatEq)
        } else if s.len() == 9 && s[0] == 's' && s[1] == 't' && s[2] == 'r' && s[3] == 'i' && s[4] == 'n' && s[5] == 'g' && s[6] == '_' && s[7] == 'e' && s[8] == 'q' {
            Some(Intrinsic::StringEq)
        } else if s.len() == 8 && s[0] == 'b' && s[1] == 'o' && s[2] == 'o' && s[3] == 'l' && s[4] == '_' && s[5] == 'n' && s[6] == 'e' && s[7] == 'q' {
            Some(Intrinsic::BoolNeq)
        } else if s.len() == 7 && s[0] == 'i' && s[1] == 'n' && s[2] == 't' && s[3] == '_' && s[4] == 'n' && s[5] == 'e' && s[6] == 'q' {
            Some(Intrinsic::IntNeq)
        } else if s.len() == 9 && s[0] == 'f' && s[1] == 'l' && s[2] == 'o' && s[3] == 'a' && s[4] == 't' && s[5] == '_' && s[6] == 'n' && s[7] == 'e' && s[8] == 'q' {
            Some(Intrinsic::FloatNeq)
        } else if s.len() == 10 && s[0] == 's' && s[1] == 't' && s[2] == 'r' && s[3] == 'i' && s[4] == 'n' && s[5] == 'g' && s[6] == '_' && s[7] == 'n' && s[8] == 'e' && s[9] == 'q' {
            Some(Intrinsic::StringNeq)
        } else if s.len() == 10 && s[0] == 'l' && s[1] == 'i' && s[2] == 's' && s[3] == 't' && s[4] == '_' && s[5] == 'i' && s[6] == 'n' && s[7] == 'd' && s[8] == 'e' && s[9] == 'x' {
            Some(Intrinsic::ListIndex)
        } else if s.len() == 13 && s[0] == 's' && s[1] == 't' && s[2] == 'r' && s[3] == 'i' && s[4] == 'n' && s[5] == 'g' && s[6] == '_' && s[7] == 'l' && s[8] == 'e' && s[9] == 'n' && s[10] == 'g' && s[11] == 't' && s[12] == 'h' {
            Some(Intrinsic::StringLength)
        } else if s.len() == 13 && s[0] == 's' && s[1] == 't' && s[2] == 'r' && s[3] == 'i' && s[4] == 'n' && s[5] == 'g' && s[6] == '_' && s[7] == 't' && s[8] == 'o' && s[9] == '_' && s[10] == 'i' && s[11] == 'n' && s[12] == 't' {
            Some(Intrinsic::StringToInt)
        } else if s.len() == 15 && s[0] == 's' && s[1] == 't' && s[2] == 'r' && s[3] == 'i' && s[4] == 'n' && s[5] == 'g' && s[6] == '_' && s[7] == 't' && s[8] == 'o' && s[9] == '_' && s[10] == 'f' && s[11] == 'l' && s[12] == 'o' && s[13] == 'a' && s[14] == 't' {
            Some(Intrinsic::StringToFloat)
        } else if s.len() == 19 && s[0] == 's' && s[1] == 't' && s[2] == 'r' && s[3] == 'i' && s[4] == 'n' && s[5] == 'g' && s[6] == '_' && s[7] == 't' && s[8] == 'o' && s[9] == '_' && s[10] == 'l' && s[11] == 'o' && s[12] == 'w' && s[13] == 'e' && s[14] == 'r' && s[15] == 'c' && s[16] == 'a' && s[17] == 's' && s[18] == 'e' {
            Some(Intrinsic::StringToLowercase)
        } else if s.len() == 19 && s[0] == 's' && s[1] == 't' && s[2] == 'r' && s[3] == 'i' && s[4] == 'n' && s[5] == 'g' && s[6] == '_' && s[7] == 't' && s[8] == 'o' && s[9] == '_' && s[10] == 'u' && s[11] == 'p' && s[12] == 'p' && s[13] == 'e' && s[14] == 'r' && s[15] == 'c' && s[16] == 'a' && s[17] == 's' && s[18] == 'e' {
            Some(Intrinsic::StringToUppercase)
        } else if s.len() == 12 && s[0] == 's' && s[1] == 't' && s[2] == 'r' && s[3] == 'i' && s[4] == 'n' && s[5] == 'g' && s[6] == '_' && s[7] == 's' && s[8] == 't' && s[9] == 'r' && s[10] == 'i' && s[11] == 'p' {
            Some(Intrinsic::StringStrip)
        } else if s.len() == 11 && s[0] == 'l' && s[1] == 'i' && s[2] == 's' && s[3] == 't' && s[4] == '_' && s[5] == 'l' && s[6] == 'e' && s[7] == 'n' && s[8] == 'g' && s[9] == 't' && s[10] == 'h' {
            Some(Intrinsic::ListLength)
        } else if s.len() == 8 && s[0] == 'l' && s[1] == 'i' && s[2] == 's' && s[3] == 't' && s[4] == '_' && s[5] == 'a' && s[6] == 'd' && s[7] == 'd' {
            Some(Intrinsic::ListAdd)
        } else if s.len() == 11 && s[0] == 'l' && s[1] == 'i' && s[2] == 's' && s[3] == 't' && s[4] == '_' && s[5] == 'r' && s[6] == 'e' && s[7] == 'm' && s[8] == 'o' && s[9] == 'v' && s[10] == 'e' {
            Some(Intrinsic::ListRemove)
        } else if s.len() == 16 && s[0] == 'f' && s[1] == 'o' && s[2] == 'r' && s[3] == 'e' && s[4] == 'v' && s[5] == 'e' && s[6] == 'r' && s[7] == '_' && s[8] == 'd' && s[9] == 'u' && s[10] == 'r' && s[11] == 'a' && s[12] == 't' && s[13] == 'i' && s[14] == 'o' && s[15] == 'n' {
            Some(Intrinsic::ForeverDuration)
        } else {
            None
        }
    }

    /// Every intrinsic is decoded from its own name.
    pub proof fn lemma_decode_name(self)
        ensures
            Self::spec_decode(self.spec_name()) == Some(self),
    {
        match self {
            Intrinsic::Invalid => {},
            Intrinsic::RenderRectangle => {},
            Intrinsic::RenderCircle => {},
            Intrinsic::RenderChar => {},
            Intrinsic::CreateTextChars => {},
            Intrinsic::IntAbs => {},
            Intrinsic::FloatAbs => {},
            Intrinsic::FloatSqrt => {},
            Intrinsic::FloatSin => {},
            Intrinsic::FloatCos => {},
            Intrinsic::FloatTan => {},
            Intrinsic::FloatAsin => {},
            Intrinsic::FloatAcos => {},
            Intrinsic::FloatAtan => {},
            Intrinsic::FloatAtan2 => {},
            Intrinsic::FloatLog => {},
            Intrinsic::FloatRound => {},
            Intrinsic::FloatCeil => {},
            Intrinsic::FloatFloor => {},
            Intrinsic::IntToFloat => {},
            Intrinsic::DurationToFrames => {},
            Intrinsic::DurationFromFrames => {},
            Intrinsic::DurationFromSeconds => {},
            Intrinsic::BoolToString => {},
            Intrinsic::IntToString => {},
            Intrinsic::FloatToString => {},
            Intrinsic::BoolNot => {},
            Intrinsic::IntNeg => {},
            Intrinsic::FloatNeg => {},
            Intrinsic::IntAdd => {},
            Intrinsic::FloatAdd => {},
            Intrinsic::StringAdd => {},
            Intrinsic::ListJoin => {},
            Intrinsic::IntSub => {},
            Intrinsic::FloatSub => {},
            Intrinsic::IntMul => {},
            Intrinsic::FloatMul => {},
            Intrinsic::IntDiv => {},
            Intrinsic::FloatDiv => {},
            Intrinsic::IntMod => {},
            Intrinsic::FloatMod => {},
            Intrinsic::IntPower => {},
            Intrinsic::FloatPower => {},
            Intrinsic::IntMoreThan => {},
            Intrinsic::FloatMoreThan => {},
            Intrinsic::IntMoreThanOrEq => {},
            Intrinsic::FloatMoreThanOrEq => {},
            Intrinsic::IntLessThan => {},
            Intrinsic::FloatLessThan => {},
            Intrinsic::IntLessThanOrEq => {},
            Intrinsic::FloatLessThanOrEq => {},
            Intrinsic::BoolEq => {},
            Intrinsic::IntEq => {},
            Intrinsic::FloatEq => {},
            Intrinsic::StringEq => {},
            Intrinsic::BoolNeq => {},
            Intrinsic::IntNeq => {},
            Intrinsic::FloatNeq => {},
            Intrinsic::StringNeq => {},
            Intrinsic::ListIndex => {},
            Intrinsic::StringLength => {},
            Intrinsic::StringToInt => {},
            Intrinsic::StringToFloat => {},
            Intrinsic::StringToLowercase => {},
            Intrinsic::StringToUppercase => {},
            Intrinsic::StringStrip => {},
            Intrinsic::ListLength => {},
            Intrinsic::ListAdd => {},
            Intrinsic::ListRemove => {},
            Intrinsic::ForeverDuration => {},
        }
    }

    /// How the intrinsic is written in source code.
    pub fn to_string(self) -> (res: String)
        ensures
            res@ == self.spec_name(),
    {
        match self {
            Intrinsic::Invalid => {
                proof {
                    reveal_strlit("invalid");
                }
                String::from_str("invalid")
            },
            Intrinsic::RenderRectangle => {
                proof {
                    reveal_strlit("render_rectangle");
                }
                String::from_str("render_rectangle")
            },
            Intrinsic::RenderCircle => {
                proof {
                    reveal_strlit("render_circle");
                }
                String::from_str("render_circle")
            },
            Intrinsic::RenderChar => {
                proof {
                    reveal_strlit("render_char");
                }
                String::from_str("render_char")
            },
            Intrinsic::CreateTextChars => {
                proof {
                    reveal_strlit("create_text_chars");
                }
                String::from_str("create_text_chars")
            },
            Intrinsic::IntAbs => {
                proof {
                    reveal_strlit("int_abs");
                }
                String::from_str("int_abs")
            },
            Intrinsic::FloatAbs => {
                proof {
                    reveal_strlit("float_abs");
                }
                String::from_str("float_abs")
            },
            Intrinsic::FloatSqrt => {
                proof {
                    reveal_strlit("float_sqrt");
                }
                String::from_str("float_sqrt")
            },
            Intrinsic::FloatSin => {
                proof {
                    reveal_strlit("float_sin");
                }
                String::from_str("float_sin")
            },
            Intrinsic::FloatCos => {
                proof {
                    reveal_strlit("float_cos");
                }
                String::from_str("float_cos")
            },
            Intrinsic::FloatTan => {
                proof {
                    reveal_strlit("float_tan");
                }
                String::from_str("float_tan")
            },
            Intrinsic::FloatAsin => {
                proof {
                    reveal_strlit("float_asin");
                }
                String::from_str("float_asin")
            },
            Intrinsic::FloatAcos => {
                proof {
                    reveal_strlit("float_acos");
                }
                String::from_str("float_acos")
            },
            Intrinsic::FloatAtan => {
                proof {
                    reveal_strlit("float_atan");
                }
                String::from_str("float_atan")
            },
            Intrinsic::FloatAtan2 => {
                proof {
                    reveal_strlit("float_atan2");
                }
                String::from_str("float_atan2")
            },
            Intrinsic::FloatLog => {
                proof {
                    reveal_strlit("float_log");
                }
                String::from_str("float_log")
            },
            Intrinsic::FloatRound => {
                proof {
                    reveal_strlit("float_round");
                }
                String::from_str("float_round")
            },
            Intrinsic::FloatCeil => {
                proof {
                    reveal_strlit("float_ceil");
                }
                String::from_str("float_ceil")
            },
            Intrinsic::FloatFloor => {
                proof {
                    reveal_strlit("float_floor");
                }
                String::from_str("float_floor")
            },
            Intrinsic::IntToFloat => {
                proof {
                    reveal_strlit("int_to_float");
                }
                String::from_str("int_to_float")
            },
            Intrinsic::DurationToFrames => {
                proof {
                    reveal_strlit("duration_to_frames");
                }
                String::from_str("duration_to_frames")
            },
            Intrinsic::DurationFromFrames => {
                proof {
                    reveal_strlit("duration_from_frames");
                }
                String::from_str("duration_from_frames")
            },
            Intrinsic::DurationFromSeconds => {
                proof {
                    reveal_strlit("duration_from_seconds");
                }
                String::from_str("duration_from_seconds")
            },
            Intrinsic::BoolToString => {
                proof {
                    reveal_strlit("bool_to_string");
                }
                String::from_str("bool_to_string")
            },
            Intrinsic::IntToString => {
                proof {
                    reveal_strlit("int_to_string");
                }
                String::from_str("int_to_string")
            },
            Intrinsic::FloatToString => {
                proof {
                    reveal_strlit("float_to_string");
                }
                String::from_str("float_to_string")
            },
            Intrinsic::BoolNot => {
                proof {
                    reveal_strlit("bool_not");
                }
                String::from_str("bool_not")
            },
            Intrinsic::IntNeg => {
                proof {
                    reveal_strlit("int_neg");
                }
                String::from_str("int_neg")
            },
            Intrinsic::FloatNeg => {
                proof {
                    reveal_strlit("float_neg");
                }
                String::from_str("float_neg")
            },
            Intrinsic::IntAdd => {
                proof {
                    reveal_strlit("int_add");
                }
                String::from_str("int_add")
            },
            Intrinsic::FloatAdd => {
                proof {
                    reveal_strlit("float_add");
                }
                String::from_str("float_add")
            },
            Intrinsic::StringAdd => {
                proof {
                    reveal_strlit("string_add");
                }
                String::from_str("string_add")
            },
            Intrinsic::ListJoin => {
                proof {
                    reveal_strlit("list_join");
                }
                String::from_str("list_join")
            },
            Intrinsic::IntSub => {
                proof {
                    reveal_strlit("int_sub");
                }
                String::from_str("int_sub")
            },
            Intrinsic::FloatSub => {
                proof {
                    reveal_strlit("float_sub");
                }
                String::from_str("float_sub")
            },
            Intrinsic::IntMul => {
                proof {
                    reveal_strlit("int_mul");
                }
                String::from_str("int_mul")
            },
            Intrinsic::FloatMul => {
                proof {
                    reveal_strlit("float_mul");
                }
                String::from_str("float_mul")
            },
            Intrinsic::IntDiv => {
                proof {
                    reveal_strlit("int_div");
                }
                String::from_str("int_div")
            },
            Intrinsic::FloatDiv => {
                proof {
                    reveal_strlit("float_div");
                }
                String::from_str("float_div")
            },
            Intrinsic::IntMod => {
                proof {
                    reveal_strlit("int_mod");
                }
                String::from_str("int_mod")
            },
            Intrinsic::FloatMod => {
                proof {
                    reveal_strlit("float_mod");
                }
                String::from_str("float_mod")
            },
            Intrinsic::IntPower => {
                proof {
                    reveal_strlit("int_power");
                }
                String::from_str("int_power")
            },
            Intrinsic::FloatPower => {
                proof {
                    reveal_strlit("float_power");
                }
                String::from_str("float_power")
            },
            Intrinsic::IntMoreThan => {
                proof {
                    reveal_strlit("int_more_than");
                }
                String::from_str("int_more_than")
            },
            Intrinsic::FloatMoreThan => {
                proof {
                    reveal_strlit("float_more_than");
                }
                String::from_str("float_more_than")
            },
            Intrinsic::IntMoreThanOrEq => {
                proof {
                    reveal_strlit("int_more_than_or_eq");
                }
                String::from_str("int_more_than_or_eq")
            },
            Intrinsic::FloatMoreThanOrEq => {
                proof {
                    reveal_strlit("float_more_than_or_eq");
                }
                String::from_str("float_more_than_or_eq")
            },
            Intrinsic::IntLessThan => {
                proof {
                    reveal_strlit("int_less_than");
                }
                String::from_str("int_less_than")
            },
            Intrinsic::FloatLessThan => {
                proof {
                    reveal_strlit("float_less_than");
                }
                String::from_str("float_less_than")
            },
            Intrinsic::IntLessThanOrEq => {
                proof {
                    reveal_strlit("int_less_than_or_eq");
                }
                String::from_str("int_less_than_or_eq")
            },
            Intrinsic::FloatLessThanOrEq => {
                proof {
                    reveal_strlit("float_less_than_or_eq");
                }
                String::from_str("float_less_than_or_eq")
            },
            Intrinsic::BoolEq => {
                proof {
                    reveal_strlit("bool_eq");
                }
                String::from_str("bool_eq")
            },
            Intrinsic::IntEq => {
                proof {
                    reveal_strlit("int_eq");
                }
                String::from_str("int_eq")
            },
            Intrinsic::FloatEq => {
                proof {
                    reveal_strlit("float_eq");
                }
                String::from_str("float_eq")
            },
            Intrinsic::StringEq => {
                proof {
                    reveal_strlit("string_eq");
                }
                String::from_str("string_eq")
            },
            Intrinsic::BoolNeq => {
                proof {
                    reveal_strlit("bool_neq");
                }
                String::from_str("bool_neq")
            },
            Intrinsic::IntNeq => {
                proof {
                    reveal_strlit("int_neq");
                }
                String::from_str("int_neq")
            },
            Intrinsic::FloatNeq => {
                proof {
                    reveal_strlit("float_neq");
                }
                String::from_str("float_neq")
            },
            Intrinsic::StringNeq => {
                proof {
                    reveal_strlit("string_neq");
                }
                String::from_str("string_neq")
            },
            Intrinsic::ListIndex => {
                proof {
                    reveal_strlit("list_index");
                }
                String::from_str("list_index")
            },
            Intrinsic::StringLength => {
                proof {
                    reveal_strlit("string_length");
                }
                String::from_str("string_length")
            },
            Intrinsic::StringToInt => {
                proof {
                    reveal_strlit("string_to_int");
                }
                String::from_str("string_to_int")
            },
            Intrinsic::StringToFloat => {
                proof {
                    reveal_strlit("string_to_float");
                }
                String::from_str("string_to_float")
            },
            Intrinsic::StringToLowercase => {
                proof {
                    reveal_strlit("string_to_lowercase");
                }
                String::from_str("string_to_lowercase")
            },
            Intrinsic::StringToUppercase => {
                proof {
                    reveal_strlit("string_to_uppercase");
                }
                String::from_str("string_to_uppercase")
            },
            Intrinsic::StringStrip => {
                proof {
                    reveal_strlit("string_strip");
                }
                String::from_str("string_strip")
            },
            Intrinsic::ListLength => {
                proof {
                    reveal_strlit("list_length");
                }
                String::from_str("list_length")
            },
            Intrinsic::ListAdd => {
                proof {
                    reveal_strlit("list_add");
                }
                String::from_str("list_add")
            },
            Intrinsic::ListRemove => {
                proof {
                    reveal_strlit("list_remove");
                }
                String::from_str("list_remove")
            },
            Intrinsic::ForeverDuration => {
                proof {
                    reveal_strlit("forever_duration");
                }
                String::from_str("forever_duration")
            },
        }
    }

    fn decode_chars(v: &Vec<char>) -> (res: Option<Intrinsic>)
        ensures
            res == Self::spec_decode(v@),
    {
        let n = v.len();
        if n == 7 && v[0] == 'i' && v[1] == 'n' && v[2] == 'v' && v[3] == 'a' && v[4] == 'l' && v[5] == 'i' && v[6] == 'd' {
            Some(Intrinsic::Invalid)
        } else if n == 16 && v[0] == 'r' && v[1] == 'e' && v[2] == 'n' && v[3] == 'd' && v[4] == 'e' && v[5] == 'r' && v[6] == '_' && v[7] == 'r' && v[8] == 'e' && v[9] == 'c' && v[10] == 't' && v[11] == 'a' && v[12] == 'n' && v[13] == 'g' && v[14] == 'l' && v[15] == 'e' {
            Some(Intrinsic::RenderRectangle)
        } else if n == 13 && v[0] == 'r' && v[1] == 'e' && v[2] == 'n' && v[3] == 'd' && v[4] == 'e' && v[5] == 'r' && v[6] == '_' && v[7] == 'c' && v[8] == 'i' && v[9] == 'r' && v[10] == 'c' && v[11] == 'l' && v[12] == 'e' {
            Some(Intrinsic::RenderCircle)
        } else if n == 11 && v[0] == 'r' && v[1] == 'e' && v[2] == 'n' && v[3] == 'd' && v[4] == 'e' && v[5] == 'r' && v[6] == '_' && v[7] == 'c' && v[8] == 'h' && v[9] == 'a' && v[10] == 'r' {
            Some(Intrinsic::RenderChar)
        } else if n == 17 && v[0] == 'c' && v[1] == 'r' && v[2] == 'e' && v[3] == 'a' && v[4] == 't' && v[5] == 'e' && v[6] == '_' && v[7] == 't' && v[8] == 'e' && v[9] == 'x' && v[10] == 't' && v[11] == '_' && v[12] == 'c' && v[13] == 'h' && v[14] == 'a' && v[15] == 'r' && v[16] == 's' {
            Some(Intrinsic::CreateTextChars)
        } else if n == 7 && v[0] == 'i' && v[1] == 'n' && v[2] == 't' && v[3] == '_' && v[4] == 'a' && v[5] == 'b' && v[6] == 's' {
            Some(Intrinsic::IntAbs)
        } else if n == 9 && v[0] == 'f' && v[1] == 'l' && v[2] == 'o' && v[3] == 'a' && v[4] == 't' && v[5] == '_' && v[6] == 'a' && v[7] == 'b' && v[8] == 's' {
            Some(Intrinsic::FloatAbs)
        } else if n == 10 && v[0] == 'f' && v[1] == 'l' && v[2] == 'o' && v[3] == 'a' && v[4] == 't' && v[5] == '_' && v[6] == 's' && v[7] == 'q' && v[8] == 'r' && v[9] == 't' {
            Some(Intrinsic::FloatSqrt)
        } else if n == 9 && v[0] == 'f' && v[1] == 'l' && v[2] == 'o' && v[3] == 'a' && v[4] == 't' && v[5] == '_' && v[6] == 's' && v[7] == 'i' && v[8] == 'n' {
            Some(Intrinsic::FloatSin)
        } else if n == 9 && v[0] == 'f' && v[1] == 'l' && v[2] == 'o' && v[3] == 'a' && v[4] == 't' && v[5] == '_' && v[6] == 'c' && v[7] == 'o' && v[8] == 's' {
            Some(Intrinsic::FloatCos)
        } else if n == 9 && v[0] == 'f' && v[1] == 'l' && v[2] == 'o' && v[3] == 'a' && v[4] == 't' && v[5] == '_' && v[6] == 't' && v[7] == 'a' && v[8] == 'n' {
            Some(Intrinsic::FloatTan)
        } else if n == 10 && v[0] == 'f' && v[1] == 'l' && v[2] == 'o' && v[3] == 'a' && v[4] == 't' && v[5] == '_' && v[6] == 'a' && v[7] == 's' && v[8] == 'i' && v[9] == 'n' {
            Some(Intrinsic::FloatAsin)
        } else if n == 10 && v[0] == 'f' && v[1] == 'l' && v[2] == 'o' && v[3] == 'a' && v[4] == 't' && v[5] == '_' && v[6] == 'a' && v[7] == 'c' && v[8] == 'o' && v[9] == 's' {
            Some(Intrinsic::FloatAcos)
        } else if n == 10 && v[0] == 'f' && v[1] == 'l' && v[2] == 'o' && v[3] == 'a' && v[4] == 't' && v[5] == '_' && v[6] == 'a' && v[7] == 't' && v[8] == 'a' && v[9] == 'n' {
            Some(Intrinsic::FloatAtan)
        } else if n == 11 && v[0] == 'f' && v[1] == 'l' && v[2] == 'o' && v[3] == 'a' && v[4] == 't' && v[5] == '_' && v[6] == 'a' && v[7] == 't' && v[8] == 'a' && v[9] == 'n' && v[10] == '2' {
            Some(Intrinsic::FloatAtan2)
        } else if n == 9 && v[0] == 'f' && v[1] == 'l' && v[2] == 'o' && v[3] == 'a' && v[4] == 't' && v[5] == '_' && v[6] == 'l' && v[7] == 'o' && v[8] == 'g' {
            Some(Intrinsic::FloatLog)
        } else if n == 11 && v[0] == 'f' && v[1] == 'l' && v[2] == 'o' && v[3] == 'a' && v[4] == 't' && v[5] == '_' && v[6] == 'r' && v[7] == 'o' && v[8] == 'u' && v[9] == 'n' && v[10] == 'd' {
            Some(Intrinsic::FloatRound)
        } else if n == 10 && v[0] == 'f' && v[1] == 'l' && v[2] == 'o' && v[3] == 'a' && v[4] == 't' && v[5] == '_' && v[6] == 'c' && v[7] == 'e' && v[8] == 'i' && v[9] == 'l' {
            Some(Intrinsic::FloatCeil)
        } else if n == 11 && v[0] == 'f' && v[1] == 'l' && v[2] == 'o' && v[3] == 'a' && v[4] == 't' && v[5] == '_' && v[6] == 'f' && v[7] == 'l' && v[8] == 'o' && v[9] == 'o' && v[10] == 'r' {
            Some(Intrinsic::FloatFloor)
        } else if n == 12 && v[0] == 'i' && v[1] == 'n' && v[2] == 't' && v[3] == '_' && v[4] == 't' && v[5] == 'o' && v[6] == '_' && v[7] == 'f' && v[8] == 'l' && v[9] == 'o' && v[10] == 'a' && v[11] == 't' {
            Some(Intrinsic::IntToFloat)
        } else if n == 18 && v[0] == 'd' && v[1] == 'u' && v[2] == 'r' && v[3] == 'a' && v[4] == 't' && v[5] == 'i' && v[6] == 'o' && v[7] == 'n' && v[8] == '_' && v[9] == 't' && v[10] == 'o' && v[11] == '_' && v[12] == 'f' && v[13] == 'r' && v[14] == 'a' && v[15] == 'm' && v[16] == 'e' && v[17] == 's' {
            Some(Intrinsic::DurationToFrames)
        } else if n == 20 && v[0] == 'd' && v[1] == 'u' && v[2] == 'r' && v[3] == 'a' && v[4] == 't' && v[5] == 'i' && v[6] == 'o' && v[7] == 'n' && v[8] == '_' && v[9] == 'f' && v[10] == 'r' && v[11] == 'o' && v[12] == 'm' && v[13] == '_' && v[14] == 'f' && v[15] == 'r' && v[16] == 'a' && v[17] == 'm' && v[18] == 'e' && v[19] == 's' {
            Some(Intrinsic::DurationFromFrames)
        } else if n == 21 && v[0] == 'd' && v[1] == 'u' && v[2] == 'r' && v[3] == 'a' && v[4] == 't' && v[5] == 'i' && v[6] == 'o' && v[7] == 'n' && v[8] == '_' && v[9] == 'f' && v[10] == 'r' && v[11] == 'o' && v[12] == 'm' && v[13] == '_' && v[14] == 's' && v[15] == 'e' && v[16] == 'c' && v[17] == 'o' && v[18] == 'n' && v[19] == 'd' && v[20] == 's' {
            Some(Intrinsic::DurationFromSeconds)
        } else if n == 14 && v[0] == 'b' && v[1] == 'o' && v[2] == 'o' && v[3] == 'l' && v[4] == '_' && v[5] == 't' && v[6] == 'o' && v[7] == '_' && v[8] == 's' && v[9] == 't' && v[10] == 'r' && v[11] == 'i' && v[12] == 'n' && v[13] == 'g' {
            Some(Intrinsic::BoolToString)
        } else if n == 13 && v[0] == 'i' && v[1] == 'n' && v[2] == 't' && v[3] == '_' && v[4] == 't' && v[5] == 'o' && v[6] == '_' && v[7] == 's' && v[8] == 't' && v[9] == 'r' && v[10] == 'i' && v[11] == 'n' && v[12] == 'g' {
            Some(Intrinsic::IntToString)
        } else if n == 15 && v[0] == 'f' && v[1] == 'l' && v[2] == 'o' && v[3] == 'a' && v[4] == 't' && v[5] == '_' && v[6] == 't' && v[7] == 'o' && v[8] == '_' && v[9] == 's' && v[10] == 't' && v[11] == 'r' && v[12] == 'i' && v[13] == 'n' && v[14] == 'g' {
            Some(Intrinsic::FloatToString)
        } else if n == 8 && v[0] == 'b' && v[1] == 'o' && v[2] == 'o' && v[3] == 'l' && v[4] == '_' && v[5] == 'n' && v[6] == 'o' && v[7] == 't' {
            Some(Intrinsic::BoolNot)
        } else if n == 7 && v[0] == 'i' && v[1] == 'n' && v[2] == 't' && v[3] == '_' && v[4] == 'n' && v[5] == 'e' && v[6] == 'g' {
            Some(Intrinsic::IntNeg)
        } else if n == 9 && v[0] == 'f' && v[1] == 'l' && v[2] == 'o' && v[3] == 'a' && v[4] == 't' && v[5] == '_' && v[6] == 'n' && v[7] == 'e' && v[8] == 'g' {
            Some(Intrinsic::FloatNeg)
        } else if n == 7 && v[0] == 'i' && v[1] == 'n' && v[2] == 't' && v[3] == '_' && v[4] == 'a' && v[5] == 'd' && v[6] == 'd' {
            Some(Intrinsic::IntAdd)
        } else if n == 9 && v[0] == 'f' && v[1] == 'l' && v[2] == 'o' && v[3] == 'a' && v[4] == 't' && v[5] == '_' && v[6] == 'a' && v[7] == 'd' && v[8] == 'd' {
            Some(Intrinsic::FloatAdd)
        } else if n == 10 && v[0] == 's' && v[1] == 't' && v[2] == 'r' && v[3] == 'i' && v[4] == 'n' && v[5] == 'g' && v[6] == '_' && v[7] == 'a' && v[8] == 'd' && v[9] == 'd' {
            Some(Intrinsic::StringAdd)
        } else if n == 9 && v[0] == 'l' && v[1] == 'i' && v[2] == 's' && v[3] == 't' && v[4] == '_' && v[5] == 'j' && v[6] == 'o' && v[7] == 'i' && v[8] == 'n' {
            Some(Intrinsic::ListJoin)
        } else if n == 7 && v[0] == 'i' && v[1] == 'n' && v[2] == 't' && v[3] == '_' && v[4] == 's' && v[5] == 'u' && v[6] == 'b' {
            Some(Intrinsic::IntSub)
        } else if n == 9 && v[0] == 'f' && v[1] == 'l' && v[2] == 'o' && v[3] == 'a' && v[4] == 't' && v[5] == '_' && v[6] == 's' && v[7] == 'u' && v[8] == 'b' {
            Some(Intrinsic::FloatSub)
        } else if n == 7 && v[0] == 'i' && v[1] == 'n' && v[2] == 't' && v[3] == '_' && v[4] == 'm' && v[5] == 'u' && v[6] == 'l' {
            Some(Intrinsic::IntMul)
        } else if n == 9 && v[0] == 'f' && v[1] == 'l' && v[2] == 'o' && v[3] == 'a' && v[4] == 't' && v[5] == '_' && v[6] == 'm' && v[7] == 'u' && v[8] == 'l' {
            Some(Intrinsic::FloatMul)
        } else if n == 7 && v[0] == 'i' && v[1] == 'n' && v[2] == 't' && v[3] == '_' && v[4] == 'd' && v[5] == 'i' && v[6] == 'v' {
            Some(Intrinsic::IntDiv)
        } else if n == 9 && v[0] == 'f' && v[1] == 'l' && v[2] == 'o' && v[3] == 'a' && v[4] == 't' && v[5] == '_' && v[6] == 'd' && v[7] == 'i' && v[8] == 'v' {
            Some(Intrinsic::FloatDiv)
        } else if n == 7 && v[0] == 'i' && v[1] == 'n' && v[2] == 't' && v[3] == '_' && v[4] == 'm' && v[5] == 'o' && v[6] == 'd' {
            Some(Intrinsic::IntMod)
        } else if n == 9 && v[0] == 'f' && v[1] == 'l' && v[2] == 'o' && v[3] == 'a' && v[4] == 't' && v[5] == '_' && v[6] == 'm' && v[7] == 'o' && v[8] == 'd' {
            Some(Intrinsic::FloatMod)
        } else if n == 9 && v[0] == 'i' && v[1] == 'n' && v[2] == 't' && v[3] == '_' && v[4] == 'p' && v[5] == 'o' && v[6] == 'w' && v[7] == 'e' && v[8] == 'r' {
            Some(Intrinsic::IntPower)
        } else if n == 11 && v[0] == 'f' && v[1] == 'l' && v[2] == 'o' && v[3] == 'a' && v[4] == 't' && v[5] == '_' && v[6] == 'p' && v[7] == 'o' && v[8] == 'w' && v[9] == 'e' && v[10] == 'r' {
            Some(Intrinsic::FloatPower)
        } else if n == 13 && v[0] == 'i' && v[1] == 'n' && v[2] == 't' && v[3] == '_' && v[4] == 'm' && v[5] == 'o' && v[6] == 'r' && v[7] == 'e' && v[8] == '_' && v[9] == 't' && v[10] == 'h' && v[11] == 'a' && v[12] == 'n' {
            Some(Intrinsic::IntMoreThan)
        } else if n == 15 && v[0] == 'f' && v[1] == 'l' && v[2] == 'o' && v[3] == 'a' && v[4] == 't' && v[5] == '_' && v[6] == 'm' && v[7] == 'o' && v[8] == 'r' && v[9] == 'e' && v[10] == '_' && v[11] == 't' && v[12] == 'h' && v[13] == 'a' && v[14] == 'n' {
            Some(Intrinsic::FloatMoreThan)
        } else if n == 19 && v[0] == 'i' && v[1] == 'n' && v[2] == 't' && v[3] == '_' && v[4] == 'm' && v[5] == 'o' && v[6] == 'r' && v[7] == 'e' && v[8] == '_' && v[9] == 't' && v[10] == 'h' && v[11] == 'a' && v[12] == 'n' && v[13] == '_' && v[14] == 'o' && v[15] == 'r' && v[16] == '_' && v[17] == 'e' && v[18] == 'q' {
            Some(Intrinsic::IntMoreThanOrEq)
        } else if n == 21 && v[0] == 'f' && v[1] == 'l' && v[2] == 'o' && v[3] == 'a' && v[4] == 't' && v[5] == '_' && v[6] == 'm' && v[7] == 'o' && v[8] == 'r' && v[9] == 'e' && v[10] == '_' && v[11] == 't' && v[12] == 'h' && v[13] == 'a' && v[14] == 'n' && v[15] == '_' && v[16] == 'o' && v[17] == 'r' && v[18] == '_' && v[19] == 'e' && v[20] == 'q' {
            Some(Intrinsic::FloatMoreThanOrEq)
        } else if n == 13 && v[0] == 'i' && v[1] == 'n' && v[2] == 't' && v[3] == '_' && v[4] == 'l' && v[5] == 'e' && v[6] == 's' && v[7] == 's' && v[8] == '_' && v[9] == 't' && v[10] == 'h' && v[11] == 'a' && v[12] == 'n' {
            Some(Intrinsic::IntLessThan)
        } else if n == 15 && v[0] == 'f' && v[1] == 'l' && v[2] == 'o' && v[3] == 'a' && v[4] == 't' && v[5] == '_' && v[6] == 'l' && v[7] == 'e' && v[8] == 's' && v[9] == 's' && v[10] == '_' && v[11] == 't' && v[12] == 'h' && v[13] == 'a' && v[14] == 'n' {
            Some(Intrinsic::FloatLessThan)
        } else if n == 19 && v[0] == 'i' && v[1] == 'n' && v[2] == 't' && v[3] == '_' && v[4] == 'l' && v[5] == 'e' && v[6] == 's' && v[7] == 's' && v[8] == '_' && v[9] == 't' && v[10] == 'h' && v[11] == 'a' && v[12] == 'n' && v[13] == '_' && v[14] == 'o' && v[15] == 'r' && v[16] == '_' && v[17] == 'e' && v[18] == 'q' {
            Some(Intrinsic::IntLessThanOrEq)
        } else if n == 21 && v[0] == 'f' && v[1] == 'l' && v[2] == 'o' && v[3] == 'a' && v[4] == 't' && v[5] == '_' && v[6] == 'l' && v[7] == 'e' && v[8] == 's' && v[9] == 's' && v[10] == '_' && v[11] == 't' && v[12] == 'h' && v[13] == 'a' && v[14] == 'n' && v[15] == '_' && v[16] == 'o' && v[17] == 'r' && v[18] == '_' && v[19] == 'e' && v[20] == 'q' {
            Some(Intrinsic::FloatLessThanOrEq)
        } else if n == 7 && v[0] == 'b' && v[1] == 'o' && v[2] == 'o' && v[3] == 'l' && v[4] == '_' && v[5] == 'e' && v[6] == 'q' {
            Some(Intrinsic::BoolEq)
        } else if n == 6 && v[0] == 'i' && v[1] == 'n' && v[2] == 't' && v[3] == '_' && v[4] == 'e' && v[5] == 'q' {
            Some(Intrinsic::IntEq)
        } else if n == 8 && v[0] == 'f' && v[1] == 'l' && v[2] == 'o' && v[3] == 'a' && v[4] == 't' && v[5] == '_' && v[6] == 'e' && v[7] == 'q' {
            Some(Intrinsic::FloatEq)
        } else if n == 9 && v[0] == 's' && v[1] == 't' && v[2] == 'r' && v[3] == 'i' && v[4] == 'n' && v[5] == 'g' && v[6] == '_' && v[7] == 'e' && v[8] == 'q' {
            Some(Intrinsic::StringEq)
        } else if n == 8 && v[0] == 'b' && v[1] == 'o' && v[2] == 'o' && v[3] == 'l' && v[4] == '_' && v[5] == 'n' && v[6] == 'e' && v[7] == 'q' {
            Some(Intrinsic::BoolNeq)
        } else if n == 7 && v[0] == 'i' && v[1] == 'n' && v[2] == 't' && v[3] == '_' && v[4] == 'n' && v[5] == 'e' && v[6] == 'q' {
            Some(Intrinsic::IntNeq)
        } else if n == 9 && v[0] == 'f' && v[1] == 'l' && v[2] == 'o' && v[3] == 'a' && v[4] == 't' && v[5] == '_' && v[6] == 'n' && v[7] == 'e' && v[8] == 'q' {
            Some(Intrinsic::FloatNeq)
        } else if n == 10 && v[0] == 's' && v[1] == 't' && v[2] == 'r' && v[3] == 'i' && v[4] == 'n' && v[5] == 'g' && v[6] == '_' && v[7] == 'n' && v[8] == 'e' && v[9] == 'q' {
            Some(Intrinsic::StringNeq)
        } else if n == 10 && v[0] == 'l' && v[1] == 'i' && v[2] == 's' && v[3] == 't' && v[4] == '_' && v[5] == 'i' && v[6] == 'n' && v[7] == 'd' && v[8] == 'e' && v[9] == 'x' {
            Some(Intrinsic::ListIndex)
        } else if n == 13 && v[0] == 's' && v[1] == 't' && v[2] == 'r' && v[3] == 'i' && v[4] == 'n' && v[5] == 'g' && v[6] == '_' && v[7] == 'l' && v[8] == 'e' && v[9] == 'n' && v[10] == 'g' && v[11] == 't' && v[12] == 'h' {
            Some(Intrinsic::StringLength)
        } else if n == 13 && v[0] == 's' && v[1] == 't' && v[2] == 'r' && v[3] == 'i' && v[4] == 'n' && v[5] == 'g' && v[6] == '_' && v[7] == 't' && v[8] == 'o' && v[9] == '_' && v[10] == 'i' && v[11] == 'n' && v[12] == 't' {
            Some(Intrinsic::StringToInt)
        } else if n == 15 && v[0] == 's' && v[1] == 't' && v[2] == 'r' && v[3] == 'i' && v[4] == 'n' && v[5] == 'g' && v[6] == '_' && v[7] == 't' && v[8] == 'o' && v[9] == '_' && v[10] == 'f' && v[11] == 'l' && v[12] == 'o' && v[13] == 'a' && v[14] == 't' {
            Some(Intrinsic::StringToFloat)
        } else if n == 19 && v[0] == 's' && v[1] == 't' && v[2] == 'r' && v[3] == 'i' && v[4] == 'n' && v[5] == 'g' && v[6] == '_' && v[7] == 't' && v[8] == 'o' && v[9] == '_' && v[10] == 'l' && v[11] == 'o' && v[12] == 'w' && v[13] == 'e' && v[14] == 'r' && v[15] == 'c' && v[16] == 'a' && v[17] == 's' && v[18] == 'e' {
            Some(Intrinsic::StringToLowercase)
        } else if n == 19 && v[0] == 's' && v[1] == 't' && v[2] == 'r' && v[3] == 'i' && v[4] == 'n' && v[5] == 'g' && v[6] == '_' && v[7] == 't' && v[8] == 'o' && v[9] == '_' && v[10] == 'u' && v[11] == 'p' && v[12] == 'p' && v[13] == 'e' && v[14] == 'r' && v[15] == 'c' && v[16] == 'a' && v[17] == 's' && v[18] == 'e' {
            Some(Intrinsic::StringToUppercase)
        } else if n == 12 && v[0] == 's' && v[1] == 't' && v[2] == 'r' && v[3] == 'i' && v[4] == 'n' && v[5] == 'g' && v[6] == '_' && v[7] == 's' && v[8] == 't' && v[9] == 'r' && v[10] == 'i' && v[11] == 'p' {
            Some(Intrinsic::StringStrip)
        } else if n == 11 && v[0] == 'l' && v[1] == 'i' && v[2] == 's' && v[3] == 't' && v[4] == '_' && v[5] == 'l' && v[6] == 'e' && v[7] == 'n' && v[8] == 'g' && v[9] == 't' && v[10] == 'h' {
            Some(Intrinsic::ListLength)
        } else if n == 8 && v[0] == 'l' && v[1] == 'i' && v[2] == 's' && v[3] == 't' && v[4] == '_' && v[5] == 'a' && v[6] == 'd' && v[7] == 'd' {
            Some(Intrinsic::ListAdd)
        } else if n == 11 && v[0] == 'l' && v[1] == 'i' && v[2] == 's' && v[3] == 't' && v[4] == '_' && v[5] == 'r' && v[6] == 'e' && v[7] == 'm' && v[8] == 'o' && v[9] == 'v' && v[10] == 'e' {
            Some(Intrinsic::ListRemove)
        } else if n == 16 && v[0] == 'f' && v[1] == 'o' && v[2] == 'r' && v[3] == 'e' && v[4] == 'v' && v[5] == 'e' && v[6] == 'r' && v[7] == '_' && v[8] == 'd' && v[9] == 'u' && v[10] == 'r' && v[11] == 'a' && v[12] == 't' && v[13] == 'i' && v[14] == 'o' && v[15] == 'n' {
            Some(Intrinsic::ForeverDuration)
        } else {
            None
        }
    }

    /// The intrinsic written `s`, or an error if no intrinsic is written so.
    pub fn from_str(s: &str) -> (res: Result<Intrinsic, ParseIntrinsicError>)
        ensures
            res matches Ok(sym) ==> sym.spec_name() == s@,
            res is Err ==> forall|sym: Intrinsic| #[trigger] sym.spec_name() != s@,
    {
        let v = str_chars(s);
        match Self::decode_chars(&v) {
            Some(sym) => {
                proof {
                    assert forall|i: int| 0 <= i < s@.len() implies s@[i] == sym.spec_name()[i] by {
                        reveal(Intrinsic::spec_decode);
                    }
                }
                Ok(sym)
            },
            None => {
                proof {
                    assert forall|sym: Intrinsic| #[trigger] sym.spec_name() != s@ by {
                        sym.lemma_decode_name();
                    }
                }
                Err(ParseIntrinsicError::VariantNotFound)
            },
        }
    }
}

} // verus!
