//! The instruction set: operations, their opcodes, their byte encodings,
//! and the mnemonic grammar that the assembler parses.

use vstd::prelude::*;

verus! {

/// One operation of the instruction set.
///
/// Each operation has a fixed 1-byte opcode (`0x01` through `0x09`) and a
/// fixed encoding: `Push` encodes as `[opcode, operand]`, every other
/// operation encodes as `[opcode]` alone.
#[derive(Clone, Copy, Debug, PartialEq, Eq, Structural)]
pub enum Op {
    /// Push the operand onto the stack.
    Push(u8),
    /// Pop two values and push their wraparound sum.
    Add,
    /// Pop two values and push their wraparound difference.
    Sub,
    /// Pop two values and push their wraparound product.
    Mul,
    /// Pop the top value and emit it.
    Print,
    /// Emit the top value without popping it.
    PrintTop,
    /// Push a copy of the top value.
    Dup,
    /// Exchange the top two values.
    Swap,
    /// Pop the top value and discard it.
    Drop,
}

/// A source line that does not belong to the mnemonic grammar.
#[derive(Clone, Copy, Debug, PartialEq, Eq, Structural)]
pub enum TranslateError {
    /// The line's first token names no operation.
    UnknownMnemonic,
    /// The line's first token names an operation, but the number of tokens
    /// does not fit that operation's form.
    ArityMismatch,
    /// The operand of `PUSH` is not a decimal integer in `[0, 255]`.
    BadOperand,
}

/// The fixed opcode of each operation.
pub open spec fn spec_opcode(op: Op) -> u8 {
    match op {
        Op::Push(_) => 0x01,
        Op::Add => 0x02,
        Op::Sub => 0x03,
        Op::Mul => 0x04,
        Op::Print => 0x05,
        Op::PrintTop => 0x06,
        Op::Dup => 0x07,
        Op::Swap => 0x08,
        Op::Drop => 0x09,
    }
}

/// The byte encoding of one operation: `Push(v)` is `[0x01, v]`,
/// every other operation is its opcode alone.
pub open spec fn spec_encoding(op: Op) -> Seq<u8> {
    match op {
        Op::Push(v) => seq![0x01u8, v],
        _ => seq![spec_opcode(op)],
    }
}

/// Decoding a complete single-operation encoding, the inverse of
/// [`spec_encoding`]: `None` when the bytes are not exactly one encoded
/// operation.
pub open spec fn spec_decode(bytes: Seq<u8>) -> Option<Op> {
    if bytes.len() == 2 && bytes[0] == 0x01 {
        Some(Op::Push(bytes[1]))
    } else if bytes.len() == 1 {
        match bytes[0] {
            0x02u8 => Some(Op::Add),
            0x03u8 => Some(Op::Sub),
            0x04u8 => Some(Op::Mul),
            0x05u8 => Some(Op::Print),
            0x06u8 => Some(Op::PrintTop),
            0x07u8 => Some(Op::Dup),
            0x08u8 => Some(Op::Swap),
            0x09u8 => Some(Op::Drop),
            _ => None,
        }
    } else {
        None
    }
}

/// Round trip through the bytecode: decoding an operation's encoding
/// yields the operation back, for every operation.
pub proof fn lemma_decode_encoding(op: Op)
    ensures
        spec_decode(spec_encoding(op)) == Some(op),
{
    match op {
        Op::Push(v) => {
            assert(spec_encoding(op) == seq![0x01u8, v]);
            assert(spec_encoding(op).len() == 2);
            assert(spec_encoding(op)[0] == 0x01u8);
            assert(spec_encoding(op)[1] == v);
        },
        _ => {
            assert(spec_encoding(op).len() == 1);
            assert(spec_encoding(op)[0] == spec_opcode(op));
        },
    }
}

/// An ASCII decimal digit.
pub open spec fn is_digit(c: char) -> bool {
    48 <= c as u32 <= 57
}

/// The numeric value of one decimal digit.
pub open spec fn digit_val(c: char) -> int {
    c as u32 - 48
}

/// Whether the characters are one or more decimal digits.
pub open spec fn is_digits(s: Seq<char>) -> bool {
    s.len() > 0 && forall|i: int| 0 <= i < s.len() ==> is_digit(#[trigger] s[i])
}

/// The numeric value of a string of decimal digits.
pub open spec fn digits_val(s: Seq<char>) -> int
    decreases s.len(),
{
    if s.len() == 0 {
        0
    } else {
        digits_val(s.drop_last()) * 10 + digit_val(s.last())
    }
}

/// The operand grammar of `PUSH`: an optional leading `+`, then one or
/// more decimal digits whose value is at most 255.
pub open spec fn spec_parse_u8(s: Seq<char>) -> Option<u8> {
    let digits = if s.len() > 0 && s[0] == '+' {
        s.drop_first()
    } else {
        s
    };
    if is_digits(digits) && digits_val(digits) <= 255 {
        Some(digits_val(digits) as u8)
    } else {
        None
    }
}

/// Whether the token is one of the nine mnemonics.
pub open spec fn spec_mnemonic(t: Seq<char>) -> bool {
    ||| t == "PUSH"@
    ||| t == "ADD"@
    ||| t == "SUB"@
    ||| t == "MUL"@
    ||| t == "PRINT"@
    ||| t == "PRINT_TOP"@
    ||| t == "DUP"@
    ||| t == "SWAP"@
    ||| t == "DROP"@
}

/// The mnemonic grammar: which operation (or which error) a non-blank
/// line's tokens denote.
pub open spec fn spec_parse_op(tokens: Seq<Seq<char>>) -> Result<Op, TranslateError> {
    if tokens.len() == 1 {
        let t = tokens[0];
        if t == "ADD"@ {
            Ok(Op::Add)
        } else if t == "SUB"@ {
            Ok(Op::Sub)
        } else if t == "MUL"@ {
            Ok(Op::Mul)
        } else if t == "PRINT"@ {
            Ok(Op::Print)
        } else if t == "PRINT_TOP"@ {
            Ok(Op::PrintTop)
        } else if t == "DUP"@ {
            Ok(Op::Dup)
        } else if t == "SWAP"@ {
            Ok(Op::Swap)
        } else if t == "DROP"@ {
            Ok(Op::Drop)
        } else if t == "PUSH"@ {
            Err(TranslateError::ArityMismatch)
        } else {
            Err(TranslateError::UnknownMnemonic)
        }
    } else if tokens.len() == 2 && tokens[0] == "PUSH"@ {
        match spec_parse_u8(tokens[1]) {
            Some(v) => Ok(Op::Push(v)),
            None => Err(TranslateError::BadOperand),
        }
    } else if tokens.len() >= 2 && spec_mnemonic(tokens[0]) {
        Err(TranslateError::ArityMismatch)
    } else {
        Err(TranslateError::UnknownMnemonic)
    }
}

/// Character-for-character string equality.
pub fn str_eq(a: &str, b: &str) -> (eq: bool)
    ensures
        eq == (a@ == b@),
{
    let n = a.unicode_len();
    let m = b.unicode_len();
    if n != m {
        proof {
            assert(a@ != b@) by {
                if a@ == b@ {
                    assert(a@.len() == b@.len());
                }
            }
        }
        return false;
    }
    let mut i: usize = 0;
    while i < n
        invariant
            i <= n,
            n == a@.len(),
            n == b@.len(),
            forall|k: int| 0 <= k < i ==> a@[k] == b@[k],
        decreases n - i,
    {
        let ca = a.get_char(i);
        let cb = b.get_char(i);
        if ca != cb {
            proof {
                assert(a@ != b@) by {
                    if a@ == b@ {
                        assert(a@[i as int] == b@[i as int]);
                    }
                }
            }
            return false;
        }
        i += 1;
    }
    proof {
        assert(a@ =~= b@);
    }
    true
}

/// The value of every digit string is at least zero.
proof fn lemma_digits_val_nonneg(s: Seq<char>)
    requires
        forall|k: int| 0 <= k < s.len() ==> is_digit(#[trigger] s[k]),
    ensures
        digits_val(s) >= 0,
    decreases s.len(),
{
    if s.len() > 0 {
        lemma_digits_val_nonneg(s.drop_last());
    }
}

/// The value of a digit string is at least the value of any of its prefixes.
proof fn lemma_digits_val_prefix(s: Seq<char>, i: int)
    requires
        0 <= i <= s.len(),
        forall|k: int| 0 <= k < s.len() ==> is_digit(#[trigger] s[k]),
    ensures
        digits_val(s.subrange(0, i)) <= digits_val(s),
    decreases s.len() - i,
{
    if i == s.len() {
        assert(s.subrange(0, i) =~= s);
    } else {
        lemma_digits_val_prefix(s, i + 1);
        let longer = s.subrange(0, i + 1);
        assert(longer.drop_last() =~= s.subrange(0, i));
        lemma_digits_val_nonneg(s.subrange(0, i));
    }
}

/// Parse a decimal operand in `[0, 255]`, an optional leading `+`
/// permitted: `None` when the text is not such an integer.
pub fn parse_u8(t: &str) -> (val: Option<u8>)
    ensures
        val == spec_parse_u8(t@),
{
    let n = t.unicode_len();
    let start: usize = if n > 0 && t.get_char(0) == '+' {
        1
    } else {
        0
    };
    let ghost digits = if t@.len() > 0 && t@[0] == '+' {
        t@.drop_first()
    } else {
        t@
    };
    proof {
        assert(digits =~= t@.subrange(start as int, n as int));
    }
    if n == start {
        return None;
    }
    let mut i: usize = start;
    let mut acc: u32 = 0;
    while i < n
        invariant
            start <= i <= n,
            n == t@.len(),
            start <= 1,
            digits == (if t@.len() > 0 && t@[0] == '+' {
                t@.drop_first()
            } else {
                t@
            }),
            digits =~= t@.subrange(start as int, n as int),
            forall|k: int| start <= k < i ==> is_digit(#[trigger] t@[k]),
            acc <= 255,
            acc as int == digits_val(t@.subrange(start as int, i as int)),
        decreases n - i,
    {
        let c = t.get_char(i);
        let u = c as u32;
        if u < 48 || u > 57 {
            proof {
                assert(digits[i - start] == t@[i as int]);
                assert(!is_digits(digits));
            }
            return None;
        }
        let acc2: u32 = acc * 10 + (u - 48);
        proof {
            let prefix = t@.subrange(start as int, i + 1);
            assert(prefix.drop_last() =~= t@.subrange(start as int, i as int));
            assert(prefix.last() == t@[i as int]);
            assert(acc2 as int == digits_val(prefix));
        }
        if acc2 > 255 {
            proof {
                if is_digits(digits) {
                    assert(forall|k: int| 0 <= k < digits.len() ==> is_digit(
                        #[trigger] digits[k],
                    ));
                    assert(forall|k: int| start <= k < n ==> digits[k - start] == t@[k]);
                    lemma_digits_val_prefix(digits, i + 1 - start);
                    assert(digits.subrange(0, i + 1 - start) =~= t@.subrange(
                        start as int,
                        i + 1,
                    ));
                    assert(digits_val(digits) > 255);
                }
            }
            return None;
        }
        acc = acc2;
        i += 1;
    }
    proof {
        assert(t@.subrange(start as int, n as int) =~= digits);
        assert(forall|k: int| 0 <= k < digits.len() ==> is_digit(#[trigger] digits[k])) by {
            assert(forall|k: int| start <= k < n ==> digits[k - start] == t@[k]);
        }
        assert(is_digits(digits));
    }
    Some(acc as u8)
}

/// Round trip for every valid mnemonic line: whatever operation a line's
/// tokens parse to is recovered by decoding its own encoding.
pub proof fn lemma_parse_round_trip(tokens: Seq<Seq<char>>, op: Op)
    requires
        spec_parse_op(tokens) == Ok::<Op, TranslateError>(op),
    ensures
        spec_decode(spec_encoding(op)) == Some(op),
{
    lemma_decode_encoding(op);
}

impl Op {
    /// The fixed opcode of this operation.
    pub fn opcode(&self) -> (code: u8)
        ensures
            code == spec_opcode(*self),
    {
        match self {
            Op::Push(_) => 0x01,
            Op::Add => 0x02,
            Op::Sub => 0x03,
            Op::Mul => 0x04,
            Op::Print => 0x05,
            Op::PrintTop => 0x06,
            Op::Dup => 0x07,
            Op::Swap => 0x08,
            Op::Drop => 0x09,
        }
    }

    /// The byte encoding of this operation.
    pub fn to_bytecode(&self) -> (bytes: Vec<u8>)
        ensures
            bytes@ == spec_encoding(*self),
    {
        let mut bytes: Vec<u8> = Vec::new();
        bytes.push(self.opcode());
        match self {
            Op::Push(value) => {
                bytes.push(*value);
            },
            _ => {},
        }
        proof {
            assert(bytes@ =~= spec_encoding(*self));
        }
        bytes
    }

    /// Whether the token is one of the nine mnemonics.
    fn is_mnemonic(t: &str) -> (m: bool)
        ensures
            m == spec_mnemonic(t@),
    {
        str_eq(t, "PUSH") || str_eq(t, "ADD") || str_eq(t, "SUB") || str_eq(t, "MUL") || str_eq(
            t,
            "PRINT",
        ) || str_eq(t, "PRINT_TOP") || str_eq(t, "DUP") || str_eq(t, "SWAP") || str_eq(t, "DROP")
    }

    /// Match a line's whitespace-delimited tokens against the mnemonic
    /// grammar.
    pub fn from_parts(parts: &[&str]) -> (op: Result<Op, TranslateError>)
        ensures
            op == spec_parse_op(parts.deep_view()),
    {
        proof {
            assert(parts.deep_view().len() == parts@.len());
            assert(forall|k: int|
                0 <= k < parts@.len() ==> #[trigger] parts.deep_view()[k] == parts@[k]@);
        }
        if parts.len() == 1 {
            let t = parts[0];
            if str_eq(t, "ADD") {
                Ok(Op::Add)
            } else if str_eq(t, "SUB") {
                Ok(Op::Sub)
            } else if str_eq(t, "MUL") {
                Ok(Op::Mul)
            } else if str_eq(t, "PRINT") {
                Ok(Op::Print)
            } else if str_eq(t, "PRINT_TOP") {
                Ok(Op::PrintTop)
            } else if str_eq(t, "DUP") {
                Ok(Op::Dup)
            } else if str_eq(t, "SWAP") {
                Ok(Op::Swap)
            } else if str_eq(t, "DROP") {
                Ok(Op::Drop)
            } else if str_eq(t, "PUSH") {
                Err(TranslateError::ArityMismatch)
            } else {
                Err(TranslateError::UnknownMnemonic)
            }
        } else if parts.len() == 2 && str_eq(parts[0], "PUSH") {
            match parse_u8(parts[1]) {
                Some(v) => Ok(Op::Push(v)),
                None => Err(TranslateError::BadOperand),
            }
        } else if parts.len() >= 2 && Self::is_mnemonic(parts[0]) {
            Err(TranslateError::ArityMismatch)
        } else {
            Err(TranslateError::UnknownMnemonic)
        }
    }

    /// Decode a complete single-operation encoding, the inverse of
    /// [`Op::to_bytecode`].
    pub fn decode(bytes: &[u8]) -> (op: Option<Op>)
        ensures
            op == spec_decode(bytes@),
    {
        if bytes.len() == 2 && bytes[0] == 0x01 {
            Some(Op::Push(bytes[1]))
        } else if bytes.len() == 1 {
            match bytes[0] {
                0x02 => Some(Op::Add),
                0x03 => Some(Op::Sub),
                0x04 => Some(Op::Mul),
                0x05 => Some(Op::Print),
                0x06 => Some(Op::PrintTop),
                0x07 => Some(Op::Dup),
                0x08 => Some(Op::Swap),
                0x09 => Some(Op::Drop),
                _ => None,
            }
        } else {
            None
        }
    }
}

} // verus!
