//! The translator: assembly source text to a flat byte program.
//!
//! The source is split at newlines; each line is split at whitespace
//! (any Unicode White_Space character) into tokens; a blank line contributes
//! nothing; any other line must match the mnemonic grammar of
//! [`crate::op`], and its operation's encoding is appended to the
//! output.  Translation is all-or-nothing: the first malformed line is
//! the result, and no partial bytecode is returned.

use vstd::prelude::*;

use crate::op::{Op, TranslateError, spec_encoding, spec_parse_op};
use crate::vm::{Fault, run_from};

verus! {

/// Whitespace that separates tokens: the characters with the Unicode
/// White_Space property, the set `char::is_whitespace` accepts.
pub open spec fn is_space(c: char) -> bool {
    let u = c as u32;
    ||| u == 0x09
    ||| u == 0x0A
    ||| u == 0x0B
    ||| u == 0x0C
    ||| u == 0x0D
    ||| u == 0x20
    ||| u == 0x85
    ||| u == 0xA0
    ||| u == 0x1680
    ||| (0x2000 <= u && u <= 0x200A)
    ||| u == 0x2028
    ||| u == 0x2029
    ||| u == 0x202F
    ||| u == 0x205F
    ||| u == 0x3000
}

/// Whitespace that separates tokens: the characters with the Unicode
/// White_Space property, the set `char::is_whitespace` accepts.
fn is_space_char(c: char) -> (b: bool)
    ensures
        b == is_space(c),
{
    let u = c as u32;
    u == 0x09 || u == 0x0A || u == 0x0B || u == 0x0C || u == 0x0D || u == 0x20 || u == 0x85 || u
        == 0xA0 || u == 0x1680 || (0x2000 <= u && u <= 0x200A) || u == 0x2028 || u == 0x2029 || u
        == 0x202F || u == 0x205F || u == 0x3000
}

/// The index of the first whitespace character, or the length when there
/// is none: where the token that starts the text ends.
pub open spec fn token_end(s: Seq<char>) -> int
    decreases s.len(),
{
    if s.len() == 0 {
        0
    } else if is_space(s[0]) {
        0
    } else {
        1 + token_end(s.drop_first())
    }
}

/// Everything before [`token_end`] is token text, and a whitespace
/// character follows unless the text ends there.
proof fn lemma_token_end_chars(s: Seq<char>)
    ensures
        0 <= token_end(s) <= s.len(),
        forall|k: int| 0 <= k < token_end(s) ==> !is_space(#[trigger] s[k]),
        token_end(s) < s.len() ==> is_space(s[token_end(s)]),
    decreases s.len(),
{
    if s.len() > 0 && !is_space(s[0]) {
        lemma_token_end_chars(s.drop_first());
        assert(forall|k: int|
            1 <= k < token_end(s) ==> !is_space(#[trigger] s[k]) == !is_space(
                s.drop_first()[k - 1],
            ));
    }
}

/// The whitespace-delimited tokens of one line, in order.
pub open spec fn spec_tokens(s: Seq<char>) -> Seq<Seq<char>>
    decreases s.len(),
    via spec_tokens_decreases
{
    if s.len() == 0 {
        seq![]
    } else if is_space(s[0]) {
        spec_tokens(s.drop_first())
    } else {
        seq![s.subrange(0, token_end(s))] + spec_tokens(s.subrange(token_end(s), s.len() as int))
    }
}

#[via_fn]
proof fn spec_tokens_decreases(s: Seq<char>) {
    if s.len() > 0 && !is_space(s[0]) {
        lemma_token_end_chars(s);
        assert(token_end(s) == 1 + token_end(s.drop_first()));
        lemma_token_end_chars(s.drop_first());
    }
}

/// A scan that stops at the first whitespace character finds
/// [`token_end`].
proof fn lemma_token_end_scan(s: Seq<char>, j: int)
    requires
        0 <= j <= s.len(),
        forall|k: int| 0 <= k < j ==> !is_space(#[trigger] s[k]),
        j == s.len() || is_space(s[j]),
    ensures
        token_end(s) == j,
    decreases j,
{
    if j == 0 {
    } else {
        assert(!is_space(s[0]));
        assert(forall|k: int|
            0 <= k < j - 1 ==> !is_space(#[trigger] s.drop_first()[k]) == !is_space(s[k + 1]));
        lemma_token_end_scan(s.drop_first(), j - 1);
    }
}

/// The index of the first newline, or the length when there is none:
/// where the line that starts the text ends.
pub open spec fn line_end(s: Seq<char>) -> int
    decreases s.len(),
{
    if s.len() == 0 {
        0
    } else if s[0] == '\n' {
        0
    } else {
        1 + line_end(s.drop_first())
    }
}

/// Everything before [`line_end`] is line text, and a newline follows
/// unless the text ends there.
proof fn lemma_line_end_chars(s: Seq<char>)
    ensures
        0 <= line_end(s) <= s.len(),
        forall|k: int| 0 <= k < line_end(s) ==> #[trigger] s[k] != '\n',
        line_end(s) < s.len() ==> s[line_end(s)] == '\n',
    decreases s.len(),
{
    if s.len() > 0 && s[0] != '\n' {
        lemma_line_end_chars(s.drop_first());
        assert(forall|k: int|
            1 <= k < line_end(s) ==> (#[trigger] s[k] != '\n') == (s.drop_first()[k - 1] != '\n'));
    }
}

/// A scan that stops at the first newline finds [`line_end`].
proof fn lemma_line_end_scan(s: Seq<char>, j: int)
    requires
        0 <= j <= s.len(),
        forall|k: int| 0 <= k < j ==> #[trigger] s[k] != '\n',
        j == s.len() || s[j] == '\n',
    ensures
        line_end(s) == j,
    decreases j,
{
    if j == 0 {
    } else {
        assert(s[0] != '\n');
        assert(forall|k: int|
            0 <= k < j - 1 ==> (#[trigger] s.drop_first()[k] != '\n') == (s[k + 1] != '\n'));
        lemma_line_end_scan(s.drop_first(), j - 1);
    }
}

/// What one line contributes: nothing when the line is blank, the
/// encoding of its operation when its tokens fit the mnemonic grammar,
/// and the grammar's error otherwise.
pub open spec fn spec_assemble_line(line: Seq<char>) -> Result<Seq<u8>, TranslateError> {
    let tokens = spec_tokens(line);
    if tokens.len() == 0 {
        Ok(Seq::empty())
    } else {
        match spec_parse_op(tokens) {
            Ok(op) => Ok(spec_encoding(op)),
            Err(e) => Err(e),
        }
    }
}

/// Prepend already-assembled bytes to the rest of a translation.
pub open spec fn with_prefix(prefix: Seq<u8>, rest: Result<Seq<u8>, TranslateError>) -> Result<
    Seq<u8>,
    TranslateError,
> {
    match rest {
        Ok(tail) => Ok(prefix + tail),
        Err(e) => Err(e),
    }
}

/// The whole translation: the lines' contributions concatenated in
/// source order, or the error of the first malformed line.
pub open spec fn spec_assemble(src: Seq<char>) -> Result<Seq<u8>, TranslateError>
    decreases src.len(),
    via spec_assemble_decreases
{
    if src.len() == 0 {
        Ok(Seq::empty())
    } else {
        let cut = line_end(src);
        let rest = if cut < src.len() {
            src.subrange(cut + 1, src.len() as int)
        } else {
            Seq::empty()
        };
        match spec_assemble_line(src.subrange(0, cut)) {
            Ok(enc) => with_prefix(enc, spec_assemble(rest)),
            Err(e) => Err(e),
        }
    }
}

#[via_fn]
proof fn spec_assemble_decreases(src: Seq<char>) {
    if src.len() > 0 {
        lemma_line_end_chars(src);
    }
}

/// Split one line at whitespace into its tokens.
pub fn tokenize<'a>(line: &'a str) -> (tokens: Vec<&'a str>)
    ensures
        tokens.deep_view() == spec_tokens(line@),
{
    let n = line.unicode_len();
    let mut tokens: Vec<&'a str> = Vec::new();
    let mut i: usize = 0;
    proof {
        assert(line@.subrange(0, n as int) =~= line@);
        assert(tokens.deep_view() =~= Seq::<Seq<char>>::empty());
        assert(tokens.deep_view() + spec_tokens(line@) =~= spec_tokens(line@));
    }
    while i < n
        invariant
            i <= n,
            n == line@.len(),
            spec_tokens(line@) == tokens.deep_view() + spec_tokens(
                line@.subrange(i as int, n as int),
            ),
        decreases n - i,
    {
        let c = line.get_char(i);
        if is_space_char(c) {
            proof {
                assert(line@.subrange(i as int, n as int).drop_first() =~= line@.subrange(
                    i + 1,
                    n as int,
                ));
            }
            i += 1;
        } else {
            let mut j = i + 1;
            while j < n && !is_space_char(line.get_char(j))
                invariant
                    i < j <= n,
                    n == line@.len(),
                    forall|k: int| i <= k < j ==> !is_space(#[trigger] line@[k]),
                decreases n - j,
            {
                j += 1;
            }
            let token = line.substring_char(i, j);
            let ghost before = tokens.deep_view();
            tokens.push(token);
            proof {
                let rest = line@.subrange(i as int, n as int);
                assert(forall|k: int|
                    0 <= k < j - i ==> !is_space(#[trigger] rest[k]) == !is_space(
                        line@[i + k],
                    ));
                assert(j < n ==> is_space(rest[j - i]) == is_space(line@[j as int]));
                lemma_token_end_scan(rest, j - i);
                assert(rest.subrange(0, j - i) =~= line@.subrange(i as int, j as int));
                assert(rest.subrange(j - i, rest.len() as int) =~= line@.subrange(
                    j as int,
                    n as int,
                ));
                assert(tokens.deep_view() =~= before.push(token@));
                let tail = spec_tokens(line@.subrange(j as int, n as int));
                assert(before + (seq![token@] + tail) =~= before.push(token@) + tail);
            }
            i = j;
        }
    }
    proof {
        assert(line@.subrange(n as int, n as int) =~= Seq::<char>::empty());
        assert(tokens.deep_view() + Seq::<Seq<char>>::empty() =~= tokens.deep_view());
    }
    tokens
}

/// Translate one line, appending its contribution to the bytecode; on a
/// malformed line the bytecode is left untouched.
pub fn assemble_line(bytecode: &mut Vec<u8>, line: &str) -> (r: Result<(), TranslateError>)
    ensures
        match spec_assemble_line(line@) {
            Ok(enc) => r is Ok && final(bytecode)@ == old(bytecode)@ + enc,
            Err(e) => r == Err::<(), TranslateError>(e) && final(bytecode)@ == old(bytecode)@,
        },
{
    let parts = tokenize(line);
    if parts.len() == 0 {
        proof {
            assert(old(bytecode)@ + Seq::<u8>::empty() =~= old(bytecode)@);
        }
        return Ok(());
    }
    let op = match Op::from_parts(parts.as_slice()) {
        Ok(op) => op,
        Err(e) => {
            return Err(e);
        },
    };
    let mut enc = op.to_bytecode();
    bytecode.append(&mut enc);
    Ok(())
}

/// Translate a whole source text: every line's contribution in order, or
/// the error of the first malformed line, with no partial bytecode.
pub fn assemble(source: &str) -> (r: Result<Vec<u8>, TranslateError>)
    ensures
        match r {
            Ok(bytecode) => spec_assemble(source@) == Ok::<Seq<u8>, TranslateError>(bytecode@),
            Err(e) => spec_assemble(source@) == Err::<Seq<u8>, TranslateError>(e),
        },
{
    let n = source.unicode_len();
    let mut bytecode: Vec<u8> = Vec::new();
    let mut i: usize = 0;
    proof {
        assert(source@.subrange(0, n as int) =~= source@);
        match spec_assemble(source@) {
            Ok(tail) => {
                assert(bytecode@ + tail =~= tail);
            },
            Err(_) => {},
        }
    }
    while i < n
        invariant
            i <= n,
            n == source@.len(),
            spec_assemble(source@) == with_prefix(
                bytecode@,
                spec_assemble(source@.subrange(i as int, n as int)),
            ),
        decreases n - i,
    {
        let mut j = i;
        while j < n && source.get_char(j) != '\n'
            invariant
                i <= j <= n,
                n == source@.len(),
                forall|k: int| i <= k < j ==> #[trigger] source@[k] != '\n',
            decreases n - j,
        {
            j += 1;
        }
        let line = source.substring_char(i, j);
        let ghost rest = source@.subrange(i as int, n as int);
        let ghost before = bytecode@;
        proof {
            assert(forall|k: int|
                0 <= k < j - i ==> (#[trigger] rest[k] != '\n') == (source@[i + k] != '\n'));
            assert(j < n ==> (rest[j - i] == '\n') == (source@[j as int] == '\n'));
            lemma_line_end_scan(rest, j - i);
            assert(rest.subrange(0, j - i) =~= line@);
            if j < n {
                assert(rest.subrange(j - i + 1, rest.len() as int) =~= source@.subrange(
                    j + 1,
                    n as int,
                ));
            }
        }
        let res = assemble_line(&mut bytecode, line);
        if let Err(e) = res {
            return Err(e);
        }
        proof {
            let rest2 = if j < n {
                source@.subrange(j + 1, n as int)
            } else {
                Seq::<char>::empty()
            };
            assert(source@.subrange(n as int, n as int) =~= Seq::<char>::empty());
            match spec_assemble_line(line@) {
                Ok(enc) => {
                    assert(bytecode@ == before + enc);
                    match spec_assemble(rest2) {
                        Ok(tail) => {
                            assert(before + (enc + tail) =~= (before + enc) + tail);
                        },
                        Err(_) => {},
                    }
                },
                Err(_) => {
                    assert(false);
                },
            }
        }
        if j < n {
            i = j + 1;
        } else {
            i = n;
        }
    }
    proof {
        assert(source@.subrange(n as int, n as int) =~= Seq::<char>::empty());
        assert(bytecode@ + Seq::<u8>::empty() =~= bytecode@);
    }
    Ok(bytecode)
}

/// All-whitespace tokenizes to no tokens at all.
proof fn lemma_tokens_all_space(s: Seq<char>)
    requires
        forall|k: int| 0 <= k < s.len() ==> is_space(#[trigger] s[k]),
    ensures
        spec_tokens(s) == Seq::<Seq<char>>::empty(),
    decreases s.len(),
{
    if s.len() > 0 {
        assert(forall|k: int|
            0 <= k < s.len() - 1 ==> is_space(#[trigger] s.drop_first()[k]) == is_space(s[k + 1]));
        lemma_tokens_all_space(s.drop_first());
    }
}

/// Source of nothing but whitespace assembles to the empty program, and
/// the empty program halts at once with an empty stack and no output.
pub proof fn lemma_blank_source(src: Seq<char>)
    requires
        forall|k: int| 0 <= k < src.len() ==> is_space(#[trigger] src[k]),
    ensures
        spec_assemble(src) == Ok::<Seq<u8>, TranslateError>(Seq::<u8>::empty()),
        run_from(Seq::<u8>::empty(), 0, Seq::<u8>::empty(), Seq::<u8>::empty()) == (
            None::<Fault>,
            0int,
            Seq::<u8>::empty(),
            Seq::<u8>::empty(),
        ),
    decreases src.len(),
{
    if src.len() > 0 {
        lemma_line_end_chars(src);
        let cut = line_end(src);
        let line = src.subrange(0, cut);
        assert(forall|k: int| 0 <= k < line.len() ==> is_space(#[trigger] line[k]));
        lemma_tokens_all_space(line);
        assert(spec_assemble_line(line) == Ok::<Seq<u8>, TranslateError>(Seq::<u8>::empty()));
        let rest = if cut < src.len() {
            src.subrange(cut + 1, src.len() as int)
        } else {
            Seq::<char>::empty()
        };
        assert(forall|k: int| 0 <= k < rest.len() ==> is_space(#[trigger] rest[k]));
        lemma_blank_source(rest);
        assert(Seq::<u8>::empty() + Seq::<u8>::empty() =~= Seq::<u8>::empty());
    }
}

} // verus!
