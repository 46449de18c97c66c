//! The statement parser: turns one line of input into a typed operation.
//!
//! A line whose first six characters are `insert` must carry an id and two
//! text fields, whitespace-separated; the id must parse as a 32-bit unsigned
//! integer and each field must fit its slot measured in UTF-8 bytes. The
//! line `select` alone is the scan operation. Meta commands (the `.exit`
//! line) are classified separately.

use crate::row::{Row, RowView, EMAIL_SIZE, USERNAME_SIZE};
use crate::InputBuffer;
use vstd::prelude::*;
use vstd::string::StrSliceExecFns;
use vstd::utf8::encode_utf8;

verus! {

/// The outcome of dispatching a meta command.
#[derive(PartialEq, Eq, Structural)]
pub enum MetaCommandResult {
    CommandSuccess,
    CommandUnrecognizedCommand,
}

/// The outcome of preparing a statement from a line of input.
#[derive(PartialEq, Eq, Structural)]
pub enum PrepareResult {
    Success,
    UnrecognizedStatement,
    SyntaxError,
}

/// The two operations.
#[derive(PartialEq, Eq, Structural)]
pub enum StatementType {
    Insert,
    Select,
}

/// A parsed statement: the operation and, for an insert, its row payload.
pub struct Statement {
    pub stype: StatementType,
    pub row_to_insert: Row,
}

/// Unicode whitespace, the separator between tokens.
pub open spec fn is_ws_char(c: char) -> bool {
    let u = c as u32;
    ||| u == 0x9
    ||| u == 0xA
    ||| u == 0xB
    ||| u == 0xC
    ||| u == 0xD
    ||| u == 0x20
    ||| u == 0x85
    ||| u == 0xA0
    ||| u == 0x1680
    ||| (0x2000 <= u && u <= 0x200A)
    ||| u == 0x2028
    ||| u == 0x2029
    ||| u == 0x202F
    ||| u == 0x205F
    ||| u == 0x3000
}

/// Decide [`is_ws_char`].
fn is_ws(c: char) -> (r: bool)
    ensures
        r == is_ws_char(c),
{
    let u = c as u32;
    u == 0x9 || u == 0xA || u == 0xB || u == 0xC || u == 0xD || u == 0x20 || u == 0x85 || u == 0xA0
        || u == 0x1680 || (0x2000 <= u && u <= 0x200A) || u == 0x2028 || u == 0x2029 || u == 0x202F
        || u == 0x205F || u == 0x3000
}

/// The longest whitespace-free prefix of a line.
pub open spec fn leading_token(s: Seq<char>) -> Seq<char>
    decreases s.len(),
{
    if s.len() == 0 || is_ws_char(s[0]) {
        Seq::empty()
    } else {
        seq![s[0]] + leading_token(s.drop_first())
    }
}

/// The leading token is never longer than the line, and never empty when
/// the line starts with a non-whitespace character.
proof fn lemma_leading_token_len(s: Seq<char>)
    ensures
        leading_token(s).len() <= s.len(),
        s.len() > 0 && !is_ws_char(s[0]) ==> leading_token(s).len() >= 1,
    decreases s.len(),
{
    if s.len() > 0 && !is_ws_char(s[0]) {
        lemma_leading_token_len(s.drop_first());
    }
}

/// The whitespace-separated tokens of a line, in order.
pub open spec fn tokens_of(s: Seq<char>) -> Seq<Seq<char>>
    decreases s.len(),
    via tokens_of_decreases
{
    if s.len() == 0 {
        Seq::empty()
    } else if is_ws_char(s[0]) {
        tokens_of(s.drop_first())
    } else {
        let t = leading_token(s);
        seq![t] + tokens_of(s.skip(t.len() as int))
    }
}

#[via_fn]
proof fn tokens_of_decreases(s: Seq<char>) {
    if s.len() != 0 && !is_ws_char(s[0]) {
        lemma_leading_token_len(s);
    }
}

/// A run of non-whitespace characters up to the line's end or the next
/// whitespace is exactly the leading token.
proof fn lemma_token_run(s: Seq<char>, k: int)
    requires
        0 <= k <= s.len(),
        forall|i: int| 0 <= i < k ==> !is_ws_char(#[trigger] s[i]),
        k == s.len() || is_ws_char(s[k]),
    ensures
        leading_token(s) == s.take(k),
    decreases k,
{
    if k == 0 {
        assert(leading_token(s) =~= s.take(0));
    } else {
        assert(!is_ws_char(s[0]));
        lemma_token_run(s.drop_first(), k - 1);
        assert(leading_token(s) =~= s.take(k));
    }
}

/// Skipping one whitespace character changes no token.
proof fn lemma_tokens_ws_step(s: Seq<char>, i: int)
    requires
        0 <= i < s.len(),
        is_ws_char(s[i]),
    ensures
        tokens_of(s.skip(i)) == tokens_of(s.skip(i + 1)),
{
    assert(s.skip(i)[0] == s[i]);
    assert(s.skip(i).drop_first() =~= s.skip(i + 1));
}

/// A token run starting at `i` contributes exactly one token, and scanning
/// resumes past it.
proof fn lemma_tokens_token_step(s: Seq<char>, i: int, k: int)
    requires
        0 <= i < k <= s.len(),
        forall|j: int| i <= j < k ==> !is_ws_char(#[trigger] s[j]),
        k == s.len() || is_ws_char(s[k]),
    ensures
        tokens_of(s.skip(i)) == seq![s.subrange(i, k)] + tokens_of(s.skip(k)),
{
    let sub = s.skip(i);
    assert(forall|j: int| 0 <= j < k - i ==> !is_ws_char(#[trigger] sub[j]));
    assert(k - i == sub.len() || is_ws_char(sub[k - i]));
    lemma_token_run(sub, k - i);
    assert(sub.take(k - i) =~= s.subrange(i, k));
    assert(!is_ws_char(sub[0]));
    assert(sub.skip(k - i) =~= s.skip(k));
    assert(tokens_of(s.skip(i)) == seq![s.subrange(i, k)] + tokens_of(s.skip(k)));
}

/// The token each range of character positions selects.
pub open spec fn range_tokens(s: Seq<char>, rs: Seq<(usize, usize)>) -> Seq<Seq<char>> {
    rs.map_values(|r: (usize, usize)| s.subrange(r.0 as int, r.1 as int))
}

/// Split a line into its whitespace-separated tokens, each returned as a
/// half-open range of character positions.
fn tokenize(chars: &Vec<char>) -> (toks: Vec<(usize, usize)>)
    ensures
        range_tokens(chars@, toks@) == tokens_of(chars@),
        forall|k: int|
            0 <= k < toks@.len() ==> (#[trigger] toks@[k]).0 <= toks@[k].1 && toks@[k].1
                <= chars@.len(),
{
    let n = chars.len();
    let mut toks: Vec<(usize, usize)> = Vec::new();
    let mut i: usize = 0;
    proof {
        assert(chars@.skip(0) =~= chars@);
        assert(range_tokens(chars@, toks@) =~= Seq::<Seq<char>>::empty());
    }
    while i < n
        invariant
            i <= n,
            n == chars@.len(),
            range_tokens(chars@, toks@) + tokens_of(chars@.skip(i as int)) == tokens_of(chars@),
            forall|k: int|
                0 <= k < toks@.len() ==> (#[trigger] toks@[k]).0 <= toks@[k].1 && toks@[k].1
                    <= chars@.len(),
        decreases n - i,
    {
        if is_ws(chars[i]) {
            proof {
                lemma_tokens_ws_step(chars@, i as int);
            }
            i = i + 1;
        } else {
            let start = i;
            let mut j = i + 1;
            while j < n && !is_ws(chars[j])
                invariant
                    start < j <= n,
                    n == chars@.len(),
                    forall|m: int| start <= m < j ==> !is_ws_char(#[trigger] chars@[m]),
                decreases n - j,
            {
                j = j + 1;
            }
            proof {
                lemma_tokens_token_step(chars@, start as int, j as int);
                assert(range_tokens(chars@, toks@.push((start, j))) =~= range_tokens(
                    chars@,
                    toks@,
                ).push(chars@.subrange(start as int, j as int)));
                assert(range_tokens(chars@, toks@.push((start, j))) + tokens_of(
                    chars@.skip(j as int),
                ) =~= range_tokens(chars@, toks@) + tokens_of(chars@.skip(start as int)));
            }
            toks.push((start, j));
            i = j;
        }
    }
    proof {
        assert(chars@.skip(n as int) =~= Seq::<char>::empty());
        assert(tokens_of(Seq::<char>::empty()) == Seq::<Seq<char>>::empty());
        assert(range_tokens(chars@, toks@) =~= tokens_of(chars@));
    }
    toks
}

/// A decimal digit.
pub open spec fn is_digit_char(c: char) -> bool {
    0x30 <= c as u32 <= 0x39
}

/// Every character is a decimal digit.
pub open spec fn all_digits(s: Seq<char>) -> bool {
    forall|i: int| 0 <= i < s.len() ==> is_digit_char(#[trigger] s[i])
}

/// The value of a decimal digit string.
pub open spec fn dec_val(s: Seq<char>) -> nat
    decreases s.len(),
{
    if s.len() == 0 {
        0
    } else {
        dec_val(s.drop_last()) * 10 + (s.last() as u32 - 0x30) as nat
    }
}

/// What parsing an id accepts: an optional leading `+`, then at least one
/// decimal digit, with a value that fits in 32 bits.
pub open spec fn spec_parse_u32(s: Seq<char>) -> Option<u32> {
    let digits = if s.len() >= 1 && s[0] == '+' {
        s.drop_first()
    } else {
        s
    };
    if digits.len() >= 1 && all_digits(digits) && dec_val(digits) <= u32::MAX {
        Some(dec_val(digits) as u32)
    } else {
        None
    }
}

/// A digit string is worth at least any of its prefixes.
proof fn lemma_dec_val_prefix(t: Seq<char>, m: int)
    requires
        0 <= m <= t.len(),
    ensures
        dec_val(t) >= dec_val(t.take(m)),
    decreases t.len() - m,
{
    if m == t.len() {
        assert(t.take(m) =~= t);
    } else {
        assert(t.take(m + 1).drop_last() =~= t.take(m));
        assert(dec_val(t.take(m + 1)) == dec_val(t.take(m)) * 10 + (t.take(m + 1).last() as u32
            - 0x30) as nat);
        assert(dec_val(t.take(m + 1)) >= dec_val(t.take(m))) by (nonlinear_arith)
            requires
                dec_val(t.take(m + 1)) == dec_val(t.take(m)) * 10 + (t.take(m + 1).last() as u32
                    - 0x30) as nat,
        ;
        lemma_dec_val_prefix(t, m + 1);
    }
}

/// Parse the characters in `[start, end)` as a 32-bit unsigned integer.
fn parse_u32_chars(chars: &Vec<char>, start: usize, end: usize) -> (r: Option<u32>)
    requires
        start <= end <= chars@.len(),
    ensures
        r == spec_parse_u32(chars@.subrange(start as int, end as int)),
{
    let ghost sub = chars@.subrange(start as int, end as int);
    let mut dstart = start;
    if start < end && chars[start] == '+' {
        dstart = start + 1;
    }
    let ghost digits = chars@.subrange(dstart as int, end as int);
    proof {
        assert(sub.len() == end - start);
        if start < end {
            assert(sub[0] == chars@[start as int]);
        }
        if start < end && chars@[start as int] == '+' {
            assert(digits =~= sub.drop_first());
        } else {
            assert(digits =~= sub);
        }
    }
    if dstart == end {
        return None;
    }
    let mut acc: u32 = 0;
    let mut k = dstart;
    proof {
        assert(digits.take(0) =~= Seq::<char>::empty());
    }
    while k < end
        invariant
            dstart <= k <= end,
            start <= dstart,
            end <= chars@.len(),
            sub == chars@.subrange(start as int, end as int),
            digits == (if sub.len() >= 1 && sub[0] == '+' {
                sub.drop_first()
            } else {
                sub
            }),
            digits == chars@.subrange(dstart as int, end as int),
            digits.len() == end - dstart,
            forall|m: int| 0 <= m < k - dstart ==> is_digit_char(#[trigger] digits[m]),
            acc == dec_val(digits.take(k - dstart)),
        decreases end - k,
    {
        let c = chars[k];
        let u = c as u32;
        let ghost m = k - dstart;
        proof {
            assert(digits[m as int] == chars@[k as int]);
        }
        if u < 0x30 || u > 0x39 {
            assert(!all_digits(digits));
            return None;
        }
        let d = u - 0x30;
        proof {
            assert(digits.take(m + 1).drop_last() =~= digits.take(m as int));
            assert(digits.take(m + 1).last() == digits[m as int]);
            assert(dec_val(digits.take(m + 1)) == dec_val(digits.take(m as int)) * 10 + (
            digits[m as int] as u32 - 0x30) as nat);
            assert(digits[m as int] as u32 == u);
            assert((digits[m as int] as u32 - 0x30) as nat == d as nat);
        }
        if acc > (u32::MAX - d) / 10 {
            proof {
                assert(acc * 10 + d > u32::MAX) by (nonlinear_arith)
                    requires
                        acc > (0xFFFFFFFFu32 - d) / 10 && 0 <= d <= 9 && acc >= 0,
                ;
                assert(dec_val(digits.take(m + 1)) > u32::MAX);
                lemma_dec_val_prefix(digits, m + 1);
                assert(dec_val(digits) > u32::MAX);
            }
            return None;
        }
        proof {
            assert(acc * 10 + d <= u32::MAX) by (nonlinear_arith)
                requires
                    acc <= (0xFFFFFFFFu32 - d) / 10 && 0 <= d <= 9 && acc >= 0,
            ;
        }
        acc = acc * 10 + d;
        k = k + 1;
    }
    proof {
        assert(digits.take(end - dstart) =~= digits);
        assert(all_digits(digits));
    }
    Some(acc)
}

/// The characters of a string, in order.
fn str_to_chars(s: &str) -> (v: Vec<char>)
    ensures
        v@ == s@,
{
    let n = s.unicode_len();
    let mut v: Vec<char> = Vec::new();
    let mut i: usize = 0;
    while i < n
        invariant
            i <= n,
            n == s@.len(),
            v@ == s@.subrange(0, i as int),
        decreases n - i,
    {
        v.push(s.get_char(i));
        i = i + 1;
        assert(v@ =~= s@.subrange(0, i as int));
    }
    assert(v@ =~= s@);
    v
}

/// Whether the line's first six characters spell the insert keyword.
pub open spec fn is_insert_line(s: Seq<char>) -> bool {
    s.len() >= 6 && s.subrange(0, 6) == "insert"@
}

/// What preparing a line yields: an insert line succeeds when it has at
/// least three arguments, the text fields fit their slots in UTF-8 bytes,
/// and the id parses; the bare `select` line succeeds; anything else is
/// unrecognized.
pub open spec fn spec_prepare(s: Seq<char>) -> PrepareResult {
    if is_insert_line(s) {
        let toks = tokens_of(s);
        if toks.len() < 4 {
            PrepareResult::SyntaxError
        } else if encode_utf8(toks[2]).len() > USERNAME_SIZE || encode_utf8(toks[3]).len()
            > EMAIL_SIZE {
            PrepareResult::SyntaxError
        } else if spec_parse_u32(toks[1]) is None {
            PrepareResult::SyntaxError
        } else {
            PrepareResult::Success
        }
    } else if s == "select"@ {
        PrepareResult::Success
    } else {
        PrepareResult::UnrecognizedStatement
    }
}

/// Classify a meta command line: `.exit` is the one recognized command (the
/// caller terminates on it); anything else is unrecognized.
pub fn do_meta_command(input_buffer: &InputBuffer) -> (r: MetaCommandResult)
    ensures
        r == (if input_buffer.buffer@ == ".exit"@ {
            MetaCommandResult::CommandSuccess
        } else {
            MetaCommandResult::CommandUnrecognizedCommand
        }),
{
    proof {
        reveal_strlit(".exit");
    }
    let chars = str_to_chars(input_buffer.buffer.as_str());
    if chars.len() == 5 && chars[0] == '.' && chars[1] == 'e' && chars[2] == 'x' && chars[3] == 'i'
        && chars[4] == 't' {
        assert(input_buffer.buffer@ =~= ".exit"@);
        MetaCommandResult::CommandSuccess
    } else {
        assert(input_buffer.buffer@ != ".exit"@);
        MetaCommandResult::CommandUnrecognizedCommand
    }
}

impl Statement {
    /// A fresh statement: a select with an empty payload.
    pub fn new() -> (r: Self)
        ensures
            r.stype is Select,
            r.row_to_insert@.id == 0,
            r.row_to_insert@.username == Seq::<char>::empty(),
            r.row_to_insert@.email == Seq::<char>::empty(),
    {
        Self { stype: StatementType::Select, row_to_insert: Row::new() }
    }

    /// Parse one line of input into this statement. On a successful insert
    /// line the payload carries the parsed id and the two text fields,
    /// exactly as tokenized; otherwise the payload is untouched.
    pub fn prepare_statement(&mut self, input_buffer: &InputBuffer) -> (r: PrepareResult)
        ensures
            r == spec_prepare(input_buffer.buffer@),
            final(self).stype == (if is_insert_line(input_buffer.buffer@) {
                StatementType::Insert
            } else if input_buffer.buffer@ == "select"@ {
                StatementType::Select
            } else {
                old(self).stype
            }),
            (is_insert_line(input_buffer.buffer@) && r == PrepareResult::Success)
                ==> final(self).row_to_insert@ == (RowView {
                id: spec_parse_u32(tokens_of(input_buffer.buffer@)[1])->Some_0,
                username: tokens_of(input_buffer.buffer@)[2],
                email: tokens_of(input_buffer.buffer@)[3],
            }),
            !(is_insert_line(input_buffer.buffer@) && r == PrepareResult::Success)
                ==> final(self).row_to_insert == old(self).row_to_insert,
    {
        let line: &str = input_buffer.buffer.as_str();
        let chars = str_to_chars(line);
        proof {
            reveal_strlit("insert");
        }
        let mut starts_insert = false;
        if chars.len() >= 6 {
            if chars[0] == 'i' && chars[1] == 'n' && chars[2] == 's' && chars[3] == 'e' && chars[4]
                == 'r' && chars[5] == 't' {
                starts_insert = true;
                assert(chars@.subrange(0, 6) =~= "insert"@);
            } else {
                proof {
                    if is_insert_line(chars@) {
                        let pre = chars@.subrange(0, 6);
                        assert(pre[0] == 'i' && pre[1] == 'n' && pre[2] == 's' && pre[3] == 'e'
                            && pre[4] == 'r' && pre[5] == 't');
                        assert(chars@[0] == 'i' && chars@[1] == 'n' && chars@[2] == 's' && chars@[3]
                            == 'e' && chars@[4] == 'r' && chars@[5] == 't');
                    }
                }
            }
        }
        assert(starts_insert == is_insert_line(input_buffer.buffer@));
        if starts_insert {
            self.stype = StatementType::Insert;
            let toks = tokenize(&chars);
            if toks.len() < 4 {
                return PrepareResult::SyntaxError;
            }
            let t2 = toks[2];
            let username_s: &str = line.substring_char(t2.0, t2.1);
            assert(username_s@ == tokens_of(chars@)[2]);
            if username_s.as_bytes().len() > USERNAME_SIZE {
                return PrepareResult::SyntaxError;
            }
            let t3 = toks[3];
            let email_s: &str = line.substring_char(t3.0, t3.1);
            assert(email_s@ == tokens_of(chars@)[3]);
            if email_s.as_bytes().len() > EMAIL_SIZE {
                return PrepareResult::SyntaxError;
            }
            let t1 = toks[1];
            let id = match parse_u32_chars(&chars, t1.0, t1.1) {
                Some(v) => v,
                None => {
                    assert(chars@.subrange(t1.0 as int, t1.1 as int) == tokens_of(chars@)[1]);
                    return PrepareResult::SyntaxError;
                },
            };
            assert(chars@.subrange(t1.0 as int, t1.1 as int) == tokens_of(chars@)[1]);
            self.row_to_insert = Row {
                id,
                username: username_s.to_owned(),
                email: email_s.to_owned(),
            };
            return PrepareResult::Success;
        }
        proof {
            reveal_strlit("select");
        }
        let mut is_select = false;
        if chars.len() == 6 {
            if chars[0] == 's' && chars[1] == 'e' && chars[2] == 'l' && chars[3] == 'e' && chars[4]
                == 'c' && chars[5] == 't' {
                is_select = true;
                assert(chars@ =~= "select"@);
            }
        }
        proof {
            if !is_select && chars@ == "select"@ {
                assert(chars@[0] == 's' && chars@[1] == 'e' && chars@[2] == 'l' && chars@[3] == 'e'
                    && chars@[4] == 'c' && chars@[5] == 't');
                assert(false);
            }
        }
        if is_select {
            self.stype = StatementType::Select;
            return PrepareResult::Success;
        }
        assert(chars@ != "select"@);
        PrepareResult::UnrecognizedStatement
    }
}

} // verus!
