//! Tokenizer: turns expression text into a sequence of lexical tokens.
//!
//! Whitespace is stripped first, so it is never significant, even inside a
//! multi-digit number. Every remaining character must be a decimal digit or
//! one of `+ - / * ( )`; anything else is an invalid-character error. A run
//! of digits becomes one `Number` token; a digit run whose value exceeds the
//! `u32` range is a numeric-overflow error.

use vstd::prelude::*;
use vstd::string::StringExecFns;

verus! {

/// One lexical unit of an arithmetic expression.
#[derive(Debug, Copy, Clone, PartialEq, Eq, Structural)]
pub enum Token {
    Plus,
    Minus,
    Divide,
    Multiply,
    OpenBracket,
    CloseBracket,
    Number(u32),
}

/// How tokenization can fail; the public function reports each case as the
/// message `tokenize_err_msg` gives it.
#[derive(Debug, Copy, Clone, PartialEq, Eq, Structural)]
pub enum TokenizeError {
    /// A non-whitespace character outside the recognized symbol/digit set.
    InvalidCharacter,
    /// A digit run whose value does not fit in `u32`.
    NumericOverflow,
}

pub open spec fn tokenize_err_msg(e: TokenizeError) -> Seq<char> {
    match e {
        TokenizeError::InvalidCharacter => "Invalid input"@,
        TokenizeError::NumericOverflow => "Numeric overflow"@,
    }
}

/// The Unicode `White_Space` characters, the set `char::is_whitespace` accepts.
pub open spec fn is_whitespace_char(c: char) -> bool {
    let u = c as u32;
    u == 0x09 || u == 0x0A || u == 0x0B || u == 0x0C || u == 0x0D || u == 0x20 || u == 0x85
        || u == 0xA0 || u == 0x1680 || (0x2000 <= u && u <= 0x200A) || u == 0x2028 || u == 0x2029
        || u == 0x202F || u == 0x205F || u == 0x3000
}

pub open spec fn is_digit_char(c: char) -> bool {
    '0' as u32 <= c as u32 && c as u32 <= '9' as u32
}

pub open spec fn digit_val(c: char) -> int {
    c as u32 - '0' as u32
}

/// The value of a digit run, most significant digit first.
pub open spec fn digits_val(ds: Seq<char>) -> int
    decreases ds.len(),
{
    if ds.len() == 0 {
        0
    } else {
        digits_val(ds.drop_last()) * 10 + digit_val(ds.last())
    }
}

/// The token a single symbol character stands for, if any.
pub open spec fn symbol_token(c: char) -> Option<Token> {
    if c == '+' {
        Some(Token::Plus)
    } else if c == '-' {
        Some(Token::Minus)
    } else if c == '/' {
        Some(Token::Divide)
    } else if c == '*' {
        Some(Token::Multiply)
    } else if c == '(' {
        Some(Token::OpenBracket)
    } else if c == ')' {
        Some(Token::CloseBracket)
    } else {
        None
    }
}

/// Emits the pending digit accumulator, if any, as a `Number` token.
pub open spec fn spec_flush(ts: Seq<Token>, acc: Seq<char>) -> Result<Seq<Token>, TokenizeError> {
    if acc.len() == 0 {
        Ok(ts)
    } else if digits_val(acc) > u32::MAX {
        Err(TokenizeError::NumericOverflow)
    } else {
        Ok(ts.push(Token::Number(digits_val(acc) as u32)))
    }
}

/// One left-to-right scan over whitespace-free characters: `ts` are the tokens
/// emitted so far and `acc` the digits of a number still being accumulated.
pub open spec fn tok_run(s: Seq<char>, ts: Seq<Token>, acc: Seq<char>) -> Result<
    Seq<Token>,
    TokenizeError,
>
    decreases s.len(),
{
    if s.len() == 0 {
        spec_flush(ts, acc)
    } else {
        let c = s.first();
        if is_digit_char(c) {
            tok_run(s.drop_first(), ts, acc.push(c))
        } else {
            match spec_flush(ts, acc) {
                Err(e) => Err(e),
                Ok(ts2) => match symbol_token(c) {
                    Some(t) => tok_run(s.drop_first(), ts2.push(t), Seq::empty()),
                    None => Err(TokenizeError::InvalidCharacter),
                },
            }
        }
    }
}

pub open spec fn strip_ws(s: Seq<char>) -> Seq<char> {
    s.filter(|c: char| !is_whitespace_char(c))
}

/// What tokenization returns on any input text.
pub open spec fn spec_tokenize(s: Seq<char>) -> Result<Seq<Token>, TokenizeError> {
    tok_run(strip_ws(s), Seq::empty(), Seq::empty())
}

fn is_whitespace(c: char) -> (r: bool)
    ensures
        r == is_whitespace_char(c),
{
    let u = c as u32;
    u == 0x09 || u == 0x0A || u == 0x0B || u == 0x0C || u == 0x0D || u == 0x20 || u == 0x85
        || u == 0xA0 || u == 0x1680 || (0x2000 <= u && u <= 0x200A) || u == 0x2028 || u == 0x2029
        || u == 0x202F || u == 0x205F || u == 0x3000
}

fn is_digit(c: char) -> (r: bool)
    ensures
        r == is_digit_char(c),
{
    let u = c as u32;
    '0' as u32 <= u && u <= '9' as u32
}

/// Returns the characters of `input` with every whitespace character removed.
pub fn remove_whitespaces(input: &str) -> (r: Vec<char>)
    ensures
        r@ == strip_ws(input@),
{
    let n = input.unicode_len();
    let mut out: Vec<char> = Vec::new();
    let mut i: usize = 0;
    while i < n
        invariant
            n == input@.len(),
            i <= n,
            out@ == input@.subrange(0, i as int).filter(|c: char| !is_whitespace_char(c)),
        decreases n - i,
    {
        let c = input.get_char(i);
        proof {
            reveal_with_fuel(Seq::filter, 2);
            assert(input@.subrange(0, i + 1).drop_last() =~= input@.subrange(0, i as int));
            assert(input@.subrange(0, i + 1).last() == c);
        }
        if !is_whitespace(c) {
            out.push(c);
        }
        i += 1;
    }
    proof {
        assert(input@.subrange(0, n as int) =~= input@);
    }
    out
}

proof fn lemma_digits_val_nonneg(ds: Seq<char>)
    requires
        forall|j: int| 0 <= j < ds.len() ==> is_digit_char(ds[j]),
    ensures
        digits_val(ds) >= 0,
    decreases ds.len(),
{
    if ds.len() > 0 {
        lemma_digits_val_nonneg(ds.drop_last());
    }
}

/// The value of a digit run is at least the value of any of its prefixes.
proof fn lemma_digits_val_prefix_le(ds: Seq<char>, i: int)
    requires
        forall|j: int| 0 <= j < ds.len() ==> is_digit_char(ds[j]),
        0 <= i <= ds.len(),
    ensures
        digits_val(ds.subrange(0, i)) <= digits_val(ds),
    decreases ds.len(),
{
    if i == ds.len() {
        assert(ds.subrange(0, i) =~= ds);
    } else {
        assert(ds.drop_last() =~= ds.subrange(0, ds.len() - 1));
        assert(ds.subrange(0, i) =~= ds.drop_last().subrange(0, i));
        lemma_digits_val_prefix_le(ds.drop_last(), i);
        lemma_digits_val_nonneg(ds.drop_last());
    }
}

/// Parses an accumulated digit run as a `u32`; `None` when its value is out
/// of range.
fn parse_digits(acc: &Vec<char>) -> (r: Option<u32>)
    requires
        forall|j: int| 0 <= j < acc@.len() ==> is_digit_char(acc@[j]),
    ensures
        match r {
            Some(v) => v as int == digits_val(acc@),
            None => digits_val(acc@) > u32::MAX,
        },
{
    let mut v: u32 = 0;
    let mut j: usize = 0;
    while j < acc.len()
        invariant
            j <= acc@.len(),
            forall|k: int| 0 <= k < acc@.len() ==> is_digit_char(acc@[k]),
            v as int == digits_val(acc@.subrange(0, j as int)),
        decreases acc@.len() - j,
    {
        let c = acc[j];
        let d: u32 = c as u32 - '0' as u32;
        proof {
            assert(acc@.subrange(0, j + 1).drop_last() =~= acc@.subrange(0, j as int));
            assert(acc@.subrange(0, j + 1).last() == c);
        }
        if v > 429496729 || (v == 429496729 && d > 5) {
            proof {
                lemma_digits_val_prefix_le(acc@, j + 1);
            }
            return None;
        }
        v = v * 10 + d;
        j += 1;
    }
    proof {
        assert(acc@.subrange(0, acc@.len() as int) =~= acc@);
    }
    Some(v)
}

/// Turns expression text into tokens: digits accumulate into `Number` tokens,
/// the six symbol characters become their tokens, whitespace is skipped, and
/// any other character fails the call.
pub fn tokenize_string(input: &str) -> (r: Result<Vec<Token>, String>)
    ensures
        match spec_tokenize(input@) {
            Ok(ts) => r is Ok && r->Ok_0@ == ts,
            Err(e) => r is Err && r->Err_0@ == tokenize_err_msg(e),
        },
{
    let chars = remove_whitespaces(input);
    let ghost s = chars@;
    let mut result: Vec<Token> = Vec::new();
    let mut acc: Vec<char> = Vec::new();
    let mut i: usize = 0;
    proof {
        assert(s.skip(0) =~= s);
    }
    while i < chars.len()
        invariant
            chars@ == s,
            i <= s.len(),
            forall|j: int| 0 <= j < acc@.len() ==> is_digit_char(acc@[j]),
            tok_run(s.skip(i as int), result@, acc@) == spec_tokenize(input@),
        decreases s.len() - i,
    {
        let c = chars[i];
        let ghost acc0 = acc@;
        let ghost result0 = result@;
        proof {
            assert(s.skip(i as int).first() == c);
            assert(s.skip(i as int).drop_first() =~= s.skip(i + 1));
        }
        if is_digit(c) {
            acc.push(c);
            proof {
                assert(tok_run(s.skip(i as int), result0, acc0) == tok_run(
                    s.skip(i + 1),
                    result@,
                    acc@,
                ));
            }
        } else {
            if acc.len() > 0 {
                match parse_digits(&acc) {
                    Some(v) => {
                        result.push(Token::Number(v));
                        acc = Vec::new();
                    },
                    None => {
                        return Err(String::from_str("Numeric overflow"));
                    },
                }
            }
            let t = match c {
                '+' => Token::Plus,
                '-' => Token::Minus,
                '/' => Token::Divide,
                '*' => Token::Multiply,
                '(' => Token::OpenBracket,
                ')' => Token::CloseBracket,
                _ => {
                    return Err(String::from_str("Invalid input"));
                },
            };
            proof {
                assert(symbol_token(c) == Some(t));
            }
            result.push(t);
            proof {
                assert(acc@ =~= Seq::<char>::empty());
                assert(tok_run(s.skip(i as int), result0, acc0) == tok_run(
                    s.skip(i + 1),
                    result@,
                    acc@,
                ));
            }
        }
        i += 1;
    }
    proof {
        assert(s.skip(s.len() as int) =~= Seq::<char>::empty());
    }
    if acc.len() > 0 {
        match parse_digits(&acc) {
            Some(v) => {
                result.push(Token::Number(v));
            },
            None => {
                return Err(String::from_str("Numeric overflow"));
            },
        }
    }
    Ok(result)
}

/// The canonical character for one decimal digit.
pub open spec fn spec_digit_char(d: int) -> char {
    if d == 0 {
        '0'
    } else if d == 1 {
        '1'
    } else if d == 2 {
        '2'
    } else if d == 3 {
        '3'
    } else if d == 4 {
        '4'
    } else if d == 5 {
        '5'
    } else if d == 6 {
        '6'
    } else if d == 7 {
        '7'
    } else if d == 8 {
        '8'
    } else {
        '9'
    }
}

/// The decimal digits of `n`, most significant first, without leading zeros
/// (a single `'0'` for zero).
pub open spec fn spec_digits(n: int) -> Seq<char>
    recommends
        n >= 0,
    decreases n,
{
    if n < 10 {
        seq![spec_digit_char(n)]
    } else {
        spec_digits(n / 10).push(spec_digit_char(n % 10))
    }
}

/// The canonical text of one token.
pub open spec fn spec_render_token(t: Token) -> Seq<char> {
    match t {
        Token::Plus => seq!['+'],
        Token::Minus => seq!['-'],
        Token::Divide => seq!['/'],
        Token::Multiply => seq!['*'],
        Token::OpenBracket => seq!['('],
        Token::CloseBracket => seq![')'],
        Token::Number(n) => spec_digits(n as int),
    }
}

/// The canonical text of a token sequence: each token's text, in order, with
/// no separators.
pub open spec fn spec_render(ts: Seq<Token>) -> Seq<char>
    decreases ts.len(),
{
    if ts.len() == 0 {
        Seq::empty()
    } else {
        spec_render_token(ts.first()) + spec_render(ts.drop_first())
    }
}

pub open spec fn no_adjacent_numbers(ts: Seq<Token>) -> bool {
    forall|i: int|
        0 <= i < ts.len() - 1 ==> !((#[trigger] ts[i]) is Number && ts[i + 1] is Number)
}

/// The digits of a non-negative number: at least one, all decimal digits,
/// and their value is the number itself.
proof fn lemma_spec_digits(n: int)
    requires
        n >= 0,
    ensures
        spec_digits(n).len() >= 1,
        forall|j: int| 0 <= j < spec_digits(n).len() ==> is_digit_char(#[trigger] spec_digits(n)[j]),
        digits_val(spec_digits(n)) == n,
    decreases n,
{
    if n < 10 {
        let ds = spec_digits(n);
        assert(ds =~= seq![spec_digit_char(n)]);
        assert(ds.drop_last() =~= Seq::<char>::empty());
        assert(digits_val(Seq::<char>::empty()) == 0);
        assert(ds.last() == spec_digit_char(n));
        assert(digits_val(ds) == digits_val(ds.drop_last()) * 10 + digit_val(ds.last()));
        assert(digits_val(ds) == digit_val(spec_digit_char(n)));
    } else {
        lemma_spec_digits(n / 10);
        let ds = spec_digits(n / 10);
        let c = spec_digit_char(n % 10);
        assert(spec_digits(n) == ds.push(c));
        assert(ds.push(c).drop_last() =~= ds);
        assert(digits_val(ds.push(c)) == digits_val(ds) * 10 + digit_val(c));
    }
}

fn digit_str(d: u32) -> (r: &'static str)
    requires
        d < 10,
    ensures
        r@ == seq![spec_digit_char(d as int)],
{
    let s: &'static str = match d {
        0 => "0",
        1 => "1",
        2 => "2",
        3 => "3",
        4 => "4",
        5 => "5",
        6 => "6",
        7 => "7",
        8 => "8",
        _ => "9",
    };
    proof {
        reveal_strlit("0");
        reveal_strlit("1");
        reveal_strlit("2");
        reveal_strlit("3");
        reveal_strlit("4");
        reveal_strlit("5");
        reveal_strlit("6");
        reveal_strlit("7");
        reveal_strlit("8");
        reveal_strlit("9");
        assert(s@ =~= seq![spec_digit_char(d as int)]);
    }
    s
}

fn push_number(out: &mut String, n: u32)
    ensures
        final(out)@ == old(out)@ + spec_digits(n as int),
    decreases n,
{
    if n < 10 {
        out.append(digit_str(n));
        proof {
            assert(final(out)@ =~= old(out)@ + spec_digits(n as int));
        }
    } else {
        push_number(out, n / 10);
        out.append(digit_str(n % 10));
        proof {
            assert(spec_digits(n as int) =~= spec_digits(n as int / 10) + seq![
                spec_digit_char(n as int % 10),
            ]);
            assert(final(out)@ =~= old(out)@ + spec_digits(n as int));
        }
    }
}

/// Rendering after one more token appends that token's text.
proof fn lemma_render_snoc(ts: Seq<Token>, t: Token)
    ensures
        spec_render(ts.push(t)) == spec_render(ts) + spec_render_token(t),
    decreases ts.len(),
{
    if ts.len() == 0 {
        assert(ts.push(t).drop_first() =~= Seq::<Token>::empty());
        assert(ts.push(t).first() == t);
        assert(spec_render(ts.push(t)) == spec_render_token(t) + spec_render(
            Seq::<Token>::empty(),
        ));
        assert(spec_render(Seq::<Token>::empty()) == Seq::<char>::empty());
        assert(spec_render(ts.push(t)) =~= spec_render(ts) + spec_render_token(t));
    } else {
        assert(ts.push(t).first() == ts.first());
        assert(ts.push(t).drop_first() =~= ts.drop_first().push(t));
        lemma_render_snoc(ts.drop_first(), t);
        assert(spec_render(ts.push(t)) == spec_render_token(ts.first()) + spec_render(
            ts.drop_first().push(t),
        ));
        assert(spec_render(ts) == spec_render_token(ts.first()) + spec_render(ts.drop_first()));
        assert(spec_render(ts.push(t)) =~= spec_render(ts) + spec_render_token(t));
    }
}

/// Renders tokens back to canonical text (no whitespace, no separators).
pub fn render_tokens(tokens: &Vec<Token>) -> (r: String)
    ensures
        r@ == spec_render(tokens@),
{
    let mut out = String::new();
    let mut i: usize = 0;
    proof {
        assert(tokens@.subrange(0, 0) =~= Seq::<Token>::empty());
    }
    while i < tokens.len()
        invariant
            i <= tokens@.len(),
            out@ == spec_render(tokens@.subrange(0, i as int)),
        decreases tokens@.len() - i,
    {
        let t = tokens[i];
        let ghost out0 = out@;
        match t {
            Token::Plus => out.append("+"),
            Token::Minus => out.append("-"),
            Token::Divide => out.append("/"),
            Token::Multiply => out.append("*"),
            Token::OpenBracket => out.append("("),
            Token::CloseBracket => out.append(")"),
            Token::Number(n) => push_number(&mut out, n),
        }
        proof {
            reveal_strlit("+");
            reveal_strlit("-");
            reveal_strlit("/");
            reveal_strlit("*");
            reveal_strlit("(");
            reveal_strlit(")");
            assert(out@ =~= out0 + spec_render_token(t));
            lemma_render_snoc(tokens@.subrange(0, i as int), t);
            assert(tokens@.subrange(0, i + 1) =~= tokens@.subrange(0, i as int).push(t));
        }
        i += 1;
    }
    proof {
        assert(tokens@.subrange(0, tokens@.len() as int) =~= tokens@);
    }
    out
}

/// A token sequence the tokenizer produced never has two adjacent numbers:
/// adjacent digits would have merged into one number.
proof fn lemma_tok_run_no_adj(s: Seq<char>, ts: Seq<Token>, acc: Seq<char>)
    requires
        no_adjacent_numbers(ts),
        ts.len() > 0 ==> !(ts.last() is Number),
        tok_run(s, ts, acc) is Ok,
    ensures
        no_adjacent_numbers(tok_run(s, ts, acc)->Ok_0),
    decreases s.len(),
{
    if s.len() == 0 {
        let res = tok_run(s, ts, acc)->Ok_0;
        if acc.len() == 0 {
            assert(no_adjacent_numbers(res));
        } else {
            assert(res == ts.push(Token::Number(digits_val(acc) as u32)));
            assert(no_adjacent_numbers(res));
        }
    } else {
        let c = s.first();
        if is_digit_char(c) {
            lemma_tok_run_no_adj(s.drop_first(), ts, acc.push(c));
        } else {
            let ts2 = spec_flush(ts, acc)->Ok_0;
            let t = symbol_token(c)->Some_0;
            assert(no_adjacent_numbers(ts2.push(t)));
            assert(!(ts2.push(t).last() is Number));
            lemma_tok_run_no_adj(s.drop_first(), ts2.push(t), Seq::empty());
        }
    }
}

/// What the tokenizer accepts never holds two adjacent `Number` tokens.
pub proof fn lemma_tokenize_no_adjacent_numbers(s: Seq<char>)
    requires
        spec_tokenize(s) is Ok,
    ensures
        no_adjacent_numbers(spec_tokenize(s)->Ok_0),
{
    lemma_tok_run_no_adj(strip_ws(s), Seq::empty(), Seq::empty());
}

/// Scanning a run of digits only accumulates them.
proof fn lemma_tok_run_digits(ds: Seq<char>, tail: Seq<char>, ts: Seq<Token>, acc: Seq<char>)
    requires
        forall|j: int| 0 <= j < ds.len() ==> is_digit_char(ds[j]),
    ensures
        tok_run(ds + tail, ts, acc) == tok_run(tail, ts, acc + ds),
    decreases ds.len(),
{
    if ds.len() == 0 {
        assert(ds + tail =~= tail);
        assert(acc + ds =~= acc);
    } else {
        let c = ds.first();
        assert((ds + tail).first() == c);
        assert((ds + tail).drop_first() =~= ds.drop_first() + tail);
        lemma_tok_run_digits(ds.drop_first(), tail, ts, acc.push(c));
        assert(acc.push(c) + ds.drop_first() =~= acc + ds);
    }
}

/// No character a token renders to is whitespace.
proof fn lemma_render_not_ws(ts: Seq<Token>)
    ensures
        forall|j: int|
            0 <= j < spec_render(ts).len() ==> !is_whitespace_char(#[trigger] spec_render(ts)[j]),
    decreases ts.len(),
{
    if ts.len() > 0 {
        lemma_render_not_ws(ts.drop_first());
        let t = ts.first();
        if t is Number {
            lemma_spec_digits(t->Number_0 as int);
        }
        let a = spec_render_token(t);
        let b = spec_render(ts.drop_first());
        assert(forall|j: int| 0 <= j < a.len() ==> !is_whitespace_char(#[trigger] a[j]));
        assert(spec_render(ts) == a + b);
        assert forall|j: int| 0 <= j < spec_render(ts).len() implies !is_whitespace_char(
            #[trigger] spec_render(ts)[j],
        ) by {
            if j < a.len() {
                assert(spec_render(ts)[j] == a[j]);
            } else {
                assert(spec_render(ts)[j] == b[j - a.len()]);
            }
        }
    }
}

/// Tokenizing the canonical text of tokens without adjacent numbers gives
/// back exactly those tokens, appended to what was already emitted.
proof fn lemma_render_run(ts: Seq<Token>, done: Seq<Token>)
    requires
        no_adjacent_numbers(ts),
    ensures
        tok_run(spec_render(ts), done, Seq::empty()) == Ok::<Seq<Token>, TokenizeError>(done + ts),
    decreases ts.len(),
{
    if ts.len() == 0 {
        assert(done + ts =~= done);
    } else {
        let t = ts.first();
        let rest = spec_render(ts.drop_first());
        if t is Number {
            let n = t->Number_0;
            let ds = spec_digits(n as int);
            lemma_spec_digits(n as int);
            lemma_tok_run_digits(ds, rest, done, Seq::empty());
            assert(Seq::<char>::empty() + ds =~= ds);
            if ts.len() == 1 {
                assert(ts.drop_first() =~= Seq::<Token>::empty());
                assert(tok_run(rest, done, ds) == spec_flush(done, ds));
                assert(spec_flush(done, ds) == Ok::<Seq<Token>, TokenizeError>(
                    done.push(Token::Number(n)),
                ));
                assert(done.push(Token::Number(n)) =~= done + ts);
            } else {
                let t2 = ts.drop_first().first();
                assert(t2 == ts[1]);
                assert(!(t2 is Number));
                assert(spec_render_token(t2).len() == 1);
                let c2 = spec_render_token(t2)[0];
                assert(symbol_token(c2) == Some(t2));
                assert(!is_digit_char(c2));
                let rest2 = spec_render(ts.drop_first().drop_first());
                assert(rest =~= spec_render_token(t2) + rest2);
                assert(rest.first() == c2);
                assert(rest.drop_first() =~= rest2);
                assert(spec_flush(done, ds) == Ok::<Seq<Token>, TokenizeError>(
                    done.push(Token::Number(n)),
                ));
                assert(no_adjacent_numbers(ts.drop_first().drop_first()));
                lemma_render_run(ts.drop_first().drop_first(), done.push(Token::Number(n)).push(t2));
                assert(done.push(Token::Number(n)).push(t2) + ts.drop_first().drop_first() =~= done
                    + ts);
            }
        } else {
            assert(spec_render_token(t).len() == 1);
            let c = spec_render_token(t)[0];
            assert(symbol_token(c) == Some(t));
            assert(!is_digit_char(c));
            assert(spec_render(ts).first() == c);
            assert(spec_render(ts).drop_first() =~= rest);
            assert(spec_flush(done, Seq::empty()) == Ok::<Seq<Token>, TokenizeError>(done));
            assert(no_adjacent_numbers(ts.drop_first()));
            lemma_render_run(ts.drop_first(), done.push(t));
            assert(done.push(t) + ts.drop_first() =~= done + ts);
        }
    }
}

proof fn lemma_strip_ws_identity(s: Seq<char>)
    requires
        forall|j: int| 0 <= j < s.len() ==> !is_whitespace_char(s[j]),
    ensures
        strip_ws(s) == s,
    decreases s.len(),
{
    reveal_with_fuel(Seq::filter, 2);
    if s.len() == 0 {
        assert(strip_ws(s) =~= s);
    } else {
        assert(forall|j: int| 0 <= j < s.drop_last().len() ==> !is_whitespace_char(
            s.drop_last()[j],
        ));
        lemma_strip_ws_identity(s.drop_last());
        assert(strip_ws(s) =~= s);
    }
}

/// Tokenizing, rendering the tokens to canonical text, and tokenizing again
/// yields the same token sequence: tokenization is idempotent modulo
/// whitespace and canonical spelling.
pub proof fn lemma_tokenize_render_round_trip(s: Seq<char>)
    requires
        spec_tokenize(s) is Ok,
    ensures
        spec_tokenize(spec_render(spec_tokenize(s)->Ok_0)) == spec_tokenize(s),
{
    let ts = spec_tokenize(s)->Ok_0;
    lemma_tokenize_no_adjacent_numbers(s);
    lemma_render_not_ws(ts);
    lemma_strip_ws_identity(spec_render(ts));
    lemma_render_run(ts, Seq::empty());
    assert(Seq::<Token>::empty() + ts =~= ts);
}

} // verus!
