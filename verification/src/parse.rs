//! Parsing a MAC address string of six colon-separated hexadecimal byte
//! groups, such as `"AA:FF:B0:12:34:56"`, into its six raw bytes.
use vstd::prelude::*;

use crate::ParseError;

verus! {

/// `c` is a hexadecimal digit, in either case.
pub open spec fn is_hex_digit(c: char) -> bool {
    ||| '0' as u32 <= c as u32 <= '9' as u32
    ||| 'a' as u32 <= c as u32 <= 'f' as u32
    ||| 'A' as u32 <= c as u32 <= 'F' as u32
}

/// The numeric value of the hexadecimal digit `c`.
pub open spec fn hex_digit_value(c: char) -> u8
    recommends
        is_hex_digit(c),
{
    if '0' as u32 <= c as u32 <= '9' as u32 {
        (c as u32 - '0' as u32) as u8
    } else if 'a' as u32 <= c as u32 <= 'f' as u32 {
        (c as u32 - 'a' as u32 + 10) as u8
    } else {
        (c as u32 - 'A' as u32 + 10) as u8
    }
}

/// A token names a byte: one or two hexadecimal digits.
pub open spec fn valid_token(t: Seq<char>) -> bool {
    &&& 1 <= t.len() <= 2
    &&& forall|i: int| 0 <= i < t.len() ==> is_hex_digit(#[trigger] t[i])
}

/// The byte a valid token names, most significant digit first.
pub open spec fn token_value(t: Seq<char>) -> u8
    recommends
        valid_token(t),
{
    if t.len() == 1 {
        hex_digit_value(t[0])
    } else {
        (hex_digit_value(t[0]) * 16 + hex_digit_value(t[1])) as u8
    }
}

/// The tokens of `s`, split on `':'` exactly as `str::split` splits: one
/// more token than there are colons, each colon ending the token before it,
/// so empty tokens arise from leading, trailing or doubled colons.
pub open spec fn split_colon(s: Seq<char>) -> Seq<Seq<char>>
    decreases s.len(),
{
    if s.len() == 0 {
        seq![s]
    } else if s[0] == ':' {
        seq![Seq::<char>::empty()] + split_colon(s.skip(1))
    } else {
        let rest = split_colon(s.skip(1));
        seq![seq![s[0]] + rest[0]] + rest.skip(1)
    }
}

/// Splitting yields at least one token, even of the empty string.
pub proof fn lemma_split_colon_nonempty(s: Seq<char>)
    ensures
        split_colon(s).len() >= 1,
    decreases s.len(),
{
    if s.len() != 0 {
        lemma_split_colon_nonempty(s.skip(1));
    }
}

/// Splitting off the first token: if no colon stands before position `j`,
/// then either `j` is the end of the string and the string is its own only
/// token, or a colon stands at `j` and the tokens are the prefix before it
/// followed by the tokens of the suffix after it.
pub proof fn lemma_split_colon_step(s: Seq<char>, j: int)
    requires
        0 <= j <= s.len(),
        forall|k: int| 0 <= k < j ==> s[k] != ':',
    ensures
        j == s.len() ==> split_colon(s) == seq![s],
        j < s.len() && s[j] == ':' ==> split_colon(s) == seq![s.take(j)] + split_colon(
            s.skip(j + 1),
        ),
    decreases j,
{
    if j == 0 {
        if j == s.len() {
            assert(split_colon(s) == seq![s]);
        } else if s[j] == ':' {
            assert(s.take(0) =~= Seq::<char>::empty());
            assert(s.skip(1) =~= s.skip(j + 1));
            assert(split_colon(s) == seq![s.take(j)] + split_colon(s.skip(j + 1)));
        }
    } else {
        let s1 = s.skip(1);
        assert forall|k: int| 0 <= k < j - 1 implies s1[k] != ':' by {
            assert(s1[k] == s[k + 1]);
        }
        lemma_split_colon_step(s1, j - 1);
        lemma_split_colon_nonempty(s1);
        let rest = split_colon(s1);
        if j == s.len() {
            assert(rest == seq![s1]);
            assert(seq![s[0]] + rest[0] =~= s);
            assert(rest.skip(1) =~~= Seq::<Seq<char>>::empty());
            assert(split_colon(s) =~~= seq![s]);
        } else if s[j] == ':' {
            assert(s1[j - 1] == ':');
            assert(rest == seq![s1.take(j - 1)] + split_colon(s1.skip(j)));
            assert(rest[0] == s1.take(j - 1));
            assert(seq![s[0]] + s1.take(j - 1) =~= s.take(j));
            assert(s1.skip(j) =~= s.skip(j + 1));
            assert(rest.skip(1) =~~= split_colon(s.skip(j + 1)));
            assert(split_colon(s) =~~= seq![s.take(j)] + split_colon(s.skip(j + 1)));
        }
    }
}

/// Every token of `toks` is a valid byte token.
pub open spec fn all_tokens_valid(toks: Seq<Seq<char>>) -> bool {
    forall|i: int| 0 <= i < toks.len() ==> valid_token(#[trigger] toks[i])
}

/// The index of the first invalid token of `toks`; `toks.len()` when every
/// token is valid.
pub open spec fn first_invalid_token(toks: Seq<Seq<char>>) -> int
    decreases toks.len(),
{
    if toks.len() == 0 {
        0
    } else if !valid_token(toks[0]) {
        0
    } else {
        1 + first_invalid_token(toks.skip(1))
    }
}

/// When valid tokens are followed by an invalid one, the first invalid
/// token of the whole is exactly that one.
pub proof fn lemma_first_invalid_append(a: Seq<Seq<char>>, b: Seq<Seq<char>>)
    requires
        all_tokens_valid(a),
        b.len() > 0,
        !valid_token(b[0]),
    ensures
        first_invalid_token(a + b) == a.len(),
        (a + b)[a.len() as int] == b[0],
    decreases a.len(),
{
    if a.len() == 0 {
        assert(a + b =~~= b);
    } else {
        assert(valid_token(a[0]));
        assert((a + b)[0] == a[0]);
        let a1 = a.skip(1);
        assert forall|i: int| 0 <= i < a1.len() implies valid_token(#[trigger] a1[i]) by {
            assert(a1[i] == a[i + 1]);
        }
        lemma_first_invalid_append(a1, b);
        assert((a + b).skip(1) =~~= a1 + b);
    }
}

/// The string parses as a MAC address: splitting on `':'` yields exactly
/// six tokens, each a one- or two-digit hexadecimal byte.
pub open spec fn mac_ok(s: Seq<char>) -> bool {
    &&& split_colon(s).len() == 6
    &&& all_tokens_valid(split_colon(s))
}

/// The bytes a MAC address string denotes, token by token.
pub open spec fn mac_bytes(s: Seq<char>) -> Seq<u8> {
    split_colon(s).map_values(|t: Seq<char>| token_value(t))
}

/// Everything [`parse_mac`] promises of its result `r` on the input `s`:
/// success exactly on a well-formed MAC address, whose bytes are then
/// returned in order; otherwise the first invalid token is reported, or,
/// with every token valid, the wrong token count.
pub open spec fn parse_post(s: Seq<char>, r: Result<Vec<u8>, ParseError>) -> bool {
    &&& (r is Ok <==> mac_ok(s))
    &&& (mac_ok(s) ==> (r matches Ok(v) && v@ == mac_bytes(s)))
    &&& (!all_tokens_valid(split_colon(s)) ==> (r matches Err(ParseError::Number(t)) && t@
        == split_colon(s)[first_invalid_token(split_colon(s))]))
    &&& (all_tokens_valid(split_colon(s)) && split_colon(s).len() != 6 ==> r == Err::<
        Vec<u8>,
        ParseError,
    >(ParseError::Length))
}

/// The parser is a pure function of its input: any two results that its
/// contract allows for the same string agree, and in particular two calls
/// on the same valid string yield identical byte sequences.
pub proof fn lemma_parse_mac_deterministic(
    s: Seq<char>,
    r1: Result<Vec<u8>, ParseError>,
    r2: Result<Vec<u8>, ParseError>,
)
    requires
        parse_post(s, r1),
        parse_post(s, r2),
    ensures
        r1 is Ok <==> r2 is Ok,
        r1 is Ok ==> r1->Ok_0@ == r2->Ok_0@,
{
}

/// `c` is a hexadecimal digit, in either case.
fn is_hex_digit_char(c: char) -> (b: bool)
    ensures
        b == is_hex_digit(c),
{
    let u = c as u32;
    (0x30 <= u && u <= 0x39) || (0x61 <= u && u <= 0x66) || (0x41 <= u && u <= 0x46)
}

/// The numeric value of the hexadecimal digit `c`.
fn hex_digit_value_char(c: char) -> (v: u8)
    requires
        is_hex_digit(c),
    ensures
        v == hex_digit_value(c),
        v <= 15,
{
    let u = c as u32;
    if u <= 0x39 {
        (u - 0x30) as u8
    } else if 0x61 <= u {
        (u - 0x61 + 10) as u8
    } else {
        (u - 0x41 + 10) as u8
    }
}

/// Parses the MAC address from a given string.
///
/// The string must hold exactly six tokens separated by `':'`, each a one-
/// or two-digit hexadecimal number, and the six bytes are returned in
/// order. A malformed token is rejected with [`ParseError::Number`]
/// carrying that token; any other token count is rejected with
/// [`ParseError::Length`].
pub fn parse_mac(mac: String) -> (r: Result<Vec<u8>, ParseError>)
    ensures
        parse_post(mac@, r),
{
    let s = mac.as_str();
    let n = s.unicode_len();
    let mut bytes: Vec<u8> = Vec::new();
    let mut pos: usize = 0;
    let ghost mut done: Seq<Seq<char>> = Seq::empty();
    proof {
        assert(mac@.skip(0) =~= mac@);
        assert(done + split_colon(mac@) =~~= split_colon(mac@));
    }
    loop
        invariant_except_break
            split_colon(mac@) == done + split_colon(mac@.skip(pos as int)),
        invariant
            s@ == mac@,
            n == s@.len(),
            pos <= n,
            done.len() == bytes@.len(),
            all_tokens_valid(done),
            forall|i: int| 0 <= i < done.len() ==> bytes@[i] == token_value(#[trigger] done[i]),
        ensures
            split_colon(mac@) == done,
        decreases n - pos,
    {
        let ghost rem = mac@.skip(pos as int);
        let mut j = pos;
        while j < n && s.get_char(j) != ':'
            invariant
                s@ == mac@,
                n == s@.len(),
                pos <= j <= n,
                forall|k: int| pos <= k < j ==> s@[k] != ':',
            decreases n - j,
        {
            j += 1;
        }
        let ghost t = mac@.subrange(pos as int, j as int);
        proof {
            assert forall|k: int| 0 <= k < j - pos implies rem[k] != ':' by {
                assert(rem[k] == mac@[pos + k]);
            }
            lemma_split_colon_step(rem, j - pos);
            if j == n {
                assert(rem =~= t);
                assert(split_colon(rem) == seq![t]);
            } else {
                assert(rem[j - pos] == mac@[j as int]);
                assert(rem.take(j - pos) =~= t);
                assert(rem.skip(j - pos + 1) =~= mac@.skip(j + 1));
                assert(split_colon(rem) == seq![t] + split_colon(mac@.skip(j + 1)));
            }
        }
        let len = j - pos;
        let mut token_ok = 1 <= len && len <= 2;
        let mut value: u8 = 0;
        if token_ok {
            let c0 = s.get_char(pos);
            if is_hex_digit_char(c0) {
                value = hex_digit_value_char(c0);
                if len == 2 {
                    let c1 = s.get_char(pos + 1);
                    if is_hex_digit_char(c1) {
                        value = value * 16 + hex_digit_value_char(c1);
                    } else {
                        token_ok = false;
                    }
                }
            } else {
                token_ok = false;
            }
        }
        if !token_ok {
            proof {
                assert(t.len() == j - pos);
                if 1 <= len && len <= 2 {
                    assert(t[0] == mac@[pos as int]);
                    if len == 2 {
                        assert(t[1] == mac@[pos + 1]);
                    }
                }
                assert(!valid_token(t));
                assert(split_colon(rem)[0] == t);
                lemma_first_invalid_append(done, split_colon(rem));
                assert(split_colon(mac@)[first_invalid_token(split_colon(mac@))] == t);
                assert(!valid_token(split_colon(mac@)[done.len() as int]));
            }
            let token = s.substring_char(pos, j).to_owned();
            return Err(ParseError::Number(token));
        }
        proof {
            assert(valid_token(t));
            assert(value == token_value(t));
        }
        bytes.push(value);
        proof {
            done = done + seq![t];
        }
        if j == n {
            proof {
                assert(split_colon(mac@) =~~= done);
            }
            break ;
        }
        pos = j + 1;
        proof {
            assert(split_colon(mac@) =~~= done + split_colon(mac@.skip(pos as int)));
        }
    }
    if bytes.len() == 6 {
        proof {
            assert(bytes@ =~= mac_bytes(mac@));
        }
        Ok(bytes)
    } else {
        Err(ParseError::Length)
    }
}

} // verus!
